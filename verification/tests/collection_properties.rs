use pagestore::collection::{Collection, CollectionError};
use pagestore::collection_file::{CollectionFile, CollectionFileError};
use pagestore::collection_page::{CollectionPage, CollectionPageError};
use pagestore::document::{Document, HasId};
use pagestore::CollectionConfig;

// A configuration whose data budget holds exactly two documents with
// four payload bytes each: 2 * (16 + 4) = 40 <= 48, but not three.
fn small_config() -> CollectionConfig {
    CollectionConfig::new(128, 48).unwrap()
}

fn doc(id: u64, content: &[u8]) -> Document {
    Document { id, content: content.to_vec() }
}

#[test]
fn page_round_trip_through_store() {
    let config = CollectionConfig::default();
    let mut store = CollectionFile::new(Vec::new(), config).unwrap();

    let mut page = CollectionPage::new(0, config.data_budget);
    page.insert_document(doc(7, b"payload")).unwrap();
    page.insert_document(doc(9, &[0, 1, 2, 255])).unwrap();

    store.write_page(&page).unwrap();
    let read_back = store.read_page(0).unwrap();

    assert_eq!(page, read_back);
}

#[test]
fn page_header_round_trip_through_store() {
    let config = CollectionConfig::default();
    let mut store = CollectionFile::new(Vec::new(), config).unwrap();

    let mut page = CollectionPage::new(0, config.data_budget);
    page.insert_document(doc(7, b"payload")).unwrap();
    store.write_page(&page).unwrap();

    let header = store.read_page_header(0).unwrap();
    assert_eq!(header.number_of_documents(), 1);
    assert_eq!(header.space_available(), config.data_budget - 16 - 7);
}

#[test]
fn duplicate_insert_rejected_and_state_kept() {
    let mut collection = Collection::new(Vec::new(), small_config()).unwrap();
    collection.insert_one(&doc(5, b"one")).unwrap();

    let second = collection.insert_one(&doc(5, b"two"));
    assert!(matches!(second, Err(CollectionError::DuplicateError)));

    assert_eq!(collection.find_by_id(5).unwrap(), doc(5, b"one"));
    assert_eq!(collection.find_by(|_| true), vec![doc(5, b"one")]);
}

#[test]
fn oversize_insert_rejected_whatever_the_occupancy() {
    let mut collection = Collection::new(Vec::new(), small_config()).unwrap();

    // 16 + 33 = 49 bytes exceeds the 48-byte budget on an empty store
    let oversize = doc(1, &[7u8; 33]);
    assert!(matches!(
        collection.insert_one(&oversize),
        Err(CollectionError::DocumentTooBig)
    ));

    // and just as much once pages hold documents
    collection.insert_one(&doc(2, b"abcd")).unwrap();
    assert!(matches!(
        collection.insert_one(&oversize),
        Err(CollectionError::DocumentTooBig)
    ));
    assert_eq!(collection.find_by_id(1), None);
}

#[test]
fn update_in_place_keeps_page_and_shows_new_content() {
    let mut collection = Collection::new(Vec::new(), small_config()).unwrap();
    collection.insert_one(&doc(1, b"lol")).unwrap();
    collection.insert_one(&doc(2, b"xyz")).unwrap();

    collection.update_one(&doc(1, b"mdr")).unwrap();

    assert_eq!(collection.find_by_id(1).unwrap(), doc(1, b"mdr"));
    // both documents still sit on page 0, in insertion order
    let store = CollectionFile::new(collection.file_image(), small_config()).unwrap();
    let page0 = store.read_page(0).unwrap();
    assert_eq!(page0.documents(), &vec![doc(1, b"mdr"), doc(2, b"xyz")]);
    assert_eq!(store.number_of_pages(), 1);
}

#[test]
fn update_overflow_relocates_document() {
    let mut collection = Collection::new(Vec::new(), small_config()).unwrap();
    collection.insert_one(&doc(0, b"aaaa")).unwrap();
    collection.insert_one(&doc(1, b"bbbb")).unwrap();

    // 16 + 13 = 29 bytes no longer fit page 0 (8 free + 20 reclaimed)
    let grown = doc(0, b"ddddddddddddd");
    collection.update_one(&grown).unwrap();

    assert_eq!(collection.find_by_id(0).unwrap(), grown);
    assert_eq!(collection.find_by_id(1).unwrap(), doc(1, b"bbbb"));

    // the old copy is gone from page 0; the new one sits on page 1
    let store = CollectionFile::new(collection.file_image(), small_config()).unwrap();
    let page0 = store.read_page(0).unwrap();
    let page1 = store.read_page(1).unwrap();
    assert_eq!(page0.documents(), &vec![doc(1, b"bbbb")]);
    assert_eq!(page1.documents(), &vec![grown]);
}

#[test]
fn update_missing_document_not_found() {
    let mut collection = Collection::new(Vec::new(), small_config()).unwrap();
    assert!(matches!(
        collection.update_one(&doc(3, b"zz")),
        Err(CollectionError::NotFoundError)
    ));
}

#[test]
fn update_to_oversize_fails_and_drops_document() {
    let mut collection = Collection::new(Vec::new(), small_config()).unwrap();
    collection.insert_one(&doc(4, b"abcd")).unwrap();

    // 16 + 40 = 56 bytes exceed the budget: the in-place attempt
    // overflows, the old copy is removed, and the reinsert fails
    let result = collection.update_one(&doc(4, &[1u8; 40]));
    assert!(matches!(result, Err(CollectionError::DocumentTooBig)));
    assert_eq!(collection.find_by_id(4), None);
}

#[test]
fn predicate_scan_returns_matches_in_page_order() {
    let mut collection = Collection::new(Vec::new(), small_config()).unwrap();
    for id in 0..6u64 {
        collection.insert_one(&doc(id, b"dddd")).unwrap();
    }

    let odd = collection.find_by(|d| d.id() % 2 == 1);
    assert_eq!(odd, vec![doc(1, b"dddd"), doc(3, b"dddd"), doc(5, b"dddd")]);
    assert_eq!(collection.find_by(|d| d.id() > 100), Vec::<Document>::new());
}

#[test]
fn reopening_from_the_same_file_reproduces_the_collection() {
    let mut collection = Collection::new(Vec::new(), small_config()).unwrap();
    for id in 0..5u64 {
        collection.insert_one(&doc(id, b"some")).unwrap();
    }
    let image = collection.file_image();

    let reopened = Collection::new(image.clone(), small_config()).unwrap();
    assert_eq!(
        collection.find_by(|_| true),
        reopened.find_by(|_| true)
    );
    for id in 0..5u64 {
        assert_eq!(collection.find_by_id(id), reopened.find_by_id(id));
    }
    assert_eq!(reopened.file_image(), image);
}

#[test]
fn four_documents_fill_two_pages_two_each() {
    let mut collection = Collection::new(Vec::new(), small_config()).unwrap();
    for id in 0..4u64 {
        collection.insert_one(&doc(id, b"abcd")).unwrap();
    }

    let store = CollectionFile::new(collection.file_image(), small_config()).unwrap();
    assert_eq!(store.number_of_pages(), 2);
    let ids_page0: Vec<u64> = store.read_page(0).unwrap().documents().iter().map(|d| d.id()).collect();
    let ids_page1: Vec<u64> = store.read_page(1).unwrap().documents().iter().map(|d| d.id()).collect();
    assert_eq!(ids_page0, vec![0, 1]);
    assert_eq!(ids_page1, vec![2, 3]);

    let even = collection.find_by(|d| d.id() % 2 == 0);
    assert_eq!(even, vec![doc(0, b"abcd"), doc(2, b"abcd")]);
}

#[test]
fn page_number_too_high_rejected() {
    let config = CollectionConfig::default();
    let mut store = CollectionFile::new(Vec::new(), config).unwrap();

    assert!(matches!(
        store.write_page(&CollectionPage::new(5, config.data_budget)),
        Err(CollectionFileError::PageNumberTooHighError)
    ));
    assert!(matches!(
        store.read_page(10),
        Err(CollectionFileError::PageNumberTooHighError)
    ));
    assert!(matches!(
        store.read_page_header(10),
        Err(CollectionFileError::PageNumberTooHighError)
    ));
}

#[test]
fn page_level_errors_reported() {
    let config = small_config();
    let mut page = CollectionPage::new(0, config.data_budget);
    page.insert_document(doc(1, b"abcd")).unwrap();

    // a 33-byte payload exceeds the 28 bytes still free
    assert!(matches!(
        page.insert_document(doc(2, &[0u8; 33])),
        Err(CollectionPageError::NoFreeSpaceAvailable)
    ));
    assert!(matches!(
        page.update_document(doc(9, b"none")),
        Err(CollectionPageError::DocumentNotFound)
    ));
    assert!(matches!(
        page.remove_document(9),
        Err(CollectionPageError::DocumentNotFound)
    ));
}

#[test]
fn malformed_backing_bytes_rejected() {
    let config = small_config();
    assert!(matches!(
        Collection::new(vec![1, 2, 3], config),
        Err(CollectionError::FileError(CollectionFileError::SerializationError))
    ));
    // a header announcing zero pages is not a well-formed file either
    assert!(matches!(
        CollectionFile::new(vec![0u8; 8], config),
        Err(CollectionFileError::SerializationError)
    ));
}

#[test]
fn config_that_cannot_fit_a_page_rejected() {
    assert!(CollectionConfig::new(40, 62_000).is_none());
    assert!(CollectionConfig::new(128, 48).is_some());
}
