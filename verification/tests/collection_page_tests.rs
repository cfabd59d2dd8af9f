use pagestore::collection_page::CollectionPage;
use pagestore::document::Document;
use pagestore::COLLECTION_PAGE_DATA_SIZE;

#[test]
fn insert_one_document() {
    let mut collection_page = CollectionPage::new(0, COLLECTION_PAGE_DATA_SIZE);

    collection_page
        .insert_document(Document { id: 1, content: Vec::new() })
        .unwrap();

    assert_eq!(
        collection_page.documents(),
        &vec![Document { id: 1, content: Vec::new() }]
    );
    assert_eq!(collection_page.header().number_of_documents(), 1);
    assert_eq!(
        collection_page.header().space_available(),
        COLLECTION_PAGE_DATA_SIZE - 16
    )
}

#[test]
fn insert_multiple_document() {
    let mut collection_page = CollectionPage::new(0, COLLECTION_PAGE_DATA_SIZE);

    collection_page
        .insert_document(Document { id: 1, content: Vec::new() })
        .unwrap();

    collection_page
        .insert_document(Document { id: 2, content: Vec::new() })
        .unwrap();

    assert_eq!(
        collection_page.documents(),
        &vec![
            Document { id: 1, content: Vec::new() },
            Document { id: 2, content: Vec::new() }
        ]
    );
    assert_eq!(collection_page.header().number_of_documents(), 2);
    assert_eq!(
        collection_page.header().space_available(),
        COLLECTION_PAGE_DATA_SIZE - 16 * 2
    )
}

#[test]
fn find_one_document() {
    let mut collection_page = CollectionPage::new(0, COLLECTION_PAGE_DATA_SIZE);

    collection_page
        .insert_document(Document { id: 1, content: Vec::new() })
        .unwrap();

    let document = collection_page.find_document(1);
    assert_eq!(document.unwrap(), Document { id: 1, content: Vec::new() })
}

#[test]
fn do_not_find_document() {
    let mut collection_page = CollectionPage::new(0, COLLECTION_PAGE_DATA_SIZE);

    collection_page
        .insert_document(Document { id: 1, content: Vec::new() })
        .unwrap();

    let document = collection_page.find_document(2);

    assert_eq!(true, document.is_none())
}

#[test]
fn update_one_document() {
    let mut collection_page = CollectionPage::new(0, COLLECTION_PAGE_DATA_SIZE);
    let user_document = Document { id: 1, content: b"lol".to_vec() };

    collection_page.insert_document(user_document).unwrap();

    collection_page
        .update_document(Document { id: 1, content: b"mdr".to_vec() })
        .unwrap();

    assert_eq!(
        collection_page.documents(),
        &vec![Document { id: 1, content: b"mdr".to_vec() }]
    )
}

#[test]
fn delete_one_document() {
    let mut collection_page = CollectionPage::new(0, COLLECTION_PAGE_DATA_SIZE);
    let user_document = Document { id: 1, content: b"lol".to_vec() };

    collection_page.insert_document(user_document).unwrap();
    collection_page.remove_document(1).unwrap();

    assert_eq!(collection_page.documents(), &Vec::<Document>::new())
}
