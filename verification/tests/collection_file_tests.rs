use pagestore::collection_file::CollectionFile;
use pagestore::collection_page::CollectionPage;
use pagestore::document::Document;
use pagestore::CollectionConfig;

#[test]
fn test_write_and_read_from_collection() {
    let config = CollectionConfig::default();
    let mut collection = CollectionFile::new(Vec::new(), config).unwrap();

    let collection_page = CollectionPage::new(0, config.data_budget);

    collection.write_page(&collection_page).unwrap();

    let collection_page_from_file = collection
        .read_page(0)
        .unwrap_or_else(|why| panic!("{:?}", why));

    assert_eq!(collection_page, collection_page_from_file);
}

#[test]
fn test_write_and_read_two_pages_from_collection() {
    let config = CollectionConfig::default();
    let mut collection = CollectionFile::new(Vec::new(), config).unwrap();

    let collection_page_0 = CollectionPage::new(0, config.data_budget);

    let collection_page_1 = CollectionPage::new(1, config.data_budget);

    collection.write_page(&collection_page_0).unwrap();
    collection.write_page(&collection_page_1).unwrap();

    let collection_page_from_file_0 = collection
        .read_page(0)
        .unwrap_or_else(|why| panic!("{:?}", why));
    let collection_page_from_file_1 = collection
        .read_page(1)
        .unwrap_or_else(|why| panic!("{:?}", why));

    assert_eq!(collection_page_0, collection_page_from_file_0);
    assert_eq!(collection_page_1, collection_page_from_file_1);
}

#[test]
fn test_write_read_update_from_collection() {
    let config = CollectionConfig::default();
    let mut collection = CollectionFile::new(Vec::new(), config).unwrap();

    let mut collection_page_0 = CollectionPage::new(0, config.data_budget);

    let collection_page_1 = CollectionPage::new(1, config.data_budget);

    collection.write_page(&collection_page_0).unwrap();
    collection.write_page(&collection_page_1).unwrap();

    let collection_page_from_file_0 = collection
        .read_page(0)
        .unwrap_or_else(|why| panic!("{:?}", why));
    let collection_page_from_file_1 = collection
        .read_page(1)
        .unwrap_or_else(|why| panic!("{:?}", why));

    assert_eq!(collection_page_0, collection_page_from_file_0);
    assert_eq!(collection_page_1, collection_page_from_file_1);

    collection_page_0
        .insert_document(Document { id: 1, content: Vec::new() })
        .unwrap();

    collection.write_page(&collection_page_0).unwrap();

    let collection_page_from_file_0_updated = collection
        .read_page(0)
        .unwrap_or_else(|why| panic!("{:?}", why));

    assert_eq!(collection_page_0, collection_page_from_file_0_updated);
}
