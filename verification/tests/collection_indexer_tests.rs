use std::collections::HashMap;

use pagestore::collection_file::CollectionFile;
use pagestore::collection_indexer::index_collection_id;
use pagestore::collection_page::CollectionPage;
use pagestore::document::Document;
use pagestore::CollectionConfig;

#[test]
fn test_collection_hash_one_document() {
    let config = CollectionConfig::default();
    let mut collection_file = CollectionFile::new(Vec::new(), config).unwrap();

    let mut collection_page = collection_file.read_page(0).unwrap();

    collection_page
        .insert_document(Document { id: 1, content: Vec::new() })
        .unwrap();
    collection_file.write_page(&collection_page).unwrap();

    let index_hash_map = index_collection_id(&collection_file).unwrap();

    let mut expected_hash_map = HashMap::new();
    expected_hash_map.insert(1, 0);

    assert_eq!(index_hash_map, expected_hash_map)
}

#[test]
fn test_collection_hash_two_document() {
    let config = CollectionConfig::default();
    let mut collection_file = CollectionFile::new(Vec::new(), config).unwrap();

    let mut collection_page = collection_file.read_page(0).unwrap();

    collection_page
        .insert_document(Document { id: 1, content: Vec::new() })
        .unwrap();
    collection_page
        .insert_document(Document { id: 2, content: Vec::new() })
        .unwrap();
    collection_file.write_page(&collection_page).unwrap();

    let index_hash_map = index_collection_id(&collection_file).unwrap();

    let mut expected_hash_map = HashMap::new();
    expected_hash_map.insert(1, 0);
    expected_hash_map.insert(2, 0);

    assert_eq!(index_hash_map, expected_hash_map)
}

#[test]
fn test_collection_hash_two_document_in_two_pages() {
    let config = CollectionConfig::default();
    let mut collection_file = CollectionFile::new(Vec::new(), config).unwrap();

    let mut collection_page_0 = collection_file.read_page(0).unwrap();
    let mut collection_page_1 = CollectionPage::new(1, config.data_budget);

    collection_page_0
        .insert_document(Document { id: 1, content: Vec::new() })
        .unwrap();
    collection_page_1
        .insert_document(Document { id: 2, content: Vec::new() })
        .unwrap();
    collection_file.write_page(&collection_page_0).unwrap();
    collection_file.write_page(&collection_page_1).unwrap();

    let index_hash_map = index_collection_id(&collection_file).unwrap();

    let mut expected_hash_map = HashMap::new();
    expected_hash_map.insert(1, 0);
    expected_hash_map.insert(2, 1);

    assert_eq!(index_hash_map, expected_hash_map)
}
