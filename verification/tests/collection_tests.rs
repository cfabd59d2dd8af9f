use pagestore::collection::Collection;
use pagestore::document::{Document, HasId};
use pagestore::CollectionConfig;

#[test]
fn test_insert_one_find_one_by_id() {
    let mut collection = Collection::new(Vec::new(), CollectionConfig::default()).unwrap();

    let document = Document { id: 0, content: b"test1".to_vec() };

    collection.insert_one(&document).unwrap();

    let doc_from_collection = collection.find_by_id(0).unwrap();

    assert_eq!(document, doc_from_collection);
}

#[test]
fn test_insert_find_all_collection() {
    let mut collection = Collection::new(Vec::new(), CollectionConfig::default()).unwrap();

    let documents: Vec<Document> = vec![
        Document { id: 0, content: b"test1".to_vec() },
        Document { id: 1, content: b"test2".to_vec() },
    ];

    for document in &documents {
        collection.insert_one(document).unwrap();
    }

    let doc_from_collection = collection.find_by(|_| true);

    assert_eq!(documents, doc_from_collection);
}

#[test]
fn test_insert_find_by_collection() {
    let mut collection = Collection::new(Vec::new(), CollectionConfig::default()).unwrap();

    let documents: Vec<Document> = vec![
        Document { id: 0, content: b"test1".to_vec() },
        Document { id: 1, content: b"test2".to_vec() },
        Document { id: 2, content: b"test3".to_vec() },
        Document { id: 3, content: b"test4".to_vec() },
    ];

    for document in &documents {
        collection.insert_one(document).unwrap();
    }

    let doc_from_collection = collection.find_by(|doc| doc.id() % 2 == 0);

    assert_eq!(
        vec![
            Document { id: 0, content: b"test1".to_vec() },
            Document { id: 2, content: b"test3".to_vec() },
        ],
        doc_from_collection
    );
}
