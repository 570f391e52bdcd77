use rbs::{DocModelKey, EmbMaybeLabel, EmbeddingSet};

fn key(document: &str, model: &str) -> DocModelKey {
    DocModelKey { document: document.to_string(), model: model.to_string() }
}

fn strings(items: &[&str]) -> Vec<String> {
    items.iter().map(|s| s.to_string()).collect()
}

#[test]
fn get_after_insert() {
    let mut set: EmbeddingSet<Vec<u32>> = EmbeddingSet::new();
    set.insert(key("d1", "m1"), EmbMaybeLabel { emb: vec![1, 2], label: None });
    set.insert(key("d2", "m1"), EmbMaybeLabel { emb: vec![3], label: Some("x".to_string()) });
    assert_eq!(set.len(), 2);
    let found = set.get(&"d1".to_string(), &"m1".to_string()).unwrap();
    assert_eq!(found.emb, vec![1, 2]);
    assert_eq!(found.label, None);
    assert!(set.get(&"d1".to_string(), &"m2".to_string()).is_none());
}

#[test]
fn insert_overwrites_same_pair() {
    let mut set: EmbeddingSet<u32> = EmbeddingSet::new();
    set.insert(key("d", "m"), EmbMaybeLabel { emb: 1, label: None });
    set.insert(key("e", "m"), EmbMaybeLabel { emb: 2, label: None });
    set.insert(key("d", "m"), EmbMaybeLabel { emb: 3, label: Some("l".to_string()) });
    assert_eq!(set.len(), 2);
    let found = set.get(&"d".to_string(), &"m".to_string()).unwrap();
    assert_eq!(found.emb, 3);
    assert_eq!(found.label, Some("l".to_string()));
    assert_eq!(set.documents(), strings(&["d", "e"]));
}

#[test]
fn insert_embeddings_labels_each_document() {
    let docs = strings(&["a", "b", "c"]);
    let labels = strings(&["la", "lb"]);
    let mut set: EmbeddingSet<u32> = EmbeddingSet::new();
    set.insert_embeddings(&docs, &"m1".to_string(), vec![10, 20, 30], Some(&labels));
    set.insert_embeddings(&docs, &"m2".to_string(), vec![11, 21], None);
    assert_eq!(set.len(), 5);
    let c1 = set.get(&"c".to_string(), &"m1".to_string()).unwrap();
    assert_eq!(c1.emb, 30);
    assert_eq!(c1.label, None);
    let b1 = set.get(&"b".to_string(), &"m1".to_string()).unwrap();
    assert_eq!(b1.emb, 20);
    assert_eq!(b1.label, Some("lb".to_string()));
    let a2 = set.get(&"a".to_string(), &"m2".to_string()).unwrap();
    assert_eq!(a2.emb, 11);
    assert_eq!(a2.label, None);
    assert!(set.get(&"c".to_string(), &"m2".to_string()).is_none());
    assert_eq!(set.documents(), strings(&["a", "b", "c"]));
    assert_eq!(set.models(), strings(&["m1", "m2"]));
}

#[test]
fn insert_embeddings_repeated_document_keeps_last() {
    let docs = strings(&["a", "b", "a"]);
    let labels = strings(&["first", "second", "third"]);
    let mut set: EmbeddingSet<u32> = EmbeddingSet::new();
    set.insert_embeddings(&docs, &"m".to_string(), vec![1, 2, 3], Some(&labels));
    assert_eq!(set.len(), 2);
    let a = set.get(&"a".to_string(), &"m".to_string()).unwrap();
    assert_eq!(a.emb, 3);
    assert_eq!(a.label, Some("third".to_string()));
}

#[test]
fn labeled_documents_in_entry_order() {
    let docs = strings(&["a", "b", "c"]);
    let labels = strings(&["la", "lb"]);
    let mut set: EmbeddingSet<u32> = EmbeddingSet::new();
    set.insert_embeddings(&docs, &"m1".to_string(), vec![1, 2, 3], Some(&labels));
    set.insert_embeddings(&docs, &"m2".to_string(), vec![4, 5, 6], Some(&labels));
    let (ds, ls) = set.labeled_documents();
    assert_eq!(ds, strings(&["a", "b", "a", "b"]));
    assert_eq!(ls, strings(&["la", "lb", "la", "lb"]));
}

#[test]
fn empty_set() {
    let set: EmbeddingSet<u8> = EmbeddingSet::new();
    assert_eq!(set.len(), 0);
    assert!(set.documents().is_empty());
    assert!(set.models().is_empty());
    assert!(set.get(&String::new(), &String::new()).is_none());
}

#[test]
fn labels_do_not_change_documents_or_embeddings() {
    let docs = strings(&["a", "b"]);
    let mut with: EmbeddingSet<u32> = EmbeddingSet::new();
    with.insert_embeddings(&docs, &"m".to_string(), vec![1, 2], Some(&strings(&["x", "y"])));
    let mut without: EmbeddingSet<u32> = EmbeddingSet::new();
    without.insert_embeddings(&docs, &"m".to_string(), vec![1, 2], None);
    assert_eq!(with.documents(), without.documents());
    assert_eq!(with.models(), without.models());
    assert_eq!(
        with.get(&"b".to_string(), &"m".to_string()).unwrap().emb,
        without.get(&"b".to_string(), &"m".to_string()).unwrap().emb
    );
}

#[test]
fn embeddings_do_not_change_labeled_documents() {
    let docs = strings(&["a", "b"]);
    let labels = strings(&["x", "y"]);
    let mut one: EmbeddingSet<u32> = EmbeddingSet::new();
    one.insert_embeddings(&docs, &"m".to_string(), vec![1, 2], Some(&labels));
    let mut two: EmbeddingSet<u32> = EmbeddingSet::new();
    two.insert_embeddings(&docs, &"m".to_string(), vec![7, 9], Some(&labels));
    assert_eq!(one.labeled_documents(), two.labeled_documents());
}
