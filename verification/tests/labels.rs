use rbs::{DocModelKey, EmbMaybeLabel, EmbeddingSet, LabelIndex};

fn entry(set: &mut EmbeddingSet<u8>, document: &str, model: &str, label: Option<&str>) {
    set.insert(
        DocModelKey { document: document.to_string(), model: model.to_string() },
        EmbMaybeLabel { emb: 0, label: label.map(|l| l.to_string()) },
    );
}

fn strings(items: &[&str]) -> Vec<String> {
    items.iter().map(|s| s.to_string()).collect()
}

#[test]
fn index_leaves_out_empty_and_unlabelled() {
    let mut set = EmbeddingSet::new();
    entry(&mut set, "d1", "m", Some("sport"));
    entry(&mut set, "d2", "m", None);
    entry(&mut set, "", "m", Some("sport"));
    entry(&mut set, "d3", "m", Some(""));
    entry(&mut set, "d4", "m", Some("tech"));
    let index = LabelIndex::from_set(&set);
    assert_eq!(index.len(), 2);
    let (d, l) = index.pair(0);
    assert_eq!((d.as_str(), l.as_str()), ("d1", "sport"));
    let (d, l) = index.pair(1);
    assert_eq!((d.as_str(), l.as_str()), ("d4", "tech"));
    assert_eq!(index.get(&"d4".to_string()), Some(&"tech".to_string()));
    assert_eq!(index.get(&"d2".to_string()), None);
}

#[test]
fn index_later_entry_wins() {
    let mut set = EmbeddingSet::new();
    entry(&mut set, "d", "m1", Some("old"));
    entry(&mut set, "d", "m2", Some("new"));
    let index = LabelIndex::from_set(&set);
    assert_eq!(index.len(), 1);
    assert_eq!(index.get(&"d".to_string()), Some(&"new".to_string()));
}

#[test]
fn count_hits_and_tally() {
    let mut set = EmbeddingSet::new();
    entry(&mut set, "a", "m", Some("x"));
    entry(&mut set, "b", "m", Some("y"));
    entry(&mut set, "c", "m", Some("x"));
    let index = LabelIndex::from_set(&set);
    let found = strings(&["a", "b", "c", "unknown"]);
    assert_eq!(index.count_hits(&"x".to_string(), &found), 2);
    assert_eq!(index.count_hits(&"y".to_string(), &found), 1);
    assert_eq!(index.count_hits(&String::new(), &found), 1);
    assert_eq!(index.tally(0, &"x".to_string(), &found, 4), (2, 0));
    assert_eq!(index.tally(2, &"x".to_string(), &found, 2), (4, 2));
    assert_eq!(index.tally(5, &"z".to_string(), &found, 2), (5, 2));
}

#[test]
fn empty_index() {
    let index = LabelIndex::new();
    assert_eq!(index.len(), 0);
    assert_eq!(index.count_hits(&"x".to_string(), &strings(&["a"])), 0);
}

#[test]
fn cutoff_tally_runs_over_queries() {
    let mut set = EmbeddingSet::new();
    entry(&mut set, "a", "m", Some("x"));
    entry(&mut set, "b", "m", Some("y"));
    let index = LabelIndex::from_set(&set);
    let mut tally = rbs::CutoffTally::new(2);
    assert_eq!(tally.hits_so_far(), 0);
    assert_eq!(tally.record(&index, &"x".to_string(), &strings(&["a", "b"])), 0);
    assert_eq!(tally.hits_so_far(), 1);
    assert_eq!(tally.record(&index, &"y".to_string(), &strings(&["b", "a"])), 1);
    assert_eq!(tally.hits_so_far(), 2);
    assert_eq!(tally.record(&index, &"x".to_string(), &strings(&["a", "a"])), 2);
    assert_eq!(tally.hits_so_far(), 4);
}
