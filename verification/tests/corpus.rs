use rbs::{news_corpus, training_split, NewsDP, TRAINING_DOCUMENTS, TRAINING_LABELS};

fn point(text: &str, label: u8, label_text: &str) -> NewsDP {
    NewsDP { text: text.to_string(), label, label_text: label_text.to_string() }
}

#[test]
fn news_corpus_drops_empty_records() {
    let points = vec![
        point("first", 1, "a"),
        point("", 2, ""),
        point("", 3, "only label"),
        point("only text", 4, ""),
    ];
    let (texts, labels) = news_corpus(&points);
    assert_eq!(texts, vec!["first".to_string(), "".to_string(), "only text".to_string()]);
    assert_eq!(labels, vec!["a".to_string(), "only label".to_string(), "".to_string()]);
}

#[test]
fn training_split_takes_prefixes() {
    let docs: Vec<String> = (0..600).map(|i| format!("doc{}", i)).collect();
    let labels: Vec<String> = (0..600).map(|i| format!("label{}", i)).collect();
    let (d, l) = training_split(&docs, &labels);
    assert_eq!(TRAINING_DOCUMENTS, 501);
    assert_eq!(TRAINING_LABELS, 500);
    assert_eq!(d.len(), 501);
    assert_eq!(l.len(), 500);
    assert_eq!(d[500], "doc500");
    assert_eq!(l[499], "label499");
}
