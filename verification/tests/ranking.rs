use rbs::{rank_indices, score_key, top_k, Scores};

fn scored(document: &str, score: f32) -> Scores {
    Scores { document: document.to_string(), score_bits: score.to_bits() }
}

#[test]
fn top_k_takes_best_first() {
    let scores = vec![scored("a", 0.1), scored("b", 0.9), scored("c", 0.5), scored("d", -0.3)];
    assert_eq!(top_k(&scores, 2), vec!["b".to_string(), "c".to_string()]);
    assert_eq!(
        top_k(&scores, 4),
        vec!["b".to_string(), "c".to_string(), "a".to_string(), "d".to_string()]
    );
}

#[test]
fn top_k_zero_is_empty() {
    let scores = vec![scored("a", 0.1)];
    assert!(top_k(&scores, 0).is_empty());
    assert!(top_k(&Vec::new(), 0).is_empty());
}

#[test]
fn top_k_ties_keep_order() {
    let scores = vec![scored("a", 0.5), scored("b", 0.7), scored("c", 0.5), scored("d", 0.7)];
    assert_eq!(rank_indices(&scores, 4), vec![1, 3, 0, 2]);
}

#[test]
fn top_k_total_order_of_floats() {
    let scores = vec![
        scored("zero", 0.0),
        scored("neg_zero", -0.0),
        scored("nan", f32::NAN),
        scored("neg_inf", f32::NEG_INFINITY),
        scored("inf", f32::INFINITY),
        scored("neg_nan", -f32::NAN),
    ];
    assert_eq!(
        top_k(&scores, 6),
        vec![
            "nan".to_string(),
            "inf".to_string(),
            "zero".to_string(),
            "neg_zero".to_string(),
            "neg_inf".to_string(),
            "neg_nan".to_string()
        ]
    );
}

#[test]
fn score_key_values() {
    assert_eq!(score_key(0.0f32.to_bits()), 0);
    assert_eq!(score_key((-0.0f32).to_bits()), -1);
    assert_eq!(score_key(1.0f32.to_bits()), 0x3f80_0000);
    assert_eq!(score_key((-1.0f32).to_bits()), -0x3f80_0001);
    assert_eq!(score_key(0xffff_ffff), i32::MIN);
    assert_eq!(score_key(0x7fff_ffff), i32::MAX);
}

#[test]
fn score_key_matches_total_cmp() {
    let values = [-2.5f32, -1.0, -0.0, 0.0, 1e-30, 0.5, 3.0, f32::INFINITY, f32::NAN, -f32::NAN];
    for a in values.iter() {
        for b in values.iter() {
            let by_key = score_key(a.to_bits()).cmp(&score_key(b.to_bits()));
            assert_eq!(by_key, a.total_cmp(b));
        }
    }
}

#[test]
fn scores_compare_by_number_only() {
    let a = scored("x", 0.25);
    let b = scored("y", 0.25);
    let c = scored("x", 0.75);
    assert!(a == b);
    assert!(a != c);
    assert!(a < c);
    assert!(c > b);
    assert_eq!(a.partial_cmp(&c), Some(std::cmp::Ordering::Less));
    assert_eq!(a.cmp(&b), std::cmp::Ordering::Equal);
    assert_eq!(c.cmp(&a), std::cmp::Ordering::Greater);
    assert!(scored("n", -0.0) < scored("p", 0.0));
    assert!(scored("n", -0.0) != scored("p", 0.0));
}

#[test]
fn scores_equality_is_by_bit_pattern() {
    let x = scored("a", 0.0);
    let y = scored("b", 0.0);
    let z = scored("a", -0.0);
    let n = scored("a", f32::NAN);
    assert!(x == y);
    assert!(x != z);
    assert!(n == n.clone());
    assert_eq!(n.clone().document, "a");
}
