use rbs::{check_weight_count, ks_or_default, runs_or_default, RBSError, DEFAULT_RUNS};

#[test]
fn default_cut_offs() {
    assert_eq!(ks_or_default(None), vec![1, 2, 4, 8, 16, 32, 64]);
    assert_eq!(ks_or_default(Some(vec![3, 5])), vec![3, 5]);
}

#[test]
fn default_runs() {
    assert_eq!(runs_or_default(None), 100);
    assert_eq!(DEFAULT_RUNS, 100);
    assert_eq!(runs_or_default(Some(7)), 7);
}

#[test]
fn weight_count_mismatch_is_refused() {
    assert_eq!(check_weight_count(2, None), Ok(()));
    assert_eq!(check_weight_count(2, Some(2)), Ok(()));
    assert_eq!(
        check_weight_count(2, Some(3)),
        Err(RBSError::KMostSim(
            "The number of weights does not match the number of models you provided".to_string()
        ))
    );
    assert!(check_weight_count(0, Some(1)).is_err());
}
