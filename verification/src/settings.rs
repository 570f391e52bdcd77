use vstd::prelude::*;

use crate::types::RBSError;

verus! {

/// Number of optimisation rounds when none is given.
pub const DEFAULT_RUNS: usize = 100;

/// The cut-offs at which retrieval is scored when none are given: 1, 2, 4,
/// 8, 16, 32 and 64.
pub open spec fn default_ks() -> Seq<usize> {
    seq![1usize, 2, 4, 8, 16, 32, 64]
}

/// The given cut-offs, or the default ones.
pub fn ks_or_default(given: Option<Vec<usize>>) -> (ks: Vec<usize>)
    ensures
        match given {
            Some(v) => ks@ == v@,
            None => ks@ == default_ks(),
        },
{
    match given {
        Some(v) => v,
        None => {
            let mut ks: Vec<usize> = Vec::new();
            ks.push(1);
            ks.push(2);
            ks.push(4);
            ks.push(8);
            ks.push(16);
            ks.push(32);
            ks.push(64);
            assert(ks@ =~= default_ks());
            ks
        },
    }
}

/// The given number of optimisation rounds, or `DEFAULT_RUNS`.
pub fn runs_or_default(given: Option<usize>) -> (runs: usize)
    ensures
        runs == match given {
            Some(r) => r,
            None => DEFAULT_RUNS,
        },
{
    match given {
        Some(r) => r,
        None => DEFAULT_RUNS,
    }
}

/// Checks that custom weights, if given, come one per model. Fails with
/// `RBSError::KMostSim` exactly when `num_weights` is given and differs from
/// `num_models`.
pub fn check_weight_count(num_models: usize, num_weights: Option<usize>) -> (r: Result<(), RBSError>)
    ensures
        r is Err <==> (num_weights matches Some(w) && w != num_models),
        r matches Err(e) ==> e matches RBSError::KMostSim(m) && m@
            == "The number of weights does not match the number of models you provided"@,
{
    match num_weights {
        Some(w) => if w != num_models {
            Err(
                RBSError::KMostSim(
                    "The number of weights does not match the number of models you provided".to_string(),
                ),
            )
        } else {
            Ok(())
        },
        None => Ok(()),
    }
}

} // verus!
