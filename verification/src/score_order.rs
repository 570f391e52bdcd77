use std::cmp::Ordering;

use vstd::prelude::*;
use vstd::std_specs::cmp::PartialEqSpecImpl;
use vstd::std_specs::cmp::PartialOrdSpecImpl;

use crate::score_key::{score_key, spec_score_key};
use crate::types::Scores;

verus! {

/// How two scores compare: by the total order of their numbers.
pub open spec fn compare_scores(a: Scores, b: Scores) -> Ordering {
    if spec_score_key(a.score_bits) < spec_score_key(b.score_bits) {
        Ordering::Less
    } else if spec_score_key(a.score_bits) > spec_score_key(b.score_bits) {
        Ordering::Greater
    } else {
        Ordering::Equal
    }
}

impl PartialEq for Scores {
    /// Two scores are equal when their numbers are the same bit pattern,
    /// whatever their documents.
    fn eq(&self, other: &Self) -> (r: bool) {
        self.score_bits == other.score_bits
    }
}

impl PartialEqSpecImpl for Scores {
    open spec fn obeys_eq_spec() -> bool {
        true
    }

    open spec fn eq_spec(&self, other: &Self) -> bool {
        self.score_bits == other.score_bits
    }
}

impl Eq for Scores {

}

impl PartialOrd for Scores {
    /// Always `Some`: scores are totally ordered.
    fn partial_cmp(&self, other: &Self) -> (r: Option<Ordering>) {
        Some(self.cmp(other))
    }
}

impl PartialOrdSpecImpl for Scores {
    open spec fn obeys_partial_cmp_spec() -> bool {
        true
    }

    open spec fn partial_cmp_spec(&self, other: &Self) -> Option<Ordering> {
        Some(compare_scores(*self, *other))
    }
}

impl Scores {
    /// Compares two scores by the IEEE-754 total order of their numbers; the
    /// documents play no part.
    pub fn cmp(&self, other: &Self) -> (o: Ordering)
        ensures
            o == compare_scores(*self, *other),
    {
        let a = score_key(self.score_bits);
        let b = score_key(other.score_bits);
        if a < b {
            Ordering::Less
        } else if a > b {
            Ordering::Greater
        } else {
            Ordering::Equal
        }
    }
}

/// The order of scores is a total order that agrees with equality: exactly
/// one of less, equal, greater holds; swapping the arguments swaps less and
/// greater; equal means the same number; and it is transitive.
pub proof fn lemma_scores_total_order(a: Scores, b: Scores, c: Scores)
    ensures
        (compare_scores(a, b) == Ordering::Equal) <==> a.score_bits == b.score_bits,
        (compare_scores(a, b) == Ordering::Less) <==> (compare_scores(b, a) == Ordering::Greater),
        compare_scores(a, b) == Ordering::Less && compare_scores(b, c) == Ordering::Less
            ==> compare_scores(a, c) == Ordering::Less,
        compare_scores(a, b) != Ordering::Greater && compare_scores(b, c) != Ordering::Greater
            ==> compare_scores(a, c) != Ordering::Greater,
{
    crate::score_key::lemma_score_key_injective(a.score_bits, b.score_bits);
}


/// Scores compare by the IEEE-754 total order of their bit patterns: two
/// scores without the sign bit compare as their patterns, two with it compare
/// the other way round, one with the sign bit is less than one without it,
/// and scores are equal exactly when their patterns are.
pub proof fn lemma_compare_scores_by_bits(a: Scores, b: Scores)
    ensures
        a.score_bits < 0x8000_0000 && b.score_bits < 0x8000_0000 ==> ((compare_scores(a, b)
            == Ordering::Less) <==> a.score_bits < b.score_bits),
        a.score_bits >= 0x8000_0000 && b.score_bits >= 0x8000_0000 ==> ((compare_scores(a, b)
            == Ordering::Less) <==> a.score_bits > b.score_bits),
        a.score_bits >= 0x8000_0000 && b.score_bits < 0x8000_0000 ==> compare_scores(a, b)
            == Ordering::Less,
        (compare_scores(a, b) == Ordering::Equal) <==> a.score_bits == b.score_bits,
{
    crate::score_key::lemma_score_key_total_order(a.score_bits, b.score_bits);
    crate::score_key::lemma_score_key_injective(a.score_bits, b.score_bits);
}

} // verus!
