use vstd::prelude::*;

verus! {

/// The position of the single-precision number with bit pattern `bits` in the
/// IEEE-754 total order, as an integer: numbers with the sign bit clear keep
/// their bit pattern, numbers with it set are mirrored below zero, so that
/// -NaN < -inf < ... < -0.0 < +0.0 < ... < +inf < +NaN.
pub open spec fn spec_score_key(bits: u32) -> int {
    if bits < 0x8000_0000 {
        bits as int
    } else {
        0x7fff_ffff - bits as int
    }
}

/// Computes `spec_score_key(bits)`; the result always fits an `i32`.
pub fn score_key(bits: u32) -> (key: i32)
    ensures
        key as int == spec_score_key(bits),
{
    if bits < 0x8000_0000 {
        bits as i32
    } else {
        let low: u32 = bits - 0x8000_0000;
        -1i32 - (low as i32)
    }
}

/// Different numbers have different places in the order, and every place
/// is within the range of an `i32`.
pub proof fn lemma_score_key_injective(a: u32, b: u32)
    ensures
        spec_score_key(a) == spec_score_key(b) <==> a == b,
        -0x8000_0000 <= spec_score_key(a) < 0x8000_0000,
{
}


/// The keys follow the IEEE-754 total order of the bit patterns: a number
/// with the sign bit clear keeps its pattern as key, so two such numbers
/// order as their patterns; two numbers with the sign bit set order the
/// other way round (the larger pattern is the more negative number); and
/// every number with the sign bit set is below every number without it.
pub proof fn lemma_score_key_total_order(a: u32, b: u32)
    ensures
        a < 0x8000_0000 ==> spec_score_key(a) == a,
        a < 0x8000_0000 && b < 0x8000_0000 ==> (spec_score_key(a) < spec_score_key(b) <==> a < b),
        a >= 0x8000_0000 && b >= 0x8000_0000 ==> (spec_score_key(a) < spec_score_key(b) <==> a > b),
        a >= 0x8000_0000 && b < 0x8000_0000 ==> spec_score_key(a) < spec_score_key(b),
{
}

} // verus!
