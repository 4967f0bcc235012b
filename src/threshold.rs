use vstd::prelude::*;

verus! {

/// Largest similarity percentage.
pub const MAX_SIMILARITY: u64 = 100;

/// `round(256 * (1 - p / 100))`, in integers: the fraction never falls on one half.
pub open spec fn threshold_of(p: int) -> int {
    (256 * (100 - p) + 50) / 100
}

/// Maximum Hamming distance (exclusive) for a similarity percentage `p`.
pub fn threshold(p: u64) -> (r: u64)
    requires
        p <= MAX_SIMILARITY,
    ensures
        r == threshold_of(p as int),
{
    (256 * (100 - p) + 50) / 100
}

/// The threshold falls as the similarity rises; it is zero at 100% and 253 at 1%.
pub proof fn lemma_threshold_laws(p: int, q: int)
    requires
        1 <= p <= q <= 100,
    ensures
        threshold_of(q) <= threshold_of(p),
        threshold_of(100) == 0,
        threshold_of(1) == 253,
{
    assert(256 * (100 - q) + 50 <= 256 * (100 - p) + 50);
    vstd::arithmetic::div_mod::lemma_div_is_ordered(
        256 * (100 - q) + 50,
        256 * (100 - p) + 50,
        100,
    );
}

} // verus!
