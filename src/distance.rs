use vstd::arithmetic::power2::{lemma2_to64, lemma_pow2_unfold, pow2};
use vstd::prelude::*;

verus! {

/// Number of bytes in one fingerprint (256 bits).
pub const PRINT_LEN: usize = 32;

/// Number of set bits of `n`.
pub open spec fn ones(n: nat) -> nat
    decreases n,
{
    if n == 0 {
        0
    } else {
        n % 2 + ones(n / 2)
    }
}

/// Number of bit positions in which two equally long byte strings differ.
pub open spec fn dist(a: Seq<u8>, b: Seq<u8>) -> nat
    decreases a.len(),
{
    if a.len() == 0 {
        0
    } else {
        dist(a.drop_last(), b.drop_last()) + ones((a.last() ^ b[a.len() - 1]) as nat)
    }
}

/// Relies on hamming::distance_fast: it counts the bits in which `x` and `y`
/// differ, and slices shorter than one block of thirty `u64` (240 bytes) always
/// take its byte-wise path, which returns `Ok`. It panics on unequal lengths.
/// Its error type is not exported, so the error becomes `None`.
#[verifier::external_body]
fn distance_fast(x: &[u8], y: &[u8]) -> (r: Option<u64>)
    requires
        x@.len() == y@.len(),
    ensures
        r is Some ==> r->Some_0 == dist(x@, y@),
        x@.len() < 240 ==> r is Some,
{
    hamming::distance_fast(x, y).ok()
}

proof fn lemma_ones_below(n: nat, k: nat)
    requires
        n < pow2(k),
    ensures
        ones(n) <= k,
    decreases k,
{
    if k == 0 {
        lemma2_to64();
        assert(n == 0);
    } else {
        lemma_pow2_unfold(k);
        lemma_ones_below(n / 2, (k - 1) as nat);
    }
}

/// A byte has at most eight set bits.
pub proof fn lemma_ones_byte(x: u8)
    ensures
        ones(x as nat) <= 8,
{
    lemma2_to64();
    lemma_ones_below(x as nat, 8);
}

/// The distance is at most eight bits per byte.
pub proof fn lemma_dist_bound(a: Seq<u8>, b: Seq<u8>)
    requires
        a.len() == b.len(),
    ensures
        dist(a, b) <= 8 * a.len(),
    decreases a.len(),
{
    if a.len() > 0 {
        lemma_dist_bound(a.drop_last(), b.drop_last());
        lemma_ones_byte(a.last() ^ b[a.len() - 1]);
    }
}

/// The distance between fingerprints is symmetric, lies in `[0, 256]`, and a
/// fingerprint is at distance zero from itself.
pub proof fn lemma_dist_laws(a: Seq<u8>, b: Seq<u8>)
    requires
        a.len() == PRINT_LEN,
        b.len() == PRINT_LEN,
    ensures
        dist(a, b) == dist(b, a),
        0 <= dist(a, b) <= 256,
        dist(a, a) == 0,
{
    lemma_dist_symmetric(a, b);
    lemma_dist_bound(a, b);
    lemma_dist_self(a);
}

pub proof fn lemma_dist_symmetric(a: Seq<u8>, b: Seq<u8>)
    requires
        a.len() == b.len(),
    ensures
        dist(a, b) == dist(b, a),
    decreases a.len(),
{
    if a.len() > 0 {
        lemma_dist_symmetric(a.drop_last(), b.drop_last());
        let x = a.last();
        let y = b[a.len() - 1];
        assert(x ^ y == y ^ x) by (bit_vector);
    }
}

pub proof fn lemma_dist_self(a: Seq<u8>)
    ensures
        dist(a, a) == 0,
    decreases a.len(),
{
    if a.len() > 0 {
        lemma_dist_self(a.drop_last());
        let x = a.last();
        assert(x ^ x == 0) by (bit_vector);
    }
}

/// Hamming distance between two fingerprints.
pub fn distance(a: &Vec<u8>, b: &Vec<u8>) -> (r: u64)
    requires
        a@.len() == PRINT_LEN,
        b@.len() == PRINT_LEN,
    ensures
        r == dist(a@, b@),
{
    match distance_fast(a.as_slice(), b.as_slice()) {
        Some(d) => d,
        None => {
            proof {
                assert(false);
            }
            0
        },
    }
}

} // verus!
