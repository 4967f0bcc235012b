use vstd::prelude::*;

verus! {

/// Sum of the intensities.
pub open spec fn sum(s: Seq<u8>) -> int
    decreases s.len(),
{
    if s.len() == 0 {
        0
    } else {
        sum(s.drop_last()) + s.last()
    }
}

/// Sum of the squared intensities.
pub open spec fn sum_sq(s: Seq<u8>) -> int
    decreases s.len(),
{
    if s.len() == 0 {
        0
    } else {
        sum_sq(s.drop_last()) + s.last() * s.last()
    }
}

/// Largest accepted standard deviation (exclusive) at similarity `p`.
pub open spec fn cutoff(p: int) -> int {
    1 + 10 * (100 - p)
}

/// The population standard deviation of the diff map lies below the cutoff.
/// With `n` values, sum `s` and sum of squares `q`, the variance is
/// `(n * q - s * s) / (n * n)`, so the test is `n * q - s * s < c * c * n * n`.
pub open spec fn confirmed(map: Seq<u8>, p: int) -> bool {
    let n = map.len() as int;
    n > 0 && n * sum_sq(map) < cutoff(p) * cutoff(p) * n * n + sum(map) * sum(map)
}

proof fn lemma_sums_bound(s: Seq<u8>)
    ensures
        0 <= sum(s) <= 255 * s.len(),
        0 <= sum_sq(s) <= 65025 * s.len(),
    decreases s.len(),
{
    if s.len() > 0 {
        lemma_sums_bound(s.drop_last());
        let x = s.last() as int;
        assert(x * x <= 65025) by (nonlinear_arith)
            requires
                0 <= x <= 255,
        ;
        assert(x * x >= 0) by (nonlinear_arith);
    }
}

/// Decides whether a candidate pair is a duplicate from the diff map that the
/// renderer made of the two images.
pub fn confirms(map: &Vec<u8>, similarity: u64) -> (r: bool)
    requires
        similarity <= 100,
        map@.len() <= u32::MAX,
    ensures
        r == confirmed(map@, similarity as int),
{
    let mut s: u128 = 0;
    let mut q: u128 = 0;
    let mut k: usize = 0;
    while k < map.len()
        invariant
            0 <= k <= map@.len() <= u32::MAX,
            s == sum(map@.subrange(0, k as int)),
            q == sum_sq(map@.subrange(0, k as int)),
        decreases map@.len() - k,
    {
        proof {
            lemma_sums_bound(map@.subrange(0, k as int));
            assert(map@.subrange(0, k + 1).drop_last() =~= map@.subrange(0, k as int));
        }
        let x = map[k] as u128;
        assert(x * x <= 65025) by (nonlinear_arith)
            requires
                0 <= x <= 255,
        ;
        s = s + x;
        q = q + x * x;
        k = k + 1;
    }
    assert(map@.subrange(0, k as int) =~= map@);
    let n = map.len() as u128;
    if n == 0 {
        return false;
    }
    proof {
        lemma_sums_bound(map@);
        assert(n * q <= n * (65025 * n)) by (nonlinear_arith)
            requires
                0 <= q <= 65025 * n,
                0 <= n,
        ;
        assert(n * (65025 * n) <= 65025 * 0x1_0000_0000 * 0x1_0000_0000) by (nonlinear_arith)
            requires
                0 <= n <= 0x1_0000_0000,
        ;
        assert(s * s <= (255 * n) * (255 * n)) by (nonlinear_arith)
            requires
                0 <= s <= 255 * n,
        ;
        assert((255 * n) * (255 * n) <= 65025 * 0x1_0000_0000 * 0x1_0000_0000) by (nonlinear_arith)
            requires
                0 <= n <= 0x1_0000_0000,
        ;
    }
    let c = 1 + 10 * (100 - similarity as u128);
    proof {
        assert(c * c <= 1001 * 1001) by (nonlinear_arith)
            requires
                0 <= c <= 1001,
        ;
        assert(c * c * n <= 1001 * 1001 * 0x1_0000_0000) by (nonlinear_arith)
            requires
                0 <= c <= 1001,
                0 <= n <= 0x1_0000_0000,
        ;
        assert(c * c * n * n <= 1001 * 1001 * 0x1_0000_0000 * 0x1_0000_0000) by (nonlinear_arith)
            requires
                0 <= c <= 1001,
                0 <= n <= 0x1_0000_0000,
        ;
    }
    n * q < c * c * n * n + s * s
}

} // verus!
