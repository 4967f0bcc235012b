use vstd::prelude::*;

verus! {

/// Ranges handed to each core, so that slow ranges do not hold up the rest.
pub const RANGES_PER_CORE: usize = 4;

/// Length of each range: the work shared among `RANGES_PER_CORE` ranges per
/// core, at least one item.
pub open spec fn range_len(n: int, cores: int) -> int {
    let l = n / cores / RANGES_PER_CORE as int;
    if l < 1 {
        1
    } else {
        l
    }
}

/// Splits `[start, end)` into contiguous ranges of `range_len` items, the last
/// one cut at `end`.
pub fn ranges(start: usize, end: usize, cores: usize) -> (r: Vec<(usize, usize)>)
    requires
        start <= end,
        cores > 0,
    ensures
        forall|k: int|
            0 <= k < r@.len() ==> {
                let l = range_len(end - start, cores as int);
                &&& (#[trigger] r@[k]).0 == start + k * l
                &&& r@[k].1 == if start + (k + 1) * l < end {
                    start + (k + 1) * l
                } else {
                    end as int
                }
            },
        r@.len() == 0 <==> start == end,
        r@.len() > 0 ==> r@.last().1 == end,
        forall|k: int| 0 <= k < r@.len() ==> (#[trigger] r@[k]).0 < r@[k].1,
{
    let ghost l = range_len(end - start, cores as int);
    let mut len = (end - start) / cores / RANGES_PER_CORE;
    if len < 1 {
        len = 1;
    }
    let mut out: Vec<(usize, usize)> = Vec::new();
    let mut lo: usize = start;
    let mut k: usize = 0;
    while lo < end
        invariant
            len == l,
            l >= 1,
            start <= lo <= end,
            lo == if start + k * l < end {
                start + k * l
            } else {
                end as int
            },
            k <= lo - start,
            out@.len() == k,
            k > 0 ==> out@.last().1 == lo,
            forall|j: int|
                0 <= j < k ==> {
                    &&& (#[trigger] out@[j]).0 == start + j * l
                    &&& out@[j].1 == if start + (j + 1) * l < end {
                        start + (j + 1) * l
                    } else {
                        end as int
                    }
                },
            forall|j: int| 0 <= j < k ==> (#[trigger] out@[j]).0 < out@[j].1,
        decreases end - lo,
    {
        let hi = if end - lo > len {
            lo + len
        } else {
            end
        };
        assert(lo == start + k * l);
        assert(start + (k + 1) * l == lo + l) by (nonlinear_arith)
            requires
                lo == start + k * l,
        ;
        out.push((lo, hi));
        lo = hi;
        k = k + 1;
    }
    out
}

} // verus!
