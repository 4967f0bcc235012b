use crate::resolve::SLASH;
use vstd::prelude::*;

verus! {

pub const DOT: u8 = 46;

pub const UNDERSCORE: u8 = 95;

/// Room for a file name, less its extension.
pub const NAME_LIMIT: usize = 247;

/// Index of the last `c` among the first `n` bytes of `p`, or -1.
pub open spec fn last_of(p: Seq<u8>, c: u8, n: int) -> int
    decreases n,
{
    if n <= 0 {
        -1
    } else if p[n - 1] == c {
        n - 1
    } else {
        last_of(p, c, n - 1)
    }
}

proof fn lemma_last_of(p: Seq<u8>, c: u8, n: int)
    requires
        0 <= n <= p.len(),
    ensures
        -1 <= last_of(p, c, n) < n,
        n > 0 ==> last_of(p, c, n) < p.len(),
        last_of(p, c, n) >= 0 ==> p[last_of(p, c, n)] == c,
    decreases n,
{
    if n > 0 && p[n - 1] != c {
        lemma_last_of(p, c, n - 1);
    }
}

/// The bytes after the last `/`.
pub open spec fn file_name(p: Seq<u8>) -> Seq<u8> {
    p.subrange(last_of(p, SLASH, p.len() as int) + 1, p.len() as int)
}

/// The bytes up to and including the last `/`.
pub open spec fn dir_prefix(p: Seq<u8>) -> Seq<u8> {
    p.subrange(0, last_of(p, SLASH, p.len() as int) + 1)
}

/// A name without an extension: no dot but at its start, or `..`.
pub open spec fn plain_name(n: Seq<u8>) -> bool {
    last_of(n, DOT, n.len() as int) <= 0 || n == seq![DOT, DOT]
}

/// The name before its last dot.
pub open spec fn stem(n: Seq<u8>) -> Option<Seq<u8>> {
    if n.len() == 0 {
        None
    } else if plain_name(n) {
        Some(n)
    } else {
        Some(n.subrange(0, last_of(n, DOT, n.len() as int)))
    }
}

/// The name after its last dot.
pub open spec fn extension(n: Seq<u8>) -> Option<Seq<u8>> {
    if n.len() == 0 || plain_name(n) {
        None
    } else {
        Some(n.subrange(last_of(n, DOT, n.len() as int) + 1, n.len() as int))
    }
}

/// The stems of the file names of `ps`, one after the other.
pub open spec fn stems(ps: Seq<Seq<u8>>) -> Option<Seq<u8>>
    decreases ps.len(),
{
    if ps.len() == 0 {
        Some(seq![])
    } else {
        match (stems(ps.drop_last()), stem(file_name(ps.last()))) {
            (Some(a), Some(b)) => Some(a + b),
            _ => None,
        }
    }
}

/// The first character boundary at or after `k` (a byte that does not
/// continue a UTF-8 sequence), or the end.
pub open spec fn cut(b: Seq<u8>, k: int) -> int
    decreases b.len() - k,
{
    if k >= b.len() {
        b.len() as int
    } else if 0x80 <= b[k] < 0xC0 {
        cut(b, k + 1)
    } else {
        k
    }
}

pub open spec fn room(e: Seq<u8>) -> int {
    if e.len() <= NAME_LIMIT {
        NAME_LIMIT - e.len()
    } else {
        0
    }
}

/// The keeper's new path: in its own directory, its stem, `_`, the stems of the
/// discarded files, cut at the first character that starts at or beyond the
/// room left by the extension, then the extension. `None` when a name has no
/// stem or the keeper has no extension.
pub open spec fn merged(keeper: Seq<u8>, discards: Seq<Seq<u8>>) -> Option<Seq<u8>> {
    let n = file_name(keeper);
    match (stem(n), extension(n), stems(discards)) {
        (Some(s), Some(e), Some(t)) => {
            let base = s + seq![UNDERSCORE] + t;
            Some(dir_prefix(keeper) + base.subrange(0, cut(base, room(e))) + seq![DOT] + e)
        },
        _ => None,
    }
}

/// One past the index of the last `c` in `p`; zero when there is none.
fn after_last(p: &Vec<u8>, c: u8) -> (r: usize)
    ensures
        r == last_of(p@, c, p@.len() as int) + 1,
        r <= p@.len(),
{
    proof {
        lemma_last_of(p@, c, p@.len() as int);
    }
    let mut n: usize = p.len();
    while n > 0
        invariant
            0 <= n <= p@.len(),
            last_of(p@, c, p@.len() as int) == last_of(p@, c, n as int),
        decreases n,
    {
        if p[n - 1] == c {
            return n;
        }
        n = n - 1;
    }
    0
}

/// The bytes of `p` in `[lo, hi)`.
fn copy_range(p: &Vec<u8>, lo: usize, hi: usize) -> (r: Vec<u8>)
    requires
        lo <= hi <= p@.len(),
    ensures
        r@ == p@.subrange(lo as int, hi as int),
{
    let mut r: Vec<u8> = Vec::new();
    let mut i: usize = lo;
    while i < hi
        invariant
            lo <= i <= hi,
            hi <= p@.len(),
            r@ == p@.subrange(lo as int, i as int),
        decreases hi - i,
    {
        r.push(p[i]);
        assert(r@ =~= p@.subrange(lo as int, i + 1));
        i = i + 1;
    }
    r
}

/// Appends `b` to `a`.
fn push_all(a: &mut Vec<u8>, b: &Vec<u8>)
    ensures
        final(a)@ == old(a)@ + b@,
{
    let mut i: usize = 0;
    let ghost start = a@;
    while i < b.len()
        invariant
            0 <= i <= b@.len(),
            a@ == start + b@.subrange(0, i as int),
        decreases b@.len() - i,
    {
        a.push(b[i]);
        assert(a@ =~= start + b@.subrange(0, i + 1));
        i = i + 1;
    }
    assert(b@.subrange(0, i as int) =~= b@);
}

fn is_plain_name(n: &Vec<u8>) -> (r: bool)
    ensures
        r == plain_name(n@),
{
    let d = after_last(n, DOT);
    if d <= 1 {
        return true;
    }
    if n.len() == 2 && n[0] == DOT && n[1] == DOT {
        assert(n@ =~= seq![DOT, DOT]);
        return true;
    }
    assert(n@ != seq![DOT, DOT]);
    false
}

/// The stem of the file name of `p`.
pub fn file_stem(p: &Vec<u8>) -> (r: Option<Vec<u8>>)
    ensures
        r is Some <==> stem(file_name(p@)) is Some,
        r is Some ==> r->Some_0@ == stem(file_name(p@))->Some_0,
{
    let s = after_last(p, SLASH);
    let n = copy_range(p, s, p.len());
    if n.len() == 0 {
        return None;
    }
    if is_plain_name(&n) {
        return Some(n);
    }
    let d = after_last(&n, DOT);
    Some(copy_range(&n, 0, d - 1))
}

/// The extension of the file name of `p`.
pub fn file_extension(p: &Vec<u8>) -> (r: Option<Vec<u8>>)
    ensures
        r is Some <==> extension(file_name(p@)) is Some,
        r is Some ==> r->Some_0@ == extension(file_name(p@))->Some_0,
{
    let s = after_last(p, SLASH);
    let n = copy_range(p, s, p.len());
    if n.len() == 0 || is_plain_name(&n) {
        return None;
    }
    let d = after_last(&n, DOT);
    Some(copy_range(&n, d, n.len()))
}

proof fn lemma_cut(b: Seq<u8>, k: int)
    requires
        0 <= k,
    ensures
        0 <= cut(b, k) <= b.len(),
    decreases b.len() - k,
{
    if k < b.len() && 0x80 <= b[k] < 0xC0 {
        lemma_cut(b, k + 1);
    }
}

fn cut_at(b: &Vec<u8>, k: usize) -> (r: usize)
    ensures
        r == cut(b@, k as int),
        r <= b@.len(),
{
    proof {
        lemma_cut(b@, k as int);
    }
    if k >= b.len() {
        return b.len();
    }
    let mut i: usize = k;
    while i < b.len() && 0x80 <= b[i] && b[i] < 0xC0
        invariant
            k <= i <= b@.len(),
            cut(b@, k as int) == cut(b@, i as int),
        decreases b@.len() - i,
    {
        i = i + 1;
    }
    i
}

/// The new path of the keeper once the discarded files' stems are merged into
/// its name.
pub fn merged_name(keeper: &Vec<u8>, discards: &Vec<Vec<u8>>) -> (r: Option<Vec<u8>>)
    ensures
        r is Some <==> merged(keeper@, discards@.map_values(|d: Vec<u8>| d@)) is Some,
        r is Some ==> r->Some_0@ == merged(keeper@, discards@.map_values(|d: Vec<u8>| d@))->Some_0,
{
    let ghost ds = discards@.map_values(|d: Vec<u8>| d@);
    let s = match file_stem(keeper) {
        Some(s) => s,
        None => return None,
    };
    let e = match file_extension(keeper) {
        Some(e) => e,
        None => return None,
    };
    let mut base = s;
    base.push(UNDERSCORE);
    let ghost head = base@;
    let mut k: usize = 0;
    while k < discards.len()
        invariant
            0 <= k <= discards@.len(),
            ds == discards@.map_values(|d: Vec<u8>| d@),
            stems(ds.subrange(0, k as int)) is Some,
            base@ == head + stems(ds.subrange(0, k as int))->Some_0,
        decreases discards@.len() - k,
    {
        assert(ds.subrange(0, k + 1).drop_last() =~= ds.subrange(0, k as int));
        assert(ds.subrange(0, k + 1).last() == discards@[k as int]@);
        match file_stem(&discards[k]) {
            Some(t) => {
                push_all(&mut base, &t);
                assert(base@ =~= head + stems(ds.subrange(0, k + 1))->Some_0);
            },
            None => {
                proof {
                    lemma_stems_none(ds, k as int + 1);
                }
                return None;
            },
        }
        k = k + 1;
    }
    assert(ds.subrange(0, k as int) =~= ds);
    let room_left: usize = if e.len() <= NAME_LIMIT {
        NAME_LIMIT - e.len()
    } else {
        0
    };
    let c = cut_at(&base, room_left);
    let slash = after_last(keeper, SLASH);
    let mut out = copy_range(keeper, 0, slash);
    let kept = copy_range(&base, 0, c);
    push_all(&mut out, &kept);
    out.push(DOT);
    push_all(&mut out, &e);
    proof {
        let n = file_name(keeper@);
        let ss = stem(n)->Some_0;
        let ee = extension(n)->Some_0;
        let tt = stems(ds)->Some_0;
        assert(head == ss + seq![UNDERSCORE]);
        assert(base@ =~= ss + seq![UNDERSCORE] + tt);
        assert(e@ == ee);
        assert(room_left == room(ee));
        assert(out@ =~= dir_prefix(keeper@) + base@.subrange(0, cut(base@, room(ee))) + seq![DOT]
            + ee);
    }
    Some(out)
}

/// A name without a stem among the first `k` paths leaves none for all of them.
proof fn lemma_stems_none(ds: Seq<Seq<u8>>, k: int)
    requires
        0 < k <= ds.len(),
        stem(file_name(ds[k - 1])) is None,
    ensures
        stems(ds) is None,
    decreases ds.len(),
{
    if ds.len() > k {
        assert(ds.drop_last()[k - 1] == ds[k - 1]);
        lemma_stems_none(ds.drop_last(), k);
    } else {
        assert(ds.last() == ds[k - 1]);
    }
}

} // verus!
