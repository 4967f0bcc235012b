use crate::distance::{dist, distance, PRINT_LEN};
use crate::threshold::{threshold, threshold_of, MAX_SIMILARITY};
use vstd::prelude::*;

verus! {

/// A fingerprint slot that holds only zero bytes has been claimed (or excluded).
pub open spec fn excluded(p: Seq<u8>) -> bool {
    forall|k: int| 0 <= k < p.len() ==> p[k] == 0
}

pub open spec fn zero_print() -> Seq<u8> {
    Seq::new(PRINT_LEN as nat, |k: int| 0u8)
}

pub open spec fn all_prints(s: Seq<Seq<u8>>) -> bool {
    forall|k: int| 0 <= k < s.len() ==> (#[trigger] s[k]).len() == PRINT_LEN
}

/// The state of a search: the base set (cross mode only), the target set with
/// its claimed slots zeroed, the distance cutoff, and the next base index.
pub struct SearchView {
    pub bases: Seq<Seq<u8>>,
    pub targets: Seq<Seq<u8>>,
    pub cross: bool,
    pub thresh: int,
    pub next: int,
}

pub open spec fn wf_view(v: SearchView) -> bool {
    &&& all_prints(v.bases)
    &&& all_prints(v.targets)
    &&& 0 <= v.next <= n_bases(v)
    &&& 0 <= v.thresh <= 256
    &&& !v.cross ==> v.bases.len() == 0
}

/// Number of base fingerprints: set A in cross mode, the one set in self mode.
pub open spec fn n_bases(v: SearchView) -> int {
    if v.cross {
        v.bases.len() as int
    } else {
        v.targets.len() as int
    }
}

pub open spec fn base_print(v: SearchView, i: int) -> Seq<u8> {
    if v.cross {
        v.bases[i]
    } else {
        v.targets[i]
    }
}

/// First target index compared with base `i`: pairs `i < j` only in self mode.
pub open spec fn scan_start(v: SearchView, i: int) -> int {
    if v.cross {
        0
    } else {
        i + 1
    }
}

pub open spec fn hit(base: Seq<u8>, t: Seq<u8>, thresh: int) -> bool {
    !excluded(t) && dist(base, t) < thresh
}

/// Indices `j` in `[lo, hi)`, ascending, whose target is a hit for `base`.
pub open spec fn hits(base: Seq<u8>, ts: Seq<Seq<u8>>, thresh: int, lo: int, hi: int) -> Seq<int>
    decreases hi - lo,
{
    if hi <= lo {
        seq![]
    } else {
        hits(base, ts, thresh, lo, hi - 1) + if hit(base, ts[hi - 1], thresh) {
            seq![hi - 1]
        } else {
            seq![]
        }
    }
}

/// The candidate duplicates of the next base: none when every base is done or,
/// in self mode, when the base itself has been claimed.
pub open spec fn candidates(v: SearchView) -> Seq<int> {
    if v.next < 0 || v.next >= n_bases(v) || (!v.cross && excluded(v.targets[v.next])) {
        seq![]
    } else {
        hits(base_print(v, v.next), v.targets, v.thresh, scan_start(v, v.next), v.targets.len() as int)
    }
}

/// The candidates whose verdict is `true`, in order.
pub open spec fn kept(cands: Seq<int>, verdicts: Seq<bool>) -> Seq<int>
    decreases cands.len(),
{
    if cands.len() == 0 {
        seq![]
    } else {
        kept(cands.drop_last(), verdicts.subrange(0, cands.len() - 1)) + if verdicts[cands.len() - 1] {
            seq![cands.last()]
        } else {
            seq![]
        }
    }
}

/// The targets with the slots in `js` zeroed.
pub open spec fn claim(ts: Seq<Seq<u8>>, js: Seq<int>) -> Seq<Seq<u8>> {
    Seq::new(ts.len(), |k: int| if js.contains(k) { zero_print() } else { ts[k] })
}

/// The state after the next base is done and the slots in `js` are claimed.
pub open spec fn after(v: SearchView, js: Seq<int>) -> SearchView {
    SearchView { targets: claim(v.targets, js), next: v.next + 1, ..v }
}

/// The groups that a search from `v` reports when every candidate is confirmed:
/// each base that has candidates, with them.
pub open spec fn run_groups(v: SearchView) -> Seq<(int, Seq<int>)>
    decreases n_bases(v) - v.next,
{
    if v.next < 0 || v.next >= n_bases(v) {
        seq![]
    } else {
        let c = candidates(v);
        let rest = run_groups(after(v, c));
        if c.len() > 0 {
            seq![(v.next, c)] + rest
        } else {
            rest
        }
    }
}

pub proof fn lemma_hits(base: Seq<u8>, ts: Seq<Seq<u8>>, thresh: int, lo: int, hi: int)
    requires
        hi <= ts.len(),
        0 <= lo,
    ensures
        forall|a: int|
            0 <= a < hits(base, ts, thresh, lo, hi).len() ==> lo <= #[trigger] hits(
                base,
                ts,
                thresh,
                lo,
                hi,
            )[a] < hi && hit(base, ts[hits(base, ts, thresh, lo, hi)[a]], thresh),
        forall|a: int, b: int|
            0 <= a < b < hits(base, ts, thresh, lo, hi).len() ==> #[trigger] hits(
                base,
                ts,
                thresh,
                lo,
                hi,
            )[a] < #[trigger] hits(base, ts, thresh, lo, hi)[b],
        forall|x: int|
            lo <= x < hi && hit(base, ts[x], thresh) ==> #[trigger] hits(
                base,
                ts,
                thresh,
                lo,
                hi,
            ).contains(x),
        forall|x: int|
            #[trigger] hits(base, ts, thresh, lo, hi).contains(x) ==> lo <= x < hi && hit(
                base,
                ts[x],
                thresh,
            ),
    decreases hi - lo,
{
    if hi > lo {
        lemma_hits(base, ts, thresh, lo, hi - 1);
        let s = hits(base, ts, thresh, lo, hi - 1);
        let t = hits(base, ts, thresh, lo, hi);
        assert forall|x: int| lo <= x < hi && hit(base, ts[x], thresh) implies #[trigger] t.contains(
            x,
        ) by {
            if x < hi - 1 {
                assert(s.contains(x));
                let a = choose|a: int| 0 <= a < s.len() && s[a] == x;
                assert(t[a] == x);
            } else {
                assert(t[t.len() - 1] == x);
            }
        }
        assert forall|x: int| #[trigger] t.contains(x) implies lo <= x < hi && hit(
            base,
            ts[x],
            thresh,
        ) by {
            let a = choose|a: int| 0 <= a < t.len() && t[a] == x;
            if a < s.len() {
                assert(s[a] == x);
            }
        }
    }
}

pub proof fn lemma_kept_all(cands: Seq<int>, verdicts: Seq<bool>)
    requires
        verdicts.len() == cands.len(),
        forall|k: int| 0 <= k < verdicts.len() ==> verdicts[k],
    ensures
        kept(cands, verdicts) == cands,
    decreases cands.len(),
{
    if cands.len() > 0 {
        lemma_kept_all(cands.drop_last(), verdicts.subrange(0, cands.len() - 1));
        assert(cands.drop_last() + seq![cands.last()] =~= cands);
    }
}

proof fn lemma_after_wf(v: SearchView, js: Seq<int>)
    requires
        wf_view(v),
        v.next < n_bases(v),
    ensures
        wf_view(after(v, js)),
        n_bases(after(v, js)) == n_bases(v),
        after(v, js).targets.len() == v.targets.len(),
{
    let t = claim(v.targets, js);
    assert forall|k: int| 0 <= k < t.len() implies (#[trigger] t[k]).len() == PRINT_LEN by {
        assert(v.targets[k].len() == PRINT_LEN);
    }
}

proof fn lemma_candidates(v: SearchView)
    requires
        wf_view(v),
    ensures
        forall|a: int|
            0 <= a < candidates(v).len() ==> 0 <= #[trigger] candidates(v)[a] < v.targets.len(),
        forall|m: int|
            #[trigger] candidates(v).contains(m) ==> 0 <= m < v.targets.len() && !excluded(
                v.targets[m],
            ) && (!v.cross ==> m > v.next),
        forall|a: int, b: int|
            0 <= a < b < candidates(v).len() ==> #[trigger] candidates(v)[a] < #[trigger] candidates(
                v,
            )[b],
        candidates(v).len() > 0 ==> 0 <= v.next < n_bases(v),
        candidates(v).len() > 0 && !v.cross ==> !excluded(v.targets[v.next]),
{
    if !(v.next < 0 || v.next >= n_bases(v) || (!v.cross && excluded(v.targets[v.next]))) {
        lemma_hits(
            base_print(v, v.next),
            v.targets,
            v.thresh,
            scan_start(v, v.next),
            v.targets.len() as int,
        );
        let c = candidates(v);
        assert forall|a: int| 0 <= a < c.len() implies 0 <= #[trigger] c[a] < v.targets.len() by {
            assert(c.contains(c[a]));
        }
    }
}

proof fn lemma_excluded_stays(v: SearchView, j: int)
    requires
        wf_view(v),
        0 <= j < v.targets.len(),
        excluded(v.targets[j]),
    ensures
        forall|g: int|
            0 <= g < run_groups(v).len() ==> !#[trigger] run_groups(v)[g].1.contains(j) && (
            !v.cross ==> run_groups(v)[g].0 != j),
    decreases n_bases(v) - v.next,
{
    if 0 <= v.next < n_bases(v) {
        let c = candidates(v);
        let v2 = after(v, c);
        lemma_candidates(v);
        lemma_after_wf(v, c);
        assert(!c.contains(j));
        assert(v2.targets[j] == v.targets[j]);
        lemma_excluded_stays(v2, j);
        let gs = run_groups(v);
        let rest = run_groups(v2);
        if c.len() > 0 {
            assert(gs == seq![(v.next, c)] + rest);
            assert forall|g: int| 0 <= g < gs.len() implies !#[trigger] gs[g].1.contains(j) && (
            !v.cross ==> gs[g].0 != j) by {
                if g > 0 {
                    assert(gs[g] == rest[g - 1]);
                }
            }
        }
    }
}

proof fn lemma_groups(v: SearchView)
    requires
        wf_view(v),
    ensures
        forall|g: int, m: int|
            0 <= g < run_groups(v).len() && #[trigger] run_groups(v)[g].1.contains(m) ==> 0 <= m
                < v.targets.len() && (!v.cross ==> m > run_groups(v)[g].0),
        forall|g: int|
            0 <= g < run_groups(v).len() ==> v.next <= (#[trigger] run_groups(v)[g]).0 < n_bases(
                v,
            ),
        forall|g: int, a: int, b: int|
            0 <= g < run_groups(v).len() && 0 <= a < b < run_groups(v)[g].1.len()
                ==> #[trigger] run_groups(v)[g].1[a] < #[trigger] run_groups(v)[g].1[b],
        forall|p: int, q: int, m: int|
            0 <= p < q < run_groups(v).len() && #[trigger] run_groups(v)[p].1.contains(m) ==> !(
            #[trigger] run_groups(v)[q]).1.contains(m) && (!v.cross ==> run_groups(v)[q].0 != m),
    decreases n_bases(v) - v.next,
{
    if 0 <= v.next < n_bases(v) {
        let c = candidates(v);
        let v2 = after(v, c);
        lemma_candidates(v);
        lemma_after_wf(v, c);
        lemma_groups(v2);
        let gs = run_groups(v);
        let rest = run_groups(v2);
        if c.len() > 0 {
            assert(gs == seq![(v.next, c)] + rest);
            assert forall|m: int| #[trigger] c.contains(m) implies forall|g: int|
                0 <= g < rest.len() ==> !(#[trigger] rest[g]).1.contains(m) && (!v.cross
                    ==> rest[g].0 != m) by {
                assert(v2.targets[m] == zero_print());
                lemma_excluded_stays(v2, m);
            }
            assert forall|g: int, m: int|
                0 <= g < gs.len() && #[trigger] gs[g].1.contains(m) implies 0 <= m
                < v.targets.len() && (!v.cross ==> m > gs[g].0) by {
                if g > 0 {
                    assert(gs[g] == rest[g - 1]);
                }
            }
            assert forall|g: int| 0 <= g < gs.len() implies v.next <= (#[trigger] gs[g]).0 < n_bases(
                v,
            ) by {
                if g > 0 {
                    assert(gs[g] == rest[g - 1]);
                }
            }
            assert forall|g: int, a: int, b: int|
                0 <= g < gs.len() && 0 <= a < b < gs[g].1.len() implies #[trigger] gs[g].1[a]
                < #[trigger] gs[g].1[b] by {
                if g > 0 {
                    assert(gs[g] == rest[g - 1]);
                }
            }
            assert forall|p: int, q: int, m: int|
                0 <= p < q < gs.len() && #[trigger] gs[p].1.contains(m) implies !(
            #[trigger] gs[q]).1.contains(m) && (!v.cross ==> gs[q].0 != m) by {
                assert(gs[q] == rest[q - 1]);
                if p > 0 {
                    assert(gs[p] == rest[p - 1]);
                } else {
                    assert(gs[p].1 == c);
                    assert(!rest[q - 1].1.contains(m));
                }
            }
        }
    }
}

/// In self mode no fingerprint is reported as a duplicate of itself, every
/// member of a group comes after its base, and no pair is reported in both
/// directions.
pub proof fn lemma_self_mode_pairs(v: SearchView)
    requires
        wf_view(v),
        !v.cross,
    ensures
        forall|g: int, m: int|
            0 <= g < run_groups(v).len() && #[trigger] run_groups(v)[g].1.contains(m) ==> m
                > run_groups(v)[g].0,
        forall|p: int, q: int|
            0 <= p < run_groups(v).len() && 0 <= q < run_groups(v).len() ==> !((
            #[trigger] run_groups(v)[p]).1.contains(run_groups(v)[q].0) && (
            #[trigger] run_groups(v)[q]).1.contains(run_groups(v)[p].0)),
{
    lemma_groups(v);
}

/// A claimed slot never comes back: each target is reported in at most one
/// group and at most once in it, and in self mode a reported target is never
/// the base of a later group. A slot already claimed when the search starts is
/// never reported at all.
pub proof fn lemma_claimed_never_reappears(v: SearchView)
    requires
        wf_view(v),
    ensures
        forall|g: int, a: int, b: int|
            0 <= g < run_groups(v).len() && 0 <= a < b < run_groups(v)[g].1.len()
                ==> #[trigger] run_groups(v)[g].1[a] != #[trigger] run_groups(v)[g].1[b],
        forall|p: int, q: int, m: int|
            0 <= p < q < run_groups(v).len() && #[trigger] run_groups(v)[p].1.contains(m) ==> !(
            #[trigger] run_groups(v)[q]).1.contains(m) && (!v.cross ==> run_groups(v)[q].0 != m),
        forall|j: int, g: int|
            0 <= j < v.targets.len() && excluded(v.targets[j]) && 0 <= g < run_groups(v).len()
                ==> !#[trigger] run_groups(v)[g].1.contains(j) && (!v.cross ==> run_groups(v)[g].0
                != j),
{
    lemma_groups(v);
    assert forall|j: int, g: int|
        0 <= j < v.targets.len() && excluded(v.targets[j]) && 0 <= g < run_groups(
            v,
        ).len() implies !#[trigger] run_groups(v)[g].1.contains(j) && (!v.cross ==> run_groups(
        v,
    )[g].0 != j) by {
        lemma_excluded_stays(v, j);
    }
}

/// True when every byte of the fingerprint is zero.
pub fn is_excluded(p: &Vec<u8>) -> (r: bool)
    ensures
        r == excluded(p@),
{
    let mut k: usize = 0;
    while k < p.len()
        invariant
            0 <= k <= p@.len(),
            forall|i: int| 0 <= i < k ==> p@[i] == 0,
        decreases p@.len() - k,
    {
        if p[k] != 0 {
            return false;
        }
        k = k + 1;
    }
    true
}

/// The claimed fingerprint: all zero bytes.
pub fn zeroed() -> (r: Vec<u8>)
    ensures
        r@ == zero_print(),
{
    let mut r: Vec<u8> = Vec::new();
    while r.len() < PRINT_LEN
        invariant
            r@.len() <= PRINT_LEN,
            forall|i: int| 0 <= i < r@.len() ==> r@[i] == 0,
        decreases PRINT_LEN - r@.len(),
    {
        r.push(0);
    }
    assert(r@ =~= zero_print());
    r
}

/// One reported group: a base index and the target indices claimed for it.
pub struct Group {
    pub base: usize,
    pub members: Vec<usize>,
}

impl View for Group {
    type V = (int, Seq<int>);

    open spec fn view(&self) -> (int, Seq<int>) {
        (self.base as int, self.members@.map_values(|j: usize| j as int))
    }
}

/// A duplicate search over one fingerprint set (self mode) or two (cross mode).
pub struct Search {
    bases: Vec<Vec<u8>>,
    targets: Vec<Vec<u8>>,
    cross: bool,
    thresh: u64,
    next: usize,
}

pub open spec fn prints_view(s: Seq<Vec<u8>>) -> Seq<Seq<u8>> {
    s.map_values(|p: Vec<u8>| p@)
}

impl View for Search {
    type V = SearchView;

    closed spec fn view(&self) -> SearchView {
        SearchView {
            bases: prints_view(self.bases@),
            targets: prints_view(self.targets@),
            cross: self.cross,
            thresh: self.thresh as int,
            next: self.next as int,
        }
    }
}

impl Search {
    pub open spec fn wf(&self) -> bool {
        wf_view(self@)
    }

    /// A search of one set against itself at the given similarity percentage.
    pub fn new_self(prints: Vec<Vec<u8>>, similarity: u64) -> (r: Search)
        requires
            all_prints(prints_view(prints@)),
            similarity <= MAX_SIMILARITY,
        ensures
            r.wf(),
            r@ == (SearchView {
                bases: seq![],
                targets: prints_view(prints@),
                cross: false,
                thresh: threshold_of(similarity as int),
                next: 0,
            }),
    {
        let r = Search {
            bases: Vec::new(),
            targets: prints,
            cross: false,
            thresh: threshold(similarity),
            next: 0,
        };
        assert(r@.bases =~= seq![]);
        r
    }

    /// A search of every print of `bases` against every print of `targets`.
    pub fn new_cross(bases: Vec<Vec<u8>>, targets: Vec<Vec<u8>>, similarity: u64) -> (r: Search)
        requires
            all_prints(prints_view(bases@)),
            all_prints(prints_view(targets@)),
            similarity <= MAX_SIMILARITY,
        ensures
            r.wf(),
            r@ == (SearchView {
                bases: prints_view(bases@),
                targets: prints_view(targets@),
                cross: true,
                thresh: threshold_of(similarity as int),
                next: 0,
            }),
    {
        Search { bases, targets, cross: true, thresh: threshold(similarity), next: 0 }
    }

    /// True when every base has been handled.
    pub fn finished(&self) -> (r: bool)
        requires
            self.wf(),
        ensures
            r == (self@.next >= n_bases(self@)),
    {
        if self.cross {
            self.next >= self.bases.len()
        } else {
            self.next >= self.targets.len()
        }
    }

    /// Index of the next base.
    pub fn next_base(&self) -> (r: usize)
        ensures
            r == self@.next,
    {
        self.next
    }

    /// The unclaimed targets within the cutoff of the next base, ascending.
    pub fn candidates(&self) -> (r: Vec<usize>)
        requires
            self.wf(),
        ensures
            r@.map_values(|j: usize| j as int) == candidates(self@),
    {
        let ghost v = self@;
        let mut out: Vec<usize> = Vec::new();
        let n = if self.cross {
            self.bases.len()
        } else {
            self.targets.len()
        };
        if self.next >= n {
            assert(out@.map_values(|j: usize| j as int) =~= seq![]);
            return out;
        }
        let i = self.next;
        let base = if self.cross {
            &self.bases[i]
        } else {
            &self.targets[i]
        };
        assert(base@ == base_print(v, i as int));
        assert(base@.len() == PRINT_LEN) by {
            if v.cross {
                assert(v.bases[i as int].len() == PRINT_LEN);
            } else {
                assert(v.targets[i as int].len() == PRINT_LEN);
            }
        }
        if !self.cross && is_excluded(base) {
            assert(out@.map_values(|j: usize| j as int) =~= seq![]);
            return out;
        }
        let start: usize = if self.cross {
            0
        } else {
            i + 1
        };
        let mut j: usize = start;
        assert(out@.map_values(|j: usize| j as int) =~= seq![]);
        while j < self.targets.len()
            invariant
                self@ == v,
                wf_view(v),
                base@ == base_print(v, i as int),
                base@.len() == PRINT_LEN,
                i == v.next,
                start == scan_start(v, i as int),
                start <= j <= self.targets@.len(),
                out@.map_values(|j: usize| j as int) == hits(
                    base@,
                    v.targets,
                    v.thresh,
                    start as int,
                    j as int,
                ),
            decreases self.targets@.len() - j,
        {
            let t = &self.targets[j];
            assert(t@ == v.targets[j as int]);
            assert(v.targets[j as int].len() == PRINT_LEN);
            let ghost before = out@;
            if !is_excluded(t) && distance(base, t) < self.thresh {
                out.push(j);
                assert(out@ == before.push(j));
            }
            assert(out@.map_values(|j: usize| j as int) =~= hits(
                base@,
                v.targets,
                v.thresh,
                start as int,
                j + 1,
            ));
            j = j + 1;
        }
        out
    }

    /// Finishes the next base: claims the candidates whose verdict is `true` and
    /// returns them.
    pub fn advance(&mut self, verdicts: &Vec<bool>) -> (r: Vec<usize>)
        requires
            old(self).wf(),
            old(self)@.next < n_bases(old(self)@),
            verdicts@.len() == candidates(old(self)@).len(),
        ensures
            final(self).wf(),
            final(self)@ == after(old(self)@, kept(candidates(old(self)@), verdicts@)),
            r@.map_values(|j: usize| j as int) == kept(candidates(old(self)@), verdicts@),
    {
        let ghost v = self@;
        let c = self.candidates();
        let ghost cs = candidates(v);
        proof {
            if !(v.next < 0 || v.next >= n_bases(v) || (!v.cross && excluded(v.targets[v.next]))) {
                lemma_hits(
                    base_print(v, v.next),
                    v.targets,
                    v.thresh,
                    scan_start(v, v.next),
                    v.targets.len() as int,
                );
            }
            assert(forall|a: int| 0 <= a < cs.len() ==> 0 <= #[trigger] cs[a] < v.targets.len());
        }
        let mut out: Vec<usize> = Vec::new();
        let mut k: usize = 0;
        assert(out@.map_values(|j: usize| j as int) =~= kept(
            cs.subrange(0, 0),
            verdicts@.subrange(0, 0),
        ));
        assert(claim(v.targets, seq![]) =~= v.targets);
        while k < c.len()
            invariant
                v == old(self)@,
                wf_view(v),
                cs == candidates(v),
                c@.map_values(|j: usize| j as int) == cs,
                verdicts@.len() == cs.len(),
                forall|a: int| 0 <= a < cs.len() ==> 0 <= #[trigger] cs[a] < v.targets.len(),
                0 <= k <= c@.len(),
                self.bases == old(self).bases,
                self.cross == old(self).cross,
                self.thresh == old(self).thresh,
                self.next == old(self).next,
                self.targets@.len() == v.targets.len(),
                prints_view(self.targets@) == claim(v.targets, out@.map_values(|j: usize| j as int)),
                out@.map_values(|j: usize| j as int) == kept(
                    cs.subrange(0, k as int),
                    verdicts@.subrange(0, k as int),
                ),
            decreases c@.len() - k,
        {
            let ghost before = out@.map_values(|j: usize| j as int);
            assert(cs[k as int] == c@[k as int] as int);
            if verdicts[k] {
                let j = c[k];
                let ghost old_targets = prints_view(self.targets@);
                self.targets.set(j, zeroed());
                out.push(j);
                assert(out@.map_values(|j: usize| j as int) =~= before.push(j as int));
                let ghost after_js = before.push(j as int);
                assert forall|x: int| 0 <= x < v.targets.len() implies #[trigger] prints_view(
                    self.targets@,
                )[x] == claim(v.targets, after_js)[x] by {
                    if x == j as int {
                        assert(after_js[after_js.len() - 1] == x);
                        assert(after_js.contains(x));
                    } else {
                        assert(prints_view(self.targets@)[x] == old_targets[x]);
                        if before.contains(x) {
                            let a = choose|a: int| 0 <= a < before.len() && before[a] == x;
                            assert(after_js[a] == x);
                        }
                        if after_js.contains(x) {
                            let a = choose|a: int| 0 <= a < after_js.len() && after_js[a] == x;
                            assert(before[a] == x);
                        }
                    }
                }
            } else {
                assert(out@.map_values(|j: usize| j as int) =~= before);
            }
            assert(cs.subrange(0, k + 1).drop_last() =~= cs.subrange(0, k as int));
            assert(verdicts@.subrange(0, k + 1).subrange(0, k as int) =~= verdicts@.subrange(
                0,
                k as int,
            ));
            assert(prints_view(self.targets@) =~= claim(
                v.targets,
                out@.map_values(|j: usize| j as int),
            ));
            k = k + 1;
        }
        assert(cs.subrange(0, k as int) =~= cs);
        assert(verdicts@.subrange(0, k as int) =~= verdicts@);
        let n = if self.cross {
            self.bases.len()
        } else {
            self.targets.len()
        };
        assert(self.next < n);
        self.next = self.next + 1;
        out
    }

    /// Runs the search to the end, confirming every candidate, and returns the
    /// groups in base order.
    pub fn run(&mut self) -> (r: Vec<Group>)
        requires
            old(self).wf(),
        ensures
            final(self).wf(),
            final(self)@.next == n_bases(old(self)@),
            r@.map_values(|g: Group| g@) == run_groups(old(self)@),
    {
        let ghost v0 = self@;
        let mut out: Vec<Group> = Vec::new();
        assert(out@.map_values(|g: Group| g@) + run_groups(self@) =~= run_groups(v0));
        while !self.finished()
            invariant
                self.wf(),
                n_bases(self@) == n_bases(v0),
                out@.map_values(|g: Group| g@) + run_groups(self@) == run_groups(v0),
            decreases n_bases(self@) - self@.next,
        {
            let ghost v = self@;
            let base = self.next;
            let c = self.candidates();
            let mut verdicts: Vec<bool> = Vec::new();
            while verdicts.len() < c.len()
                invariant
                    verdicts@.len() <= c@.len(),
                    forall|k: int| 0 <= k < verdicts@.len() ==> verdicts@[k],
                decreases c@.len() - verdicts@.len(),
            {
                verdicts.push(true);
            }
            proof {
                lemma_kept_all(candidates(v), verdicts@);
            }
            let m = self.advance(&verdicts);
            let ghost before = out@.map_values(|g: Group| g@);
            if m.len() > 0 {
                let g = Group { base, members: m };
                out.push(g);
                assert(out@.map_values(|g: Group| g@) =~= before.push(g@));
                assert(before + run_groups(v) =~= before.push(g@) + run_groups(self@));
            } else {
                assert(out@.map_values(|g: Group| g@) =~= before);
            }
        }
        assert(run_groups(self@) =~= seq![]);
        assert(out@.map_values(|g: Group| g@) =~= run_groups(v0));
        out
    }
}

} // verus!
