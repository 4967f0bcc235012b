use vstd::prelude::*;

verus! {

pub const SLASH: u8 = 47;

/// Scans `p` from `i`: `cur` is the component being read and `acc` the
/// non-empty components already read.
pub open spec fn scan(p: Seq<u8>, i: int, cur: Seq<u8>, acc: Seq<Seq<u8>>) -> Seq<Seq<u8>>
    decreases p.len() - i,
{
    if i >= p.len() {
        if cur.len() > 0 {
            acc.push(cur)
        } else {
            acc
        }
    } else if p[i] == SLASH {
        scan(p, i + 1, seq![], if cur.len() > 0 { acc.push(cur) } else { acc })
    } else {
        scan(p, i + 1, cur.push(p[i]), acc)
    }
}

/// The non-empty `/`-separated components of a path.
pub open spec fn components(p: Seq<u8>) -> Seq<Seq<u8>> {
    scan(p, 0, seq![], seq![])
}

/// The root of a path: `/` for an absolute path, empty for a relative one.
pub open spec fn root(p: Seq<u8>) -> Seq<u8> {
    if p.len() > 0 && p[0] == SLASH {
        seq![SLASH]
    } else {
        seq![]
    }
}

/// The ancestor directories of a path, from the root outward, without the file
/// name.
pub open spec fn dirs(p: Seq<u8>) -> Seq<Seq<u8>> {
    let c = components(p);
    seq![root(p)] + if c.len() > 0 {
        c.drop_last()
    } else {
        c
    }
}

/// Each byte `b` as `b + 1`, then `0`: so that comparing codes compares the
/// bytes, a shorter prefix first.
pub open spec fn name_code(c: Seq<u8>) -> Seq<int> {
    c.map_values(|b: u8| b as int + 1) + seq![0int]
}

/// The codes of the directories, one after the other.
pub open spec fn dirs_code(ds: Seq<Seq<u8>>) -> Seq<int>
    decreases ds.len(),
{
    if ds.len() == 0 {
        seq![]
    } else {
        dirs_code(ds.drop_last()) + name_code(ds.last())
    }
}

pub open spec fn bytes_code(p: Seq<u8>) -> Seq<int> {
    p.map_values(|b: u8| b as int)
}

/// The sort key of a group member; the member with the smallest key is kept.
/// Size first: the higher resolution, then the earlier directories (a
/// shallower path when one chain of directories extends the other), then the
/// path's bytes. Depth first: the directories, then the resolution, then the
/// path. The `-1` closes the directories, below every code value.
pub open spec fn key(p: Seq<u8>, res: int, depth_first: bool) -> Seq<int> {
    if depth_first {
        dirs_code(dirs(p)) + seq![-1int, -res] + bytes_code(p)
    } else {
        seq![-res] + dirs_code(dirs(p)) + seq![-1int] + bytes_code(p)
    }
}

/// Lexicographic order on integer sequences, a proper prefix first.
pub open spec fn lex_lt(a: Seq<int>, b: Seq<int>) -> bool
    decreases a.len(),
{
    if a.len() == 0 {
        b.len() > 0
    } else if b.len() == 0 {
        false
    } else if a[0] != b[0] {
        a[0] < b[0]
    } else {
        lex_lt(a.drop_first(), b.drop_first())
    }
}

pub proof fn lemma_lex_irreflexive(a: Seq<int>)
    ensures
        !lex_lt(a, a),
    decreases a.len(),
{
    if a.len() > 0 {
        lemma_lex_irreflexive(a.drop_first());
    }
}

pub proof fn lemma_lex_transitive(a: Seq<int>, b: Seq<int>, c: Seq<int>)
    requires
        lex_lt(a, b),
        lex_lt(b, c),
    ensures
        lex_lt(a, c),
    decreases a.len(),
{
    if a.len() > 0 && b.len() > 0 && c.len() > 0 && a[0] == b[0] && b[0] == c[0] {
        lemma_lex_transitive(a.drop_first(), b.drop_first(), c.drop_first());
    }
}

pub proof fn lemma_lex_total(a: Seq<int>, b: Seq<int>)
    requires
        a != b,
    ensures
        lex_lt(a, b) || lex_lt(b, a),
    decreases a.len(),
{
    if a.len() > 0 && b.len() > 0 && a[0] == b[0] {
        if a.drop_first() == b.drop_first() {
            assert(a =~= seq![a[0]] + a.drop_first());
            assert(b =~= seq![b[0]] + b.drop_first());
        }
        lemma_lex_total(a.drop_first(), b.drop_first());
    } else if a.len() == 0 && b.len() == 0 {
        assert(a =~= b);
    }
}

proof fn lemma_dirs_code_nonneg(ds: Seq<Seq<u8>>)
    ensures
        forall|k: int| 0 <= k < dirs_code(ds).len() ==> #[trigger] dirs_code(ds)[k] >= 0,
    decreases ds.len(),
{
    if ds.len() > 0 {
        lemma_dirs_code_nonneg(ds.drop_last());
        let a = dirs_code(ds.drop_last());
        let b = name_code(ds.last());
        assert forall|k: int| 0 <= k < dirs_code(ds).len() implies #[trigger] dirs_code(ds)[k]
            >= 0 by {
            if k >= a.len() {
                assert(dirs_code(ds)[k] == b[k - a.len()]);
            }
        }
    }
}

/// `c1 + [-1] + t1 == c2 + [-1] + t2` with `c1`, `c2` free of negatives forces
/// `t1 == t2`.
proof fn lemma_split_at_mark(c1: Seq<int>, t1: Seq<int>, c2: Seq<int>, t2: Seq<int>)
    requires
        forall|k: int| 0 <= k < c1.len() ==> c1[k] >= 0,
        forall|k: int| 0 <= k < c2.len() ==> c2[k] >= 0,
        c1 + seq![-1int] + t1 == c2 + seq![-1int] + t2,
    ensures
        c1.len() == c2.len(),
        t1 == t2,
{
    let s1 = c1 + seq![-1int] + t1;
    let s2 = c2 + seq![-1int] + t2;
    if c1.len() < c2.len() {
        assert(s1[c1.len() as int] == -1);
        assert(s2[c1.len() as int] == c2[c1.len() as int]);
    } else if c2.len() < c1.len() {
        assert(s2[c2.len() as int] == -1);
        assert(s1[c2.len() as int] == c1[c2.len() as int]);
    }
    assert(t1 =~= s1.subrange(c1.len() as int + 1, s1.len() as int));
    assert(t2 =~= s2.subrange(c2.len() as int + 1, s2.len() as int));
}

/// Equal keys belong to the same path and resolution.
pub proof fn lemma_key_injective(pa: Seq<u8>, ra: int, pb: Seq<u8>, rb: int, depth_first: bool)
    requires
        key(pa, ra, depth_first) == key(pb, rb, depth_first),
    ensures
        pa == pb,
        ra == rb,
{
    let c1 = dirs_code(dirs(pa));
    let c2 = dirs_code(dirs(pb));
    lemma_dirs_code_nonneg(dirs(pa));
    lemma_dirs_code_nonneg(dirs(pb));
    if depth_first {
        let t1 = seq![-ra] + bytes_code(pa);
        let t2 = seq![-rb] + bytes_code(pb);
        assert(key(pa, ra, true) =~= c1 + seq![-1int] + t1);
        assert(key(pb, rb, true) =~= c2 + seq![-1int] + t2);
        lemma_split_at_mark(c1, t1, c2, t2);
        assert(t1[0] == t2[0]);
        assert(bytes_code(pa) =~= t1.drop_first());
        assert(bytes_code(pb) =~= t2.drop_first());
    } else {
        let k1 = key(pa, ra, false);
        let k2 = key(pb, rb, false);
        assert(k1[0] == -ra);
        assert(k2[0] == -rb);
        assert(k1.drop_first() =~= c1 + seq![-1int] + bytes_code(pa));
        assert(k2.drop_first() =~= c2 + seq![-1int] + bytes_code(pb));
        lemma_split_at_mark(c1, bytes_code(pa), c2, bytes_code(pb));
    }
    assert(bytes_code(pa).len() == pa.len());
    assert(bytes_code(pb).len() == pb.len());
    assert forall|k: int| 0 <= k < pa.len() implies pa[k] == pb[k] by {
        assert(bytes_code(pa)[k] == bytes_code(pb)[k]);
    }
    assert(pa =~= pb);
}

pub open spec fn names_view(s: Seq<Vec<u8>>) -> Seq<Seq<u8>> {
    s.map_values(|c: Vec<u8>| c@)
}

pub open spec fn ints(s: Seq<i128>) -> Seq<int> {
    s.map_values(|x: i128| x as int)
}

/// The non-empty `/`-separated components of a path.
pub fn path_components(p: &Vec<u8>) -> (r: Vec<Vec<u8>>)
    ensures
        names_view(r@) == components(p@),
{
    let mut acc: Vec<Vec<u8>> = Vec::new();
    let mut cur: Vec<u8> = Vec::new();
    let mut i: usize = 0;
    assert(names_view(acc@) =~= seq![]);
    while i < p.len()
        invariant
            0 <= i <= p@.len(),
            scan(p@, i as int, cur@, names_view(acc@)) == components(p@),
        decreases p@.len() - i,
    {
        if p[i] == SLASH {
            if cur.len() > 0 {
                let ghost before = names_view(acc@);
                acc.push(cur);
                assert(names_view(acc@) =~= before.push(cur@));
            }
            cur = Vec::new();
            assert(cur@ =~= seq![]);
        } else {
            cur.push(p[i]);
        }
        i = i + 1;
    }
    if cur.len() > 0 {
        let ghost before = names_view(acc@);
        acc.push(cur);
        assert(names_view(acc@) =~= before.push(cur@));
    }
    acc
}

/// The ancestor directories of a path, from the root outward.
pub fn path_dirs(p: &Vec<u8>) -> (r: Vec<Vec<u8>>)
    ensures
        names_view(r@) == dirs(p@),
{
    let mut c = path_components(p);
    let mut root_dir: Vec<u8> = Vec::new();
    if p.len() > 0 && p[0] == SLASH {
        root_dir.push(SLASH);
    }
    assert(root_dir@ =~= root(p@));
    if c.len() > 0 {
        let ghost full = names_view(c@);
        c.pop();
        assert(names_view(c@) =~= full.drop_last());
    }
    let mut r: Vec<Vec<u8>> = Vec::new();
    r.push(root_dir);
    let ghost head = names_view(r@);
    let ghost tail = names_view(c@);
    r.append(&mut c);
    assert(names_view(r@) =~= head + tail);
    assert(names_view(r@) =~= dirs(p@));
    r
}

/// The sort key of a member with path `p` and resolution `res`.
pub fn sort_key(p: &Vec<u8>, res: u64, depth_first: bool) -> (r: Vec<i128>)
    ensures
        ints(r@) == key(p@, res as int, depth_first),
{
    let ds = path_dirs(p);
    let ghost dv = names_view(ds@);
    let mut out: Vec<i128> = Vec::new();
    if !depth_first {
        out.push(-(res as i128));
    }
    let ghost head = ints(out@);
    assert(ints(out@) =~= head + dirs_code(dv.subrange(0, 0)));
    assert(dv =~= dirs(p@));
    let mut k: usize = 0;
    while k < ds.len()
        invariant
            0 <= k <= ds@.len(),
            dv == names_view(ds@),
            ints(out@) == head + dirs_code(dv.subrange(0, k as int)),
        decreases ds@.len() - k,
    {
        let d = &ds[k];
        let ghost before = ints(out@);
        let mut j: usize = 0;
        assert(ints(out@) =~= before + d@.subrange(0, 0).map_values(|b: u8| b as int + 1));
        while j < d.len()
            invariant
                0 <= j <= d@.len(),
                ints(out@) == before + d@.subrange(0, j as int).map_values(|b: u8| b as int + 1),
            decreases d@.len() - j,
        {
            let ghost prev = out@;
            out.push(d[j] as i128 + 1);
            assert(ints(out@) =~= ints(prev).push(d@[j as int] as int + 1));
            assert(d@.subrange(0, j + 1).map_values(|b: u8| b as int + 1) =~= d@.subrange(
                0,
                j as int,
            ).map_values(|b: u8| b as int + 1).push(d@[j as int] as int + 1));
            assert(ints(out@) =~= before + d@.subrange(0, j + 1).map_values(|b: u8| b as int + 1));
            j = j + 1;
        }
        let ghost prev = out@;
        out.push(0);
        assert(ints(out@) =~= ints(prev).push(0));
        assert(d@.subrange(0, j as int) =~= d@);
        assert(ints(out@) =~= before + name_code(d@));
        assert(dv.subrange(0, k + 1).drop_last() =~= dv.subrange(0, k as int));
        assert(dv[k as int] == d@);
        assert(ints(out@) =~= head + dirs_code(dv.subrange(0, k + 1)));
        k = k + 1;
    }
    assert(dv.subrange(0, k as int) =~= dv);
    let ghost pre = out@;
    out.push(-1);
    assert(ints(out@) =~= ints(pre).push(-1));
    if depth_first {
        let ghost pre2 = out@;
        out.push(-(res as i128));
        assert(ints(out@) =~= ints(pre2).push(-(res as int)));
    }
    let ghost mid = ints(out@);
    let mut i: usize = 0;
    assert(ints(out@) =~= mid + bytes_code(p@.subrange(0, 0)));
    while i < p.len()
        invariant
            0 <= i <= p@.len(),
            ints(out@) == mid + bytes_code(p@.subrange(0, i as int)),
        decreases p@.len() - i,
    {
        let ghost prev = out@;
        out.push(p[i] as i128);
        assert(ints(out@) =~= ints(prev).push(p@[i as int] as int));
        assert(bytes_code(p@.subrange(0, i + 1)) =~= bytes_code(p@.subrange(0, i as int)).push(
            p@[i as int] as int,
        ));
        assert(ints(out@) =~= mid + bytes_code(p@.subrange(0, i + 1)));
        i = i + 1;
    }
    assert(p@.subrange(0, i as int) =~= p@);
    if depth_first {
        assert(mid =~= dirs_code(dirs(p@)) + seq![-1int, -(res as int)]);
    } else {
        assert(mid =~= seq![-(res as int)] + dirs_code(dirs(p@)) + seq![-1int]);
    }
    assert(ints(out@) =~= key(p@, res as int, depth_first));
    out
}

/// Lexicographic comparison of two keys.
pub fn key_less(a: &Vec<i128>, b: &Vec<i128>) -> (r: bool)
    ensures
        r == lex_lt(ints(a@), ints(b@)),
{
    let ghost av = ints(a@);
    let ghost bv = ints(b@);
    let mut i: usize = 0;
    assert(av.subrange(0, av.len() as int) =~= av);
    assert(bv.subrange(0, bv.len() as int) =~= bv);
    while i < a.len() && i < b.len()
        invariant
            0 <= i <= a@.len(),
            i <= b@.len(),
            av == ints(a@),
            bv == ints(b@),
            lex_lt(av, bv) == lex_lt(
                av.subrange(i as int, av.len() as int),
                bv.subrange(i as int, bv.len() as int),
            ),
        decreases a@.len() - i,
    {
        if a[i] != b[i] {
            return a[i] < b[i];
        }
        assert(av.subrange(i as int, av.len() as int).drop_first() =~= av.subrange(
            i + 1,
            av.len() as int,
        ));
        assert(bv.subrange(i as int, bv.len() as int).drop_first() =~= bv.subrange(
            i + 1,
            bv.len() as int,
        ));
        i = i + 1;
    }
    i < b.len()
}

/// One path of a duplicate group with its resolution (width times height;
/// zero when it could not be read).
pub struct Member {
    pub path: Vec<u8>,
    pub res: u64,
}

impl View for Member {
    type V = (Seq<u8>, int);

    open spec fn view(&self) -> (Seq<u8>, int) {
        (self.path@, self.res as int)
    }
}

pub open spec fn member_key(m: (Seq<u8>, int), depth_first: bool) -> Seq<int> {
    key(m.0, m.1, depth_first)
}

pub open spec fn members_view(g: Seq<Member>) -> Seq<(Seq<u8>, int)> {
    g.map_values(|m: Member| m@)
}

/// `k` is a member that no other member of `g` precedes.
pub open spec fn is_keeper(g: Seq<(Seq<u8>, int)>, k: int, depth_first: bool) -> bool {
    &&& 0 <= k < g.len()
    &&& forall|j: int|
        0 <= j < g.len() ==> !lex_lt(
            #[trigger] member_key(g[j], depth_first),
            member_key(g[k], depth_first),
        )
}

/// The index of the member to keep: the one with the smallest key.
pub fn keeper(group: &Vec<Member>, depth_first: bool) -> (r: usize)
    requires
        group@.len() > 0,
    ensures
        is_keeper(members_view(group@), r as int, depth_first),
{
    let ghost g = members_view(group@);
    let mut best: usize = 0;
    let mut best_key = sort_key(&group[0].path, group[0].res, depth_first);
    proof {
        lemma_lex_irreflexive(member_key(g[0], depth_first));
    }
    let mut i: usize = 1;
    while i < group.len()
        invariant
            g == members_view(group@),
            1 <= i <= group@.len(),
            best < i,
            ints(best_key@) == member_key(g[best as int], depth_first),
            forall|j: int|
                0 <= j < i ==> !lex_lt(
                    #[trigger] member_key(g[j], depth_first),
                    member_key(g[best as int], depth_first),
                ),
        decreases group@.len() - i,
    {
        let k = sort_key(&group[i].path, group[i].res, depth_first);
        assert(g[i as int] == group@[i as int]@);
        if key_less(&k, &best_key) {
            proof {
                assert forall|j: int| 0 <= j < i + 1 implies !lex_lt(
                    #[trigger] member_key(g[j], depth_first),
                    member_key(g[i as int], depth_first),
                ) by {
                    if j == i {
                        lemma_lex_irreflexive(member_key(g[j], depth_first));
                    } else if lex_lt(member_key(g[j], depth_first), member_key(g[i as int], depth_first)) {
                        lemma_lex_transitive(
                            member_key(g[j], depth_first),
                            member_key(g[i as int], depth_first),
                            member_key(g[best as int], depth_first),
                        );
                    }
                }
            }
            best = i;
            best_key = k;
        }
        i = i + 1;
    }
    best
}

/// A copy of a member.
pub fn copy_member(m: &Member) -> (r: Member)
    ensures
        r@ == m@,
{
    Member { path: m.path.clone(), res: m.res }
}

/// `s` runs from the member to discard first to the one to keep last.
pub open spec fn descending(s: Seq<(Seq<u8>, int)>, depth_first: bool) -> bool {
    forall|a: int, b: int|
        0 <= a < b < s.len() ==> !lex_lt(
            #[trigger] member_key(s[a], depth_first),
            #[trigger] member_key(s[b], depth_first),
        )
}

/// The index of a member that no other member follows.
fn latest(group: &Vec<Member>, depth_first: bool) -> (r: usize)
    requires
        group@.len() > 0,
    ensures
        r < group@.len(),
        forall|j: int|
            0 <= j < group@.len() ==> !lex_lt(
                member_key(members_view(group@)[r as int], depth_first),
                #[trigger] member_key(members_view(group@)[j], depth_first),
            ),
{
    let ghost g = members_view(group@);
    let mut best: usize = 0;
    let mut best_key = sort_key(&group[0].path, group[0].res, depth_first);
    proof {
        lemma_lex_irreflexive(member_key(g[0], depth_first));
    }
    let mut i: usize = 1;
    while i < group.len()
        invariant
            g == members_view(group@),
            1 <= i <= group@.len(),
            best < i,
            ints(best_key@) == member_key(g[best as int], depth_first),
            forall|j: int|
                0 <= j < i ==> !lex_lt(
                    member_key(g[best as int], depth_first),
                    #[trigger] member_key(g[j], depth_first),
                ),
        decreases group@.len() - i,
    {
        let k = sort_key(&group[i].path, group[i].res, depth_first);
        assert(g[i as int] == group@[i as int]@);
        if key_less(&best_key, &k) {
            proof {
                assert forall|j: int| 0 <= j < i + 1 implies !lex_lt(
                    member_key(g[i as int], depth_first),
                    #[trigger] member_key(g[j], depth_first),
                ) by {
                    if j == i {
                        lemma_lex_irreflexive(member_key(g[j], depth_first));
                    } else if lex_lt(member_key(g[i as int], depth_first), member_key(g[j], depth_first)) {
                        lemma_lex_transitive(
                            member_key(g[best as int], depth_first),
                            member_key(g[i as int], depth_first),
                            member_key(g[j], depth_first),
                        );
                    }
                }
            }
            best = i;
            best_key = k;
        }
        i = i + 1;
    }
    best
}

/// The group sorted from the first member to discard to the member to keep,
/// which comes last.
pub fn order(group: &Vec<Member>, depth_first: bool) -> (r: Vec<Member>)
    ensures
        members_view(r@).to_multiset() == members_view(group@).to_multiset(),
        descending(members_view(r@), depth_first),
        r@.len() == group@.len(),
        r@.len() > 0 ==> is_keeper(members_view(r@), r@.len() - 1, depth_first),
{
    let ghost whole = members_view(group@).to_multiset();
    let mut rem: Vec<Member> = Vec::new();
    let mut i: usize = 0;
    while i < group.len()
        invariant
            0 <= i <= group@.len(),
            members_view(rem@) == members_view(group@).subrange(0, i as int),
        decreases group@.len() - i,
    {
        let ghost before = members_view(rem@);
        rem.push(copy_member(&group[i]));
        assert(members_view(rem@) =~= before.push(group@[i as int]@));
        assert(members_view(rem@) =~= members_view(group@).subrange(0, i + 1));
        i = i + 1;
    }
    assert(members_view(group@).subrange(0, i as int) =~= members_view(group@));
    let mut out: Vec<Member> = Vec::new();
    assert(members_view(out@) + members_view(rem@) =~= members_view(group@));
    while rem.len() > 0
        invariant
            (members_view(out@) + members_view(rem@)).to_multiset() == whole,
            out@.len() + rem@.len() == group@.len(),
            descending(members_view(out@), depth_first),
            forall|a: int, b: int|
                0 <= a < out@.len() && 0 <= b < rem@.len() ==> !lex_lt(
                    #[trigger] member_key(members_view(out@)[a], depth_first),
                    #[trigger] member_key(members_view(rem@)[b], depth_first),
                ),
        decreases rem@.len(),
    {
        let ghost o = members_view(out@);
        let ghost r = members_view(rem@);
        let p = latest(&rem, depth_first);
        let x = rem.remove(p);
        let ghost xv = x@;
        assert(xv == r[p as int]);
        out.push(x);
        let ghost o2 = members_view(out@);
        let ghost rest = members_view(rem@);
        assert(o2 =~= o.push(xv));
        assert(rest =~= r.remove(p as int));
        proof {
            assert((o2 + rest).to_multiset() =~= whole) by {
                vstd::seq_lib::lemma_multiset_commutative(o, r);
                vstd::seq_lib::lemma_multiset_commutative(o2, rest);
                vstd::seq_lib::to_multiset_build(o, xv);
                vstd::seq_lib::to_multiset_remove(r, p as int);
                assert(o2.to_multiset() =~= o.to_multiset().insert(xv));
                assert(rest.to_multiset() =~= r.to_multiset().remove(xv));
                assert(r.to_multiset().count(xv) > 0) by {
                    vstd::seq_lib::to_multiset_contains(r, xv);
                    assert(r.contains(xv));
                }
            }
            assert forall|a: int, b: int| 0 <= a < b < o2.len() implies !lex_lt(
                #[trigger] member_key(o2[a], depth_first),
                #[trigger] member_key(o2[b], depth_first),
            ) by {
                if b < o.len() {
                    assert(o2[a] == o[a] && o2[b] == o[b]);
                } else {
                    assert(o2[a] == o[a]);
                    assert(o2[b] == r[p as int]);
                }
            }
            assert forall|a: int, b: int| 0 <= a < o2.len() && 0 <= b < rest.len() implies !lex_lt(
                #[trigger] member_key(o2[a], depth_first),
                #[trigger] member_key(rest[b], depth_first),
            ) by {
                let k = if b < p { b } else { b + 1 };
                assert(rest[b] == r[k]);
                if a < o.len() {
                    assert(o2[a] == o[a]);
                } else {
                    assert(o2[a] == r[p as int]);
                }
            }
        }
    }
    assert(members_view(out@) + members_view(rem@) =~= members_view(out@));
    proof {
        let s = members_view(out@);
        if s.len() > 0 {
            assert forall|j: int| 0 <= j < s.len() implies !lex_lt(
                #[trigger] member_key(s[j], depth_first),
                member_key(s[s.len() - 1], depth_first),
            ) by {
                if j == s.len() - 1 {
                    lemma_lex_irreflexive(member_key(s[j], depth_first));
                } else {
                    assert(!lex_lt(member_key(s[j], depth_first), member_key(s[s.len() - 1], depth_first)));
                }
            }
        }
    }
    out
}

/// The keeper does not depend on the order of the group's lines: two groups
/// that hold the same members (in any order) keep the same member, and a group
/// has a single keeper.
pub proof fn lemma_keeper_order_free(
    g1: Seq<(Seq<u8>, int)>,
    k1: int,
    g2: Seq<(Seq<u8>, int)>,
    k2: int,
    depth_first: bool,
)
    requires
        is_keeper(g1, k1, depth_first),
        is_keeper(g2, k2, depth_first),
        forall|x: (Seq<u8>, int)| #[trigger] g1.contains(x) <==> g2.contains(x),
    ensures
        g1[k1] == g2[k2],
{
    let a = g1[k1];
    let b = g2[k2];
    assert(g1.contains(a));
    assert(g2.contains(b));
    assert(g2.contains(a));
    assert(g1.contains(b));
    let ja = choose|j: int| 0 <= j < g2.len() && g2[j] == a;
    let jb = choose|j: int| 0 <= j < g1.len() && g1[j] == b;
    assert(!lex_lt(member_key(g2[ja], depth_first), member_key(b, depth_first)));
    assert(!lex_lt(member_key(g1[jb], depth_first), member_key(a, depth_first)));
    if member_key(a, depth_first) != member_key(b, depth_first) {
        lemma_lex_total(member_key(a, depth_first), member_key(b, depth_first));
    }
    lemma_key_injective(a.0, a.1, b.0, b.1, depth_first);
}

/// Two sorted groups that hold the same members are the same sequence: the
/// order of a group, and so the discarded files and the merged name, does not
/// depend on the order of its lines.
pub proof fn lemma_order_unique(
    s1: Seq<(Seq<u8>, int)>,
    s2: Seq<(Seq<u8>, int)>,
    depth_first: bool,
)
    requires
        descending(s1, depth_first),
        descending(s2, depth_first),
        s1.to_multiset() == s2.to_multiset(),
    ensures
        s1 == s2,
    decreases s1.len(),
{
    vstd::seq_lib::to_multiset_len(s1);
    vstd::seq_lib::to_multiset_len(s2);
    if s1.len() == 0 {
        assert(s1 =~= s2);
    } else {
        let n = s1.len() - 1;
        assert forall|x: (Seq<u8>, int)| #[trigger] s1.contains(x) <==> s2.contains(x) by {
            vstd::seq_lib::to_multiset_contains(s1, x);
            vstd::seq_lib::to_multiset_contains(s2, x);
        }
        assert(is_keeper(s1, n, depth_first)) by {
            assert forall|j: int| 0 <= j < s1.len() implies !lex_lt(
                #[trigger] member_key(s1[j], depth_first),
                member_key(s1[n], depth_first),
            ) by {
                if j == n {
                    lemma_lex_irreflexive(member_key(s1[j], depth_first));
                }
            }
        }
        assert(is_keeper(s2, n, depth_first)) by {
            assert forall|j: int| 0 <= j < s2.len() implies !lex_lt(
                #[trigger] member_key(s2[j], depth_first),
                member_key(s2[n], depth_first),
            ) by {
                if j == n {
                    lemma_lex_irreflexive(member_key(s2[j], depth_first));
                }
            }
        }
        lemma_keeper_order_free(s1, n, s2, n, depth_first);
        vstd::seq_lib::to_multiset_remove(s1, n);
        vstd::seq_lib::to_multiset_remove(s2, n);
        assert(s1.remove(n) =~= s1.drop_last());
        assert(s2.remove(n) =~= s2.drop_last());
        let t1 = s1.drop_last();
        let t2 = s2.drop_last();
        assert(descending(t1, depth_first)) by {
            assert forall|a: int, b: int| 0 <= a < b < t1.len() implies !lex_lt(
                #[trigger] member_key(t1[a], depth_first),
                #[trigger] member_key(t1[b], depth_first),
            ) by {
                assert(t1[a] == s1[a] && t1[b] == s1[b]);
            }
        }
        assert(descending(t2, depth_first)) by {
            assert forall|a: int, b: int| 0 <= a < b < t2.len() implies !lex_lt(
                #[trigger] member_key(t2[a], depth_first),
                #[trigger] member_key(t2[b], depth_first),
            ) by {
                assert(t2[a] == s2[a] && t2[b] == s2[b]);
            }
        }
        lemma_order_unique(t1, t2, depth_first);
        assert(s1 =~= t1.push(s1[n]));
        assert(s2 =~= t2.push(s2[n]));
    }
}

} // verus!
