use crate::resolve::{members_view, names_view, Member};
use vstd::prelude::*;

verus! {

pub const NEWLINE: u8 = 10;

pub const RETURN: u8 = 13;

/// A line without its carriage return, if it ends in one.
pub open spec fn strip_cr(l: Seq<u8>) -> Seq<u8> {
    if l.len() > 0 && l.last() == RETURN {
        l.drop_last()
    } else {
        l
    }
}

/// Scans `t` from `i`: `cur` is the line being read, `acc` the lines read. A
/// last line without a line feed counts when it is not empty.
pub open spec fn line_scan(t: Seq<u8>, i: int, cur: Seq<u8>, acc: Seq<Seq<u8>>) -> Seq<Seq<u8>>
    decreases t.len() - i,
{
    if i >= t.len() {
        if cur.len() > 0 {
            acc.push(strip_cr(cur))
        } else {
            acc
        }
    } else if t[i] == NEWLINE {
        line_scan(t, i + 1, seq![], acc.push(strip_cr(cur)))
    } else {
        line_scan(t, i + 1, cur.push(t[i]), acc)
    }
}

/// The lines of a text.
pub open spec fn lines(t: Seq<u8>) -> Seq<Seq<u8>> {
    line_scan(t, 0, seq![], seq![])
}

/// Scans lines from `i`: `cur` is the run of non-blank lines being read, `acc`
/// the runs already closed by a blank line. A run that no blank line closes is
/// not a group.
pub open spec fn group_scan(
    ls: Seq<Seq<u8>>,
    i: int,
    cur: Seq<Seq<u8>>,
    acc: Seq<Seq<Seq<u8>>>,
) -> Seq<Seq<Seq<u8>>>
    decreases ls.len() - i,
{
    if i >= ls.len() {
        acc
    } else if ls[i].len() == 0 {
        group_scan(ls, i + 1, seq![], if cur.len() > 0 { acc.push(cur) } else { acc })
    } else {
        group_scan(ls, i + 1, cur.push(ls[i]), acc)
    }
}

/// The duplicate groups of a results stream.
pub open spec fn groups(ls: Seq<Seq<u8>>) -> Seq<Seq<Seq<u8>>> {
    group_scan(ls, 0, seq![], seq![])
}

pub open spec fn groups_view(g: Seq<Vec<Vec<u8>>>) -> Seq<Seq<Seq<u8>>> {
    g.map_values(|x: Vec<Vec<u8>>| names_view(x@))
}

fn without_cr(mut l: Vec<u8>) -> (r: Vec<u8>)
    ensures
        r@ == strip_cr(l@),
{
    if l.len() > 0 && l[l.len() - 1] == RETURN {
        l.pop();
    }
    l
}

/// Splits a text into lines.
pub fn split_lines(t: &Vec<u8>) -> (r: Vec<Vec<u8>>)
    ensures
        names_view(r@) == lines(t@),
{
    let mut acc: Vec<Vec<u8>> = Vec::new();
    let mut cur: Vec<u8> = Vec::new();
    let mut i: usize = 0;
    assert(names_view(acc@) =~= seq![]);
    assert(cur@ =~= seq![]);
    while i < t.len()
        invariant
            0 <= i <= t@.len(),
            line_scan(t@, i as int, cur@, names_view(acc@)) == lines(t@),
        decreases t@.len() - i,
    {
        if t[i] == NEWLINE {
            let ghost before = names_view(acc@);
            let l = without_cr(cur);
            acc.push(l);
            assert(names_view(acc@) =~= before.push(l@));
            cur = Vec::new();
            assert(cur@ =~= seq![]);
        } else {
            cur.push(t[i]);
        }
        i = i + 1;
    }
    if cur.len() > 0 {
        let ghost before = names_view(acc@);
        let l = without_cr(cur);
        acc.push(l);
        assert(names_view(acc@) =~= before.push(l@));
    }
    acc
}

/// Splits the lines of a results stream into its duplicate groups.
pub fn split_groups(ls: &Vec<Vec<u8>>) -> (r: Vec<Vec<Vec<u8>>>)
    ensures
        groups_view(r@) == groups(names_view(ls@)),
{
    let ghost lv = names_view(ls@);
    let mut acc: Vec<Vec<Vec<u8>>> = Vec::new();
    let mut cur: Vec<Vec<u8>> = Vec::new();
    let mut i: usize = 0;
    assert(groups_view(acc@) =~= seq![]);
    assert(names_view(cur@) =~= seq![]);
    while i < ls.len()
        invariant
            0 <= i <= ls@.len(),
            lv == names_view(ls@),
            group_scan(lv, i as int, names_view(cur@), groups_view(acc@)) == groups(lv),
        decreases ls@.len() - i,
    {
        assert(lv[i as int] == ls@[i as int]@);
        if ls[i].len() == 0 {
            if cur.len() > 0 {
                let ghost before = groups_view(acc@);
                let ghost c = names_view(cur@);
                acc.push(cur);
                assert(groups_view(acc@) =~= before.push(c));
            }
            cur = Vec::new();
            assert(names_view(cur@) =~= seq![]);
        } else {
            let ghost before = names_view(cur@);
            cur.push(ls[i].clone());
            assert(names_view(cur@) =~= before.push(lv[i as int]));
        }
        i = i + 1;
    }
    acc
}

/// The paths of the group but the one at `keep`, in order.
pub fn discards(group: &Vec<Member>, keep: usize) -> (r: Vec<Vec<u8>>)
    requires
        keep < group@.len(),
    ensures
        names_view(r@) == members_view(group@).remove(keep as int).map_values(
            |m: (Seq<u8>, int)| m.0,
        ),
{
    let ghost want = members_view(group@).remove(keep as int).map_values(|m: (Seq<u8>, int)| m.0);
    let mut r: Vec<Vec<u8>> = Vec::new();
    let mut i: usize = 0;
    while i < group.len()
        invariant
            0 <= i <= group@.len(),
            keep < group@.len(),
            want == members_view(group@).remove(keep as int).map_values(|m: (Seq<u8>, int)| m.0),
            i <= keep ==> names_view(r@) == want.subrange(0, i as int),
            i > keep ==> names_view(r@) == want.subrange(0, i - 1),
        decreases group@.len() - i,
    {
        if i != keep {
            let ghost before = names_view(r@);
            let p = group[i].path.clone();
            r.push(p);
            assert(names_view(r@) =~= before.push(p@));
            if i < keep {
                assert(names_view(r@) =~= want.subrange(0, i + 1));
            } else {
                assert(names_view(r@) =~= want.subrange(0, i as int));
            }
        }
        i = i + 1;
    }
    assert(names_view(r@) =~= want);
    r
}

} // verus!
