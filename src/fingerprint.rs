use crate::distance::PRINT_LEN;
use crate::search::{all_prints, excluded, prints_view};
use vstd::prelude::*;

verus! {

/// ASCII white space, as `char::is_whitespace` has it for single bytes other
/// than the line feed.
pub open spec fn is_space(b: u8) -> bool {
    b == 32 || b == 9 || b == 11 || b == 12 || b == 13
}

pub open spec fn hex_val(b: u8) -> Option<int> {
    if 48 <= b <= 57 {
        Some(b - 48)
    } else if 97 <= b <= 102 {
        Some(b - 87)
    } else if 65 <= b <= 70 {
        Some(b - 55)
    } else {
        None
    }
}

/// Index of the first space at or after `i`, or the length.
pub open spec fn first_space(l: Seq<u8>, i: int) -> int
    decreases l.len() - i,
{
    if i >= l.len() {
        l.len() as int
    } else if is_space(l[i]) {
        i
    } else {
        first_space(l, i + 1)
    }
}

/// Index of the first non-space at or after `i`, or the length.
pub open spec fn skip_space(l: Seq<u8>, i: int) -> int
    decreases l.len() - i,
{
    if i >= l.len() {
        l.len() as int
    } else if is_space(l[i]) {
        skip_space(l, i + 1)
    } else {
        i
    }
}

pub open spec fn hex_ok(h: Seq<u8>) -> bool {
    h.len() == 2 * PRINT_LEN && forall|k: int| 0 <= k < h.len() ==> (#[trigger] hex_val(h[k])) is Some
}

pub open spec fn decode(h: Seq<u8>) -> Seq<u8> {
    Seq::new(
        PRINT_LEN as nat,
        |i: int| (hex_val(h[2 * i])->Some_0 * 16 + hex_val(h[2 * i + 1])->Some_0) as u8,
    )
}

/// An all-zero hash would read as a claimed slot: it becomes a one-bit value.
pub open spec fn fix_zero(p: Seq<u8>) -> Seq<u8> {
    if excluded(p) {
        p.update(0, 1)
    } else {
        p
    }
}

/// Why a line of a fingerprint list was refused.
#[derive(Clone, Copy, Debug, PartialEq, Eq, Structural)]
pub enum LineError {
    /// No white space parts the hash from the path.
    NoSeparator,
    /// The hash is not 64 hex digits.
    BadHash,
}

/// A line `<64 hex digits><white space><path>`: the fingerprint and the path.
pub open spec fn parse_line_spec(l: Seq<u8>) -> Result<(Seq<u8>, Seq<u8>), LineError> {
    let s = first_space(l, 0);
    if s >= l.len() {
        Err(LineError::NoSeparator)
    } else if !hex_ok(l.subrange(0, s)) {
        Err(LineError::BadHash)
    } else {
        Ok((fix_zero(decode(l.subrange(0, s))), l.subrange(skip_space(l, s), l.len() as int)))
    }
}

proof fn lemma_first_space(l: Seq<u8>, i: int)
    requires
        0 <= i <= l.len(),
    ensures
        i <= first_space(l, i) <= l.len(),
        forall|k: int| i <= k < first_space(l, i) ==> !is_space(#[trigger] l[k]),
        first_space(l, i) < l.len() ==> is_space(l[first_space(l, i)]),
    decreases l.len() - i,
{
    if i < l.len() && !is_space(l[i]) {
        lemma_first_space(l, i + 1);
    }
}

proof fn lemma_skip_space(l: Seq<u8>, i: int)
    requires
        0 <= i <= l.len(),
    ensures
        i <= skip_space(l, i) <= l.len(),
    decreases l.len() - i,
{
    if i < l.len() && is_space(l[i]) {
        lemma_skip_space(l, i + 1);
    }
}

fn hex_digit(b: u8) -> (r: Option<u8>)
    ensures
        r is Some <==> hex_val(b) is Some,
        r is Some ==> r->Some_0 as int == hex_val(b)->Some_0,
{
    if 48 <= b && b <= 57 {
        Some(b - 48)
    } else if 97 <= b && b <= 102 {
        Some(b - 87)
    } else if 65 <= b && b <= 70 {
        Some(b - 55)
    } else {
        None
    }
}

/// Parses one line of a fingerprint list.
pub fn parse_line(l: &Vec<u8>) -> (r: Result<(Vec<u8>, Vec<u8>), LineError>)
    ensures
        r is Ok <==> parse_line_spec(l@) is Ok,
        r is Ok ==> (r->Ok_0.0@, r->Ok_0.1@) == parse_line_spec(l@)->Ok_0,
        r is Err ==> r->Err_0 == parse_line_spec(l@)->Err_0,
{
    let ghost lv = l@;
    let mut s: usize = 0;
    while s < l.len() && !(l[s] == 32 || l[s] == 9 || l[s] == 11 || l[s] == 12 || l[s] == 13)
        invariant
            0 <= s <= l@.len(),
            lv == l@,
            first_space(lv, 0) == first_space(lv, s as int),
        decreases l@.len() - s,
    {
        s = s + 1;
    }
    if s >= l.len() {
        return Err(LineError::NoSeparator);
    }
    assert(first_space(lv, s as int) == s as int);
    let ghost h = lv.subrange(0, s as int);
    if s != 2 * PRINT_LEN {
        return Err(LineError::BadHash);
    }
    let mut print: Vec<u8> = Vec::new();
    let mut i: usize = 0;
    while i < PRINT_LEN
        invariant
            s == 2 * PRINT_LEN,
            s < l@.len(),
            h == lv.subrange(0, s as int),
            lv == l@,
            first_space(lv, 0) == s as int,
            0 <= i <= PRINT_LEN,
            forall|k: int| 0 <= k < 2 * i ==> (#[trigger] hex_val(h[k])) is Some,
            print@ == decode(h).subrange(0, i as int),
        decreases PRINT_LEN - i,
    {
        let hi = hex_digit(l[2 * i]);
        let lo = hex_digit(l[2 * i + 1]);
        assert(h[2 * i as int] == l@[2 * i as int]);
        assert(h[2 * i + 1] == l@[2 * i + 1]);
        match (hi, lo) {
            (Some(a), Some(b)) => {
                print.push(a * 16 + b);
                assert(print@ =~= decode(h).subrange(0, i + 1));
            },
            _ => {
                proof {
                    if hi is None {
                        assert(hex_val(h[2 * i as int]) is None);
                    } else {
                        assert(hex_val(h[2 * i + 1]) is None);
                    }
                    assert(!hex_ok(h));
                }
                return Err(LineError::BadHash);
            },
        }
        i = i + 1;
    }
    assert(print@ =~= decode(h));
    let mut all_zero = true;
    let mut k: usize = 0;
    while k < PRINT_LEN
        invariant
            0 <= k <= PRINT_LEN,
            print@.len() == PRINT_LEN,
            all_zero == (forall|j: int| 0 <= j < k ==> print@[j] == 0),
        decreases PRINT_LEN - k,
    {
        if print[k] != 0 {
            all_zero = false;
        }
        k = k + 1;
    }
    if all_zero {
        print.set(0, 1);
    }
    assert(print@ =~= fix_zero(decode(h)));
    proof {
        lemma_first_space(lv, 0);
    }
    let mut t: usize = s;
    while t < l.len() && (l[t] == 32 || l[t] == 9 || l[t] == 11 || l[t] == 12 || l[t] == 13)
        invariant
            s <= t <= l@.len(),
            skip_space(lv, s as int) == skip_space(lv, t as int),
            lv == l@,
        decreases l@.len() - t,
    {
        t = t + 1;
    }
    let mut name: Vec<u8> = Vec::new();
    let mut j: usize = t;
    while j < l.len()
        invariant
            t <= j <= l@.len(),
            lv == l@,
            name@ == lv.subrange(t as int, j as int),
        decreases l@.len() - j,
    {
        name.push(l[j]);
        assert(name@ =~= lv.subrange(t as int, j + 1));
        j = j + 1;
    }
    Ok((print, name))
}

/// A fingerprint list: the fingerprints and, at the same index, their paths.
pub struct HashList {
    pub prints: Vec<Vec<u8>>,
    pub names: Vec<Vec<u8>>,
}

/// The first refused line of a fingerprint list (counted from zero) and why.
#[derive(Clone, Copy, Debug, PartialEq, Eq, Structural)]
pub struct ParseError {
    pub line: usize,
    pub kind: LineError,
}

/// Parses the lines of a fingerprint list; the first refused line stops it.
pub fn parse_list(lines: &Vec<Vec<u8>>) -> (r: Result<HashList, ParseError>)
    ensures
        r is Ok <==> forall|i: int| 0 <= i < lines@.len() ==> (#[trigger] parse_line_spec(lines@[i]@)) is Ok,
        r is Ok ==> r->Ok_0.prints@.len() == lines@.len() && r->Ok_0.names@.len() == lines@.len()
            && all_prints(prints_view(r->Ok_0.prints@)) && forall|i: int|
            0 <= i < lines@.len() ==> (r->Ok_0.prints@[i]@, r->Ok_0.names@[i]@) == #[trigger] parse_line_spec(lines@[i]@)->Ok_0,
        r is Err ==> r->Err_0.line < lines@.len() && parse_line_spec(lines@[r->Err_0.line as int]@)
            == Err::<(Seq<u8>, Seq<u8>), LineError>(r->Err_0.kind) && forall|i: int|
            0 <= i < r->Err_0.line ==> (#[trigger] parse_line_spec(lines@[i]@)) is Ok,
{
    let mut prints: Vec<Vec<u8>> = Vec::new();
    let mut names: Vec<Vec<u8>> = Vec::new();
    let mut i: usize = 0;
    while i < lines.len()
        invariant
            0 <= i <= lines@.len(),
            prints@.len() == i,
            names@.len() == i,
            forall|k: int| 0 <= k < i ==> (#[trigger] parse_line_spec(lines@[k]@)) is Ok,
            forall|k: int|
                0 <= k < i ==> (prints@[k]@, names@[k]@) == #[trigger] parse_line_spec(lines@[k]@)->Ok_0,
        decreases lines@.len() - i,
    {
        match parse_line(&lines[i]) {
            Ok((p, n)) => {
                prints.push(p);
                names.push(n);
            },
            Err(kind) => {
                return Err(ParseError { line: i, kind });
            },
        }
        i = i + 1;
    }
    let r = HashList { prints, names };
    assert forall|k: int| 0 <= k < prints_view(r.prints@).len() implies (#[trigger] prints_view(
        r.prints@,
    )[k]).len() == PRINT_LEN by {
        assert(parse_line_spec(lines@[k]@) is Ok);
        assert(decode(lines@[k]@.subrange(0, first_space(lines@[k]@, 0))).len() == PRINT_LEN);
    }
    Ok(r)
}

} // verus!
