//! The entries of LCOV records: their tags, reading them, and telling the
//! kinds of record lines apart.
use vstd::prelude::*;

use crate::text::{
    chars_of, is_prefix, parse_u64, parse_u64_spec, parse_usize, parse_usize_spec, starts_with,
};

verus! {

// ------------------------------------------------------------------
// Record tags
// ------------------------------------------------------------------

pub open spec fn tag_sf() -> Seq<char> {
    seq!['S', 'F', ':']
}

pub open spec fn tag_fn() -> Seq<char> {
    seq!['F', 'N', ':']
}

pub open spec fn tag_fnda() -> Seq<char> {
    seq!['F', 'N', 'D', 'A', ':']
}

pub open spec fn tag_da() -> Seq<char> {
    seq!['D', 'A', ':']
}

pub open spec fn tag_brda() -> Seq<char> {
    seq!['B', 'R', 'D', 'A', ':']
}

pub open spec fn tag_lf() -> Seq<char> {
    seq!['L', 'F', ':']
}

pub open spec fn tag_lh() -> Seq<char> {
    seq!['L', 'H', ':']
}

pub open spec fn tag_brf() -> Seq<char> {
    seq!['B', 'R', 'F', ':']
}

pub open spec fn tag_brh() -> Seq<char> {
    seq!['B', 'R', 'H', ':']
}

pub open spec fn tag_fnf() -> Seq<char> {
    seq!['F', 'N', 'F', ':']
}

pub open spec fn tag_fnh() -> Seq<char> {
    seq!['F', 'N', 'H', ':']
}

/// The line that ends every record.
pub open spec fn end_of_record() -> Seq<char> {
    seq!['e', 'n', 'd', '_', 'o', 'f', '_', 'r', 'e', 'c', 'o', 'r', 'd']
}

/// The tags as character vectors, built once.
pub(crate) struct Tags {
    pub(crate) sf: Vec<char>,
    pub(crate) fn_: Vec<char>,
    pub(crate) fnda: Vec<char>,
    pub(crate) da: Vec<char>,
    pub(crate) brda: Vec<char>,
    pub(crate) lf: Vec<char>,
    pub(crate) lh: Vec<char>,
    pub(crate) brf: Vec<char>,
    pub(crate) brh: Vec<char>,
    pub(crate) fnf: Vec<char>,
    pub(crate) fnh: Vec<char>,
    pub(crate) eor: Vec<char>,
}

impl Tags {
    pub(crate) open spec fn wf(&self) -> bool {
        &&& self.sf@ == tag_sf()
        &&& self.fn_@ == tag_fn()
        &&& self.fnda@ == tag_fnda()
        &&& self.da@ == tag_da()
        &&& self.brda@ == tag_brda()
        &&& self.lf@ == tag_lf()
        &&& self.lh@ == tag_lh()
        &&& self.brf@ == tag_brf()
        &&& self.brh@ == tag_brh()
        &&& self.fnf@ == tag_fnf()
        &&& self.fnh@ == tag_fnh()
        &&& self.eor@ == end_of_record()
    }

    pub(crate) fn new() -> (t: Tags)
        ensures
            t.wf(),
    {
        Tags {
            sf: vec!['S', 'F', ':'],
            fn_: vec!['F', 'N', ':'],
            fnda: vec!['F', 'N', 'D', 'A', ':'],
            da: vec!['D', 'A', ':'],
            brda: vec!['B', 'R', 'D', 'A', ':'],
            lf: vec!['L', 'F', ':'],
            lh: vec!['L', 'H', ':'],
            brf: vec!['B', 'R', 'F', ':'],
            brh: vec!['B', 'R', 'H', ':'],
            fnf: vec!['F', 'N', 'F', ':'],
            fnh: vec!['F', 'N', 'H', ':'],
            eor: vec!['e', 'n', 'd', '_', 'o', 'f', '_', 'r', 'e', 'c', 'o', 'r', 'd'],
        }
    }
}

// ------------------------------------------------------------------
// Small sequence helpers
// ------------------------------------------------------------------

/// The position of the first `c` in `s`.
pub open spec fn first_index_of(s: Seq<char>, c: char) -> Option<int>
    decreases s.len(),
{
    if s.len() == 0 {
        None
    } else if s[0] == c {
        Some(0)
    } else {
        match first_index_of(s.drop_first(), c) {
            Some(i) => Some(i + 1),
            None => None,
        }
    }
}

pub(crate) proof fn lemma_first_index_of(s: Seq<char>, c: char)
    ensures
        match first_index_of(s, c) {
            Some(i) => 0 <= i < s.len() && s[i] == c && forall|j: int|
                0 <= j < i ==> s[j] != c,
            None => forall|j: int| 0 <= j < s.len() ==> s[j] != c,
        },
    decreases s.len(),
{
    if s.len() > 0 && s[0] != c {
        lemma_first_index_of(s.drop_first(), c);
        match first_index_of(s.drop_first(), c) {
            Some(i) => {
                assert forall|j: int| 0 <= j < i + 1 implies s[j] != c by {
                    if j > 0 {
                        assert(s[j] == s.drop_first()[j - 1]);
                    }
                }
            },
            None => {
                assert forall|j: int| 0 <= j < s.len() implies s[j] != c by {
                    if j > 0 {
                        assert(s[j] == s.drop_first()[j - 1]);
                    }
                }
            },
        }
    }
}

/// Position (in `cs`) of the first `c` at or after `from`.
pub(crate) fn find_char_from(cs: &[char], from: usize, c: char) -> (r: Option<usize>)
    requires
        from <= cs@.len(),
    ensures
        match r {
            Some(k) => from <= k < cs.len() && first_index_of(cs@.skip(from as int), c) == Some(
                k - from,
            ),
            None => first_index_of(cs@.skip(from as int), c) is None,
        },
{
    let ghost t = cs@.skip(from as int);
    proof {
        lemma_first_index_of(t, c);
    }
    let mut k = from;
    while k < cs.len()
        invariant
            from <= k <= cs@.len(),
            t == cs@.skip(from as int),
            forall|j: int| from <= j < k ==> cs@[j] != c,
        decreases cs.len() - k,
    {
        if cs[k] == c {
            assert(t[k - from] == c);
            assert forall|j: int| 0 <= j < k - from implies t[j] != c by {
                assert(t[j] == cs@[from + j]);
            }
            proof {
                lemma_first_index_of(t, c);
                let kk = k - from;
                match first_index_of(t, c) {
                    Some(i) => {
                        if i < kk {
                            assert(t[i] == cs@[from + i]);
                        } else if i > kk {
                            assert(t[kk] != c);
                        }
                    },
                    None => {
                        assert(t[kk] != c);
                    },
                }
            }
            return Some(k);
        }
        k += 1;
    }
    proof {
        lemma_first_index_of(t, c);
        match first_index_of(t, c) {
            Some(i) => {
                assert(t[i] == cs@[from + i]);
            },
            None => {},
        }
    }
    None
}

/// Whether `a` and `b` hold the same characters.
pub(crate) fn chars_eq(a: &[char], b: &[char]) -> (r: bool)
    ensures
        r == (a@ == b@),
{
    if a.len() != b.len() {
        return false;
    }
    let mut i: usize = 0;
    while i < a.len()
        invariant
            0 <= i <= a.len(),
            a.len() == b.len(),
            forall|k: int| 0 <= k < i ==> a@[k] == b@[k],
        decreases a.len() - i,
    {
        if a[i] != b[i] {
            return false;
        }
        i += 1;
    }
    assert(a@ =~= b@);
    true
}

// ------------------------------------------------------------------
// Reading entries
// ------------------------------------------------------------------

/// `FN:<line>,<name>`: the line number and the function name (which may
/// hold further commas).
pub open spec fn spec_parse_fn(l: Seq<char>) -> Option<(usize, Seq<char>)> {
    if !is_prefix(tag_fn(), l) {
        None
    } else {
        let rest = l.skip(3);
        match first_index_of(rest, ',') {
            None => None,
            Some(i) => match parse_usize_spec(rest.take(i)) {
                Some(n) => Some((n, rest.skip(i + 1))),
                None => None,
            },
        }
    }
}

/// `FNDA:<hits>,<name>`: the hit count and the function name.
pub open spec fn spec_parse_fnda(l: Seq<char>) -> Option<(u64, Seq<char>)> {
    if !is_prefix(tag_fnda(), l) {
        None
    } else {
        let rest = l.skip(5);
        match first_index_of(rest, ',') {
            None => None,
            Some(i) => match parse_u64_spec(rest.take(i)) {
                Some(h) => Some((h, rest.skip(i + 1))),
                None => None,
            },
        }
    }
}

/// `DA:<line>,<hits>[,...]`: the line number and its hit count; fields
/// after the second are ignored.
pub open spec fn spec_parse_da(l: Seq<char>) -> Option<(usize, u64)> {
    if !is_prefix(tag_da(), l) {
        None
    } else {
        let rest = l.skip(3);
        match first_index_of(rest, ',') {
            None => None,
            Some(i) => {
                let tail = rest.skip(i + 1);
                let second = match first_index_of(tail, ',') {
                    Some(j) => tail.take(j),
                    None => tail,
                };
                match (parse_usize_spec(rest.take(i)), parse_u64_spec(second)) {
                    (Some(n), Some(h)) => Some((n, h)),
                    _ => None,
                }
            },
        }
    }
}

/// `BRDA:<line>,<block>,<branch>,<taken>`: the line number and the three
/// other fields as text (the last may hold further commas).
pub open spec fn spec_parse_brda(l: Seq<char>) -> Option<(usize, Seq<char>, Seq<char>, Seq<char>)> {
    if !is_prefix(tag_brda(), l) {
        None
    } else {
        let rest = l.skip(5);
        match first_index_of(rest, ',') {
            None => None,
            Some(i) => {
                let t1 = rest.skip(i + 1);
                match first_index_of(t1, ',') {
                    None => None,
                    Some(j) => {
                        let t2 = t1.skip(j + 1);
                        match first_index_of(t2, ',') {
                            None => None,
                            Some(k) => match parse_usize_spec(rest.take(i)) {
                                Some(n) => Some((n, t1.take(j), t2.take(k), t2.skip(k + 1))),
                                None => None,
                            },
                        }
                    },
                }
            },
        }
    }
}

/// Reads an `FN:` entry; returns the line number and where the name starts.
pub(crate) fn parse_fn_chars(l: &[char]) -> (r: Option<(usize, usize)>)
    ensures
        match r {
            Some((n, at)) => at <= l@.len() && spec_parse_fn(l@) == Some((n, l@.skip(at as int))),
            None => spec_parse_fn(l@) is None,
        },
{
    let tag = vec!['F', 'N', ':'];
    if !starts_with(l, &tag) {
        return None;
    }
    let ghost rest = l@.skip(3);
    match find_char_from(l, 3, ',') {
        None => None,
        Some(c) => {
            assert(rest.take(c - 3) == l@.subrange(3, c as int));
            assert(rest.skip(c - 3 + 1) == l@.skip(c + 1));
            match parse_usize(vstd::slice::slice_subrange(l, 3, c)) {
                Some(n) => Some((n, c + 1)),
                None => None,
            }
        },
    }
}

/// Reads an `FNDA:` entry; returns the hit count and where the name starts.
pub(crate) fn parse_fnda_chars(l: &[char]) -> (r: Option<(u64, usize)>)
    ensures
        match r {
            Some((h, at)) => at <= l@.len() && spec_parse_fnda(l@) == Some(
                (h, l@.skip(at as int)),
            ),
            None => spec_parse_fnda(l@) is None,
        },
{
    let tag = vec!['F', 'N', 'D', 'A', ':'];
    if !starts_with(l, &tag) {
        return None;
    }
    let ghost rest = l@.skip(5);
    match find_char_from(l, 5, ',') {
        None => None,
        Some(c) => {
            assert(rest.take(c - 5) == l@.subrange(5, c as int));
            assert(rest.skip(c - 5 + 1) == l@.skip(c + 1));
            match parse_u64(vstd::slice::slice_subrange(l, 5, c)) {
                Some(h) => Some((h, c + 1)),
                None => None,
            }
        },
    }
}

/// Reads a `DA:` entry.
pub(crate) fn parse_da_chars(l: &[char]) -> (r: Option<(usize, u64)>)
    ensures
        r == spec_parse_da(l@),
{
    let tag = vec!['D', 'A', ':'];
    if !starts_with(l, &tag) {
        return None;
    }
    let ghost rest = l@.skip(3);
    match find_char_from(l, 3, ',') {
        None => None,
        Some(c) => {
            let ghost tail = rest.skip(c - 3 + 1);
            assert(rest.take(c - 3) == l@.subrange(3, c as int));
            assert(tail == l@.skip(c + 1));
            let end = match find_char_from(l, c + 1, ',') {
                Some(e) => {
                    assert(tail.take(e - (c + 1)) == l@.subrange(c + 1, e as int));
                    e
                },
                None => {
                    assert(tail == l@.subrange(c + 1, l@.len() as int));
                    l.len()
                },
            };
            let line_no = parse_usize(vstd::slice::slice_subrange(l, 3, c));
            let hits = parse_u64(vstd::slice::slice_subrange(l, c + 1, end));
            match (line_no, hits) {
                (Some(n), Some(h)) => Some((n, h)),
                _ => None,
            }
        },
    }
}

/// Reads a `BRDA:` entry; returns the line number and the positions of the
/// three commas.
pub(crate) fn parse_brda_chars(l: &[char]) -> (r: Option<(usize, usize, usize, usize)>)
    ensures
        match r {
            Some((n, i, j, k)) => i < j < k < l.len() && spec_parse_brda(l@) == Some(
                (
                    n,
                    l@.subrange(i + 1, j as int),
                    l@.subrange(j + 1, k as int),
                    l@.skip(k + 1),
                ),
            ),
            None => spec_parse_brda(l@) is None,
        },
{
    let tag = vec!['B', 'R', 'D', 'A', ':'];
    if !starts_with(l, &tag) {
        return None;
    }
    let ghost rest = l@.skip(5);
    let i = match find_char_from(l, 5, ',') {
        None => return None,
        Some(i) => i,
    };
    let ghost t1 = rest.skip(i - 5 + 1);
    assert(t1 == l@.skip(i + 1));
    let j = match find_char_from(l, i + 1, ',') {
        None => return None,
        Some(j) => j,
    };
    let ghost t2 = t1.skip(j - (i + 1) + 1);
    assert(t2 == l@.skip(j + 1));
    let k = match find_char_from(l, j + 1, ',') {
        None => return None,
        Some(k) => k,
    };
    assert(rest.take(i - 5) == l@.subrange(5, i as int));
    assert(t1.take(j - (i + 1)) == l@.subrange(i + 1, j as int));
    assert(t2.take(k - (j + 1)) == l@.subrange(j + 1, k as int));
    assert(t2.skip(k - (j + 1) + 1) == l@.skip(k + 1));
    match parse_usize(vstd::slice::slice_subrange(l, 5, i)) {
        Some(n) => Some((n, i, j, k)),
        None => None,
    }
}

/// Reads an `FN:<line>,<name>` entry.
pub fn parse_fn_line(line: &str) -> (r: Option<(usize, &str)>)
    ensures
        match r {
            Some((n, name)) => spec_parse_fn(line@) == Some((n, name@)),
            None => spec_parse_fn(line@) is None,
        },
{
    let l = chars_of(line);
    match parse_fn_chars(&l) {
        Some((n, at)) => Some((n, line.substring_char(at, l.len()))),
        None => None,
    }
}

/// Reads an `FNDA:<hits>,<name>` entry.
pub fn parse_fnda_line(line: &str) -> (r: Option<(u64, &str)>)
    ensures
        match r {
            Some((h, name)) => spec_parse_fnda(line@) == Some((h, name@)),
            None => spec_parse_fnda(line@) is None,
        },
{
    let l = chars_of(line);
    match parse_fnda_chars(&l) {
        Some((h, at)) => Some((h, line.substring_char(at, l.len()))),
        None => None,
    }
}

/// Reads a `DA:<line>,<hits>` entry.
pub fn parse_da_line(line: &str) -> (r: Option<(usize, u64)>)
    ensures
        r == spec_parse_da(line@),
{
    let l = chars_of(line);
    parse_da_chars(&l)
}

/// Reads a `BRDA:<line>,<block>,<branch>,<taken>` entry.
pub fn parse_brda_line(line: &str) -> (r: Option<(usize, &str, &str, &str)>)
    ensures
        match r {
            Some((n, block, branch, taken)) => spec_parse_brda(line@) == Some(
                (n, block@, branch@, taken@),
            ),
            None => spec_parse_brda(line@) is None,
        },
{
    let l = chars_of(line);
    match parse_brda_chars(&l) {
        Some((n, i, j, k)) => Some(
            (
                n,
                line.substring_char(i + 1, j),
                line.substring_char(j + 1, k),
                line.substring_char(k + 1, l.len()),
            ),
        ),
        None => None,
    }
}

// ------------------------------------------------------------------
// Kinds of lines
// ------------------------------------------------------------------

/// The kinds of record lines, in the order in which they are told apart.
pub enum LineKind {
    EndOfRecord,
    Summary,
    Function,
    FunctionHits,
    LineHits,
    Branch,
    Other,
}

/// A summary line (`LF:`, `LH:`, `BRF:`, `BRH:`, `FNF:`, `FNH:`); these are
/// recomputed, not copied.
pub open spec fn is_summary(l: Seq<char>) -> bool {
    is_prefix(tag_lf(), l) || is_prefix(tag_lh(), l) || is_prefix(tag_brf(), l) || is_prefix(
        tag_brh(),
        l,
    ) || is_prefix(tag_fnf(), l) || is_prefix(tag_fnh(), l)
}

pub open spec fn line_kind(l: Seq<char>) -> LineKind {
    if l == end_of_record() {
        LineKind::EndOfRecord
    } else if is_summary(l) {
        LineKind::Summary
    } else if is_prefix(tag_fn(), l) {
        LineKind::Function
    } else if is_prefix(tag_fnda(), l) {
        LineKind::FunctionHits
    } else if is_prefix(tag_da(), l) {
        LineKind::LineHits
    } else if is_prefix(tag_brda(), l) {
        LineKind::Branch
    } else {
        LineKind::Other
    }
}

/// Whether a line is a summary line.
pub(crate) fn is_summary_chars(l: &[char], tags: &Tags) -> (r: bool)
    requires
        tags.wf(),
    ensures
        r == is_summary(l@),
{
    starts_with(l, &tags.lf) || starts_with(l, &tags.lh) || starts_with(l, &tags.brf)
        || starts_with(l, &tags.brh) || starts_with(l, &tags.fnf) || starts_with(l, &tags.fnh)
}

/// Whether a line is a summary line (`LF:`, `LH:`, `BRF:`, `BRH:`, `FNF:`,
/// `FNH:`).
pub fn is_summary_line(line: &str) -> (r: bool)
    ensures
        r == is_summary(line@),
{
    let tags = Tags::new();
    is_summary_chars(&chars_of(line), &tags)
}

} // verus!
