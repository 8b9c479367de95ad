//! When two spellings name the same source path: paths compare by their
//! components, as `std::path::Path` compares them on Unix (repeated `/`,
//! a trailing `/` and `.` segments after the start do not count).
use vstd::prelude::*;

use crate::entries::chars_eq;
use crate::text::{char_rows, is_prefix};

verus! {

/// The pieces of `s` between `/` characters; there is always one more
/// piece than there are separators.
pub open spec fn slash_pieces(s: Seq<char>) -> Seq<Seq<char>>
    decreases s.len(),
{
    if s.len() == 0 {
        seq![Seq::empty()]
    } else {
        let p = slash_pieces(s.drop_last());
        if s.last() == '/' {
            p.push(Seq::empty())
        } else {
            p.update(p.len() - 1, p.last().push(s.last()))
        }
    }
}

/// A piece that names a directory or file: neither empty nor `.`.
pub open spec fn normal_segment() -> spec_fn(Seq<char>) -> Option<Seq<char>> {
    |p: Seq<char>|
        if p.len() == 0 || p == seq!['.'] {
            None
        } else {
            Some(p)
        }
}

/// The components of a path: whether it starts at the root, whether it
/// starts with a `.` of its own (`.` or `./...`, relative paths only), and
/// its named segments.
pub struct PathKey {
    pub root: bool,
    pub cur_dir: bool,
    pub segments: Seq<Seq<char>>,
}

pub open spec fn path_key(s: Seq<char>) -> PathKey {
    let root = s.len() > 0 && s[0] == '/';
    PathKey {
        root,
        cur_dir: !root && (s == seq!['.'] || is_prefix(seq!['.', '/'], s)),
        segments: slash_pieces(s).filter_map(normal_segment()),
    }
}

/// `a` and `b` name the same path (`Path::new(a) == Path::new(b)`).
pub open spec fn same_path(a: Seq<char>, b: Seq<char>) -> bool {
    path_key(a) == path_key(b)
}

/// The components of a path, computed.
pub(crate) struct PathParts {
    pub(crate) root: bool,
    pub(crate) cur_dir: bool,
    pub(crate) segments: Vec<Vec<char>>,
}

impl PathParts {
    pub(crate) open spec fn key(&self) -> PathKey {
        PathKey { root: self.root, cur_dir: self.cur_dir, segments: char_rows(self.segments@) }
    }
}

proof fn lemma_slash_pieces_nonempty(s: Seq<char>)
    ensures
        slash_pieces(s).len() >= 1,
    decreases s.len(),
{
    if s.len() > 0 {
        lemma_slash_pieces_nonempty(s.drop_last());
    }
}

/// Whether a piece is `.`.
fn is_dot(p: &Vec<char>) -> (r: bool)
    ensures
        r == (p@ == seq!['.']),
{
    let dot = vec!['.'];
    assert(dot@ =~= seq!['.']);
    chars_eq(p, &dot)
}

/// The components of the path `s`.
pub(crate) fn path_parts(s: &[char]) -> (k: PathParts)
    ensures
        k.key() == path_key(s@),
{
    let root = s.len() > 0 && s[0] == '/';
    let cur_dir = !root && s.len() > 0 && s[0] == '.' && (s.len() == 1 || s[1] == '/');
    proof {
        if s@ == seq!['.'] || is_prefix(seq!['.', '/'], s@) {
            if s@ != seq!['.'] {
                assert(s@.take(2)[0] == s@[0]);
                assert(s@.take(2)[1] == s@[1]);
            }
        }
        if !root && s.len() > 0 && s@[0] == '.' {
            if s.len() == 1 {
                assert(s@ =~= seq!['.']);
            } else if s@[1] == '/' {
                assert(s@.take(2) =~= seq!['.', '/']);
            }
        }
    }
    let mut segments: Vec<Vec<char>> = Vec::new();
    let mut cur: Vec<char> = Vec::new();
    let ghost mut raw: Seq<Seq<char>> = Seq::empty();
    let mut i: usize = 0;
    assert(s@.take(0) =~= Seq::<char>::empty());
    while i < s.len()
        invariant
            0 <= i <= s.len(),
            slash_pieces(s@.take(i as int)) == raw.push(cur@),
            char_rows(segments@) == raw.filter_map(normal_segment()),
        decreases s.len() - i,
    {
        let c = s[i];
        assert(s@.take(i + 1).drop_last() == s@.take(i as int));
        assert(s@.take(i + 1).last() == c);
        if c == '/' {
            let ghost old_raw = raw;
            let ghost old_segments = segments@;
            let ghost piece = cur@;
            assert(old_raw.push(piece).drop_last() =~= old_raw);
            assert(old_raw.push(piece).last() == piece);
            if cur.len() > 0 && !is_dot(&cur) {
                segments.push(cur);
                assert(char_rows(segments@) =~= char_rows(old_segments).push(piece));
            }
            proof {
                raw = raw.push(piece);
            }
            cur = Vec::new();
            assert(slash_pieces(s@.take(i + 1)) =~= raw.push(cur@));
        } else {
            cur.push(c);
            assert(slash_pieces(s@.take(i + 1)) =~= raw.push(cur@));
        }
        i += 1;
    }
    assert(s@.take(s.len() as int) == s@);
    let ghost old_segments = segments@;
    let ghost piece = cur@;
    assert(raw.push(piece).drop_last() =~= raw);
    assert(raw.push(piece).last() == piece);
    assert(slash_pieces(s@) == raw.push(piece));
    if cur.len() > 0 && !is_dot(&cur) {
        segments.push(cur);
        assert(char_rows(segments@) =~= char_rows(old_segments).push(piece));
        assert(raw.push(piece).filter_map(normal_segment()) == raw.filter_map(normal_segment())
            + seq![piece]);
        assert(char_rows(segments@) =~= slash_pieces(s@).filter_map(normal_segment()));
    } else {
        assert(raw.push(piece).filter_map(normal_segment()) == raw.filter_map(normal_segment()));
        assert(char_rows(segments@) =~= slash_pieces(s@).filter_map(normal_segment()));
    }
    let k = PathParts { root, cur_dir, segments };
    assert(k.key().segments == path_key(s@).segments);
    assert(k.key().root == path_key(s@).root);
    assert(k.key().cur_dir == path_key(s@).cur_dir);
    k
}

/// Whether two computed paths have the same components.
pub(crate) fn same_parts(a: &PathParts, b: &PathParts) -> (r: bool)
    ensures
        r == (a.key() == b.key()),
{
    if a.root != b.root || a.cur_dir != b.cur_dir || a.segments.len() != b.segments.len() {
        assert(char_rows(a.segments@).len() == a.segments@.len());
        assert(char_rows(b.segments@).len() == b.segments@.len());
        assert(a.key() != b.key());
        return false;
    }
    let mut i: usize = 0;
    while i < a.segments.len()
        invariant
            0 <= i <= a.segments@.len(),
            a.segments@.len() == b.segments@.len(),
            forall|k: int| 0 <= k < i ==> char_rows(a.segments@)[k] == char_rows(b.segments@)[k],
        decreases a.segments@.len() - i,
    {
        if !chars_eq(&a.segments[i], &b.segments[i]) {
            assert(char_rows(a.segments@)[i as int] != char_rows(b.segments@)[i as int]);
            return false;
        }
        i += 1;
    }
    assert(char_rows(a.segments@) =~= char_rows(b.segments@));
    true
}

} // verus!
