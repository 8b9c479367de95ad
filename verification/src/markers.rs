//! Exclusion markers and the source lines they exclude.
use std::collections::HashSet;

use vstd::prelude::*;

use crate::text::{
    char_rows, chars_of, contains_chars, contains_seq, split_lines, text_lines,
};

verus! {

/// The marker strings searched for in source lines (case-sensitive).
#[derive(Clone, Debug, PartialEq, Eq)]
pub struct Markers {
    /// Excludes the line that holds it.
    pub line: String,
    /// Opens an excluded block, starting at the line that holds it.
    pub start: String,
    /// Closes an excluded block, ending at the line that holds it.
    pub stop: String,
}

pub open spec fn default_line_marker() -> Seq<char> {
    seq!['L', 'C', 'O', 'V', '_', 'E', 'X', 'C', 'L', '_', 'L', 'I', 'N', 'E']
}

pub open spec fn default_start_marker() -> Seq<char> {
    seq!['L', 'C', 'O', 'V', '_', 'E', 'X', 'C', 'L', '_', 'S', 'T', 'A', 'R', 'T']
}

pub open spec fn default_stop_marker() -> Seq<char> {
    seq!['L', 'C', 'O', 'V', '_', 'E', 'X', 'C', 'L', '_', 'S', 'T', 'O', 'P']
}

impl Default for Markers {
    fn default() -> (m: Self)
        ensures
            m.line@ == default_line_marker(),
            m.start@ == default_start_marker(),
            m.stop@ == default_stop_marker(),
    {
        proof {
            reveal_strlit("LCOV_EXCL_LINE");
            reveal_strlit("LCOV_EXCL_START");
            reveal_strlit("LCOV_EXCL_STOP");
        }
        Markers {
            line: String::from_str("LCOV_EXCL_LINE"),
            start: String::from_str("LCOV_EXCL_START"),
            stop: String::from_str("LCOV_EXCL_STOP"),
        }
    }
}

/// A non-empty marker occurs in the line; an empty marker never matches.
pub open spec fn has_marker(line: Seq<char>, marker: Seq<char>) -> bool {
    marker.len() > 0 && contains_seq(line, marker)
}

/// Whether an excluded block is open after the first `k` lines: a line with
/// the stop marker closes it, otherwise a line with the start marker opens it.
pub open spec fn block_open_after(lines: Seq<Seq<char>>, m: Markers, k: int) -> bool
    decreases k,
{
    if k <= 0 {
        false
    } else {
        let l = lines[k - 1];
        if has_marker(l, m.stop@) {
            false
        } else if has_marker(l, m.start@) {
            true
        } else {
            block_open_after(lines, m, k - 1)
        }
    }
}

/// Line `i` (counted from 0) is excluded: it holds a line, start or stop
/// marker, or it lies inside an open block.
pub open spec fn line_is_excluded(lines: Seq<Seq<char>>, m: Markers, i: int) -> bool {
    let l = lines[i];
    has_marker(l, m.line@) || block_open_after(lines, m, i) || has_marker(l, m.start@)
        || has_marker(l, m.stop@)
}

/// Line number `n` (counted from 1) of `content` is excluded.
pub open spec fn excluded_in(content: Seq<char>, m: Markers, n: int) -> bool {
    let lines = text_lines(content);
    1 <= n <= lines.len() && line_is_excluded(lines, m, n - 1)
}

/// The excluded line numbers of already split lines.
pub(crate) fn excluded_lines_of(lines: &Vec<Vec<char>>, markers: &Markers) -> (excluded: HashSet<
    usize,
>)
    ensures
        forall|n: usize|
            excluded@.contains(n) <==> (1 <= n <= lines@.len() && line_is_excluded(
                char_rows(lines@),
                *markers,
                n - 1,
            )),
{
    let line_marker = chars_of(markers.line.as_str());
    let start_marker = chars_of(markers.start.as_str());
    let stop_marker = chars_of(markers.stop.as_str());
    let ghost rows = char_rows(lines@);
    let mut excluded: HashSet<usize> = HashSet::new();
    let mut in_block = false;
    let mut idx: usize = 0;
    while idx < lines.len()
        invariant
            0 <= idx <= lines@.len(),
            rows == char_rows(lines@),
            line_marker@ == markers.line@,
            start_marker@ == markers.start@,
            stop_marker@ == markers.stop@,
            in_block == block_open_after(rows, *markers, idx as int),
            forall|n: usize|
                excluded@.contains(n) <==> (1 <= n <= idx && line_is_excluded(
                    rows,
                    *markers,
                    n - 1,
                )),
        decreases lines@.len() - idx,
    {
        let line = &lines[idx];
        assert(rows[idx as int] == line@);
        let line_no = idx + 1;
        let has_line = line_marker.len() > 0 && contains_chars(line, &line_marker);
        let has_start = start_marker.len() > 0 && contains_chars(line, &start_marker);
        let has_stop = stop_marker.len() > 0 && contains_chars(line, &stop_marker);
        let ghost before = excluded@;
        if has_line {
            excluded.insert(line_no);
        }
        if in_block || has_start {
            excluded.insert(line_no);
        }
        if has_start {
            in_block = true;
        }
        if has_stop {
            excluded.insert(line_no);
            in_block = false;
        }
        proof {
            assert(line_is_excluded(rows, *markers, idx as int) == (has_line || has_start
                || has_stop || block_open_after(rows, *markers, idx as int)));
            assert forall|n: usize|
                excluded@.contains(n) <==> (1 <= n <= idx + 1 && line_is_excluded(
                    rows,
                    *markers,
                    n - 1,
                )) by {
                if n == line_no {
                } else {
                    assert(excluded@.contains(n) == before.contains(n));
                }
            }
        }
        idx += 1;
    }
    excluded
}

/// The numbers (counted from 1) of the lines of `content` that the markers
/// exclude.
pub fn compute_excluded_lines_from_content(content: &str, markers: &Markers) -> (excluded: HashSet<
    usize,
>)
    ensures
        forall|n: usize| excluded@.contains(n) <==> excluded_in(content@, *markers, n as int),
{
    let cs = chars_of(content);
    let lines = split_lines(&cs);
    excluded_lines_of(&lines, markers)
}

} // verus!
