//! LCOV records: splitting a report into records, what each record becomes
//! once the excluded lines of its source are known, and the filtered report.
use std::collections::HashSet;

use vstd::prelude::*;

use crate::entries::{
    chars_eq, end_of_record, is_summary, is_summary_chars, line_kind, parse_brda_chars,
    parse_da_chars, parse_da_line, parse_fn_chars, parse_fnda_chars, spec_parse_brda,
    spec_parse_da, spec_parse_fn, spec_parse_fnda, tag_brda, tag_brf, tag_brh, tag_da, tag_fn,
    tag_fnda, tag_fnf, tag_fnh, tag_lf, tag_lh, tag_sf, LineKind, Tags,
};
use crate::markers::{excluded_in, excluded_lines_of, Markers};
use crate::paths::{path_key, path_parts, same_parts, same_path, PathParts};
use crate::text::{
    char_rows, chars_of, decimal, is_ascii_digit, is_prefix, lemma_decimal_roundtrip,
    parse_u64, parse_u64_spec, parse_unsigned, push_char, unsigned_digits,
    push_decimal, split_lines, starts_with, string_of, text_lines,
};

verus! {

// ------------------------------------------------------------------
// Records
// ------------------------------------------------------------------

/// The view of a vector of strings.
pub open spec fn string_rows(v: Seq<String>) -> Seq<Seq<char>> {
    v.map_values(|s: String| s@)
}

/// The view of an optional string.
pub open spec fn opt_chars(o: Option<String>) -> Option<Seq<char>> {
    match o {
        Some(s) => Some(s@),
        None => None,
    }
}

/// The view of a vector of records.
pub open spec fn record_rows(v: Seq<Vec<String>>) -> Seq<Seq<Seq<char>>> {
    v.map_values(|r: Vec<String>| string_rows(r@))
}

/// Lines grouped into finished records (each ended by `end_of_record`)
/// and the lines of the record not yet finished.
pub open spec fn grouped_lines(ls: Seq<Seq<char>>) -> (Seq<Seq<Seq<char>>>, Seq<Seq<char>>)
    decreases ls.len(),
{
    if ls.len() == 0 {
        (Seq::empty(), Seq::empty())
    } else {
        let g = grouped_lines(ls.drop_last());
        let l = ls.last();
        if l == end_of_record() {
            (g.0.push(g.1.push(l)), Seq::empty())
        } else {
            (g.0, g.1.push(l))
        }
    }
}

/// The records of an LCOV report: its lines grouped up to and including
/// each `end_of_record`; trailing lines form one more record, which gets an
/// `end_of_record` of its own.
pub open spec fn records_of(input: Seq<char>) -> Seq<Seq<Seq<char>>> {
    let g = grouped_lines(text_lines(input));
    if g.1.len() > 0 {
        g.0.push(g.1.push(end_of_record()))
    } else {
        g.0
    }
}

/// Splits an LCOV report into its records (see `records_of`).
pub fn split_records(input: &str) -> (records: Vec<Vec<String>>)
    ensures
        record_rows(records@) == records_of(input@),
{
    let eor = vec!['e', 'n', 'd', '_', 'o', 'f', '_', 'r', 'e', 'c', 'o', 'r', 'd'];
    let cs = chars_of(input);
    let lines = split_lines(&cs);
    let ghost ls = char_rows(lines@);
    let mut records: Vec<Vec<String>> = Vec::new();
    let mut current: Vec<String> = Vec::new();
    let mut i: usize = 0;
    assert(ls.take(0) =~= Seq::<Seq<char>>::empty());
    while i < lines.len()
        invariant
            0 <= i <= lines@.len(),
            ls == char_rows(lines@),
            ls == text_lines(cs@),
            cs@ == input@,
            eor@ == end_of_record(),
            grouped_lines(ls.take(i as int)) == (record_rows(records@), string_rows(current@)),
        decreases lines@.len() - i,
    {
        let text = &lines[i];
        let line = string_of(text);
        assert(ls.take(i + 1).drop_last() == ls.take(i as int));
        assert(ls.take(i + 1).last() == text@);
        let ghost old_records = records@;
        let ghost old_current = current@;
        if chars_eq(text, &eor) {
            current.push(line);
            assert(string_rows(current@) =~= string_rows(old_current).push(text@));
            records.push(current);
            current = Vec::new();
            assert(record_rows(records@) =~= record_rows(old_records).push(
                string_rows(old_current).push(text@),
            ));
            assert(string_rows(current@) =~= Seq::<Seq<char>>::empty());
        } else {
            current.push(line);
            assert(string_rows(current@) =~= string_rows(old_current).push(text@));
        }
        i += 1;
    }
    assert(ls.take(lines@.len() as int) == ls);
    if current.len() > 0 {
        let ghost old_records = records@;
        let ghost old_current = current@;
        current.push(string_of(&eor));
        assert(string_rows(current@) =~= string_rows(old_current).push(end_of_record()));
        records.push(current);
        assert(record_rows(records@) =~= record_rows(old_records).push(
            string_rows(old_current).push(end_of_record()),
        ));
    }
    records
}

// ------------------------------------------------------------------
// What a record becomes
// ------------------------------------------------------------------

/// The function entry (`FN:`) of a line, where its line is not excluded.
pub open spec fn fn_entry(ex: Set<usize>) -> spec_fn(Seq<char>) -> Option<(usize, Seq<char>)> {
    |l: Seq<char>|
        match spec_parse_fn(l) {
            Some((n, name)) => if ex.contains(n) {
                None
            } else {
                Some((n, name))
            },
            None => None,
        }
}

/// The function entries of a record whose lines are not excluded.
pub open spec fn fn_entries(r: Seq<Seq<char>>, ex: Set<usize>) -> Seq<(usize, Seq<char>)> {
    r.filter_map(fn_entry(ex))
}

pub open spec fn entry_names(e: Seq<(usize, Seq<char>)>) -> Seq<Seq<char>> {
    e.map_values(|x: (usize, Seq<char>)| x.1)
}

/// Whether a record line stays in the filtered record. Summary lines and
/// `end_of_record` are rewritten; `FN:` and `FNDA:` entries stay only for
/// functions that kept an entry; `DA:` and `BRDA:` entries stay only for
/// lines that are not excluded; lines that do not parse stay.
pub open spec fn keeps_line(l: Seq<char>, ex: Set<usize>, names: Seq<Seq<char>>) -> bool {
    match line_kind(l) {
        LineKind::EndOfRecord => false,
        LineKind::Summary => false,
        LineKind::Function => match spec_parse_fn(l) {
            Some((_, name)) => names.contains(name),
            None => true,
        },
        LineKind::FunctionHits => match spec_parse_fnda(l) {
            Some((_, name)) => names.contains(name),
            None => true,
        },
        LineKind::LineHits => match spec_parse_da(l) {
            Some((n, _)) => !ex.contains(n),
            None => true,
        },
        LineKind::Branch => match spec_parse_brda(l) {
            Some((n, _, _, _)) => !ex.contains(n),
            None => true,
        },
        LineKind::Other => true,
    }
}

pub open spec fn kept_line(ex: Set<usize>, names: Seq<Seq<char>>) -> spec_fn(Seq<char>) -> Option<
    Seq<char>,
> {
    |l: Seq<char>|
        if keeps_line(l, ex, names) {
            Some(l)
        } else {
            None
        }
}

/// The hit count of a kept `DA:` entry.
pub open spec fn kept_da(ex: Set<usize>) -> spec_fn(Seq<char>) -> Option<u64> {
    |l: Seq<char>|
        if line_kind(l) is LineHits {
            match spec_parse_da(l) {
                Some((n, h)) => if ex.contains(n) {
                    None
                } else {
                    Some(h)
                },
                None => None,
            }
        } else {
            None
        }
}

/// The line number of a kept `DA:` entry with no hits.
pub open spec fn missing_da(ex: Set<usize>) -> spec_fn(Seq<char>) -> Option<usize> {
    |l: Seq<char>|
        if line_kind(l) is LineHits {
            match spec_parse_da(l) {
                Some((n, h)) => if !ex.contains(n) && h == 0 {
                    Some(n)
                } else {
                    None
                },
                None => None,
            }
        } else {
            None
        }
}

/// The hit count of a kept `FNDA:` entry.
pub open spec fn kept_fnda(names: Seq<Seq<char>>) -> spec_fn(Seq<char>) -> Option<u64> {
    |l: Seq<char>|
        if line_kind(l) is FunctionHits {
            match spec_parse_fnda(l) {
                Some((h, name)) => if names.contains(name) {
                    Some(h)
                } else {
                    None
                },
                None => None,
            }
        } else {
            None
        }
}

/// The `taken` field of a kept `BRDA:` entry.
pub open spec fn kept_brda(ex: Set<usize>) -> spec_fn(Seq<char>) -> Option<Seq<char>> {
    |l: Seq<char>|
        if line_kind(l) is Branch {
            match spec_parse_brda(l) {
                Some((n, _, _, t)) => if ex.contains(n) {
                    None
                } else {
                    Some(t)
                },
                None => None,
            }
        } else {
            None
        }
}

/// A branch was taken: its `taken` field is not `-` and reads as a
/// positive number.
pub open spec fn taken_hit(t: Seq<char>) -> bool {
    t != seq!['-'] && match parse_u64_spec(t) {
        Some(v) => v > 0,
        None => false,
    }
}

pub open spec fn count_positive(s: Seq<u64>) -> nat
    decreases s.len(),
{
    if s.len() == 0 {
        0
    } else {
        count_positive(s.drop_last()) + if s.last() > 0 {
            1nat
        } else {
            0nat
        }
    }
}

pub open spec fn count_taken(s: Seq<Seq<char>>) -> nat
    decreases s.len(),
{
    if s.len() == 0 {
        0
    } else {
        count_taken(s.drop_last()) + if taken_hit(s.last()) {
            1nat
        } else {
            0nat
        }
    }
}

/// Law: a count of hits is the number of counts that are positive,
/// wherever they stand in the sequence.
pub proof fn lemma_count_positive_counts_hits(s: Seq<u64>)
    ensures
        count_positive(s) == s.filter(|h: u64| h > 0).len(),
    decreases s.len(),
{
    reveal(Seq::filter);
    if s.len() > 0 {
        lemma_count_positive_counts_hits(s.drop_last());
    }
}

/// Law: a branch counts as taken exactly when its `taken` field is a
/// number greater than zero: `-` is never taken, and the decimal text of
/// `n` is taken exactly when `n > 0`.
pub proof fn lemma_taken_hit_means_positive(t: Seq<char>, n: u64)
    ensures
        taken_hit(t) ==> (parse_u64_spec(t) matches Some(v) && v > 0),
        !taken_hit(seq!['-']),
        taken_hit(decimal(n as nat)) == (n > 0),
{
    lemma_decimal_roundtrip(n as nat);
    if decimal(n as nat) == seq!['-'] {
        assert(unsigned_digits(seq!['-']) == seq!['-']);
        assert(!is_ascii_digit(seq!['-'][0]));
        assert(parse_unsigned(seq!['-']) is None);
    }
}

pub open spec fn kind_is(k: LineKind) -> spec_fn(Seq<char>) -> bool {
    |l: Seq<char>| line_kind(l) == k
}

pub open spec fn starts_fn() -> spec_fn(Seq<char>) -> bool {
    |l: Seq<char>| is_prefix(tag_fn(), l)
}

pub open spec fn fn_summary() -> spec_fn(Seq<char>) -> bool {
    |l: Seq<char>| is_prefix(tag_fnf(), l) || is_prefix(tag_fnh(), l)
}

pub open spec fn line_summary() -> spec_fn(Seq<char>) -> bool {
    |l: Seq<char>|
        line_kind(l) is Summary && (is_prefix(tag_lf(), l) || is_prefix(tag_lh(), l))
}

pub open spec fn branch_summary() -> spec_fn(Seq<char>) -> bool {
    |l: Seq<char>|
        line_kind(l) is Summary && (is_prefix(tag_brf(), l) || is_prefix(tag_brh(), l))
}

/// A summary line: a tag followed by a number.
pub open spec fn summary_line(tag: Seq<char>, n: nat) -> Seq<char> {
    tag + decimal(n)
}

/// The summary lines of a record: function counts where the record has
/// function entries or function summaries, branch counts where it has
/// branch entries or branch summaries, line counts where it has line
/// entries or line summaries.
pub open spec fn summary_block(
    with_fn: bool,
    fnf: nat,
    fnh: nat,
    with_br: bool,
    brf: nat,
    brh: nat,
    with_lines: bool,
    lf: nat,
    lh: nat,
) -> Seq<Seq<char>> {
    (if with_fn || fnf > 0 {
        seq![summary_line(tag_fnf(), fnf), summary_line(tag_fnh(), fnh)]
    } else {
        Seq::empty()
    }) + (if with_br || brf > 0 {
        seq![summary_line(tag_brf(), brf), summary_line(tag_brh(), brh)]
    } else {
        Seq::empty()
    }) + (if with_lines || lf > 0 {
        seq![summary_line(tag_lf(), lf), summary_line(tag_lh(), lh)]
    } else {
        Seq::empty()
    })
}

/// The recomputed summary lines of record `r` with excluded lines `ex`.
pub open spec fn record_summaries(r: Seq<Seq<char>>, ex: Set<usize>) -> Seq<Seq<char>> {
    let entries = fn_entries(r, ex);
    let names = entry_names(entries);
    let fnda = r.filter_map(kept_fnda(names));
    let da = r.filter_map(kept_da(ex));
    let brda = r.filter_map(kept_brda(ex));
    summary_block(
        r.any(starts_fn()) || r.any(kind_is(LineKind::FunctionHits)) || r.any(fn_summary()),
        entries.len(),
        count_positive(fnda),
        r.any(kind_is(LineKind::Branch)) || r.any(branch_summary()),
        brda.len(),
        count_taken(brda),
        r.any(kind_is(LineKind::LineHits)) || r.any(line_summary()),
        da.len(),
        count_positive(da),
    )
}

/// The lines of record `r` once the lines `ex` of its source are excluded:
/// the kept lines, the recomputed summaries, and `end_of_record`.
pub open spec fn filtered_lines(r: Seq<Seq<char>>, ex: Set<usize>) -> Seq<Seq<char>> {
    r.filter_map(kept_line(ex, entry_names(fn_entries(r, ex)))) + record_summaries(r, ex) + seq![
        end_of_record(),
    ]
}

/// The line numbers of the `DA:` entries with no hits.
pub open spec fn zero_hit_da() -> spec_fn(Seq<char>) -> Option<usize> {
    |l: Seq<char>|
        match spec_parse_da(l) {
            Some((n, h)) => if h == 0 {
                Some(n)
            } else {
                None
            },
            None => None,
        }
}

/// `s` with every leading `SF:` removed.
pub open spec fn trim_sf(s: Seq<char>) -> Seq<char>
    decreases s.len(),
{
    if is_prefix(tag_sf(), s) {
        trim_sf(s.skip(3))
    } else {
        s
    }
}

/// The first line of `r` that starts with `SF:`.
pub open spec fn first_sf_line(r: Seq<Seq<char>>) -> Option<Seq<char>>
    decreases r.len(),
{
    if r.len() == 0 {
        None
    } else if is_prefix(tag_sf(), r[0]) {
        Some(r[0])
    } else {
        first_sf_line(r.drop_first())
    }
}

/// The source path that record `r` names.
pub open spec fn record_source(r: Seq<Seq<char>>) -> Option<Seq<char>> {
    match first_sf_line(r) {
        Some(l) => Some(trim_sf(l)),
        None => None,
    }
}

/// A source file named by the report and what reading it gave (`None`
/// where it could not be read).
pub struct SourceFile {
    pub path: String,
    pub content: Option<String>,
}

/// The content of the first source file whose path names the same path as
/// `p`; `None` where there is none or it could not be read.
pub open spec fn source_content(sources: Seq<SourceFile>, p: Seq<char>) -> Option<Seq<char>>
    decreases sources.len(),
{
    if sources.len() == 0 {
        None
    } else if same_path(sources[0].path@, p) {
        opt_chars(sources[0].content)
    } else {
        source_content(sources.drop_first(), p)
    }
}

/// The line numbers of `content` that the markers exclude.
pub open spec fn excluded_set(content: Seq<char>, m: Markers) -> Set<usize> {
    Set::new(|n: usize| excluded_in(content, m, n as int))
}

/// The abstract value of a `RecordResult`.
pub struct RecordView {
    pub lines: Seq<Seq<char>>,
    pub source_path: Option<Seq<char>>,
    pub missing_lines: Seq<usize>,
}

/// What record `r` becomes: unchanged where it names no source; unchanged,
/// with its zero-hit `DA:` lines as missing, where its source cannot be
/// read; otherwise filtered by the source's excluded lines, with the
/// zero-hit `DA:` lines that remain as missing.
pub open spec fn record_model(r: Seq<Seq<char>>, sources: Seq<SourceFile>, m: Markers) -> RecordView {
    match record_source(r) {
        None => RecordView { lines: r, source_path: None, missing_lines: Seq::empty() },
        Some(p) => match source_content(sources, p) {
            None => RecordView {
                lines: r,
                source_path: Some(p),
                missing_lines: r.filter_map(zero_hit_da()),
            },
            Some(c) => {
                let ex = excluded_set(c, m);
                RecordView {
                    lines: filtered_lines(r, ex),
                    source_path: Some(p),
                    missing_lines: r.filter_map(missing_da(ex)),
                }
            },
        },
    }
}

proof fn lemma_entry_kinds(l: Seq<char>)
    ensures
        spec_parse_da(l) is Some ==> line_kind(l) is LineHits,
        spec_parse_brda(l) is Some ==> line_kind(l) is Branch,
{
    if spec_parse_da(l) is Some {
        assert(l.take(3) == tag_da());
        assert(l[0] == 'D');
        assert(l != end_of_record()) by {
            assert(end_of_record()[0] == 'e');
        }
        if is_prefix(tag_lf(), l) || is_prefix(tag_lh(), l) || is_prefix(tag_brf(), l)
            || is_prefix(tag_brh(), l) || is_prefix(tag_fnf(), l) || is_prefix(tag_fnh(), l)
            || is_prefix(tag_fn(), l) || is_prefix(tag_fnda(), l) {
            assert(l.take(1)[0] == 'D');
        }
    }
    if spec_parse_brda(l) is Some {
        assert(l.take(5) == tag_brda());
        assert(l[0] == 'B' && l[2] == 'D');
        assert(l != end_of_record()) by {
            assert(end_of_record()[0] == 'e');
        }
        if is_prefix(tag_brf(), l) || is_prefix(tag_brh(), l) {
            assert(l.take(4)[2] == l[2]);
        }
        if is_prefix(tag_lf(), l) || is_prefix(tag_lh(), l) || is_prefix(tag_fnf(), l)
            || is_prefix(tag_fnh(), l) || is_prefix(tag_fn(), l) || is_prefix(tag_fnda(), l)
            || is_prefix(tag_da(), l) {
            assert(l.take(1)[0] == 'B');
        }
    }
}

proof fn lemma_summary_line_not_entry(tag: Seq<char>, n: nat)
    requires
        tag.len() > 0,
        tag[0] != 'D' && tag[0] != 'B',
    ensures
        spec_parse_da(summary_line(tag, n)) is None,
        spec_parse_brda(summary_line(tag, n)) is None,
{
    let l = summary_line(tag, n);
    assert(l[0] == tag[0]);
    if is_prefix(tag_da(), l) {
        assert(l.take(3)[0] == l[0]);
    }
    if is_prefix(tag_brda(), l) {
        assert(l.take(5)[0] == l[0]);
    }
}

/// Law: once a source is read, the filtered record holds no `DA:` or
/// `BRDA:` entry for a line that the markers exclude.
pub proof fn lemma_excluded_lines_leave_no_entries(
    r: Seq<Seq<char>>,
    sources: Seq<SourceFile>,
    m: Markers,
    k: int,
)
    requires
        record_source(r) is Some,
        source_content(sources, record_source(r).unwrap()) is Some,
        0 <= k < record_model(r, sources, m).lines.len(),
    ensures
        ({
            let c = source_content(sources, record_source(r).unwrap()).unwrap();
            let l = record_model(r, sources, m).lines[k];
            &&& spec_parse_da(l) matches Some((n, _)) ==> !excluded_in(c, m, n as int)
            &&& spec_parse_brda(l) matches Some((n, _, _, _)) ==> !excluded_in(c, m, n as int)
        }),
{
    let c = source_content(sources, record_source(r).unwrap()).unwrap();
    let ex = excluded_set(c, m);
    let names = entry_names(fn_entries(r, ex));
    let body = r.filter_map(kept_line(ex, names));
    let sums = record_summaries(r, ex);
    let lines = filtered_lines(r, ex);
    let l = lines[k];
    assert(lines == body + sums + seq![end_of_record()]);
    if k < body.len() {
        assert(body.contains(l));
        r.lemma_filter_map_contains(kept_line(ex, names), l);
        let t = choose|t: Seq<char>| #[trigger] r.contains(t) && kept_line(ex, names)(t) == Some(l);
        assert(t == l);
        assert(keeps_line(l, ex, names));
        lemma_entry_kinds(l);
    } else if k < body.len() + sums.len() {
        let q = k - body.len();
        assert(l == sums[q]);
        assert(tag_fnf()[0] == 'F' && tag_fnh()[0] == 'F' && tag_brf()[0] == 'B');
        assert forall|tag: Seq<char>, n: nat|
            tag.len() > 0 && tag[0] != 'D' && tag[0] != 'B' implies spec_parse_da(
                #[trigger] summary_line(tag, n),
            ) is None && spec_parse_brda(summary_line(tag, n)) is None by {
            lemma_summary_line_not_entry(tag, n);
        }
        // The branch summaries start with `B` but are no `BRDA:` entries.
        assert forall|n: nat|
            spec_parse_da(#[trigger] summary_line(tag_brf(), n)) is None && spec_parse_brda(
                summary_line(tag_brf(), n),
            ) is None && spec_parse_da(summary_line(tag_brh(), n)) is None && spec_parse_brda(
                summary_line(tag_brh(), n),
            ) is None by {
            let a = summary_line(tag_brf(), n);
            let b = summary_line(tag_brh(), n);
            assert(a[2] == 'F' && b[2] == 'H' && a[0] == 'B' && b[0] == 'B');
            if is_prefix(tag_brda(), a) {
                assert(a.take(5)[2] == a[2]);
            }
            if is_prefix(tag_brda(), b) {
                assert(b.take(5)[2] == b[2]);
            }
            if is_prefix(tag_da(), a) {
                assert(a.take(3)[0] == a[0]);
            }
            if is_prefix(tag_da(), b) {
                assert(b.take(3)[0] == b[0]);
            }
        }
        assert(tag_lf()[0] == 'L' && tag_lh()[0] == 'L');
    } else {
        assert(l == end_of_record());
        assert(l[0] == 'e');
        if is_prefix(tag_da(), l) {
            assert(l.take(3)[0] == l[0]);
        }
        if is_prefix(tag_brda(), l) {
            assert(l.take(5)[0] == l[0]);
        }
    }
}

/// The hit count of a `DA:` entry.
pub open spec fn da_hits() -> spec_fn(Seq<char>) -> Option<u64> {
    |l: Seq<char>|
        match spec_parse_da(l) {
            Some((_, h)) => Some(h),
            None => None,
        }
}

/// The `taken` field of a `BRDA:` entry.
pub open spec fn brda_taken() -> spec_fn(Seq<char>) -> Option<Seq<char>> {
    |l: Seq<char>|
        match spec_parse_brda(l) {
            Some((_, _, _, t)) => Some(t),
            None => None,
        }
}

proof fn lemma_kept_entries(r: Seq<Seq<char>>, ex: Set<usize>, names: Seq<Seq<char>>)
    ensures
        r.filter_map(kept_line(ex, names)).filter_map(da_hits()) == r.filter_map(kept_da(ex)),
        r.filter_map(kept_line(ex, names)).filter_map(brda_taken()) == r.filter_map(
            kept_brda(ex),
        ),
    decreases r.len(),
{
    if r.len() > 0 {
        let init = r.drop_last();
        let l = r.last();
        lemma_kept_entries(init, ex, names);
        lemma_entry_kinds(l);
        let body = init.filter_map(kept_line(ex, names));
        if keeps_line(l, ex, names) {
            assert(r.filter_map(kept_line(ex, names)) == body + seq![l]);
            assert((body + seq![l]).drop_last() =~= body);
            assert((body + seq![l]).last() == l);
        } else {
            assert(r.filter_map(kept_line(ex, names)) == body);
        }
    }
}

/// Law: the line and branch summaries of a filtered record count exactly
/// the `DA:` and `BRDA:` entries that remain in it: `LF:` the `DA:`
/// entries, `LH:` those with hits, `BRF:` the `BRDA:` entries, `BRH:` those
/// taken.
pub proof fn lemma_summaries_count_remaining_entries(r: Seq<Seq<char>>, ex: Set<usize>)
    ensures
        ({
            let entries = fn_entries(r, ex);
            let names = entry_names(entries);
            let body = r.filter_map(kept_line(ex, names));
            let das = body.filter_map(da_hits());
            let brdas = body.filter_map(brda_taken());
            record_summaries(r, ex) == summary_block(
                r.any(starts_fn()) || r.any(kind_is(LineKind::FunctionHits)) || r.any(
                    fn_summary(),
                ),
                entries.len(),
                count_positive(r.filter_map(kept_fnda(names))),
                r.any(kind_is(LineKind::Branch)) || r.any(branch_summary()),
                brdas.len(),
                count_taken(brdas),
                r.any(kind_is(LineKind::LineHits)) || r.any(line_summary()),
                das.len(),
                count_positive(das),
            )
        }),
{
    lemma_kept_entries(r, ex, entry_names(fn_entries(r, ex)));
}

// ------------------------------------------------------------------
// Laws of a filtered record, line by line
// ------------------------------------------------------------------

/// The lines that start with `tag`.
pub open spec fn tagged(tag: Seq<char>) -> spec_fn(Seq<char>) -> bool {
    |l: Seq<char>| is_prefix(tag, l)
}

/// A line that starts with the tag of an entry (`FN:`, `FNDA:`, `DA:`,
/// `BRDA:`).
pub open spec fn entry_tagged(l: Seq<char>) -> bool {
    is_prefix(tag_fn(), l) || is_prefix(tag_fnda(), l) || is_prefix(tag_da(), l) || is_prefix(
        tag_brda(),
        l,
    )
}

/// Record `r` declares function `name` on a line that is not in `ex`.
pub open spec fn declares_function(r: Seq<Seq<char>>, ex: Set<usize>, name: Seq<char>) -> bool {
    exists|l: Seq<char>| #[trigger]
        r.contains(l) && (spec_parse_fn(l) matches Some((n, f)) && f == name && !ex.contains(n))
}

/// A line that starts with `t` starts with no tag that differs from `t` at
/// position 0 or 2.
proof fn lemma_starts_with_one_tag(t: Seq<char>, l: Seq<char>)
    requires
        is_prefix(t, l),
        t.len() >= 3,
    ensures
        forall|x: Seq<char>|
            #![trigger is_prefix(x, l)]
            x.len() >= 3 && (x[0] != t[0] || x[2] != t[2]) ==> !is_prefix(x, l),
{
    assert forall|x: Seq<char>| x.len() >= 3 && (x[0] != t[0] || x[2] != t[2]) implies !is_prefix(
        x,
        l,
    ) by {
        if is_prefix(x, l) {
            assert(l.take(x.len() as int)[0] == l[0] && l.take(x.len() as int)[2] == l[2]);
            assert(l.take(t.len() as int)[0] == l[0] && l.take(t.len() as int)[2] == l[2]);
        }
    }
}

/// The kind of a line that starts with an entry tag is that entry's kind.
proof fn lemma_entry_tag_kinds(l: Seq<char>)
    ensures
        is_prefix(tag_fn(), l) ==> line_kind(l) is Function,
        is_prefix(tag_fnda(), l) ==> line_kind(l) is FunctionHits,
        is_prefix(tag_da(), l) ==> line_kind(l) is LineHits,
        is_prefix(tag_brda(), l) ==> line_kind(l) is Branch,
{
    let eor = end_of_record();
    if l == eor {
        assert(l.take(l.len() as int) =~= l);
        lemma_starts_with_one_tag(eor, l);
    }
    if is_prefix(tag_fn(), l) {
        lemma_starts_with_one_tag(tag_fn(), l);
    }
    if is_prefix(tag_fnda(), l) {
        lemma_starts_with_one_tag(tag_fnda(), l);
    }
    if is_prefix(tag_da(), l) {
        lemma_starts_with_one_tag(tag_da(), l);
    }
    if is_prefix(tag_brda(), l) {
        lemma_starts_with_one_tag(tag_brda(), l);
    }
}

/// No recomputed summary line, and not `end_of_record`, starts with an
/// entry tag.
proof fn lemma_summaries_untagged(r: Seq<Seq<char>>, ex: Set<usize>)
    ensures
        forall|k: int|
            0 <= k < record_summaries(r, ex).len() ==> !entry_tagged(
                #[trigger] record_summaries(r, ex)[k],
            ),
        !entry_tagged(end_of_record()),
{
    assert forall|t: Seq<char>, n: nat|
        t == tag_fnf() || t == tag_fnh() || t == tag_brf() || t == tag_brh() || t == tag_lf()
            || t == tag_lh() implies !entry_tagged(#[trigger] summary_line(t, n)) by {
        let l = summary_line(t, n);
        assert(l.take(t.len() as int) =~= t);
        lemma_starts_with_one_tag(t, l);
    }
    let eor = end_of_record();
    assert(eor.take(eor.len() as int) =~= eor);
    lemma_starts_with_one_tag(eor, eor);
}

/// Keeping the elements that `f` hands back unchanged is filtering by `p`.
proof fn lemma_filter_map_keeping<A>(s: Seq<A>, p: spec_fn(A) -> bool, f: spec_fn(A) -> Option<A>)
    requires
        forall|x: A| #[trigger] f(x) == (if p(x) {
            Some(x)
        } else {
            None
        }),
    ensures
        s.filter_map(f) == s.filter(p),
    decreases s.len(),
{
    reveal(Seq::filter);
    if s.len() > 0 {
        lemma_filter_map_keeping(s.drop_last(), p, f);
        assert(s.drop_last().filter(p).push(s.last()) =~= s.drop_last().filter(p) + seq![
            s.last(),
        ]);
    }
}

proof fn lemma_filter_twice<A>(s: Seq<A>, p: spec_fn(A) -> bool, q: spec_fn(A) -> bool)
    ensures
        s.filter(p).filter(q) == s.filter(|x: A| p(x) && q(x)),
    decreases s.len(),
{
    reveal(Seq::filter);
    if s.len() > 0 {
        lemma_filter_twice(s.drop_last(), p, q);
        let t = s.drop_last().filter(p);
        if p(s.last()) {
            assert(t.push(s.last()).drop_last() =~= t);
        }
    }
}

proof fn lemma_filter_rejects_all<A>(s: Seq<A>, p: spec_fn(A) -> bool)
    requires
        forall|k: int| 0 <= k < s.len() ==> !p(#[trigger] s[k]),
    ensures
        s.filter(p) == Seq::<A>::empty(),
    decreases s.len(),
{
    reveal(Seq::filter);
    if s.len() > 0 {
        assert forall|k: int| 0 <= k < s.drop_last().len() implies !p(
            #[trigger] s.drop_last()[k],
        ) by {
            assert(s.drop_last()[k] == s[k]);
        }
        lemma_filter_rejects_all(s.drop_last(), p);
    }
}

proof fn lemma_filter_has<A>(s: Seq<A>, p: spec_fn(A) -> bool, x: A)
    ensures
        s.filter(p).contains(x) <==> s.contains(x) && p(x),
{
    if s.filter(p).contains(x) {
        let i = choose|i: int| 0 <= i < s.filter(p).len() && s.filter(p)[i] == x;
        s.lemma_filter_pred(p, i);
        s.lemma_filter_contains_rev(p, x);
    }
    if s.contains(x) && p(x) {
        let i = choose|i: int| 0 <= i < s.len() && s[i] == x;
        s.lemma_filter_contains(p, i);
    }
}

proof fn lemma_filter_map_has<A, B>(s: Seq<A>, f: spec_fn(A) -> Option<B>, t: A, e: B)
    requires
        s.contains(t),
        f(t) == Some(e),
    ensures
        s.filter_map(f).contains(e),
    decreases s.len(),
{
    let rest = s.drop_last();
    if s.last() == t {
        assert((rest.filter_map(f) + seq![e]).last() == e);
    } else {
        let i = choose|i: int| 0 <= i < s.len() && s[i] == t;
        assert(rest[i] == t);
        lemma_filter_map_has(rest, f, t, e);
        let j = choose|j: int| 0 <= j < rest.filter_map(f).len() && rest.filter_map(f)[j] == e;
        match f(s.last()) {
            Some(y) => {
                assert((rest.filter_map(f) + seq![y])[j] == e);
            },
            None => {},
        }
    }
}

/// The lines of a record that stay: those that `keeps_line` keeps.
proof fn lemma_kept_lines_filter(r: Seq<Seq<char>>, ex: Set<usize>, names: Seq<Seq<char>>)
    ensures
        r.filter_map(kept_line(ex, names)) == r.filter(|l: Seq<char>| keeps_line(l, ex, names)),
{
    lemma_filter_map_keeping(r, |l: Seq<char>| keeps_line(l, ex, names), kept_line(ex, names));
}

/// Law: once its source is read, a filtered record is the record's lines
/// that stay, in their order, then the recomputed summary lines, then
/// `end_of_record`. No summary line of the record and no `end_of_record`
/// stays among them, and every line that is no entry and no summary stays.
pub proof fn lemma_filtered_record_layout(r: Seq<Seq<char>>, sources: Seq<SourceFile>, m: Markers)
    requires
        record_source(r) is Some,
        source_content(sources, record_source(r).unwrap()) is Some,
    ensures
        ({
            let c = source_content(sources, record_source(r).unwrap()).unwrap();
            let ex = excluded_set(c, m);
            let names = entry_names(fn_entries(r, ex));
            let body = r.filter(|l: Seq<char>| keeps_line(l, ex, names));
            &&& record_model(r, sources, m).lines == body + record_summaries(r, ex) + seq![
                end_of_record(),
            ]
            &&& record_model(r, sources, m).source_path == record_source(r)
            &&& forall|k: int|
                0 <= k < body.len() ==> !is_summary(#[trigger] body[k]) && body[k]
                    != end_of_record()
            &&& forall|l: Seq<char>|
                r.contains(l) && line_kind(l) is Other ==> #[trigger] body.contains(l)
        }),
{
    let c = source_content(sources, record_source(r).unwrap()).unwrap();
    let ex = excluded_set(c, m);
    let names = entry_names(fn_entries(r, ex));
    let keep = |l: Seq<char>| keeps_line(l, ex, names);
    let body = r.filter(keep);
    lemma_kept_lines_filter(r, ex, names);
    assert forall|k: int| 0 <= k < body.len() implies !is_summary(#[trigger] body[k]) && body[k]
        != end_of_record() by {
        r.lemma_filter_pred(keep, k);
    }
    assert forall|l: Seq<char>| r.contains(l) && line_kind(l) is Other implies #[trigger]
        body.contains(l) by {
        lemma_filter_has(r, keep, l);
    }
}

/// Law: once its source is read, the `DA:` lines of a filtered record are
/// the record's `DA:` lines, in their order, without those whose entry is
/// for a line that the markers exclude; likewise the `BRDA:` lines.
pub proof fn lemma_kept_entry_lines(r: Seq<Seq<char>>, sources: Seq<SourceFile>, m: Markers)
    requires
        record_source(r) is Some,
        source_content(sources, record_source(r).unwrap()) is Some,
    ensures
        ({
            let c = source_content(sources, record_source(r).unwrap()).unwrap();
            let lines = record_model(r, sources, m).lines;
            &&& lines.filter(tagged(tag_da())) == r.filter(
                |l: Seq<char>|
                    is_prefix(tag_da(), l) && match spec_parse_da(l) {
                        Some((n, _)) => !excluded_in(c, m, n as int),
                        None => true,
                    },
            )
            &&& lines.filter(tagged(tag_brda())) == r.filter(
                |l: Seq<char>|
                    is_prefix(tag_brda(), l) && match spec_parse_brda(l) {
                        Some((n, _, _, _)) => !excluded_in(c, m, n as int),
                        None => true,
                    },
            )
        }),
{
    let c = source_content(sources, record_source(r).unwrap()).unwrap();
    let ex = excluded_set(c, m);
    let names = entry_names(fn_entries(r, ex));
    let keep = |l: Seq<char>| keeps_line(l, ex, names);
    let body = r.filter(keep);
    let sums = record_summaries(r, ex);
    let eor = seq![end_of_record()];
    lemma_kept_lines_filter(r, ex, names);
    lemma_summaries_untagged(r, ex);
    assert(record_model(r, sources, m).lines == body + sums + eor);
    let da = tagged(tag_da());
    let brda = tagged(tag_brda());
    Seq::filter_distributes_over_add(body + sums, eor, da);
    Seq::filter_distributes_over_add(body, sums, da);
    Seq::filter_distributes_over_add(body + sums, eor, brda);
    Seq::filter_distributes_over_add(body, sums, brda);
    lemma_filter_rejects_all(sums, da);
    lemma_filter_rejects_all(sums, brda);
    lemma_filter_rejects_all(eor, da);
    lemma_filter_rejects_all(eor, brda);
    lemma_filter_twice(r, keep, da);
    lemma_filter_twice(r, keep, brda);
    let kept_da = |l: Seq<char>|
        is_prefix(tag_da(), l) && match spec_parse_da(l) {
            Some((n, _)) => !excluded_in(c, m, n as int),
            None => true,
        };
    let kept_brda = |l: Seq<char>|
        is_prefix(tag_brda(), l) && match spec_parse_brda(l) {
            Some((n, _, _, _)) => !excluded_in(c, m, n as int),
            None => true,
        };
    assert forall|l: Seq<char>|
        #![trigger keeps_line(l, ex, names)]
        (keep(l) && da(l)) == kept_da(l) && (keep(l) && brda(l)) == kept_brda(l) by {
        lemma_entry_tag_kinds(l);
    }
    assert((|l: Seq<char>| keep(l) && da(l)) =~= kept_da);
    assert((|l: Seq<char>| keep(l) && brda(l)) =~= kept_brda);
}

/// Law: once its source is read, a line of the record that is a function
/// entry (`FN:`) or function hits (`FNDA:`) for a function stays in the
/// filtered record exactly when some `FN:` line of the record declares that
/// function on a line that the markers do not exclude; `FN:` and `FNDA:`
/// lines that do not parse stay.
pub proof fn lemma_function_lines_kept(
    r: Seq<Seq<char>>,
    sources: Seq<SourceFile>,
    m: Markers,
    l: Seq<char>,
)
    requires
        record_source(r) is Some,
        source_content(sources, record_source(r).unwrap()) is Some,
        r.contains(l),
    ensures
        ({
            let c = source_content(sources, record_source(r).unwrap()).unwrap();
            let ex = excluded_set(c, m);
            let lines = record_model(r, sources, m).lines;
            &&& spec_parse_fn(l) matches Some((_, name)) ==> (lines.contains(l)
                <==> declares_function(r, ex, name))
            &&& spec_parse_fnda(l) matches Some((_, name)) ==> (lines.contains(l)
                <==> declares_function(r, ex, name))
            &&& is_prefix(tag_fn(), l) && spec_parse_fn(l) is None ==> lines.contains(l)
            &&& is_prefix(tag_fnda(), l) && spec_parse_fnda(l) is None ==> lines.contains(l)
        }),
{
    let c = source_content(sources, record_source(r).unwrap()).unwrap();
    let ex = excluded_set(c, m);
    let entries = fn_entries(r, ex);
    let names = entry_names(entries);
    let keep = |l: Seq<char>| keeps_line(l, ex, names);
    let body = r.filter(keep);
    let sums = record_summaries(r, ex);
    let lines = record_model(r, sources, m).lines;
    lemma_kept_lines_filter(r, ex, names);
    lemma_summaries_untagged(r, ex);
    lemma_entry_tag_kinds(l);
    lemma_filter_has(r, keep, l);
    assert(lines == body + sums + seq![end_of_record()]);
    if entry_tagged(l) {
        // `l` is among the kept lines or nowhere.
        if lines.contains(l) {
            let k = choose|k: int| 0 <= k < lines.len() && lines[k] == l;
            if k >= body.len() {
                if k < body.len() + sums.len() {
                    assert(sums[k - body.len()] == l);
                } else {
                    assert(lines[k] == end_of_record());
                }
            }
            assert(body[k] == l);
        }
        if body.contains(l) {
            let k = choose|k: int| 0 <= k < body.len() && body[k] == l;
            assert(lines[k] == l);
        }
    }
    // A name is kept exactly when the record declares it.
    assert forall|name: Seq<char>| #[trigger] names.contains(name) <==> declares_function(
        r,
        ex,
        name,
    ) by {
        if names.contains(name) {
            let k = choose|k: int| 0 <= k < names.len() && names[k] == name;
            assert(entries.contains(entries[k]));
            r.lemma_filter_map_contains(fn_entry(ex), entries[k]);
            let t = choose|t: Seq<char>| #[trigger]
                r.contains(t) && fn_entry(ex)(t) == Some(entries[k]);
            assert(r.contains(t) && (spec_parse_fn(t) matches Some((n, f)) && f == name
                && !ex.contains(n)));
        }
        if declares_function(r, ex, name) {
            let t = choose|t: Seq<char>| #[trigger]
                r.contains(t) && (spec_parse_fn(t) matches Some((n, f)) && f == name
                    && !ex.contains(n));
            let e = spec_parse_fn(t).unwrap();
            lemma_filter_map_has(r, fn_entry(ex), t, e);
            let k = choose|k: int| 0 <= k < entries.len() && entries[k] == e;
            assert(names[k] == name);
        }
    }
}

/// One processed record.
#[derive(Clone, Debug, PartialEq, Eq)]
pub struct RecordResult {
    pub lines: Vec<String>,
    pub source_path: Option<String>,
    pub missing_lines: Vec<usize>,
}

impl View for RecordResult {
    type V = RecordView;

    open spec fn view(&self) -> RecordView {
        RecordView {
            lines: string_rows(self.lines@),
            source_path: opt_chars(self.source_path),
            missing_lines: self.missing_lines@,
        }
    }
}

// ------------------------------------------------------------------
// Processing a record
// ------------------------------------------------------------------

proof fn lemma_any_take_succ(r: Seq<Seq<char>>, p: spec_fn(Seq<char>) -> bool, i: int)
    requires
        0 <= i < r.len(),
    ensures
        r.take(i + 1).any(p) == (r.take(i).any(p) || p(r[i])),
{
    let a = r.take(i);
    let b = r.take(i + 1);
    if a.any(p) {
        let k = choose|k: int| 0 <= k < a.len() && #[trigger] p(a[k]);
        assert(b[k] == a[k]);
    }
    if p(r[i]) {
        assert(b[i] == r[i]);
    }
    if b.any(p) {
        let k = choose|k: int| 0 <= k < b.len() && #[trigger] p(b[k]);
        if k < i {
            assert(a[k] == b[k]);
        }
    }
}

/// The characters of every line of a record.
fn rows_of(record: &[String]) -> (rows: Vec<Vec<char>>)
    ensures
        char_rows(rows@) == string_rows(record@),
{
    let mut rows: Vec<Vec<char>> = Vec::new();
    let mut i: usize = 0;
    while i < record.len()
        invariant
            0 <= i <= record.len(),
            char_rows(rows@) == string_rows(record@).take(i as int),
        decreases record.len() - i,
    {
        let ghost old_rows = rows@;
        let row = chars_of(record[i].as_str());
        rows.push(row);
        assert(char_rows(rows@) =~= char_rows(old_rows).push(row@));
        assert(string_rows(record@).take(i + 1) =~= string_rows(record@).take(i as int).push(
            record@[i as int]@,
        ));
        assert(char_rows(rows@) =~= string_rows(record@).take(i + 1));
        i += 1;
    }
    assert(string_rows(record@).take(record.len() as int) =~= string_rows(record@));
    rows
}

/// A copy of the lines of a record.
fn copy_lines(record: &[String]) -> (lines: Vec<String>)
    ensures
        string_rows(lines@) == string_rows(record@),
{
    let mut lines: Vec<String> = Vec::new();
    let mut i: usize = 0;
    while i < record.len()
        invariant
            0 <= i <= record.len(),
            string_rows(lines@) == string_rows(record@).take(i as int),
        decreases record.len() - i,
    {
        let ghost old_lines = lines@;
        let copy = record[i].clone();
        lines.push(copy);
        assert(string_rows(lines@) =~= string_rows(old_lines).push(copy@));
        assert(string_rows(record@).take(i + 1) =~= string_rows(record@).take(i as int).push(
            record@[i as int]@,
        ));
        assert(string_rows(lines@) =~= string_rows(record@).take(i + 1));
        i += 1;
    }
    assert(string_rows(record@).take(record.len() as int) =~= string_rows(record@));
    lines
}

/// The index of the first `SF:` line.
fn find_sf_line(rows: &Vec<Vec<char>>, tags: &Tags) -> (r: Option<usize>)
    requires
        tags.wf(),
    ensures
        match r {
            Some(i) => i < rows@.len() && first_sf_line(char_rows(rows@)) == Some(
                rows@[i as int]@,
            ),
            None => first_sf_line(char_rows(rows@)) is None,
        },
{
    let ghost rs = char_rows(rows@);
    let mut i: usize = 0;
    assert(rs.skip(0) =~= rs);
    while i < rows.len()
        invariant
            0 <= i <= rows@.len(),
            rs == char_rows(rows@),
            tags.wf(),
            first_sf_line(rs) == first_sf_line(rs.skip(i as int)),
        decreases rows@.len() - i,
    {
        assert(rs.skip(i as int)[0] == rows@[i as int]@);
        if starts_with(&rows[i], &tags.sf) {
            return Some(i);
        }
        assert(rs.skip(i as int).drop_first() =~= rs.skip(i + 1));
        i += 1;
    }
    assert(rs.skip(i as int) =~= Seq::<Seq<char>>::empty());
    None
}

/// `s.trim_start_matches("SF:")`.
fn trim_sf_chars(s: &[char], tags: &Tags) -> (t: Vec<char>)
    requires
        tags.wf(),
    ensures
        t@ == trim_sf(s@),
{
    let mut k: usize = 0;
    assert(s@.skip(0) =~= s@);
    loop
        invariant
            0 <= k <= s@.len(),
            tags.wf(),
            trim_sf(s@) == trim_sf(s@.skip(k as int)),
        decreases s@.len() - k,
    {
        let rest = vstd::slice::slice_subrange(s, k, s.len());
        assert(rest@ =~= s@.skip(k as int));
        if starts_with(rest, &tags.sf) {
            assert(s@.skip(k as int).skip(3) =~= s@.skip(k + 3));
            k = k + 3;
        } else {
            return vstd::slice::slice_to_vec(rest);
        }
    }
}

/// The record of a source that could not be read: its lines unchanged,
/// and the line numbers of its zero-hit `DA:` entries as missing.
pub fn process_unreadable_source_record(record: &[String], source_path: String) -> (r:
    RecordResult)
    ensures
        r@ == (RecordView {
            lines: string_rows(record@),
            source_path: Some(source_path@),
            missing_lines: string_rows(record@).filter_map(zero_hit_da()),
        }),
{
    let ghost rs = string_rows(record@);
    let mut missing_lines: Vec<usize> = Vec::new();
    let mut i: usize = 0;
    while i < record.len()
        invariant
            0 <= i <= record.len(),
            rs == string_rows(record@),
            missing_lines@ == rs.take(i as int).filter_map(zero_hit_da()),
        decreases record.len() - i,
    {
        proof {
            rs.lemma_filter_map_take_succ(zero_hit_da(), i as int);
        }
        assert(rs[i as int] == record@[i as int]@);
        if let Some((line_no, hits)) = parse_da_line(record[i].as_str()) {
            if hits == 0 {
                missing_lines.push(line_no);
            }
        }
        i += 1;
    }
    assert(rs.take(record.len() as int) =~= rs);
    RecordResult {
        lines: copy_lines(record),
        source_path: Some(source_path),
        missing_lines,
    }
}

/// The view of function entries.
pub open spec fn entries_view(v: Seq<(usize, Vec<char>)>) -> Seq<(usize, Seq<char>)> {
    v.map_values(|e: (usize, Vec<char>)| (e.0, e.1@))
}

/// The function entries of a record whose lines are not excluded, whether
/// it has `FN:` lines, and whether it has `FNF:`/`FNH:` lines.
fn function_entries(rows: &Vec<Vec<char>>, excluded: &HashSet<usize>, tags: &Tags) -> (r: (
    Vec<(usize, Vec<char>)>,
    bool,
    bool,
))
    requires
        tags.wf(),
    ensures
        entries_view(r.0@) == fn_entries(char_rows(rows@), excluded@),
        r.1 == char_rows(rows@).any(starts_fn()),
        r.2 == char_rows(rows@).any(fn_summary()),
{
    let ghost rs = char_rows(rows@);
    let mut entries: Vec<(usize, Vec<char>)> = Vec::new();
    let mut had_fn = false;
    let mut had_fn_summary = false;
    let mut i: usize = 0;
    while i < rows.len()
        invariant
            0 <= i <= rows@.len(),
            rs == char_rows(rows@),
            tags.wf(),
            entries_view(entries@) == rs.take(i as int).filter_map(fn_entry(excluded@)),
            had_fn == rs.take(i as int).any(starts_fn()),
            had_fn_summary == rs.take(i as int).any(fn_summary()),
        decreases rows@.len() - i,
    {
        let line = &rows[i];
        let ghost l = line@;
        assert(rs[i as int] == l);
        proof {
            rs.lemma_filter_map_take_succ(fn_entry(excluded@), i as int);
            lemma_any_take_succ(rs, starts_fn(), i as int);
            lemma_any_take_succ(rs, fn_summary(), i as int);
        }
        let ghost old_entries = entries@;
        if starts_with(line, &tags.fn_) {
            had_fn = true;
            assert(!(is_prefix(tag_fnf(), l) || is_prefix(tag_fnh(), l))) by {
                assert(l.take(3)[2] == ':');
                if is_prefix(tag_fnf(), l) {
                    assert(l.take(4)[2] == 'F');
                }
                if is_prefix(tag_fnh(), l) {
                    assert(l.take(4)[2] == 'F');
                }
            }
            if let Some((line_no, at)) = parse_fn_chars(line) {
                if !excluded.contains(&line_no) {
                    let name = vstd::slice::slice_to_vec(
                        vstd::slice::slice_subrange(line, at, line.len()),
                    );
                    assert(name@ =~= l.skip(at as int));
                    entries.push((line_no, name));
                    assert(entries_view(entries@) =~= entries_view(old_entries).push(
                        (line_no, name@),
                    ));
                }
            }
        } else if starts_with(line, &tags.fnf) || starts_with(line, &tags.fnh) {
            had_fn_summary = true;
        }
        i += 1;
    }
    assert(rs.take(rows@.len() as int) =~= rs);
    (entries, had_fn, had_fn_summary)
}

/// Whether a function entry named `name` was kept.
fn name_allowed(entries: &Vec<(usize, Vec<char>)>, name: &[char]) -> (r: bool)
    ensures
        r == entry_names(entries_view(entries@)).contains(name@),
{
    let ghost names = entry_names(entries_view(entries@));
    let mut i: usize = 0;
    while i < entries.len()
        invariant
            0 <= i <= entries@.len(),
            names == entry_names(entries_view(entries@)),
            forall|k: int| 0 <= k < i ==> names[k] != name@,
        decreases entries@.len() - i,
    {
        assert(names[i as int] == entries@[i as int].1@);
        if chars_eq(&entries[i].1, name) {
            return true;
        }
        i += 1;
    }
    false
}

/// Keeps an `FN:` line for a kept function, or one that does not parse.
fn push_allowed_fn_line(
    line: &String,
    text: &[char],
    entries: &Vec<(usize, Vec<char>)>,
    out: &mut Vec<String>,
)
    requires
        text@ == line@,
    ensures
        string_rows(final(out)@) == string_rows(old(out)@) + match spec_parse_fn(text@) {
            Some((_, name)) => if entry_names(entries_view(entries@)).contains(name) {
                seq![text@]
            } else {
                Seq::empty()
            },
            None => seq![text@],
        },
{
    let ghost old_out = out@;
    if let Some((_, at)) = parse_fn_chars(text) {
        if name_allowed(entries, vstd::slice::slice_subrange(text, at, text.len())) {
            out.push(line.clone());
            assert(string_rows(out@) =~= string_rows(old_out) + seq![text@]);
        } else {
            assert(string_rows(out@) =~= string_rows(old_out) + Seq::empty());
        }
    } else {
        out.push(line.clone());
        assert(string_rows(out@) =~= string_rows(old_out) + seq![text@]);
    }
}

/// Keeps an `FNDA:` line for a kept function (and records its hits), or
/// one that does not parse.
fn push_allowed_fnda_line(
    line: &String,
    text: &[char],
    entries: &Vec<(usize, Vec<char>)>,
    out: &mut Vec<String>,
    fnda_hits: &mut Vec<u64>,
)
    requires
        text@ == line@,
    ensures
        string_rows(final(out)@) == string_rows(old(out)@) + match spec_parse_fnda(text@) {
            Some((_, name)) => if entry_names(entries_view(entries@)).contains(name) {
                seq![text@]
            } else {
                Seq::empty()
            },
            None => seq![text@],
        },
        final(fnda_hits)@ == old(fnda_hits)@ + match spec_parse_fnda(text@) {
            Some((h, name)) => if entry_names(entries_view(entries@)).contains(name) {
                seq![h]
            } else {
                Seq::empty()
            },
            None => Seq::empty(),
        },
{
    let ghost old_out = out@;
    let ghost old_hits = fnda_hits@;
    if let Some((hits, at)) = parse_fnda_chars(text) {
        if name_allowed(entries, vstd::slice::slice_subrange(text, at, text.len())) {
            out.push(line.clone());
            fnda_hits.push(hits);
            assert(string_rows(out@) =~= string_rows(old_out) + seq![text@]);
            assert(fnda_hits@ =~= old_hits + seq![hits]);
        } else {
            assert(string_rows(out@) =~= string_rows(old_out) + Seq::empty());
            assert(fnda_hits@ =~= old_hits + Seq::empty());
        }
    } else {
        out.push(line.clone());
        assert(string_rows(out@) =~= string_rows(old_out) + seq![text@]);
        assert(fnda_hits@ =~= old_hits + Seq::empty());
    }
}

/// Keeps a `DA:` line of a line that is not excluded (recording its hits,
/// and its number where it has none), or one that does not parse.
fn push_allowed_da_line(
    line: &String,
    text: &[char],
    excluded: &HashSet<usize>,
    out: &mut Vec<String>,
    da_hits: &mut Vec<u64>,
    missing_lines: &mut Vec<usize>,
)
    requires
        text@ == line@,
    ensures
        string_rows(final(out)@) == string_rows(old(out)@) + match spec_parse_da(text@) {
            Some((n, _)) => if !excluded@.contains(n) {
                seq![text@]
            } else {
                Seq::empty()
            },
            None => seq![text@],
        },
        final(da_hits)@ == old(da_hits)@ + match spec_parse_da(text@) {
            Some((n, h)) => if !excluded@.contains(n) {
                seq![h]
            } else {
                Seq::empty()
            },
            None => Seq::empty(),
        },
        final(missing_lines)@ == old(missing_lines)@ + match spec_parse_da(text@) {
            Some((n, h)) => if !excluded@.contains(n) && h == 0 {
                seq![n]
            } else {
                Seq::empty()
            },
            None => Seq::empty(),
        },
{
    let ghost old_out = out@;
    let ghost old_hits = da_hits@;
    let ghost old_missing = missing_lines@;
    if let Some((line_no, hits)) = parse_da_chars(text) {
        if !excluded.contains(&line_no) {
            out.push(line.clone());
            da_hits.push(hits);
            assert(string_rows(out@) =~= string_rows(old_out) + seq![text@]);
            assert(da_hits@ =~= old_hits + seq![hits]);
            if hits == 0 {
                missing_lines.push(line_no);
                assert(missing_lines@ =~= old_missing + seq![line_no]);
            } else {
                assert(missing_lines@ =~= old_missing + Seq::empty());
            }
        } else {
            assert(string_rows(out@) =~= string_rows(old_out) + Seq::empty());
            assert(da_hits@ =~= old_hits + Seq::empty());
            assert(missing_lines@ =~= old_missing + Seq::empty());
        }
    } else {
        out.push(line.clone());
        assert(string_rows(out@) =~= string_rows(old_out) + seq![text@]);
        assert(da_hits@ =~= old_hits + Seq::empty());
        assert(missing_lines@ =~= old_missing + Seq::empty());
    }
}

/// Keeps a `BRDA:` line of a line that is not excluded (recording its
/// `taken` field), or one that does not parse.
fn push_allowed_brda_line(
    line: &String,
    text: &[char],
    excluded: &HashSet<usize>,
    out: &mut Vec<String>,
    brda_taken: &mut Vec<Vec<char>>,
)
    requires
        text@ == line@,
    ensures
        string_rows(final(out)@) == string_rows(old(out)@) + match spec_parse_brda(text@) {
            Some((n, _, _, _)) => if !excluded@.contains(n) {
                seq![text@]
            } else {
                Seq::empty()
            },
            None => seq![text@],
        },
        char_rows(final(brda_taken)@) == char_rows(old(brda_taken)@) + match spec_parse_brda(
            text@,
        ) {
            Some((n, _, _, t)) => if !excluded@.contains(n) {
                seq![t]
            } else {
                Seq::empty()
            },
            None => Seq::empty(),
        },
{
    let ghost old_out = out@;
    let ghost old_taken = brda_taken@;
    if let Some((line_no, _, _, k)) = parse_brda_chars(text) {
        if !excluded.contains(&line_no) {
            out.push(line.clone());
            let taken = vstd::slice::slice_to_vec(
                vstd::slice::slice_subrange(text, k + 1, text.len()),
            );
            assert(taken@ =~= text@.skip(k + 1));
            brda_taken.push(taken);
            assert(string_rows(out@) =~= string_rows(old_out) + seq![text@]);
            assert(char_rows(brda_taken@) =~= char_rows(old_taken) + seq![taken@]);
        } else {
            assert(string_rows(out@) =~= string_rows(old_out) + Seq::empty());
            assert(char_rows(brda_taken@) =~= char_rows(old_taken) + Seq::empty());
        }
    } else {
        out.push(line.clone());
        assert(string_rows(out@) =~= string_rows(old_out) + seq![text@]);
        assert(char_rows(brda_taken@) =~= char_rows(old_taken) + Seq::empty());
    }
}

/// What the summary lines of a record are computed from.
struct SummaryInput<'a> {
    had_fn: bool,
    had_fnda: bool,
    had_da: bool,
    had_brda: bool,
    had_fn_summary: bool,
    had_line_summary: bool,
    had_branch_summary: bool,
    fn_entries: &'a [(usize, Vec<char>)],
    fnda_hits: &'a [u64],
    da_hits: &'a [u64],
    brda_taken: &'a [Vec<char>],
}

/// The number of positive counts.
fn count_positive_of(s: &[u64]) -> (r: usize)
    ensures
        r == count_positive(s@),
{
    let mut r: usize = 0;
    let mut i: usize = 0;
    while i < s.len()
        invariant
            0 <= i <= s.len(),
            r <= i,
            r == count_positive(s@.take(i as int)),
        decreases s.len() - i,
    {
        assert(s@.take(i + 1).drop_last() == s@.take(i as int));
        if s[i] > 0 {
            r += 1;
        }
        i += 1;
    }
    assert(s@.take(s.len() as int) == s@);
    r
}

/// Whether a branch's `taken` field counts as taken.
fn is_taken(t: &[char]) -> (r: bool)
    ensures
        r == taken_hit(t@),
{
    let dash = vec!['-'];
    if chars_eq(t, &dash) {
        return false;
    }
    match parse_u64(t) {
        Some(v) => v > 0,
        None => false,
    }
}

/// The number of taken branches.
fn count_taken_of(s: &[Vec<char>]) -> (r: usize)
    ensures
        r == count_taken(char_rows(s@)),
{
    let ghost rs = char_rows(s@);
    let mut r: usize = 0;
    let mut i: usize = 0;
    while i < s.len()
        invariant
            0 <= i <= s.len(),
            rs == char_rows(s@),
            r <= i,
            r == count_taken(rs.take(i as int)),
        decreases s.len() - i,
    {
        assert(rs.take(i + 1).drop_last() == rs.take(i as int));
        assert(rs.take(i + 1).last() == s@[i as int]@);
        if is_taken(&s[i]) {
            r += 1;
        }
        i += 1;
    }
    assert(rs.take(s.len() as int) == rs);
    r
}

/// A tag followed by a count.
fn summary_string(tag: &[char], n: usize) -> (s: String)
    ensures
        s@ == summary_line(tag@, n as nat),
{
    let mut s = string_of(tag);
    push_decimal(&mut s, n as u128);
    s
}

/// Appends the summary lines of a record.
fn append_summaries(out: &mut Vec<String>, input: SummaryInput<'_>, tags: &Tags)
    requires
        tags.wf(),
    ensures
        string_rows(final(out)@) == string_rows(old(out)@) + summary_block(
            input.had_fn || input.had_fnda || input.had_fn_summary,
            input.fn_entries@.len(),
            count_positive(input.fnda_hits@),
            input.had_brda || input.had_branch_summary,
            input.brda_taken@.len(),
            count_taken(char_rows(input.brda_taken@)),
            input.had_da || input.had_line_summary,
            input.da_hits@.len(),
            count_positive(input.da_hits@),
        ),
{
    let ghost old_out = string_rows(out@);
    let lf = input.da_hits.len();
    let lh = count_positive_of(input.da_hits);
    let brf = input.brda_taken.len();
    let brh = count_taken_of(input.brda_taken);
    let fnf = input.fn_entries.len();
    let fnh = count_positive_of(input.fnda_hits);
    let ghost fn_part: Seq<Seq<char>> = if input.had_fn || input.had_fnda || input.had_fn_summary
        || fnf > 0 {
        seq![summary_line(tag_fnf(), fnf as nat), summary_line(tag_fnh(), fnh as nat)]
    } else {
        Seq::empty()
    };
    let ghost br_part: Seq<Seq<char>> = if input.had_brda || input.had_branch_summary || brf
        > 0 {
        seq![summary_line(tag_brf(), brf as nat), summary_line(tag_brh(), brh as nat)]
    } else {
        Seq::empty()
    };
    let ghost lines_part: Seq<Seq<char>> = if input.had_da || input.had_line_summary || lf > 0 {
        seq![summary_line(tag_lf(), lf as nat), summary_line(tag_lh(), lh as nat)]
    } else {
        Seq::empty()
    };
    if input.had_fn || input.had_fnda || input.had_fn_summary || fnf > 0 {
        let a = summary_string(&tags.fnf, fnf);
        let b = summary_string(&tags.fnh, fnh);
        out.push(a);
        out.push(b);
    }
    assert(string_rows(out@) =~= old_out + fn_part);
    if input.had_brda || input.had_branch_summary || brf > 0 {
        let a = summary_string(&tags.brf, brf);
        let b = summary_string(&tags.brh, brh);
        out.push(a);
        out.push(b);
    }
    assert(string_rows(out@) =~= old_out + fn_part + br_part);
    if input.had_da || input.had_line_summary || lf > 0 {
        let a = summary_string(&tags.lf, lf);
        let b = summary_string(&tags.lh, lh);
        out.push(a);
        out.push(b);
    }
    assert(string_rows(out@) =~= old_out + fn_part + br_part + lines_part);
}

/// The lines and missing line numbers of a record once the lines
/// `excluded` of its source are excluded.
fn filter_record(
    record: &[String],
    rows: &Vec<Vec<char>>,
    excluded: &HashSet<usize>,
    tags: &Tags,
) -> (r: (Vec<String>, Vec<usize>))
    requires
        tags.wf(),
        char_rows(rows@) == string_rows(record@),
    ensures
        string_rows(r.0@) == filtered_lines(string_rows(record@), excluded@),
        r.1@ == string_rows(record@).filter_map(missing_da(excluded@)),
{
    let ghost rs = char_rows(rows@);
    let ghost ex = excluded@;
    let (entries, had_fn, had_fn_summary) = function_entries(rows, excluded, tags);
    let ghost names = entry_names(fn_entries(rs, ex));
    let mut had_fnda = false;
    let mut had_da = false;
    let mut had_brda = false;
    let mut had_line_summary = false;
    let mut had_branch_summary = false;
    let mut out: Vec<String> = Vec::new();
    let mut da_hits: Vec<u64> = Vec::new();
    let mut brda_taken: Vec<Vec<char>> = Vec::new();
    let mut fnda_hits: Vec<u64> = Vec::new();
    let mut missing_lines: Vec<usize> = Vec::new();
    let mut i: usize = 0;
    assert(rs.take(0) =~= Seq::<Seq<char>>::empty());
    while i < record.len()
        invariant
            0 <= i <= record.len(),
            rs == char_rows(rows@),
            rs == string_rows(record@),
            ex == excluded@,
            tags.wf(),
            entries_view(entries@) == fn_entries(rs, ex),
            names == entry_names(fn_entries(rs, ex)),
            had_fn == rs.any(starts_fn()),
            had_fn_summary == rs.any(fn_summary()),
            string_rows(out@) == rs.take(i as int).filter_map(kept_line(ex, names)),
            fnda_hits@ == rs.take(i as int).filter_map(kept_fnda(names)),
            da_hits@ == rs.take(i as int).filter_map(kept_da(ex)),
            char_rows(brda_taken@) == rs.take(i as int).filter_map(kept_brda(ex)),
            missing_lines@ == rs.take(i as int).filter_map(missing_da(ex)),
            had_fnda == rs.take(i as int).any(kind_is(LineKind::FunctionHits)),
            had_da == rs.take(i as int).any(kind_is(LineKind::LineHits)),
            had_brda == rs.take(i as int).any(kind_is(LineKind::Branch)),
            had_line_summary == rs.take(i as int).any(line_summary()),
            had_branch_summary == rs.take(i as int).any(branch_summary()),
        decreases record.len() - i,
    {
        let line = &record[i];
        let text = &rows[i];
        let ghost l = text@;
        assert(rs[i as int] == l);
        assert(line@ == l);
        proof {
            rs.lemma_filter_map_take_succ(kept_line(ex, names), i as int);
            rs.lemma_filter_map_take_succ(kept_fnda(names), i as int);
            rs.lemma_filter_map_take_succ(kept_da(ex), i as int);
            rs.lemma_filter_map_take_succ(kept_brda(ex), i as int);
            rs.lemma_filter_map_take_succ(missing_da(ex), i as int);
            lemma_any_take_succ(rs, kind_is(LineKind::FunctionHits), i as int);
            lemma_any_take_succ(rs, kind_is(LineKind::LineHits), i as int);
            lemma_any_take_succ(rs, kind_is(LineKind::Branch), i as int);
            lemma_any_take_succ(rs, line_summary(), i as int);
            lemma_any_take_succ(rs, branch_summary(), i as int);
        }
        let ghost old_out = string_rows(out@);
        if chars_eq(text, &tags.eor) {
            assert(line_kind(l) is EndOfRecord);
            assert(string_rows(out@) =~= old_out + Seq::empty());
        } else if is_summary_chars(text, tags) {
            assert(line_kind(l) is Summary);
            let is_line = starts_with(text, &tags.lf) || starts_with(text, &tags.lh);
            let is_branch = starts_with(text, &tags.brf) || starts_with(text, &tags.brh);
            had_line_summary = had_line_summary || is_line;
            had_branch_summary = had_branch_summary || is_branch;
            assert(string_rows(out@) =~= old_out + Seq::empty());
        } else if starts_with(text, &tags.fn_) {
            assert(line_kind(l) is Function);
            push_allowed_fn_line(line, text, &entries, &mut out);
        } else if starts_with(text, &tags.fnda) {
            assert(line_kind(l) is FunctionHits);
            had_fnda = true;
            push_allowed_fnda_line(line, text, &entries, &mut out, &mut fnda_hits);
        } else if starts_with(text, &tags.da) {
            assert(line_kind(l) is LineHits);
            had_da = true;
            push_allowed_da_line(line, text, excluded, &mut out, &mut da_hits, &mut missing_lines);
        } else if starts_with(text, &tags.brda) {
            assert(line_kind(l) is Branch);
            had_brda = true;
            push_allowed_brda_line(line, text, excluded, &mut out, &mut brda_taken);
        } else {
            assert(line_kind(l) is Other);
            out.push(line.clone());
            assert(string_rows(out@) =~= old_out + seq![l]);
        }
        i += 1;
    }
    assert(rs.take(record.len() as int) =~= rs);
    append_summaries(
        &mut out,
        SummaryInput {
            had_fn,
            had_fnda,
            had_da,
            had_brda,
            had_fn_summary,
            had_line_summary,
            had_branch_summary,
            fn_entries: entries.as_slice(),
            fnda_hits: fnda_hits.as_slice(),
            da_hits: da_hits.as_slice(),
            brda_taken: brda_taken.as_slice(),
        },
        tags,
    );
    assert(entries@.len() == fn_entries(rs, ex).len());
    let ghost before_end = string_rows(out@);
    out.push(string_of(&tags.eor));
    assert(string_rows(out@) =~= before_end.push(end_of_record()));
    assert(string_rows(out@) =~= filtered_lines(rs, ex));
    (out, missing_lines)
}

// ------------------------------------------------------------------
// Sources and their excluded lines
// ------------------------------------------------------------------

/// The excluded lines of each source file, computed once per file.
pub struct ExclusionCache {
    entries: Vec<(PathParts, Option<HashSet<usize>>)>,
    sources: Ghost<Seq<SourceFile>>,
    markers: Ghost<Markers>,
}

impl ExclusionCache {
    /// The source files the cache was built from.
    pub closed spec fn sources(&self) -> Seq<SourceFile> {
        self.sources@
    }

    /// The markers the cache was built with.
    pub closed spec fn markers(&self) -> Markers {
        self.markers@
    }

    pub closed spec fn wf(&self) -> bool {
        &&& self.entries@.len() == self.sources@.len()
        &&& forall|i: int|
            0 <= i < self.entries@.len() ==> {
                let e = #[trigger] self.entries@[i];
                let s = self.sources@[i];
                &&& e.0.key() == path_key(s.path@)
                &&& match s.content {
                    Some(c) => e.1 is Some && e.1.unwrap()@ == excluded_set(c@, self.markers@),
                    None => e.1 is None,
                }
            }
    }

    /// Reads the excluded lines of every readable source file.
    pub fn new(sources: &[SourceFile], markers: &Markers) -> (c: Self)
        ensures
            c.wf(),
            c.sources() == sources@,
            c.markers() == *markers,
    {
        let mut entries: Vec<(PathParts, Option<HashSet<usize>>)> = Vec::new();
        let mut i: usize = 0;
        while i < sources.len()
            invariant
                0 <= i <= sources.len(),
                entries@.len() == i,
                forall|k: int|
                    0 <= k < i ==> {
                        let e = #[trigger] entries@[k];
                        let s = sources@[k];
                        &&& e.0.key() == path_key(s.path@)
                        &&& match s.content {
                            Some(c) => e.1 is Some && e.1.unwrap()@ == excluded_set(c@, *markers),
                            None => e.1 is None,
                        }
                    },
            decreases sources.len() - i,
        {
            let source = &sources[i];
            let excluded = match &source.content {
                Some(content) => {
                    let cs = chars_of(content.as_str());
                    let lines = split_lines(&cs);
                    let h = excluded_lines_of(&lines, markers);
                    assert(h@ =~= excluded_set(content@, *markers));
                    Some(h)
                },
                None => None,
            };
            let parts = path_parts(chars_of(source.path.as_str()).as_slice());
            entries.push((parts, excluded));
            i += 1;
        }
        ExclusionCache { entries, sources: Ghost(sources@), markers: Ghost(*markers) }
    }

    /// The excluded lines of the first source file whose path names the
    /// same path as `path`; `None` where there is none or it could not be
    /// read.
    fn lookup(&self, path: &String) -> (r: Option<&HashSet<usize>>)
        requires
            self.wf(),
        ensures
            match r {
                Some(h) => source_content(self.sources(), path@) is Some && h@ == excluded_set(
                    source_content(self.sources(), path@).unwrap(),
                    self.markers(),
                ),
                None => source_content(self.sources(), path@) is None,
            },
    {
        let ghost srcs = self.sources@;
        let wanted = path_parts(chars_of(path.as_str()).as_slice());
        let mut i: usize = 0;
        assert(srcs.skip(0) =~= srcs);
        while i < self.entries.len()
            invariant
                0 <= i <= self.entries@.len(),
                self.wf(),
                wanted.key() == path_key(path@),
                srcs == self.sources@,
                source_content(srcs, path@) == source_content(srcs.skip(i as int), path@),
            decreases self.entries@.len() - i,
        {
            let entry = &self.entries[i];
            assert(srcs.skip(i as int)[0] == srcs[i as int]);
            if same_parts(&entry.0, &wanted) {
                match &entry.1 {
                    Some(h) => return Some(h),
                    None => return None,
                }
            }
            assert(srcs.skip(i as int).drop_first() =~= srcs.skip(i + 1));
            i += 1;
        }
        assert(srcs.skip(i as int) =~= Seq::<SourceFile>::empty());
        None
    }
}

/// Processes one record (see `record_model`).
pub fn process_record(record: &[String], cache: &ExclusionCache) -> (r: RecordResult)
    requires
        cache.wf(),
    ensures
        r@ == record_model(string_rows(record@), cache.sources(), cache.markers()),
{
    let tags = Tags::new();
    let rows = rows_of(record);
    match find_sf_line(&rows, &tags) {
        None => RecordResult {
            lines: copy_lines(record),
            source_path: None,
            missing_lines: Vec::new(),
        },
        Some(i) => {
            let path = trim_sf_chars(&rows[i], &tags);
            let source_path = string_of(&path);
            match cache.lookup(&source_path) {
                None => process_unreadable_source_record(record, source_path),
                Some(excluded) => {
                    let (lines, missing_lines) = filter_record(record, &rows, excluded, &tags);
                    RecordResult { lines, source_path: Some(source_path), missing_lines }
                },
            }
        },
    }
}

/// The view of a vector of results.
pub open spec fn result_views(v: Seq<RecordResult>) -> Seq<RecordView> {
    v.map_values(|r: RecordResult| r@)
}

/// What every record of the report becomes.
pub open spec fn filtered_records(
    input: Seq<char>,
    sources: Seq<SourceFile>,
    m: Markers,
) -> Seq<RecordView> {
    records_of(input).map_values(|r: Seq<Seq<char>>| record_model(r, sources, m))
}

/// Splits the report into records and processes each; `sources` holds what
/// reading each source file gave.
pub fn filter_lcov_records(input: &str, markers: &Markers, sources: &[SourceFile]) -> (r: Vec<
    RecordResult,
>)
    ensures
        result_views(r@) == filtered_records(input@, sources@, *markers),
{
    let records = split_records(input);
    let cache = ExclusionCache::new(sources, markers);
    let ghost recs = record_rows(records@);
    let mut results: Vec<RecordResult> = Vec::new();
    let mut i: usize = 0;
    while i < records.len()
        invariant
            0 <= i <= records@.len(),
            recs == record_rows(records@),
            recs == records_of(input@),
            cache.wf(),
            cache.sources() == sources@,
            cache.markers() == *markers,
            result_views(results@) == recs.take(i as int).map_values(
                |r: Seq<Seq<char>>| record_model(r, sources@, *markers),
            ),
        decreases records@.len() - i,
    {
        let ghost old_results = results@;
        let res = process_record(records[i].as_slice(), &cache);
        assert(recs[i as int] == string_rows(records@[i as int]@));
        results.push(res);
        assert(result_views(results@) =~= result_views(old_results).push(res@));
        assert(recs.take(i + 1) =~= recs.take(i as int).push(recs[i as int]));
        assert(result_views(results@) =~= recs.take(i + 1).map_values(
            |r: Seq<Seq<char>>| record_model(r, sources@, *markers),
        ));
        i += 1;
    }
    assert(recs.take(records@.len() as int) =~= recs);
    results
}

/// Every line followed by a newline.
pub open spec fn terminated(ls: Seq<Seq<char>>) -> Seq<char>
    decreases ls.len(),
{
    if ls.len() == 0 {
        Seq::empty()
    } else {
        terminated(ls.drop_last()) + ls.last() + seq!['\n']
    }
}

/// `lines.join("\n") + "\n"`.
pub open spec fn joined_text(ls: Seq<Seq<char>>) -> Seq<char> {
    if ls.len() == 0 {
        seq!['\n']
    } else {
        terminated(ls)
    }
}

/// All lines of all records, in order.
pub open spec fn all_lines(rs: Seq<RecordView>) -> Seq<Seq<char>> {
    rs.map_values(|r: RecordView| r.lines).flatten()
}

/// The filtered LCOV report: the lines of all processed records, each
/// followed by a newline (a report without lines becomes one newline).
pub fn filter_lcov(input: &str, markers: &Markers, sources: &[SourceFile]) -> (out: String)
    ensures
        out@ == joined_text(all_lines(filtered_records(input@, sources@, *markers))),
{
    let records = filter_lcov_records(input, markers, sources);
    let ghost rv = result_views(records@);
    let ghost parts = rv.map_values(|r: RecordView| r.lines);
    let mut out = String::new();
    let mut count: usize = 0;
    let mut i: usize = 0;
    assert(parts.take(0) =~= Seq::<Seq<Seq<char>>>::empty());
    while i < records.len()
        invariant
            0 <= i <= records@.len(),
            rv == result_views(records@),
            parts == rv.map_values(|r: RecordView| r.lines),
            out@ == terminated(parts.take(i as int).flatten()),
            (count == 0) == (parts.take(i as int).flatten().len() == 0),
        decreases records@.len() - i,
    {
        let lines = &records[i].lines;
        let ghost done = parts.take(i as int).flatten();
        assert(parts[i as int] == string_rows(lines@));
        assert(parts.take(i + 1) =~= parts.take(i as int).push(parts[i as int]));
        proof {
            parts.take(i as int).lemma_flatten_push(parts[i as int]);
        }
        let mut k: usize = 0;
        while k < lines.len()
            invariant
                0 <= k <= lines@.len(),
                out@ == terminated(done + string_rows(lines@).take(k as int)),
                (count == 0) == ((done + string_rows(lines@).take(k as int)).len() == 0),
            decreases lines@.len() - k,
        {
            let ghost before = done + string_rows(lines@).take(k as int);
            let ghost after = done + string_rows(lines@).take(k + 1);
            assert(after.drop_last() =~= before);
            assert(after.last() == lines@[k as int]@);
            out.append(lines[k].as_str());
            push_char(&mut out, '\n');
            if count < 1 {
                count = 1;
            }
            k += 1;
        }
        assert(string_rows(lines@).take(lines@.len() as int) =~= string_rows(lines@));
        i += 1;
    }
    assert(parts.take(records@.len() as int) =~= parts);
    if count == 0 {
        push_char(&mut out, '\n');
        assert(out@ =~= seq!['\n']);
    }
    out
}

// ------------------------------------------------------------------
// The source files a report names
// ------------------------------------------------------------------

/// The source path a record names (see `record_source`).
pub fn record_source_of(record: &[String]) -> (r: Option<String>)
    ensures
        opt_chars(r) == record_source(string_rows(record@)),
{
    let tags = Tags::new();
    let rows = rows_of(record);
    match find_sf_line(&rows, &tags) {
        None => None,
        Some(i) => {
            let path = trim_sf_chars(&rows[i], &tags);
            Some(string_of(&path))
        },
    }
}

/// Record `r` names the source path `p`.
pub open spec fn names_path(r: Seq<Seq<char>>, p: Seq<char>) -> bool {
    record_source(r) == Some(p)
}

/// The source paths of the records.
pub open spec fn record_sources(recs: Seq<Seq<Seq<char>>>) -> Seq<Option<Seq<char>>> {
    recs.map_values(|r: Seq<Seq<char>>| record_source(r))
}

/// Some path of `d` names the same path as `p`.
pub open spec fn has_same_path(d: Seq<Seq<char>>, p: Seq<char>) -> bool {
    exists|k: int| 0 <= k < d.len() && #[trigger] same_path(d[k], p)
}

/// The paths among `s`, each kept at the first spelling that names it.
pub open spec fn distinct_paths(s: Seq<Option<Seq<char>>>) -> Seq<Seq<char>>
    decreases s.len(),
{
    if s.len() == 0 {
        Seq::empty()
    } else {
        let d = distinct_paths(s.drop_last());
        match s.last() {
            Some(p) => if has_same_path(d, p) {
                d
            } else {
                d.push(p)
            },
            None => d,
        }
    }
}

/// Some record of the report names the source path `p`.
pub open spec fn named_source(input: Seq<char>, p: Seq<char>) -> bool {
    exists|j: int| 0 <= j < records_of(input).len() && #[trigger] names_path(records_of(input)[j], p)
}

/// Whether some computed path has the components of `p`.
fn has_same_parts(keys: &Vec<PathParts>, p: &PathParts) -> (r: bool)
    ensures
        r == exists|k: int| 0 <= k < keys@.len() && #[trigger] keys@[k].key() == p.key(),
{
    let mut k: usize = 0;
    while k < keys.len()
        invariant
            0 <= k <= keys@.len(),
            forall|q: int| 0 <= q < k ==> keys@[q].key() != p.key(),
        decreases keys@.len() - k,
    {
        if same_parts(&keys[k], p) {
            return true;
        }
        k += 1;
    }
    false
}

/// The source paths that the records of a report name, each path once (at
/// the first spelling that names it), in the order in which they first
/// occur; these are the files whose contents `filter_lcov_records` needs.
pub fn source_paths(input: &str) -> (paths: Vec<String>)
    ensures
        string_rows(paths@) == distinct_paths(record_sources(records_of(input@))),
        forall|a: int, b: int|
            0 <= a < paths@.len() && 0 <= b < paths@.len() && a != b ==> !same_path(
                #[trigger] paths@[a]@,
                #[trigger] paths@[b]@,
            ),
        forall|k: int| 0 <= k < paths@.len() ==> #[trigger] named_source(input@, paths@[k]@),
        forall|j: int|
            0 <= j < records_of(input@).len() ==> match #[trigger] record_source(
                records_of(input@)[j],
            ) {
                Some(p) => has_same_path(string_rows(paths@), p),
                None => true,
            },
{
    let records = split_records(input);
    let ghost recs = records_of(input@);
    let mut paths: Vec<String> = Vec::new();
    let mut keys: Vec<PathParts> = Vec::new();
    let ghost mut witness: Seq<int> = Seq::empty();
    let mut i: usize = 0;
    while i < records.len()
        invariant
            0 <= i <= records@.len(),
            recs == record_rows(records@),
            recs == records_of(input@),
            string_rows(paths@) == distinct_paths(record_sources(recs.take(i as int))),
            keys@.len() == paths@.len(),
            forall|k: int| 0 <= k < keys@.len() ==> #[trigger] keys@[k].key() == path_key(
                paths@[k]@,
            ),
            forall|a: int, b: int|
                0 <= a < paths@.len() && 0 <= b < paths@.len() && a != b ==> !same_path(
                    #[trigger] paths@[a]@,
                    #[trigger] paths@[b]@,
                ),
            witness.len() == paths@.len(),
            forall|k: int|
                0 <= k < paths@.len() ==> 0 <= #[trigger] witness[k] < i && names_path(
                    recs[witness[k]],
                    paths@[k]@,
                ),
            forall|j: int|
                0 <= j < i ==> match #[trigger] record_source(recs[j]) {
                    Some(p) => has_same_path(string_rows(paths@), p),
                    None => true,
                },
        decreases records@.len() - i,
    {
        let ghost old_paths = paths@;
        let ghost old_keys = keys@;
        let ghost old_rows = string_rows(paths@);
        let ghost old_witness = witness;
        assert(recs[i as int] == string_rows(records@[i as int]@));
        let src = record_source_of(records[i].as_slice());
        proof {
            assert(record_sources(recs.take(i + 1)) =~= record_sources(recs.take(i as int)).push(
                record_source(recs[i as int]),
            ));
            assert(record_sources(recs.take(i + 1)).drop_last() =~= record_sources(
                recs.take(i as int),
            ));
        }
        if let Some(p) = src {
            let parts = path_parts(chars_of(p.as_str()).as_slice());
            let seen = has_same_parts(&keys, &parts);
            proof {
                if seen {
                    let k = choose|k: int| 0 <= k < keys@.len() && #[trigger] keys@[k].key()
                        == parts.key();
                    assert(same_path(old_rows[k], p@));
                    assert(has_same_path(old_rows, p@));
                } else {
                    assert forall|k: int| 0 <= k < old_rows.len() implies !same_path(
                        #[trigger] old_rows[k],
                        p@,
                    ) by {
                        assert(keys@[k].key() == path_key(old_rows[k]));
                    }
                    assert(!has_same_path(old_rows, p@));
                }
            }
            if !seen {
                paths.push(p);
                keys.push(parts);
                proof {
                    witness = witness.push(i as int);
                }
                let ghost rows = string_rows(paths@);
                assert(rows =~= old_rows.push(p@));
                assert forall|a: int, b: int|
                    0 <= a < paths@.len() && 0 <= b < paths@.len() && a != b implies !same_path(
                    #[trigger] paths@[a]@,
                    #[trigger] paths@[b]@,
                ) by {
                    if a < old_paths.len() && b < old_paths.len() {
                        assert(old_paths[a] == paths@[a]);
                        assert(old_paths[b] == paths@[b]);
                    } else if a < old_paths.len() {
                        assert(old_rows[a] == paths@[a]@);
                        assert(!same_path(old_rows[a], p@));
                    } else if b < old_paths.len() {
                        assert(old_rows[b] == paths@[b]@);
                        assert(!same_path(old_rows[b], p@));
                    }
                }
                assert forall|k: int| 0 <= k < keys@.len() implies #[trigger] keys@[k].key()
                    == path_key(paths@[k]@) by {
                    if k < old_keys.len() {
                        assert(old_keys[k] == keys@[k]);
                        assert(old_paths[k] == paths@[k]);
                    }
                }
            }
        }
        proof {
            let rows = string_rows(paths@);
            assert forall|k: int| 0 <= k < old_rows.len() implies rows[k] == old_rows[k] by {
                assert(paths@[k] == old_paths[k]);
            }
            assert forall|k: int| 0 <= k < paths@.len() implies 0 <= #[trigger] witness[k] < i + 1
                && names_path(recs[witness[k]], paths@[k]@) by {
                if k < old_paths.len() {
                    assert(old_paths[k] == paths@[k]);
                    assert(old_witness[k] == witness[k]);
                } else {
                    assert(witness[k] == i);
                }
            }
            assert forall|j: int| 0 <= j < i + 1 implies match #[trigger] record_source(recs[j]) {
                Some(q) => has_same_path(rows, q),
                None => true,
            } by {
                if let Some(q) = record_source(recs[j]) {
                    if j < i || has_same_path(old_rows, q) {
                        assert(has_same_path(old_rows, q));
                        let w = choose|w: int| 0 <= w < old_rows.len() && #[trigger] same_path(
                            old_rows[w],
                            q,
                        );
                        assert(same_path(rows[w], q));
                    } else {
                        assert(rows[old_rows.len() as int] == q);
                        assert(same_path(rows[old_rows.len() as int], q));
                    }
                }
            }
        }
        i += 1;
    }
    assert(recs.take(records@.len() as int) =~= recs);
    assert forall|k: int| 0 <= k < paths@.len() implies #[trigger] named_source(
        input@,
        paths@[k]@,
    ) by {
        let j = witness[k];
        assert(names_path(records_of(input@)[j], paths@[k]@));
    }
    paths
}

} // verus!
