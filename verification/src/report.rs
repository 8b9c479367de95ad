//! The text report of the lines that remain uncovered.
use vstd::prelude::*;
use vstd::relations::{sorted_by, total_ordering};

use crate::lcov::{joined_text, string_rows, terminated, RecordResult, RecordView};
use crate::text::{
    chars_of, contains_chars, contains_seq, decimal, occurs_at, push_char, push_decimal,
};

verus! {

broadcast use vstd::seq_lib::group_to_multiset_ensures;

/// What the text report says when no reported record has missing lines.
pub const FULL_COVERAGE_MESSAGE: &'static str = "100% coverage\n";

pub open spec fn full_coverage_text() -> Seq<char> {
    seq!['1', '0', '0', '%', ' ', 'c', 'o', 'v', 'e', 'r', 'a', 'g', 'e', '\n']
}

/// Ascending order of line numbers.
pub open spec fn ascending() -> spec_fn(usize, usize) -> bool {
    |a: usize, b: usize| a <= b
}

/// A record is reported: it names a source, its path holds the pattern
/// (where there is one), and it has missing lines.
pub open spec fn reported(r: RecordView, grep: Option<Seq<char>>) -> bool {
    &&& r.source_path is Some
    &&& match grep {
        Some(g) => contains_seq(r.source_path.unwrap(), g),
        None => true,
    }
    &&& r.missing_lines.len() > 0
}

pub open spec fn reported_record(grep: Option<Seq<char>>) -> spec_fn(RecordView) -> Option<
    RecordView,
> {
    |r: RecordView|
        if reported(r, grep) {
            Some(r)
        } else {
            None
        }
}

/// The records of the report, in order.
pub open spec fn report_entries(rs: Seq<RecordView>, grep: Option<Seq<char>>) -> Seq<RecordView> {
    rs.filter_map(reported_record(grep))
}

/// Numbers in decimal, separated by `", "`.
pub open spec fn number_list(s: Seq<usize>) -> Seq<char>
    decreases s.len(),
{
    if s.len() == 0 {
        Seq::empty()
    } else if s.len() == 1 {
        decimal(s[0] as nat)
    } else {
        number_list(s.drop_last()) + seq![',', ' '] + decimal(s.last() as nat)
    }
}

/// `<path>: <missing lines in ascending order>`.
pub open spec fn report_line(r: RecordView) -> Seq<char> {
    r.source_path.unwrap() + seq![':', ' '] + number_list(
        r.missing_lines.sort_by(ascending()),
    )
}

/// The number of missing lines of the records.
pub open spec fn missing_total(rs: Seq<RecordView>) -> nat
    decreases rs.len(),
{
    if rs.len() == 0 {
        0
    } else {
        missing_total(rs.drop_last()) + rs.last().missing_lines.len()
    }
}

/// `Missing Lines (<total>)`.
pub open spec fn report_header(total: nat) -> Seq<char> {
    seq!['M', 'i', 's', 's', 'i', 'n', 'g', ' ', 'L', 'i', 'n', 'e', 's', ' ', '('] + decimal(
        total,
    ) + seq![')']
}

/// The text report: the full-coverage message where no record is
/// reported; otherwise a header with the total number of missing lines and
/// one line per reported record, each followed by a newline.
pub open spec fn missing_report(rs: Seq<RecordView>, grep: Option<Seq<char>>) -> Seq<char> {
    let es = report_entries(rs, grep);
    if es.len() == 0 {
        full_coverage_text()
    } else {
        joined_text(seq![report_header(missing_total(es))] + es.map_values(
            |r: RecordView| report_line(r),
        ))
    }
}

/// The view of a vector of results.
pub open spec fn views_of(v: Seq<RecordResult>) -> Seq<RecordView> {
    v.map_values(|r: RecordResult| r@)
}

/// The view of an optional pattern.
pub open spec fn grep_view(grep: Option<&str>) -> Option<Seq<char>> {
    match grep {
        Some(g) => Some(g@),
        None => None,
    }
}

proof fn lemma_ascending_total()
    ensures
        total_ordering(ascending()),
{
}

/// The line numbers in ascending order.
fn sorted_lines(s: &[usize]) -> (r: Vec<usize>)
    ensures
        r@ == s@.sort_by(ascending()),
{
    let mut r: Vec<usize> = Vec::new();
    let mut i: usize = 0;
    assert(s@.take(0) =~= Seq::<usize>::empty());
    while i < s.len()
        invariant
            0 <= i <= s.len(),
            sorted_by(r@, ascending()),
            r@.to_multiset() == s@.take(i as int).to_multiset(),
        decreases s.len() - i,
    {
        let x = s[i];
        let mut pos: usize = 0;
        while pos < r.len() && r[pos] <= x
            invariant
                0 <= pos <= r@.len(),
                forall|k: int| 0 <= k < pos ==> r@[k] <= x,
            decreases r@.len() - pos,
        {
            pos += 1;
        }
        let ghost old_r = r@;
        r.insert(pos, x);
        proof {
            assert(sorted_by(r@, ascending())) by {
                assert forall|a: int, b: int| 0 <= a < b < r@.len() implies #[trigger] ascending()(
                    r@[a],
                    r@[b],
                ) by {
                    if b < pos {
                        assert(ascending()(old_r[a], old_r[b]));
                    } else if b == pos {
                    } else if a < pos {
                        assert(old_r[a] <= x);
                        assert(x < old_r[pos as int] || pos == old_r.len());
                        if pos < old_r.len() {
                            assert(ascending()(old_r[pos as int], old_r[b - 1]) || pos == b - 1);
                        }
                    } else if a == pos {
                        assert(x < old_r[pos as int]);
                        if pos < b - 1 {
                            assert(ascending()(old_r[pos as int], old_r[b - 1]));
                        }
                    } else {
                        assert(ascending()(old_r[a - 1], old_r[b - 1]));
                    }
                }
            }
            assert(s@.take(i + 1) =~= s@.take(i as int).push(x));
        }
        i += 1;
    }
    proof {
        assert(s@.take(s.len() as int) =~= s@);
        lemma_ascending_total();
        s@.lemma_sort_by_ensures(ascending());
        vstd::seq_lib::lemma_sorted_unique(r@, s@.sort_by(ascending()), ascending());
    }
    r
}

/// Appends the numbers, separated by `", "`.
fn push_number_list(out: &mut String, s: &[usize])
    ensures
        final(out)@ == old(out)@ + number_list(s@),
{
    let mut i: usize = 0;
    assert(s@.take(0) =~= Seq::<usize>::empty());
    while i < s.len()
        invariant
            0 <= i <= s.len(),
            out@ == old(out)@ + number_list(s@.take(i as int)),
        decreases s.len() - i,
    {
        let ghost before = out@;
        assert(s@.take(i + 1).drop_last() =~= s@.take(i as int));
        assert(s@.take(i + 1).last() == s@[i as int]);
        if i > 0 {
            push_char(out, ',');
            push_char(out, ' ');
        }
        push_decimal(out, s[i] as u128);
        if i == 0 {
            assert(s@.take(1) =~= seq![s@[0]]);
        }
        assert(out@ =~= old(out)@ + number_list(s@.take(i + 1)));
        i += 1;
    }
    assert(s@.take(s.len() as int) =~= s@);
}

/// The report line of a record that names a source.
fn report_line_of(path: &String, missing: &[usize]) -> (line: String)
    ensures
        line@ == path@ + seq![':', ' '] + number_list(missing@.sort_by(ascending())),
{
    let sorted = sorted_lines(missing);
    let mut line = path.clone();
    push_char(&mut line, ':');
    push_char(&mut line, ' ');
    push_number_list(&mut line, &sorted);
    line
}

/// The text report of the missing lines (see `missing_report`).
pub fn format_missing_lines(records: &[RecordResult], grep: Option<&str>) -> (out: String)
    ensures
        out@ == missing_report(views_of(records@), grep_view(grep)),
{
    let pattern: Option<Vec<char>> = match grep {
        Some(g) => Some(chars_of(g)),
        None => None,
    };
    let ghost rs = views_of(records@);
    let ghost gv = grep_view(grep);
    let mut lines: Vec<String> = Vec::new();
    let mut total: u128 = 0;
    let mut i: usize = 0;
    assert(rs.take(0) =~= Seq::<RecordView>::empty());
    while i < records.len()
        invariant
            0 <= i <= records.len(),
            rs == views_of(records@),
            match pattern {
                Some(p) => gv == Some(p@),
                None => gv is None,
            },
            string_rows(lines@) == report_entries(rs.take(i as int), gv).map_values(
                |r: RecordView| report_line(r),
            ),
            total == missing_total(report_entries(rs.take(i as int), gv)),
            total <= i * (usize::MAX as int),
        decreases records.len() - i,
    {
        let record = &records[i];
        let ghost rv = record@;
        assert(rs[i as int] == rv);
        assert(rs.take(i + 1) =~= rs.take(i as int).push(rv));
        let ghost es = report_entries(rs.take(i as int), gv);
        proof {
            rs.lemma_filter_map_take_succ(reported_record(gv), i as int);
        }
        let ghost old_lines = lines@;
        let mut wanted = false;
        if let Some(path) = &record.source_path {
            let matched = match &pattern {
                Some(p) => contains_chars(&chars_of(path.as_str()), p),
                None => true,
            };
            if matched && record.missing_lines.len() > 0 {
                wanted = true;
                let line = report_line_of(path, &record.missing_lines);
                assert(rv.source_path == Some(path@));
                assert(reported(rv, gv));
                assert(line@ == report_line(rv));
                lines.push(line);
                assert(string_rows(lines@) =~= string_rows(old_lines).push(
                    line@,
                ));
                proof {
                    assert(es.push(rv).drop_last() =~= es);
                    assert(missing_total(es.push(rv)) == missing_total(es) + rv.missing_lines.len());
                }
                assert(string_rows(lines@) =~= es.push(rv).map_values(
                    |r: RecordView| report_line(r),
                ));
                assert(total + record.missing_lines.len() <= (i + 1) * (usize::MAX as int))
                    by (nonlinear_arith)
                    requires
                        total <= i * (usize::MAX as int),
                        record.missing_lines.len() <= usize::MAX,
                ;
                total = total + record.missing_lines.len() as u128;
            }
        }
        if !wanted {
            assert(!reported(rv, gv));
            assert(total <= (i + 1) * (usize::MAX as int)) by (nonlinear_arith)
                requires
                    total <= i * (usize::MAX as int),
            ;
        }
        proof {
            if reported(rv, gv) {
                assert(report_entries(rs.take(i + 1), gv) =~= es.push(rv));
            } else {
                assert(report_entries(rs.take(i + 1), gv) =~= es);
            }
        }
        i += 1;
    }
    assert(rs.take(records.len() as int) =~= rs);
    if lines.len() == 0 {
        proof {
            reveal_strlit("100% coverage\n");
        }
        let msg = String::from_str(FULL_COVERAGE_MESSAGE);
        assert(msg@ =~= full_coverage_text());
        return msg;
    }
    let ghost es = report_entries(rs, gv);
    let mut out = String::from_str("Missing Lines (");
    proof {
        reveal_strlit("Missing Lines (");
    }
    push_decimal(&mut out, total);
    push_char(&mut out, ')');
    assert(out@ =~= report_header(missing_total(es)));
    let ghost all = seq![report_header(missing_total(es))] + es.map_values(
        |r: RecordView| report_line(r),
    );
    assert(all.take(1) =~= seq![out@]);
    push_char(&mut out, '\n');
    assert(out@ =~= terminated(all.take(1))) by {
        assert(all.take(1).drop_last() =~= Seq::<Seq<char>>::empty());
        assert(all.take(1).last() == report_header(missing_total(es)));
        assert(terminated(all.take(1).drop_last()) =~= Seq::<char>::empty());
    }
    let mut k: usize = 0;
    while k < lines.len()
        invariant
            0 <= k <= lines@.len(),
            all.len() == lines@.len() + 1,
            forall|j: int| 0 <= j < lines@.len() ==> all[j + 1] == #[trigger] lines@[j]@,
            out@ == terminated(all.take(k + 1)),
        decreases lines@.len() - k,
    {
        assert(all.take(k + 2).drop_last() =~= all.take(k + 1));
        assert(all.take(k + 2).last() == lines@[k as int]@);
        out.append(lines[k].as_str());
        push_char(&mut out, '\n');
        k += 1;
    }
    assert(all.take(lines@.len() + 1int) =~= all);
    out
}

/// Whether some record is reported: it names a source, its path holds the
/// pattern (where there is one), and it has missing lines.
pub fn has_missing_lines(records: &[RecordResult], grep: Option<&str>) -> (r: bool)
    ensures
        r == exists|i: int|
            0 <= i < records@.len() && reported(#[trigger] records@[i]@, grep_view(grep)),
{
    let pattern: Option<Vec<char>> = match grep {
        Some(g) => Some(chars_of(g)),
        None => None,
    };
    let mut i: usize = 0;
    while i < records.len()
        invariant
            0 <= i <= records.len(),
            match pattern {
                Some(p) => grep_view(grep) == Some(p@),
                None => grep_view(grep) is None,
            },
            forall|k: int| 0 <= k < i ==> !reported(#[trigger] records@[k]@, grep_view(grep)),
        decreases records.len() - i,
    {
        let record = &records[i];
        if let Some(path) = &record.source_path {
            let matched = match &pattern {
                Some(p) => contains_chars(&chars_of(path.as_str()), p),
                None => true,
            };
            if matched && record.missing_lines.len() > 0 {
                assert(reported(records@[i as int]@, grep_view(grep)));
                return true;
            }
        }
        i += 1;
    }
    false
}

proof fn lemma_filter_map_nonempty(rs: Seq<RecordView>, f: spec_fn(RecordView) -> Option<RecordView>)
    ensures
        (rs.filter_map(f).len() > 0) == (exists|i: int| 0 <= i < rs.len() && (#[trigger] f(rs[i])) is Some),
    decreases rs.len(),
{
    if rs.len() > 0 {
        let init = rs.drop_last();
        lemma_filter_map_nonempty(init, f);
        if exists|i: int| 0 <= i < init.len() && (#[trigger] f(init[i])) is Some {
            let i = choose|i: int| 0 <= i < init.len() && (#[trigger] f(init[i])) is Some;
            assert(rs[i] == init[i]);
        }
        if exists|i: int| 0 <= i < rs.len() && (#[trigger] f(rs[i])) is Some {
            let i = choose|i: int| 0 <= i < rs.len() && (#[trigger] f(rs[i])) is Some;
            if i < rs.len() - 1 {
                assert(init[i] == rs[i]);
            }
        }
    }
}

proof fn lemma_terminated_first(ls: Seq<Seq<char>>)
    requires
        ls.len() > 0,
        ls[0].len() > 0,
    ensures
        terminated(ls).len() > 0,
        terminated(ls)[0] == ls[0][0],
    decreases ls.len(),
{
    let t = terminated(ls.drop_last());
    assert(terminated(ls) == t + ls.last() + seq!['\n']);
    if ls.len() > 1 {
        lemma_terminated_first(ls.drop_last());
        assert(ls.drop_last()[0] == ls[0]);
        assert((t + ls.last() + seq!['\n'])[0] == t[0]);
    } else {
        assert(ls.drop_last() =~= Seq::<Seq<char>>::empty());
        assert(t =~= Seq::<char>::empty());
        assert(ls.last() == ls[0]);
        assert((t + ls.last() + seq!['\n'])[0] == ls[0][0]);
    }
}

/// Law: some record is reported exactly when the text report is not the
/// full-coverage message; so the text mode fails exactly when missing lines
/// remain.
pub proof fn lemma_reported_iff_not_full_coverage(rs: Seq<RecordView>, grep: Option<Seq<char>>)
    ensures
        (exists|i: int| 0 <= i < rs.len() && reported(#[trigger] rs[i], grep)) <==> missing_report(
            rs,
            grep,
        ) != full_coverage_text(),
{
    let f = reported_record(grep);
    lemma_filter_map_nonempty(rs, f);
    if exists|i: int| 0 <= i < rs.len() && reported(#[trigger] rs[i], grep) {
        let i = choose|i: int| 0 <= i < rs.len() && reported(#[trigger] rs[i], grep);
        assert(f(rs[i]) is Some);
        let es = report_entries(rs, grep);
        let all = seq![report_header(missing_total(es))] + es.map_values(
            |r: RecordView| report_line(r),
        );
        assert(all[0] == report_header(missing_total(es)));
        lemma_terminated_first(all);
        assert(missing_report(rs, grep)[0] == 'M');
    } else {
        assert forall|i: int| 0 <= i < rs.len() implies !(#[trigger] f(rs[i]) is Some) by {
            assert(!reported(rs[i], grep));
        }
    }
}

/// Lines each ended by a newline are the lines, each with its newline,
/// one after the other.
proof fn lemma_terminated_flatten(ls: Seq<Seq<char>>)
    ensures
        terminated(ls) == ls.map_values(|l: Seq<char>| l + seq!['\n']).flatten(),
    decreases ls.len(),
{
    let f = |l: Seq<char>| l + seq!['\n'];
    ls.map_values(f).lemma_flatten_and_flatten_alt_are_equivalent();
    if ls.len() > 0 {
        lemma_terminated_flatten(ls.drop_last());
        ls.drop_last().map_values(f).lemma_flatten_and_flatten_alt_are_equivalent();
        assert(ls.map_values(f).drop_last() =~= ls.drop_last().map_values(f));
        assert(terminated(ls) =~= terminated(ls.drop_last()) + f(ls.last()));
    } else {
        assert(ls.map_values(f) =~= Seq::<Seq<char>>::empty());
    }
}

/// Each element of `xs` stands, unbroken, in `xs.flatten()`.
proof fn lemma_flatten_holds_each(xs: Seq<Seq<char>>, k: int)
    requires
        0 <= k < xs.len(),
    ensures
        contains_seq(xs.flatten(), xs[k]),
    decreases xs.len(),
{
    let rest = xs.drop_first();
    assert(xs.flatten() == xs[0] + rest.flatten());
    if k == 0 {
        assert(xs.flatten().subrange(0, xs[0].len() as int) =~= xs[0]);
        assert(occurs_at(xs.flatten(), xs[0], 0));
    } else {
        lemma_flatten_holds_each(rest, k - 1);
        assert(rest[k - 1] == xs[k]);
        let i = choose|i: int| #[trigger] occurs_at(rest.flatten(), rest[k - 1], i);
        let o = xs[0].len() + i;
        assert(xs.flatten().subrange(o, o + xs[k].len()) =~= rest.flatten().subrange(
            i,
            i + xs[k].len(),
        ));
        assert(occurs_at(xs.flatten(), xs[k], o));
    }
}

/// Law: when some record is reported, the text report is the header line
/// and then one line per reported record, in their order, each line
/// followed by a newline; so the line of every reported record stands in
/// the report.
pub proof fn lemma_report_lists_each_reported_record(rs: Seq<RecordView>, grep: Option<Seq<char>>)
    requires
        report_entries(rs, grep).len() > 0,
    ensures
        ({
            let es = report_entries(rs, grep);
            let out = missing_report(rs, grep);
            &&& out == report_header(missing_total(es)) + seq!['\n'] + es.map_values(
                |r: RecordView| report_line(r) + seq!['\n'],
            ).flatten()
            &&& forall|k: int|
                0 <= k < es.len() ==> contains_seq(out, #[trigger] report_line(es[k]))
        }),
{
    let es = report_entries(rs, grep);
    let h = report_header(missing_total(es));
    let all = seq![h] + es.map_values(|r: RecordView| report_line(r));
    let f = |l: Seq<char>| l + seq!['\n'];
    let g = |r: RecordView| report_line(r) + seq!['\n'];
    let lines = es.map_values(g);
    lemma_terminated_flatten(all);
    assert(all.map_values(f) =~= seq![h + seq!['\n']] + lines);
    assert((seq![h + seq!['\n']] + lines).drop_first() =~= lines);
    let out = missing_report(rs, grep);
    assert(out == (h + seq!['\n']) + lines.flatten());
    assert forall|k: int| 0 <= k < es.len() implies contains_seq(out, #[trigger] report_line(es[k]))
        by {
        lemma_flatten_holds_each(lines, k);
        let i = choose|i: int| #[trigger] occurs_at(lines.flatten(), lines[k], i);
        let o = h.len() + 1 + i;
        let n = report_line(es[k]);
        assert(lines[k] == n + seq!['\n']);
        assert(out.subrange(o, o + n.len()) =~= lines.flatten().subrange(i, i + n.len()));
        assert(i + lines[k].len() <= lines.flatten().len());
        assert(out.len() == h.len() + 1 + lines.flatten().len());
        assert(lines.flatten().subrange(i, i + n.len()) =~= lines[k].subrange(0, n.len() as int));
        assert(lines[k].subrange(0, n.len() as int) =~= n);
        assert(occurs_at(out, n, o));
    }
}

} // verus!
