//! Command-line options and what a run prints.
use vstd::prelude::*;

use crate::entries::{chars_eq, first_index_of, lemma_first_index_of};
use crate::lcov::{
    all_lines, filter_lcov, filter_lcov_records, filtered_records, joined_text, opt_chars,
    string_rows, SourceFile,
};
use crate::markers::{default_line_marker, default_start_marker, default_stop_marker, Markers};
use crate::report::{
    format_missing_lines, has_missing_lines, missing_report, reported, views_of,
};
use crate::text::{chars_of, is_prefix, starts_with};

verus! {

/// Whether the filtered LCOV report or the text report of missing lines is
/// printed.
#[derive(Clone, Copy, Debug, PartialEq, Eq, Structural)]
pub enum OutputMode {
    Lcov,
    Text,
}

/// The parsed command line.
#[derive(Debug, PartialEq, Eq)]
pub struct Args {
    pub markers: Markers,
    pub mode: OutputMode,
    pub grep: Option<String>,
}

/// The state of option parsing.
pub struct ArgState {
    pub line: Seq<char>,
    pub start: Seq<char>,
    pub stop: Seq<char>,
    pub mode: OutputMode,
    pub explicit_mode: Option<OutputMode>,
    pub grep: Option<Seq<char>>,
}

pub open spec fn initial_state() -> ArgState {
    ArgState {
        line: default_line_marker(),
        start: default_start_marker(),
        stop: default_stop_marker(),
        mode: OutputMode::Lcov,
        explicit_mode: None,
        grep: None,
    }
}

/// The message of two different output modes.
pub open spec fn conflict_message() -> Seq<char> {
    "Cannot use --lcov and --text together"@
}

/// Choosing an output mode: refused where a different mode was chosen
/// before.
pub open spec fn with_mode(st: ArgState, next: OutputMode) -> Result<ArgState, Seq<char>> {
    match st.explicit_mode {
        Some(previous) => if previous != next {
            Err(conflict_message())
        } else {
            Ok(ArgState { mode: next, explicit_mode: Some(next), ..st })
        },
        None => Ok(ArgState { mode: next, explicit_mode: Some(next), ..st }),
    }
}

/// What follows the first `=` of an argument (nothing where it has none).
pub open spec fn after_equals(a: Seq<char>) -> Seq<char> {
    match first_index_of(a, '=') {
        Some(i) => a.skip(i + 1),
        None => Seq::empty(),
    }
}

/// Where an option that needs a value stands last.
pub open spec fn missing_value_message(option: Seq<char>) -> Seq<char> {
    option + " requires a value"@
}

/// The meaning of the arguments from position `i` on, starting in state
/// `st`: help gives an empty error; `--lcov`/`--text` choose the mode;
/// `--grep`, `--marker-line`, `--marker-start`, `--marker-stop` take the
/// next argument or the text after `=`; any other argument is refused.
pub open spec fn parse_from(args: Seq<Seq<char>>, i: int, st: ArgState) -> Result<
    ArgState,
    Seq<char>,
>
    decreases args.len() - i,
{
    if i < 0 || i >= args.len() {
        Ok(st)
    } else {
        let a = args[i];
        if a == "-h"@ || a == "--help"@ {
            Err(Seq::empty())
        } else if a == "--lcov"@ || a == "--text"@ {
            let next = if a == "--lcov"@ {
                OutputMode::Lcov
            } else {
                OutputMode::Text
            };
            match with_mode(st, next) {
                Ok(st2) => parse_from(args, i + 1, st2),
                Err(e) => Err(e),
            }
        } else if a == "--grep"@ || a == "--marker-line"@ || a == "--marker-start"@ || a
            == "--marker-stop"@ {
            if i + 1 >= args.len() {
                Err(missing_value_message(a))
            } else {
                let v = args[i + 1];
                let st2 = if a == "--grep"@ {
                    ArgState { grep: Some(v), ..st }
                } else if a == "--marker-line"@ {
                    ArgState { line: v, ..st }
                } else if a == "--marker-start"@ {
                    ArgState { start: v, ..st }
                } else {
                    ArgState { stop: v, ..st }
                };
                parse_from(args, i + 2, st2)
            }
        } else if is_prefix("--grep="@, a) {
            parse_from(args, i + 1, ArgState { grep: Some(after_equals(a)), ..st })
        } else if is_prefix("--marker-line="@, a) {
            parse_from(args, i + 1, ArgState { line: after_equals(a), ..st })
        } else if is_prefix("--marker-start="@, a) {
            parse_from(args, i + 1, ArgState { start: after_equals(a), ..st })
        } else if is_prefix("--marker-stop="@, a) {
            parse_from(args, i + 1, ArgState { stop: after_equals(a), ..st })
        } else if is_prefix("-"@, a) {
            Err("Unknown option: "@ + a)
        } else {
            Err("Unexpected positional argument (stdin only)"@)
        }
    }
}

/// Reading `pre + ys` from position `pre.len() + i` reads `ys` from `i`.
proof fn lemma_parse_from_skips_prefix(
    pre: Seq<Seq<char>>,
    ys: Seq<Seq<char>>,
    i: int,
    st: ArgState,
)
    requires
        0 <= i,
    ensures
        parse_from(pre + ys, pre.len() + i, st) == parse_from(ys, i, st),
    decreases ys.len() - i,
{
    let all = pre + ys;
    let j = pre.len() + i;
    if i < ys.len() {
        let a = ys[i];
        assert(all[j] == a);
        if i + 1 < ys.len() {
            assert(all[j + 1] == ys[i + 1]);
        }
        if a == "-h"@ || a == "--help"@ {
        } else if a == "--lcov"@ || a == "--text"@ {
            let next = if a == "--lcov"@ {
                OutputMode::Lcov
            } else {
                OutputMode::Text
            };
            if let Ok(st2) = with_mode(st, next) {
                lemma_parse_from_skips_prefix(pre, ys, i + 1, st2);
            }
        } else if a == "--grep"@ || a == "--marker-line"@ || a == "--marker-start"@ || a
            == "--marker-stop"@ {
            if i + 1 < ys.len() {
                let v = ys[i + 1];
                let st2 = if a == "--grep"@ {
                    ArgState { grep: Some(v), ..st }
                } else if a == "--marker-line"@ {
                    ArgState { line: v, ..st }
                } else if a == "--marker-start"@ {
                    ArgState { start: v, ..st }
                } else {
                    ArgState { stop: v, ..st }
                };
                lemma_parse_from_skips_prefix(pre, ys, i + 2, st2);
            }
        } else if is_prefix("--grep="@, a) {
            let st2 = ArgState { grep: Some(after_equals(a)), ..st };
            lemma_parse_from_skips_prefix(pre, ys, i + 1, st2);
        } else if is_prefix("--marker-line="@, a) {
            let st2 = ArgState { line: after_equals(a), ..st };
            lemma_parse_from_skips_prefix(pre, ys, i + 1, st2);
        } else if is_prefix("--marker-start="@, a) {
            let st2 = ArgState { start: after_equals(a), ..st };
            lemma_parse_from_skips_prefix(pre, ys, i + 1, st2);
        } else if is_prefix("--marker-stop="@, a) {
            let st2 = ArgState { stop: after_equals(a), ..st };
            lemma_parse_from_skips_prefix(pre, ys, i + 1, st2);
        }
    }
}

/// The first `=` of `p + v`, where `p` ends with its only `=`, is the last
/// character of `p`.
proof fn lemma_after_equals_of_option(p: Seq<char>, v: Seq<char>)
    requires
        p.len() > 0,
        p.last() == '=',
        forall|j: int| 0 <= j < p.len() - 1 ==> p[j] != '=',
    ensures
        after_equals(p + v) == v,
{
    let a = p + v;
    lemma_first_index_of(a, '=');
    assert(a[p.len() - 1] == '=');
    assert forall|j: int| 0 <= j < p.len() - 1 implies a[j] != '=' by {
        assert(a[j] == p[j]);
    }
    assert(first_index_of(a, '=') == Some(p.len() - 1));
    assert(a.skip(p.len() as int) =~= v);
}

/// Law: for each option that takes a value (`--grep`, `--marker-line`,
/// `--marker-start`, `--marker-stop`), the argument `--option=v` reads as
/// the two arguments `--option` and `v`, whatever follows and whatever was
/// read before; the value is everything after the first `=`.
pub proof fn lemma_equals_form_reads_as_separate_value(
    option: Seq<char>,
    v: Seq<char>,
    rest: Seq<Seq<char>>,
    st: ArgState,
)
    requires
        option == "--grep"@ || option == "--marker-line"@ || option == "--marker-start"@
            || option == "--marker-stop"@,
    ensures
        parse_from(seq![option + "="@ + v] + rest, 0, st) == parse_from(
            seq![option, v] + rest,
            0,
            st,
        ),
{
    reveal_strlit("-h");
    reveal_strlit("--help");
    reveal_strlit("--lcov");
    reveal_strlit("--text");
    reveal_strlit("--grep");
    reveal_strlit("--marker-line");
    reveal_strlit("--marker-start");
    reveal_strlit("--marker-stop");
    reveal_strlit("--grep=");
    reveal_strlit("--marker-line=");
    reveal_strlit("--marker-start=");
    reveal_strlit("--marker-stop=");
    reveal_strlit("=");
    let p = option + "="@;
    let a = p + v;
    let joined = seq![a] + rest;
    let split = seq![option, v] + rest;
    assert(joined[0] == a);
    assert(split[0] == option && split[1] == v);
    assert forall|j: int| 0 <= j < p.len() implies #[trigger] a[j] == p[j] by {}
    assert(a.take(p.len() as int) =~= p);
    assert(p.last() == '=');
    lemma_after_equals_of_option(p, v);
    // `a` is none of the arguments that stand alone, and only the
    // prefix of its own option matches it.
    assert(a.len() >= p.len());
    assert(a[0] == '-' && a[1] == '-');
    assert(a != "-h"@ && a != "--help"@ && a != "--lcov"@ && a != "--text"@) by {
        assert(a.len() >= 7);
    }
    if option == "--grep"@ {
        assert(a[2] == 'g');
        assert(a != "--marker-line"@ && a != "--marker-start"@ && a != "--marker-stop"@
            && a != "--grep"@) by {
            assert("--marker-line"@[2] == 'm');
        }
        assert(p =~= "--grep="@);
    } else if option == "--marker-line"@ {
        assert(a[2] == 'm' && a[9] == 'l' && a[13] == '=');
        assert(!is_prefix("--grep="@, a)) by {
            assert(a.take(7)[2] == a[2]);
        }
        assert(a != "--marker-start"@ && a != "--marker-stop"@ && a != "--grep"@
            && a != "--marker-line"@);
        assert(p =~= "--marker-line="@);
    } else if option == "--marker-start"@ {
        assert(a[2] == 'm' && a[9] == 's' && a[11] == 'a' && a[14] == '=');
        assert(!is_prefix("--grep="@, a)) by {
            assert(a.take(7)[2] == a[2]);
        }
        assert(!is_prefix("--marker-line="@, a)) by {
            assert(a.take(14)[9] == a[9]);
        }
        assert(a != "--marker-start"@ && a != "--marker-stop"@ && a != "--grep"@
            && a != "--marker-line"@);
        assert(p =~= "--marker-start="@);
    } else {
        assert(a[2] == 'm' && a[9] == 's' && a[11] == 'o' && a[13] == '=');
        assert(!is_prefix("--grep="@, a)) by {
            assert(a.take(7)[2] == a[2]);
        }
        assert(!is_prefix("--marker-line="@, a)) by {
            assert(a.take(14)[9] == a[9]);
        }
        assert(!is_prefix("--marker-start="@, a)) by {
            if a.len() >= 15 {
                assert(a.take(15)[11] == a[11]);
            }
        }
        assert(a != "--marker-start"@ && a != "--marker-stop"@ && a != "--grep"@
            && a != "--marker-line"@);
        assert(p =~= "--marker-stop="@);
    }
    let st2 = if option == "--grep"@ {
        ArgState { grep: Some(v), ..st }
    } else if option == "--marker-line"@ {
        ArgState { line: v, ..st }
    } else if option == "--marker-start"@ {
        ArgState { start: v, ..st }
    } else {
        ArgState { stop: v, ..st }
    };
    lemma_parse_from_skips_prefix(seq![a], rest, 0, st2);
    lemma_parse_from_skips_prefix(seq![option, v], rest, 0, st2);
    assert(parse_from(split, 0, st) == parse_from(split, 2, st2));
    assert(parse_from(joined, 0, st) == parse_from(joined, 1, st2));
}

/// The flag that chooses `mode`.
pub open spec fn mode_flag(mode: OutputMode) -> Seq<char> {
    match mode {
        OutputMode::Lcov => "--lcov"@,
        OutputMode::Text => "--text"@,
    }
}

/// The mode that is not `mode`.
pub open spec fn other_mode(mode: OutputMode) -> OutputMode {
    match mode {
        OutputMode::Lcov => OutputMode::Text,
        OutputMode::Text => OutputMode::Lcov,
    }
}

/// Law: the output mode changes only through the flag of the other mode:
/// reading arguments none of which is that flag ends, where it succeeds,
/// in the mode it started with. In particular, arguments without `--text`
/// give LCOV output.
pub proof fn lemma_mode_changes_only_by_flag(
    args: Seq<Seq<char>>,
    i: int,
    st: ArgState,
)
    requires
        0 <= i,
        forall|j: int| i <= j < args.len() ==> args[j] != mode_flag(other_mode(st.mode)),
    ensures
        parse_from(args, i, st) matches Ok(s) ==> s.mode == st.mode,
    decreases args.len() - i,
{
    reveal_strlit("--lcov");
    reveal_strlit("--text");
    if i < args.len() {
        let a = args[i];
        if a == "-h"@ || a == "--help"@ {
        } else if a == "--lcov"@ || a == "--text"@ {
            let next = if a == "--lcov"@ {
                OutputMode::Lcov
            } else {
                OutputMode::Text
            };
            assert(next == st.mode) by {
                assert(a != mode_flag(other_mode(st.mode)));
                assert("--lcov"@ != "--text"@) by {
                    assert("--lcov"@[2] != "--text"@[2]);
                }
            }
            if let Ok(st2) = with_mode(st, next) {
                lemma_mode_changes_only_by_flag(args, i + 1, st2);
            }
        } else if a == "--grep"@ || a == "--marker-line"@ || a == "--marker-start"@ || a
            == "--marker-stop"@ {
            if i + 1 < args.len() {
                let v = args[i + 1];
                let st2 = if a == "--grep"@ {
                    ArgState { grep: Some(v), ..st }
                } else if a == "--marker-line"@ {
                    ArgState { line: v, ..st }
                } else if a == "--marker-start"@ {
                    ArgState { start: v, ..st }
                } else {
                    ArgState { stop: v, ..st }
                };
                lemma_mode_changes_only_by_flag(args, i + 2, st2);
            }
        } else if is_prefix("--grep="@, a) {
            let st2 = ArgState { grep: Some(after_equals(a)), ..st };
            lemma_mode_changes_only_by_flag(args, i + 1, st2);
        } else if is_prefix("--marker-line="@, a) {
            let st2 = ArgState { line: after_equals(a), ..st };
            lemma_mode_changes_only_by_flag(args, i + 1, st2);
        } else if is_prefix("--marker-start="@, a) {
            let st2 = ArgState { start: after_equals(a), ..st };
            lemma_mode_changes_only_by_flag(args, i + 1, st2);
        } else if is_prefix("--marker-stop="@, a) {
            let st2 = ArgState { stop: after_equals(a), ..st };
            lemma_mode_changes_only_by_flag(args, i + 1, st2);
        }
    }
}

/// Law: a mode flag chooses its mode. After `--lcov` (or `--text`), where
/// no earlier flag chose the other mode and no later argument is the other
/// flag, a successful parse ends in that mode; the flag alone always
/// parses.
pub proof fn lemma_mode_flag_selects_mode(mode: OutputMode, rest: Seq<Seq<char>>, st: ArgState)
    requires
        st.explicit_mode != Some(other_mode(mode)),
        forall|j: int| 0 <= j < rest.len() ==> rest[j] != mode_flag(other_mode(mode)),
    ensures
        parse_from(seq![mode_flag(mode)] + rest, 0, st) matches Ok(s) ==> s.mode == mode,
        parse_from(seq![mode_flag(mode)], 0, st) is Ok,
{
    reveal_strlit("-h");
    reveal_strlit("--help");
    reveal_strlit("--lcov");
    reveal_strlit("--text");
    let args = seq![mode_flag(mode)] + rest;
    let a = mode_flag(mode);
    assert(args[0] == a);
    assert(a != "-h"@ && a != "--help"@) by {
        assert(a.len() == 6);
        assert(a[2] != "--help"@[2]);
    }
    assert("--lcov"@ != "--text"@) by {
        assert("--lcov"@[2] != "--text"@[2]);
    }
    let st2 = ArgState { mode: mode, explicit_mode: Some(mode), ..st };
    assert(with_mode(st, mode) == Ok::<ArgState, Seq<char>>(st2));
    assert(parse_from(args, 0, st) == parse_from(args, 1, st2));
    assert forall|j: int| 1 <= j < args.len() implies args[j] != mode_flag(other_mode(st2.mode)) by {
        assert(args[j] == rest[j - 1]);
    }
    lemma_mode_changes_only_by_flag(args, 1, st2);
    let alone = seq![mode_flag(mode)];
    assert(alone[0] == a);
    assert(parse_from(alone, 0, st) == parse_from(alone, 1, st2));
}

/// The parsed arguments hold the final state.
pub open spec fn args_hold(a: Args, st: ArgState) -> bool {
    &&& a.markers.line@ == st.line
    &&& a.markers.start@ == st.start
    &&& a.markers.stop@ == st.stop
    &&& a.mode == st.mode
    &&& opt_chars(a.grep) == st.grep
}

/// Chooses an output mode; refused where a different one was chosen
/// before, in which case nothing changes.
pub fn set_mode(
    mode: &mut OutputMode,
    explicit_mode: &mut Option<OutputMode>,
    next: OutputMode,
) -> (r: Result<(), String>)
    ensures
        match *old(explicit_mode) {
            Some(previous) if previous != next => {
                &&& r matches Err(e) && e@ == conflict_message()
                &&& *final(mode) == *old(mode)
                &&& *final(explicit_mode) == *old(explicit_mode)
            },
            _ => {
                &&& r is Ok
                &&& *final(mode) == next
                &&& *final(explicit_mode) == Some(next)
            },
        },
{
    if let Some(previous) = *explicit_mode {
        if previous != next {
            return Err(String::from_str("Cannot use --lcov and --text together"));
        }
    }
    *mode = next;
    *explicit_mode = Some(next);
    Ok(())
}

/// The argument after position `pos`, the value of `option`.
pub fn next_value(args: &[String], pos: usize, option: &str) -> (r: Result<String, String>)
    ensures
        pos + 1 < args@.len() ==> (r matches Ok(v) && v@ == args@[pos + 1]@),
        pos + 1 >= args@.len() ==> (r matches Err(e) && e@ == missing_value_message(option@)),
{
    if pos < args.len() && pos + 1 < args.len() {
        Ok(args[pos + 1].clone())
    } else {
        let mut e = String::from_str(option);
        e.append(" requires a value");
        Err(e)
    }
}

/// What follows the first `=` of `arg`.
pub fn value_after_equals(arg: &str) -> (v: String)
    ensures
        v@ == after_equals(arg@),
{
    let cs = chars_of(arg);
    let ghost a = arg@;
    proof {
        lemma_first_index_of(a, '=');
    }
    let mut i: usize = 0;
    while i < cs.len()
        invariant
            0 <= i <= cs@.len(),
            cs@ == a,
            a == arg@,
            forall|k: int| 0 <= k < i ==> a[k] != '=',
        decreases cs.len() - i,
    {
        if cs[i] == '=' {
            proof {
                lemma_first_index_of(a, '=');
                assert(a[i as int] == '=');
                match first_index_of(a, '=') {
                    Some(k) => {
                        if k < i {
                            assert(a[k] != '=');
                        }
                        assert(k == i);
                    },
                    None => {
                        assert(a[i as int] != '=');
                    },
                }
                assert(first_index_of(a, '=') == Some(i as int));
                assert(after_equals(a) == a.skip(i + 1));
            }
            let rest = vstd::slice::slice_subrange(cs.as_slice(), i + 1, cs.len());
            assert(rest@ =~= a.skip(i + 1));
            return crate::text::string_of(rest);
        }
        i += 1;
    }
    proof {
        if let Some(k) = first_index_of(a, '=') {
            assert(a[k] == '=');
        }
    }
    String::new()
}

/// Whether the characters are those of `lit`.
fn is_arg(a: &[char], lit: &str) -> (r: bool)
    ensures
        r == (a@ == lit@),
{
    chars_eq(a, &chars_of(lit))
}

/// Whether the characters start with `lit`.
fn has_prefix(a: &[char], lit: &str) -> (r: bool)
    ensures
        r == is_prefix(lit@, a@),
{
    starts_with(a, &chars_of(lit))
}

/// Parses the command-line arguments (after the program name, which only
/// the usage text names); see `parse_from`.
pub fn parse_args_from(_program: &str, args: Vec<String>) -> (r: Result<Args, String>)
    ensures
        match parse_from(string_rows(args@), 0, initial_state()) {
            Ok(st) => r matches Ok(a) && args_hold(a, st),
            Err(e) => r matches Err(m) && m@ == e,
        },
{
    let ghost rows = string_rows(args@);
    let mut markers = Markers::default();
    let mut mode = OutputMode::Lcov;
    let mut explicit_mode: Option<OutputMode> = None;
    let mut grep: Option<String> = None;
    let ghost mut st = initial_state();
    let mut i: usize = 0;
    while i < args.len()
        invariant
            0 <= i <= args@.len(),
            rows == string_rows(args@),
            parse_from(rows, 0, initial_state()) == parse_from(rows, i as int, st),
            markers.line@ == st.line,
            markers.start@ == st.start,
            markers.stop@ == st.stop,
            mode == st.mode,
            explicit_mode == st.explicit_mode,
            opt_chars(grep) == st.grep,
        decreases args@.len() - i,
    {
        let arg = &args[i];
        let a = chars_of(arg.as_str());
        assert(rows[i as int] == a@);
        if is_arg(&a, "-h") || is_arg(&a, "--help") {
            return Err(String::new());
        } else if is_arg(&a, "--lcov") || is_arg(&a, "--text") {
            let next = if is_arg(&a, "--lcov") {
                OutputMode::Lcov
            } else {
                OutputMode::Text
            };
            match set_mode(&mut mode, &mut explicit_mode, next) {
                Ok(()) => {
                    proof {
                        st = ArgState { mode: next, explicit_mode: Some(next), ..st };
                    }
                    i += 1;
                },
                Err(e) => {
                    return Err(e);
                },
            }
        } else if is_arg(&a, "--grep") || is_arg(&a, "--marker-line") || is_arg(
            &a,
            "--marker-start",
        ) || is_arg(&a, "--marker-stop") {
            let v = match next_value(args.as_slice(), i, arg.as_str()) {
                Ok(v) => v,
                Err(e) => {
                    return Err(e);
                },
            };
            assert(v@ == rows[i + 1]);
            if is_arg(&a, "--grep") {
                grep = Some(v);
                proof {
                    st = ArgState { grep: Some(rows[i + 1]), ..st };
                }
            } else if is_arg(&a, "--marker-line") {
                markers.line = v;
                proof {
                    st = ArgState { line: rows[i + 1], ..st };
                }
            } else if is_arg(&a, "--marker-start") {
                markers.start = v;
                proof {
                    st = ArgState { start: rows[i + 1], ..st };
                }
            } else {
                markers.stop = v;
                proof {
                    st = ArgState { stop: rows[i + 1], ..st };
                }
            }
            i += 2;
        } else if has_prefix(&a, "--grep=") {
            grep = Some(value_after_equals(arg.as_str()));
            proof {
                st = ArgState { grep: Some(after_equals(a@)), ..st };
            }
            i += 1;
        } else if has_prefix(&a, "--marker-line=") {
            markers.line = value_after_equals(arg.as_str());
            proof {
                st = ArgState { line: after_equals(a@), ..st };
            }
            i += 1;
        } else if has_prefix(&a, "--marker-start=") {
            markers.start = value_after_equals(arg.as_str());
            proof {
                st = ArgState { start: after_equals(a@), ..st };
            }
            i += 1;
        } else if has_prefix(&a, "--marker-stop=") {
            markers.stop = value_after_equals(arg.as_str());
            proof {
                st = ArgState { stop: after_equals(a@), ..st };
            }
            i += 1;
        } else if has_prefix(&a, "-") {
            let mut e = String::from_str("Unknown option: ");
            e.append(arg.as_str());
            return Err(e);
        } else {
            return Err(String::from_str("Unexpected positional argument (stdin only)"));
        }
    }
    Ok(Args { markers, mode, grep })
}

/// The pattern of the arguments, as a string slice.
pub open spec fn grep_of(args: Args) -> Option<Seq<char>> {
    opt_chars(args.grep)
}

/// What a run prints and whether it fails: the filtered LCOV report (never
/// failing) or the text report of missing lines (failing exactly when a
/// reported record has missing lines).
pub fn render_output(input: &str, args: &Args, sources: &[SourceFile]) -> (r: (String, bool))
    ensures
        match args.mode {
            OutputMode::Lcov => r.0@ == joined_text(
                all_lines(filtered_records(input@, sources@, args.markers)),
            ) && !r.1,
            OutputMode::Text => {
                let rs = filtered_records(input@, sources@, args.markers);
                &&& r.0@ == missing_report(rs, grep_of(*args))
                &&& r.1 == exists|i: int|
                    0 <= i < rs.len() && reported(#[trigger] rs[i], grep_of(*args))
            },
        },
{
    match args.mode {
        OutputMode::Lcov => (filter_lcov(input, &args.markers, sources), false),
        OutputMode::Text => {
            let records = filter_lcov_records(input, &args.markers, sources);
            let grep: Option<&str> = match &args.grep {
                Some(g) => Some(g.as_str()),
                None => None,
            };
            assert(crate::report::grep_view(grep) == grep_of(*args));
            assert(views_of(records@) == crate::lcov::result_views(records@));
            let text = format_missing_lines(records.as_slice(), grep);
            let failed = has_missing_lines(records.as_slice(), grep);
            proof {
                let rs = views_of(records@);
                if failed {
                    let i = choose|i: int|
                        0 <= i < records@.len() && reported(
                            #[trigger] records@[i]@,
                            crate::report::grep_view(grep),
                        );
                    assert(rs[i] == records@[i]@);
                } else {
                    assert forall|i: int| 0 <= i < rs.len() implies !reported(
                        #[trigger] rs[i],
                        grep_of(*args),
                    ) by {
                        assert(rs[i] == records@[i]@);
                    }
                }
            }
            (text, failed)
        },
    }
}

} // verus!
