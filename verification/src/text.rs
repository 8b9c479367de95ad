//! Character-level text handling: conversions between `str`/`String` and
//! character vectors, prefix and substring tests, splitting text into lines
//! the way `str::lines` does, and reading and writing decimal numbers.
use vstd::prelude::*;

verus! {

// ------------------------------------------------------------------
// Conversions
// ------------------------------------------------------------------

/// Trusted: `String::push` from std, which appends one character to the
/// end of the string; the contract claims exactly that.
#[verifier::external_body]
pub(crate) fn push_char(s: &mut String, c: char)
    ensures
        final(s)@ == old(s)@.push(c),
{
    s.push(c);
}

/// The characters of `s`, in order.
pub fn chars_of(s: &str) -> (v: Vec<char>)
    ensures
        v@ == s@,
{
    let mut v: Vec<char> = Vec::new();
    for c in it: s.chars()
        invariant
            v@ == it.seq().take(it.index() as int),
            it.seq() == s@,
    {
        v.push(c);
    }
    v
}

/// A `String` holding exactly the characters `cs`.
pub fn string_of(cs: &[char]) -> (s: String)
    ensures
        s@ == cs@,
{
    let mut s = String::new();
    let mut i: usize = 0;
    while i < cs.len()
        invariant
            0 <= i <= cs.len(),
            s@ == cs@.take(i as int),
        decreases cs.len() - i,
    {
        push_char(&mut s, cs[i]);
        assert(cs@.take(i + 1) == cs@.take(i as int).push(cs@[i as int]));
        i += 1;
    }
    assert(cs@.take(cs.len() as int) == cs@);
    s
}

// ------------------------------------------------------------------
// Prefixes and substrings
// ------------------------------------------------------------------

/// `p` is a prefix of `s`.
pub open spec fn is_prefix(p: Seq<char>, s: Seq<char>) -> bool {
    p.len() <= s.len() && s.take(p.len() as int) == p
}

/// `n` occurs in `h` starting at position `i`.
pub open spec fn occurs_at(h: Seq<char>, n: Seq<char>, i: int) -> bool {
    0 <= i && i + n.len() <= h.len() && h.subrange(i, i + n.len()) == n
}

/// `n` occurs somewhere in `h` (the empty sequence occurs in every sequence).
pub open spec fn contains_seq(h: Seq<char>, n: Seq<char>) -> bool {
    exists|i: int| occurs_at(h, n, i)
}

/// Whether `s` starts with `p`.
pub fn starts_with(s: &[char], p: &[char]) -> (b: bool)
    ensures
        b == is_prefix(p@, s@),
{
    if p.len() > s.len() {
        return false;
    }
    let mut i: usize = 0;
    while i < p.len()
        invariant
            0 <= i <= p.len() <= s.len(),
            forall|k: int| 0 <= k < i ==> s@[k] == p@[k],
        decreases p.len() - i,
    {
        if s[i] != p[i] {
            assert(s@.take(p.len() as int)[i as int] != p@[i as int]);
            return false;
        }
        i += 1;
    }
    assert(s@.take(p.len() as int) =~= p@);
    true
}

fn matches_at(h: &[char], n: &[char], i: usize) -> (b: bool)
    requires
        i + n.len() <= h.len(),
    ensures
        b == occurs_at(h@, n@, i as int),
{
    let mut k: usize = 0;
    while k < n.len()
        invariant
            0 <= k <= n.len(),
            i + n.len() <= h.len(),
            forall|j: int| 0 <= j < k ==> h@[i + j] == n@[j],
        decreases n.len() - k,
    {
        if h[i + k] != n[k] {
            assert(h@.subrange(i as int, i + n.len())[k as int] != n@[k as int]);
            return false;
        }
        k += 1;
    }
    assert(h@.subrange(i as int, i + n.len()) =~= n@);
    true
}

/// Whether `n` occurs in `h`.
pub fn contains_chars(h: &[char], n: &[char]) -> (b: bool)
    ensures
        b == contains_seq(h@, n@),
{
    if n.len() == 0 {
        assert(h@.subrange(0, 0) =~= n@);
        assert(occurs_at(h@, n@, 0));
        return true;
    }
    if n.len() > h.len() {
        return false;
    }
    let last = h.len() - n.len();
    let mut i: usize = 0;
    while i <= last
        invariant
            0 <= i <= last + 1,
            last + n.len() == h.len(),
            n.len() > 0,
            forall|k: int| 0 <= k < i ==> !occurs_at(h@, n@, k),
        decreases last + 1 - i,
    {
        if matches_at(h, n, i) {
            return true;
        }
        i += 1;
    }
    assert forall|k: int| !occurs_at(h@, n@, k) by {
        if 0 <= k < i {
        }
    }
    false
}

// ------------------------------------------------------------------
// Lines
// ------------------------------------------------------------------

/// The pieces of `s` between newline characters; there is always one more
/// piece than there are newlines.
pub open spec fn newline_pieces(s: Seq<char>) -> Seq<Seq<char>>
    decreases s.len(),
{
    if s.len() == 0 {
        seq![Seq::empty()]
    } else {
        let p = newline_pieces(s.drop_last());
        if s.last() == '\n' {
            p.push(Seq::empty())
        } else {
            p.update(p.len() - 1, p.last().push(s.last()))
        }
    }
}

/// A line that was ended by `"\r\n"` loses its carriage return.
pub open spec fn strip_cr(l: Seq<char>) -> Seq<char> {
    if l.len() > 0 && l.last() == '\r' {
        l.drop_last()
    } else {
        l
    }
}

/// The lines of `s` as `str::lines` yields them: pieces split at `'\n'`,
/// each piece that was ended by a newline without a trailing `'\r'`, and
/// the final piece only where it is not empty.
pub open spec fn text_lines(s: Seq<char>) -> Seq<Seq<char>> {
    let p = newline_pieces(s);
    let ended = p.drop_last().map_values(|l: Seq<char>| strip_cr(l));
    if p.last().len() == 0 {
        ended
    } else {
        ended.push(p.last())
    }
}

/// The view of a vector of character vectors.
pub open spec fn char_rows(v: Seq<Vec<char>>) -> Seq<Seq<char>> {
    v.map_values(|r: Vec<char>| r@)
}

pub proof fn lemma_newline_pieces_nonempty(s: Seq<char>)
    ensures
        newline_pieces(s).len() >= 1,
    decreases s.len(),
{
    if s.len() > 0 {
        lemma_newline_pieces_nonempty(s.drop_last());
    }
}

/// Splits `cs` into its lines (see `text_lines`).
pub fn split_lines(cs: &[char]) -> (lines: Vec<Vec<char>>)
    ensures
        char_rows(lines@) == text_lines(cs@),
{
    let mut done: Vec<Vec<char>> = Vec::new();
    let mut cur: Vec<char> = Vec::new();
    let ghost mut raw: Seq<Seq<char>> = Seq::empty();
    let mut i: usize = 0;
    assert(cs@.take(0) =~= Seq::<char>::empty());
    while i < cs.len()
        invariant
            0 <= i <= cs.len(),
            newline_pieces(cs@.take(i as int)) == raw.push(cur@),
            char_rows(done@) == raw.map_values(|l: Seq<char>| strip_cr(l)),
        decreases cs.len() - i,
    {
        let c = cs[i];
        assert(cs@.take(i + 1).drop_last() == cs@.take(i as int));
        assert(cs@.take(i + 1).last() == c);
        if c == '\n' {
            let ghost old_cur = cur@;
            let n = cur.len();
            if n > 0 && cur[n - 1] == '\r' {
                cur.pop();
            }
            assert(cur@ == strip_cr(old_cur));
            let ghost old_raw = raw;
            let ghost old_done = done@;
            let ghost stripped = cur@;
            proof {
                raw = raw.push(old_cur);
            }
            done.push(cur);
            cur = Vec::new();
            assert(char_rows(done@) =~= char_rows(old_done).push(stripped));
            assert(raw.map_values(|l: Seq<char>| strip_cr(l)) =~= old_raw.map_values(
                |l: Seq<char>| strip_cr(l),
            ).push(strip_cr(old_cur)));
            assert(char_rows(done@) =~= raw.map_values(|l: Seq<char>| strip_cr(l)));
            assert(newline_pieces(cs@.take(i + 1)) =~= raw.push(cur@));
        } else {
            let ghost old_cur = cur@;
            cur.push(c);
            assert(newline_pieces(cs@.take(i + 1)) =~= raw.push(cur@));
        }
        i += 1;
    }
    assert(cs@.take(cs.len() as int) == cs@);
    let ghost p = newline_pieces(cs@);
    assert(p.drop_last() == raw);
    assert(p.last() == cur@);
    if cur.len() > 0 {
        done.push(cur);
        assert(char_rows(done@) =~= text_lines(cs@));
    } else {
        assert(char_rows(done@) =~= text_lines(cs@));
    }
    done
}

/// The number of newlines in `s`.
pub open spec fn newline_count(s: Seq<char>) -> nat {
    s.filter(|c: char| c == '\n').len()
}

/// The pieces of `s` between its newlines: one more than there are
/// newlines, none holding a newline, each made of characters of `s`, and
/// put back together with a newline after each but the last they give `s`.
proof fn lemma_newline_pieces_rebuild(s: Seq<char>)
    ensures
        newline_pieces(s).len() == newline_count(s) + 1,
        forall|k: int, j: int|
            0 <= k < newline_pieces(s).len() && 0 <= j < newline_pieces(s)[k].len() ==> #[trigger]
            newline_pieces(s)[k][j] != '\n' && s.contains(newline_pieces(s)[k][j]),
        newline_pieces(s).drop_last().map_values(|l: Seq<char>| l + seq!['\n']).flatten_alt()
            + newline_pieces(s).last() == s,
    decreases s.len(),
{
    reveal(Seq::filter);
    let f = |l: Seq<char>| l + seq!['\n'];
    let q = newline_pieces(s);
    if s.len() == 0 {
        assert(q.drop_last().map_values(f) =~= Seq::<Seq<char>>::empty());
        assert(Seq::<char>::empty() + q.last() =~= s);
    } else {
        let t = s.drop_last();
        let c = s.last();
        lemma_newline_pieces_rebuild(t);
        lemma_newline_pieces_nonempty(t);
        let p = newline_pieces(t);
        let x = p.drop_last().map_values(f).flatten_alt();
        assert forall|y: char| t.contains(y) implies s.contains(y) by {
            let i = choose|i: int| 0 <= i < t.len() && t[i] == y;
            assert(s[i] == y);
        }
        assert(s.contains(c)) by {
            assert(s[s.len() - 1] == c);
        }
        if c == '\n' {
            assert(q == p.push(Seq::empty()));
            assert(q.drop_last() =~= p);
            assert(p.map_values(f).drop_last() =~= p.drop_last().map_values(f));
            assert(p.map_values(f).last() == f(p.last()));
            assert(x + p.last() == t);
            assert(p.map_values(f).flatten_alt() + q.last() =~= (x + p.last()) + seq!['\n']);
            assert(t + seq!['\n'] =~= s);
            assert forall|k: int, j: int|
                0 <= k < q.len() && 0 <= j < q[k].len() implies #[trigger] q[k][j] != '\n'
                && s.contains(q[k][j]) by {
                assert(q[k] == p[k]);
                assert(t.contains(p[k][j]));
            }
        } else {
            let last = p.last().push(c);
            assert(q == p.update(p.len() - 1, last));
            assert(q.drop_last() =~= p.drop_last());
            assert(q.last() == last);
            assert(x + last =~= (x + p.last()).push(c));
            assert(t.push(c) =~= s);
            assert forall|k: int, j: int|
                0 <= k < q.len() && 0 <= j < q[k].len() implies #[trigger] q[k][j] != '\n'
                && s.contains(q[k][j]) by {
                if k < p.len() - 1 {
                    assert(q[k] == p[k]);
                    assert(t.contains(p[k][j]));
                } else if j < p.last().len() {
                    assert(q[k][j] == p[p.len() - 1][j]);
                    assert(t.contains(p[p.len() - 1][j]));
                } else {
                    assert(q[k][j] == c);
                }
            }
        }
    }
}

/// Law: text is split into lines at its newlines, blank lines included,
/// as `str::lines` numbers them: no line holds a newline; there are as
/// many lines as newlines, one more where the text does not end with a
/// newline; and text without carriage returns is given back by putting a
/// newline after each line.
pub proof fn lemma_text_lines_split_at_newlines(s: Seq<char>)
    ensures
        forall|k: int, j: int|
            0 <= k < text_lines(s).len() && 0 <= j < text_lines(s)[k].len() ==> #[trigger]
            text_lines(s)[k][j] != '\n',
        text_lines(s).len() == newline_count(s) + if s.len() > 0 && s.last() != '\n' {
            1nat
        } else {
            0nat
        },
        (forall|j: int| 0 <= j < s.len() ==> s[j] != '\r') ==> text_lines(s).map_values(
            |l: Seq<char>| l + seq!['\n'],
        ).flatten() == s + if s.len() > 0 && s.last() != '\n' {
            seq!['\n']
        } else {
            Seq::empty()
        },
{
    let f = |l: Seq<char>| l + seq!['\n'];
    let p = newline_pieces(s);
    lemma_newline_pieces_rebuild(s);
    lemma_newline_pieces_nonempty(s);
    let ended = p.drop_last().map_values(|l: Seq<char>| strip_cr(l));
    let lines = text_lines(s);
    assert(p.last().len() == 0 <==> (s.len() == 0 || s.last() == '\n'));
    assert forall|k: int, j: int|
        0 <= k < lines.len() && 0 <= j < lines[k].len() implies #[trigger] lines[k][j] != '\n' by {
        if k < ended.len() {
            assert(lines[k] == strip_cr(p[k]));
            assert(lines[k][j] == p[k][j]);
        } else {
            assert(lines[k] == p[p.len() - 1]);
        }
    }
    if forall|j: int| 0 <= j < s.len() ==> s[j] != '\r' {
        assert forall|k: int| 0 <= k < p.len() implies strip_cr(#[trigger] p[k]) == p[k] by {
            if p[k].len() > 0 {
                let j = p[k].len() - 1;
                assert(s.contains(p[k][j]));
            }
        }
        assert(ended =~= p.drop_last());
        let x = p.drop_last().map_values(f).flatten_alt();
        lines.map_values(f).lemma_flatten_and_flatten_alt_are_equivalent();
        if p.last().len() == 0 {
            assert(lines == p.drop_last());
            assert(x + p.last() =~= x);
            assert(s + Seq::<char>::empty() =~= s);
        } else {
            assert(lines == p.drop_last().push(p.last()));
            assert(lines.map_values(f).drop_last() =~= p.drop_last().map_values(f));
            assert(lines.map_values(f).last() == f(p.last()));
            assert(x + f(p.last()) =~= (x + p.last()) + seq!['\n']);
        }
    }
}

// ------------------------------------------------------------------
// Decimal numbers
// ------------------------------------------------------------------

pub open spec fn is_ascii_digit(c: char) -> bool {
    '0' <= c && c <= '9'
}

pub open spec fn digit_value(c: char) -> nat {
    (c as int - '0' as int) as nat
}

pub open spec fn digit_char(d: nat) -> char {
    (d + '0' as int) as char
}

/// Every character of `d` is an ASCII decimal digit.
pub open spec fn all_digits(d: Seq<char>) -> bool {
    forall|i: int| 0 <= i < d.len() ==> is_ascii_digit(#[trigger] d[i])
}

/// The number that the digit string `d` denotes (most significant first).
pub open spec fn digits_value(d: Seq<char>) -> nat
    decreases d.len(),
{
    if d.len() == 0 {
        0
    } else {
        digits_value(d.drop_last()) * 10 + digit_value(d.last())
    }
}

/// The digits of an unsigned number: `s` without one leading `'+'`.
pub open spec fn unsigned_digits(s: Seq<char>) -> Seq<char> {
    if s.len() > 0 && s[0] == '+' {
        s.drop_first()
    } else {
        s
    }
}

/// What `str::parse` reads as an unsigned integer, before the range check:
/// an optional `'+'` followed by one or more ASCII digits, nothing else.
pub open spec fn parse_unsigned(s: Seq<char>) -> Option<nat> {
    let d = unsigned_digits(s);
    if d.len() > 0 && all_digits(d) {
        Some(digits_value(d))
    } else {
        None
    }
}

/// `s.parse::<u64>().ok()`.
pub open spec fn parse_u64_spec(s: Seq<char>) -> Option<u64> {
    match parse_unsigned(s) {
        Some(v) => if v <= u64::MAX {
            Some(v as u64)
        } else {
            None
        },
        None => None,
    }
}

/// `s.parse::<usize>().ok()`.
pub open spec fn parse_usize_spec(s: Seq<char>) -> Option<usize> {
    match parse_unsigned(s) {
        Some(v) => if v <= usize::MAX {
            Some(v as usize)
        } else {
            None
        },
        None => None,
    }
}

/// The decimal representation of `n`, without leading zeros.
pub open spec fn decimal(n: nat) -> Seq<char>
    decreases n,
{
    if n < 10 {
        seq![digit_char(n)]
    } else {
        decimal(n / 10).push(digit_char(n % 10))
    }
}

proof fn lemma_digits_value_prefix(d: Seq<char>, k: int)
    requires
        0 <= k <= d.len(),
    ensures
        digits_value(d.take(k)) <= digits_value(d),
    decreases d.len(),
{
    if k < d.len() {
        assert(d.drop_last().take(k) == d.take(k));
        lemma_digits_value_prefix(d.drop_last(), k);
    } else {
        assert(d.take(k) == d);
    }
}

fn digit_of(c: char) -> (r: u64)
    requires
        is_ascii_digit(c),
    ensures
        r == digit_value(c),
        r < 10,
{
    ((c as u32) - ('0' as u32)) as u64
}

fn digit_char_of(d: u8) -> (c: char)
    requires
        d < 10,
    ensures
        c == digit_char(d as nat),
{
    (d + 48) as char
}

/// `s.parse::<u64>().ok()`, read from characters.
pub fn parse_u64(s: &[char]) -> (r: Option<u64>)
    ensures
        r == parse_u64_spec(s@),
{
    let n = s.len();
    if n == 0 {
        return None;
    }
    let start: usize = if s[0] == '+' {
        1
    } else {
        0
    };
    let ghost d = unsigned_digits(s@);
    assert(d == s@.subrange(start as int, n as int));
    if start == n {
        return None;
    }
    let mut v: u64 = 0;
    let mut i: usize = start;
    assert(s@.subrange(start as int, start as int) =~= Seq::<char>::empty());
    while i < n
        invariant
            start <= i <= n,
            n == s.len(),
            d == s@.subrange(start as int, n as int),
            d == unsigned_digits(s@),
            all_digits(s@.subrange(start as int, i as int)),
            v == digits_value(s@.subrange(start as int, i as int)),
        decreases n - i,
    {
        let c = s[i];
        let ghost pre = s@.subrange(start as int, i as int);
        let ghost next = s@.subrange(start as int, i + 1);
        assert(next.drop_last() == pre);
        assert(next.last() == c);
        if !('0' <= c && c <= '9') {
            assert(d[i - start] == c);
            assert(!is_ascii_digit(d[i - start]));
            assert(!all_digits(d));
            return None;
        }
        let dg = digit_of(c);
        assert(next.take(i - start) == pre);
        assert(d.take(i + 1 - start) == next);
        if v > (u64::MAX - dg) / 10 {
            proof {
                assert(all_digits(next));
                lemma_digits_value_prefix(d, i + 1 - start);
                assert(digits_value(next) == v * 10 + dg);
                assert(v * 10 + dg > u64::MAX) by (nonlinear_arith)
                    requires
                        v > (u64::MAX - dg) / 10,
                        dg < 10,
                ;
                if all_digits(d) {
                    assert(digits_value(d) > u64::MAX);
                    assert(parse_unsigned(s@) == Some(digits_value(d)));
                }
            }
            return None;
        }
        assert(v * 10 + dg <= u64::MAX) by (nonlinear_arith)
            requires
                v <= (u64::MAX - dg) / 10,
                dg < 10,
        ;
        v = v * 10 + dg;
        i += 1;
    }
    assert(s@.subrange(start as int, n as int) == d);
    Some(v)
}

/// `s.parse::<usize>().ok()`, read from characters.
pub fn parse_usize(s: &[char]) -> (r: Option<usize>)
    ensures
        r == parse_usize_spec(s@),
{
    match parse_u64(s) {
        Some(v) => {
            if v <= usize::MAX as u64 {
                Some(v as usize)
            } else {
                None
            }
        },
        None => None,
    }
}

/// Appends the decimal representation of `n` to `out`.
pub fn push_decimal(out: &mut String, n: u128)
    ensures
        final(out)@ == old(out)@ + decimal(n as nat),
    decreases n,
{
    if n >= 10 {
        push_decimal(out, n / 10);
    }
    let d = (n % 10) as u8;
    push_char(out, digit_char_of(d));
    assert(old(out)@ + decimal(n as nat) =~= out@);
}

/// The decimal representation of `n` as a `String`.
pub fn decimal_string(n: u128) -> (s: String)
    ensures
        s@ == decimal(n as nat),
{
    let mut s = String::new();
    push_decimal(&mut s, n);
    assert(s@ =~= decimal(n as nat));
    s
}

/// Law: a number written in decimal reads back as the same number; the
/// counts that the library writes parse back to their values.
pub proof fn lemma_decimal_roundtrip(n: nat)
    ensures
        parse_unsigned(decimal(n)) == Some(n),
        n <= u64::MAX ==> parse_u64_spec(decimal(n)) == Some(n as u64),
        n <= usize::MAX ==> parse_usize_spec(decimal(n)) == Some(n as usize),
{
    lemma_decimal_digits(n);
}

proof fn lemma_decimal_digits(n: nat)
    ensures
        decimal(n).len() > 0,
        all_digits(decimal(n)),
        digits_value(decimal(n)) == n,
        decimal(n)[0] != '+',
    decreases n,
{
    assert(digit_value(digit_char(n % 10)) == n % 10);
    if n < 10 {
        assert(decimal(n).drop_last() =~= Seq::<char>::empty());
        assert(decimal(n).last() == digit_char(n));
        assert(digits_value(decimal(n)) == digits_value(decimal(n).drop_last()) * 10 + digit_value(
            decimal(n).last(),
        ));
        assert(digit_value(digit_char(n)) == n);
    } else {
        lemma_decimal_digits(n / 10);
        let s = decimal(n);
        assert(s.drop_last() == decimal(n / 10));
        assert(digit_value(digit_char(n % 10)) == n % 10);
        assert(n == (n / 10) * 10 + n % 10);
        assert(s.last() == digit_char(n % 10));
        assert(digits_value(s) == digits_value(s.drop_last()) * 10 + digit_value(s.last()));
        assert forall|i: int| 0 <= i < s.len() implies is_ascii_digit(#[trigger] s[i]) by {
            if i < s.len() - 1 {
                assert(s[i] == decimal(n / 10)[i]);
            }
        }
    }
}

} // verus!
