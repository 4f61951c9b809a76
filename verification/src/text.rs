//! Small text helpers: decimal numbers, clock times, substring tests.
use vstd::prelude::*;

verus! {

/// The character of decimal digit `d`.
pub open spec fn digit_char(d: nat) -> char {
    (48 + d) as char
}

/// The decimal representation of `n`, without leading zeros.
pub open spec fn decimal(n: nat) -> Seq<char>
    decreases n,
{
    if n < 10 {
        seq![digit_char(n)]
    } else {
        decimal(n / 10).push(digit_char(n % 10))
    }
}

/// The decimal representation of `n` is a nonempty string of digits whose value is `n`.
pub proof fn lemma_decimal(n: nat)
    ensures
        decimal(n).len() > 0,
        all_digits(decimal(n)),
        digits_value(decimal(n)) == n,
    decreases n,
{
    if n < 10 {
        assert(digit_char(n) as nat == 48 + n);
        let t = decimal(n);
        assert(t.drop_last() =~= Seq::<char>::empty());
        assert(digits_value(t.drop_last()) == 0);
        assert(t.last() == digit_char(n));
        assert((t.last() as nat - 48) as nat == n);
    } else {
        lemma_decimal(n / 10);
        let s = decimal(n / 10);
        let t = decimal(n);
        assert(t == s.push(digit_char(n % 10)));
        assert(t.drop_last() =~= s);
        assert(digit_char(n % 10) as nat == 48 + n % 10);
        vstd::arithmetic::div_mod::lemma_fundamental_div_mod(n as int, 10);
        assert(t.last() == digit_char(n % 10));
        assert((t.last() as nat - 48) as nat == n % 10);
        assert(digits_value(t) == digits_value(s) * 10 + n % 10);
        assert(digits_value(s) == n / 10);
        assert forall|i: int| 0 <= i < t.len() implies '0' <= #[trigger] t[i] <= '9' by {
            if i < s.len() {
                assert(t[i] == s[i]);
            }
        }
    }
}

/// The one-character text of decimal digit `d`.
fn digit_text(d: u64) -> (r: &'static str)
    requires
        d < 10,
    ensures
        r@ == seq![digit_char(d as nat)],
{
    proof {
        reveal_strlit("0");
        reveal_strlit("1");
        reveal_strlit("2");
        reveal_strlit("3");
        reveal_strlit("4");
        reveal_strlit("5");
        reveal_strlit("6");
        reveal_strlit("7");
        reveal_strlit("8");
        reveal_strlit("9");
    }
    if d == 0 {
        "0"
    } else if d == 1 {
        "1"
    } else if d == 2 {
        "2"
    } else if d == 3 {
        "3"
    } else if d == 4 {
        "4"
    } else if d == 5 {
        "5"
    } else if d == 6 {
        "6"
    } else if d == 7 {
        "7"
    } else if d == 8 {
        "8"
    } else {
        "9"
    }
}

/// The decimal representation of `n`, as `u64::to_string` writes it.
pub(crate) fn u64_to_decimal(n: u64) -> (r: String)
    ensures
        r@ == decimal(n as nat),
    decreases n,
{
    if n < 10 {
        let d = digit_text(n);
        String::from_str(d)
    } else {
        let mut s = u64_to_decimal(n / 10);
        let d = digit_text(n % 10);
        s.append(d);
        s
    }
}

/// The decimal representation of `n`, as `usize::to_string` writes it.
pub(crate) fn usize_to_decimal(n: usize) -> (r: String)
    ensures
        r@ == decimal(n as nat),
{
    u64_to_decimal(n as u64)
}

/// The decimal representation of `n`, as `u32::to_string` writes it.
pub(crate) fn u32_to_decimal(n: u32) -> (r: String)
    ensures
        r@ == decimal(n as nat),
{
    u64_to_decimal(n as u64)
}

/// The decimal representation of a signed integer: a minus sign before negative ones.
pub open spec fn signed_decimal(i: int) -> Seq<char> {
    if i < 0 {
        seq!['-'] + decimal((-i) as nat)
    } else {
        decimal(i as nat)
    }
}

/// The decimal representation of `n`, as `i32::to_string` writes it.
pub(crate) fn i32_to_decimal(n: i32) -> (r: String)
    ensures
        r@ == signed_decimal(n as int),
{
    if n < 0 {
        let m: i64 = -(n as i64);
        let mut s = String::from_str("-");
        let d = u64_to_decimal(m as u64);
        s.append(d.as_str());
        proof {
            reveal_strlit("-");
        }
        s
    } else {
        u64_to_decimal(n as u64)
    }
}

/// `needle` occurs in `hay` at position `i`.
pub open spec fn occurs_at(hay: Seq<char>, needle: Seq<char>, i: int) -> bool {
    0 <= i <= hay.len() - needle.len() && hay.subrange(i, i + needle.len()) == needle
}

/// `needle` occurs in `hay`.
pub open spec fn contains_seq(hay: Seq<char>, needle: Seq<char>) -> bool {
    exists|i: int| #[trigger] occurs_at(hay, needle, i)
}

/// `str::contains`: whether `needle` occurs in `hay`.
#[verifier::external_body]
pub(crate) fn str_contains(hay: &str, needle: &str) -> (r: bool)
    ensures
        r == contains_seq(hay@, needle@),
{
    hay.contains(needle)
}

/// Whether two texts are equal.
pub(crate) fn str_eq(a: &str, b: &str) -> (r: bool)
    ensures
        r == (a@ == b@),
{
    a.to_owned() == b.to_owned()
}

/// `n` written with at least two digits.
pub open spec fn two_digits(n: nat) -> Seq<char> {
    if n < 10 {
        seq!['0'] + decimal(n)
    } else {
        decimal(n)
    }
}

/// Below one hundred, the two-digit form has two digits and reads back as `n`.
pub proof fn lemma_two_digits(n: nat)
    requires
        n < 100,
    ensures
        two_digits(n).len() == 2,
        all_digits(two_digits(n)),
        digits_value(two_digits(n)) == n,
{
    lemma_decimal(n);
    let d = decimal(n);
    if n < 10 {
        assert(d.len() == 1);
        let t = two_digits(n);
        assert(t =~= seq!['0', d[0]]);
        assert(t.drop_last() =~= seq!['0']);
        let z = seq!['0'];
        assert(z.drop_last() =~= Seq::<char>::empty());
        assert(digits_value(Seq::<char>::empty()) == 0);
        assert(digits_value(z.drop_last()) == 0);
        assert('0' as nat == 48);
        assert(z.last() == '0');
        assert(digits_value(z) == 0);
        assert(d.drop_last() =~= Seq::<char>::empty());
        assert(digits_value(d) == (d.last() as nat - 48) as nat);
    } else {
        assert(decimal(n / 10).len() == 1);
    }
}

/// `n` written with at least two digits (a leading zero below ten).
pub fn pad2(n: u64) -> (r: String)
    ensures
        r@ == two_digits(n as nat),
{
    let d = u64_to_decimal(n);
    if n < 10 {
        let mut s = String::from_str("0");
        s.append(d.as_str());
        proof {
            reveal_strlit("0");
        }
        s
    } else {
        d
    }
}

/// The time of day of a Unix timestamp, in UTC.
pub open spec fn clock(secs: nat) -> Seq<char> {
    two_digits((secs / 3600) % 24) + seq![':'] + two_digits((secs / 60) % 60) + seq![':'] + two_digits(
        secs % 60,
    )
}

/// Formats a Unix timestamp as `HH:MM:SS` (UTC time of day).
pub fn fmt_unix(secs: u64) -> (r: String)
    ensures
        r@ == clock(secs as nat),
{
    let h = (secs / 3600) % 24;
    let m = (secs / 60) % 60;
    let s = secs % 60;
    let mut out = pad2(h);
    out.append(":");
    let mm = pad2(m);
    out.append(mm.as_str());
    out.append(":");
    let ss = pad2(s);
    out.append(ss.as_str());
    proof {
        reveal_strlit(":");
    }
    out
}

/// A character with the Unicode `White_Space` property (`char::is_whitespace`).
pub open spec fn is_white(c: char) -> bool {
    let u = c as u32;
    ||| 0x09 <= u <= 0x0d
    ||| u == 0x20
    ||| u == 0x85
    ||| u == 0xa0
    ||| u == 0x1680
    ||| 0x2000 <= u <= 0x200a
    ||| u == 0x2028
    ||| u == 0x2029
    ||| u == 0x202f
    ||| u == 0x205f
    ||| u == 0x3000
}

/// `s` without its leading white space.
pub open spec fn trim_start(s: Seq<char>) -> Seq<char>
    decreases s.len(),
{
    if s.len() > 0 && is_white(s[0]) {
        trim_start(s.skip(1))
    } else {
        s
    }
}

/// `s` without its trailing white space.
pub open spec fn trim_end(s: Seq<char>) -> Seq<char>
    decreases s.len(),
{
    if s.len() > 0 && is_white(s.last()) {
        trim_end(s.drop_last())
    } else {
        s
    }
}

/// `s` without leading and trailing white space.
pub open spec fn trimmed(s: Seq<char>) -> Seq<char> {
    trim_end(trim_start(s))
}

/// `str::trim`: `s` without leading and trailing white space.
#[verifier::external_body]
pub(crate) fn str_trim(s: &str) -> (r: &str)
    ensures
        r@ == trimmed(s@),
{
    s.trim()
}

/// `t` is `s` with its leading and trailing white space removed: a middle
/// part of `s`, all white space around it, and no white space at its ends.
pub open spec fn trim_of(s: Seq<char>, t: Seq<char>) -> bool {
    exists|a: int, b: int|
        0 <= a <= b <= s.len() && t == s.subrange(a, b) && (forall|i: int| 0 <= i < a ==> is_white(#[trigger] s[i]))
            && (forall|i: int| b <= i < s.len() ==> is_white(#[trigger] s[i])) && (a < b ==> !is_white(s[a])
            && !is_white(s[b - 1]))
}

proof fn lemma_trim_start_shape(s: Seq<char>)
    ensures
        exists|a: int|
            0 <= a <= s.len() && trim_start(s) == s.skip(a) && (forall|i: int| 0 <= i < a ==> is_white(#[trigger] s[i]))
                && (a < s.len() ==> !is_white(s[a])),
    decreases s.len(),
{
    if s.len() > 0 && is_white(s[0]) {
        lemma_trim_start_shape(s.skip(1));
        let a = choose|a: int|
            0 <= a <= s.skip(1).len() && trim_start(s.skip(1)) == s.skip(1).skip(a) && (forall|i: int|
                0 <= i < a ==> is_white(#[trigger] s.skip(1)[i])) && (a < s.skip(1).len() ==> !is_white(s.skip(1)[a]));
        assert(s.skip(1).skip(a) =~= s.skip(a + 1));
        assert forall|i: int| 0 <= i < a + 1 implies is_white(#[trigger] s[i]) by {
            if i > 0 {
                assert(s[i] == s.skip(1)[i - 1]);
            }
        }
        assert(a + 1 < s.len() ==> s[a + 1] == s.skip(1)[a]);
    } else {
        assert(s.skip(0) =~= s);
    }
}

proof fn lemma_trim_end_shape(s: Seq<char>)
    ensures
        exists|b: int|
            0 <= b <= s.len() && trim_end(s) == s.take(b) && (forall|i: int| b <= i < s.len() ==> is_white(#[trigger] s[i]))
                && (b > 0 ==> !is_white(s[b - 1])),
    decreases s.len(),
{
    if s.len() > 0 && is_white(s.last()) {
        lemma_trim_end_shape(s.drop_last());
        let t = s.drop_last();
        let b = choose|b: int|
            0 <= b <= t.len() && trim_end(t) == t.take(b) && (forall|i: int| b <= i < t.len() ==> is_white(#[trigger] t[i]))
                && (b > 0 ==> !is_white(t[b - 1]));
        assert(t.take(b) =~= s.take(b));
        assert forall|i: int| b <= i < s.len() implies is_white(#[trigger] s[i]) by {
            if i < s.len() - 1 {
                assert(s[i] == t[i]);
            }
        }
        assert(b > 0 ==> s[b - 1] == t[b - 1]);
    } else {
        assert(s.take(s.len() as int) =~= s);
    }
}

/// `trimmed` removes exactly the white space around a text.
pub proof fn lemma_trimmed_is_trim(s: Seq<char>)
    ensures
        trim_of(s, trimmed(s)),
{
    lemma_trim_start_shape(s);
    let a = choose|a: int|
        0 <= a <= s.len() && trim_start(s) == s.skip(a) && (forall|i: int| 0 <= i < a ==> is_white(#[trigger] s[i]))
            && (a < s.len() ==> !is_white(s[a]));
    let u = s.skip(a);
    lemma_trim_end_shape(u);
    let b = choose|b: int|
        0 <= b <= u.len() && trim_end(u) == u.take(b) && (forall|i: int| b <= i < u.len() ==> is_white(#[trigger] u[i]))
            && (b > 0 ==> !is_white(u[b - 1]));
    assert(u.take(b) =~= s.subrange(a, a + b));
    assert forall|i: int| a + b <= i < s.len() implies is_white(#[trigger] s[i]) by {
        assert(s[i] == u[i - a]);
    }
    if b > 0 {
        assert(s[a] == u[0]);
        assert(s[a + b - 1] == u[b - 1]);
    }
    assert(trimmed(s) == s.subrange(a, a + b));
}

/// The pieces of a split: at least one, none holding the separator.
pub proof fn lemma_split_on_pieces(s: Seq<char>, c: char)
    ensures
        split_on(s, c).len() >= 1,
        forall|i: int| 0 <= i < split_on(s, c).len() ==> !(#[trigger] split_on(s, c)[i]).contains(c),
    decreases s.len(),
{
    if s.len() > 0 {
        lemma_split_on_pieces(s.drop_last(), c);
        let prev = split_on(s.drop_last(), c);
        let cur = split_on(s, c);
        if s.last() != c {
            assert forall|i: int| 0 <= i < cur.len() implies !(#[trigger] cur[i]).contains(c) by {
                if i < prev.len() - 1 {
                    assert(cur[i] == prev[i]);
                } else {
                    let p = prev.last().push(s.last());
                    assert(cur[i] == p);
                    if p.contains(c) {
                        let j = choose|j: int| 0 <= j < p.len() && p[j] == c;
                        assert(j < prev.last().len());
                        assert(prev.last()[j] == c);
                        assert(prev[prev.len() - 1].contains(c));
                    }
                }
            }
        } else {
            assert forall|i: int| 0 <= i < cur.len() implies !(#[trigger] cur[i]).contains(c) by {
                if i < prev.len() {
                    assert(cur[i] == prev[i]);
                }
            }
        }
    } else {
        assert(split_on(s, c) == seq![Seq::<char>::empty()]);
    }
}

/// Appending text without the separator extends the last piece.
proof fn lemma_split_on_plain_tail(s: Seq<char>, t: Seq<char>, c: char)
    requires
        !t.contains(c),
    ensures
        split_on(s + t, c) == split_on(s, c).update(
            split_on(s, c).len() - 1,
            split_on(s, c)[split_on(s, c).len() - 1] + t,
        ),
    decreases t.len(),
{
    lemma_split_on_pieces(s, c);
    let p = split_on(s, c);
    if t.len() == 0 {
        assert(s + t =~= s);
        assert(p[p.len() - 1] + t =~= p[p.len() - 1]);
        assert(p.update(p.len() - 1, p[p.len() - 1] + t) =~= p);
    } else {
        let t0 = t.drop_last();
        assert(!t0.contains(c)) by {
            if t0.contains(c) {
                let j = choose|j: int| 0 <= j < t0.len() && t0[j] == c;
                assert(t[j] == c);
            }
        }
        lemma_split_on_plain_tail(s, t0, c);
        assert((s + t).drop_last() =~= s + t0);
        assert((s + t).last() == t.last());
        assert(t.last() != c) by {
            assert(t[t.len() - 1] == t.last());
        }
        let prev = split_on(s + t0, c);
        assert(prev.len() == p.len());
        assert(prev.last() == p[p.len() - 1] + t0);
        assert(split_on(s + t, c) == prev.update(prev.len() - 1, prev.last().push(t.last())));
        assert((p[p.len() - 1] + t0).push(t.last()) =~= p[p.len() - 1] + t);
        assert(split_on(s + t, c) =~= p.update(p.len() - 1, p[p.len() - 1] + t));
    }
}

/// Splitting the join of pieces that hold no separator gives the pieces back.
pub proof fn lemma_split_join(ps: Seq<Seq<char>>, c: char)
    requires
        ps.len() >= 1,
        forall|i: int| 0 <= i < ps.len() ==> !(#[trigger] ps[i]).contains(c),
    ensures
        split_on(join_with(ps, seq![c]), c) == ps,
    decreases ps.len(),
{
    if ps.len() == 1 {
        let e = Seq::<char>::empty();
        lemma_split_on_plain_tail(e, ps[0], c);
        assert(e + ps[0] =~= ps[0]);
        assert(split_on(e, c) == seq![e]);
        assert(seq![e].update(0, e + ps[0]) =~= ps);
    } else {
        let q = ps.drop_last();
        assert forall|i: int| 0 <= i < q.len() implies !(#[trigger] q[i]).contains(c) by {
            assert(q[i] == ps[i]);
        }
        lemma_split_join(q, c);
        let j = join_with(q, seq![c]);
        let jc = j + seq![c];
        assert(jc.drop_last() =~= j);
        assert(jc.last() == c);
        assert(split_on(jc, c) == q.push(Seq::<char>::empty()));
        assert(ps.last() == ps[ps.len() - 1]);
        lemma_split_on_plain_tail(jc, ps.last(), c);
        assert(join_with(ps, seq![c]) == jc + ps.last());
        assert(Seq::<char>::empty() + ps.last() =~= ps.last());
        assert(q.push(Seq::<char>::empty()).update(q.len() as int, Seq::<char>::empty() + ps.last()) =~= ps);
    }
}

/// Every character of `s` is an ASCII digit.
pub open spec fn all_digits(s: Seq<char>) -> bool {
    forall|i: int| 0 <= i < s.len() ==> '0' <= #[trigger] s[i] <= '9'
}

/// The value of a string of decimal digits.
pub open spec fn digits_value(s: Seq<char>) -> nat
    decreases s.len(),
{
    if s.len() == 0 {
        0
    } else {
        digits_value(s.drop_last()) * 10 + (s.last() as nat - 48) as nat
    }
}

/// What the standard parsers of unsigned integers accept, for a type whose
/// largest value is `max`: an optional `+`, then one or more ASCII digits
/// whose value is at most `max`.
pub open spec fn parse_within(s: Seq<char>, max: nat) -> Option<nat> {
    let t = if s.len() > 0 && s[0] == '+' {
        s.skip(1)
    } else {
        s
    };
    if t.len() > 0 && all_digits(t) && digits_value(t) <= max {
        Some(digits_value(t))
    } else {
        None
    }
}

/// What `usize::from_str` gives, errors as `None`.
pub open spec fn parsed_usize(s: Seq<char>) -> Option<usize> {
    match parse_within(s, usize::MAX as nat) {
        Some(v) => Some(v as usize),
        None => None,
    }
}

/// `usize::from_str`, with errors as `None`.
#[verifier::external_body]
pub(crate) fn parse_usize(s: &str) -> (r: Option<usize>)
    ensures
        r == parsed_usize(s@),
{
    s.parse().ok()
}

/// What `u64::from_str` gives, errors as `None`.
pub open spec fn parsed_u64(s: Seq<char>) -> Option<u64> {
    match parse_within(s, u64::MAX as nat) {
        Some(v) => Some(v as u64),
        None => None,
    }
}

/// `u64::from_str`, with errors as `None`.
#[verifier::external_body]
pub(crate) fn parse_u64(s: &str) -> (r: Option<u64>)
    ensures
        r == parsed_u64(s@),
{
    s.parse().ok()
}

/// What `u32::from_str` gives, errors as `None`.
pub open spec fn parsed_u32(s: Seq<char>) -> Option<u32> {
    match parse_within(s, u32::MAX as nat) {
        Some(v) => Some(v as u32),
        None => None,
    }
}

/// `u32::from_str`, with errors as `None`.
#[verifier::external_body]
pub(crate) fn parse_u32(s: &str) -> (r: Option<u32>)
    ensures
        r == parsed_u32(s@),
{
    s.parse().ok()
}

/// The pieces of `s` between occurrences of `c` (one piece when `c` does not occur).
pub open spec fn split_on(s: Seq<char>, c: char) -> Seq<Seq<char>>
    decreases s.len(),
{
    if s.len() == 0 {
        seq![Seq::empty()]
    } else {
        let prev = split_on(s.drop_last(), c);
        if s.last() == c {
            prev.push(Seq::empty())
        } else {
            prev.update(prev.len() - 1, prev.last().push(s.last()))
        }
    }
}

/// `str::split` on a character, collected.
#[verifier::external_body]
pub(crate) fn str_split<'a>(s: &'a str, c: char) -> (r: Vec<&'a str>)
    ensures
        r@.map_values(|x: &str| x@) == split_on(s@, c),
{
    s.split(c).collect()
}

/// A line without the `\r` of a `\r\n` ending.
pub open spec fn strip_cr(p: Seq<char>) -> Seq<char> {
    if p.len() > 0 && p.last() == '\r' {
        p.drop_last()
    } else {
        p
    }
}

/// The lines of `s` as `str::lines` gives them: split at `\n`, a `\r` just
/// before a `\n` dropped, and no empty line after a final `\n`.
pub open spec fn lines_of(s: Seq<char>) -> Seq<Seq<char>> {
    let p = split_on(s, '\n');
    let k = p.len() as int;
    if p[k - 1].len() == 0 {
        Seq::new((k - 1) as nat, |i: int| strip_cr(p[i]))
    } else {
        Seq::new(
            k as nat,
            |i: int|
                if i < k - 1 {
                    strip_cr(p[i])
                } else {
                    p[i]
                },
        )
    }
}

/// `str::lines`, collected.
#[verifier::external_body]
pub(crate) fn str_lines<'a>(s: &'a str) -> (r: Vec<&'a str>)
    ensures
        r@.map_values(|x: &str| x@) == lines_of(s@),
{
    s.lines().collect()
}

/// `parts` joined with `sep` between consecutive parts.
pub open spec fn join_with(parts: Seq<Seq<char>>, sep: Seq<char>) -> Seq<char>
    decreases parts.len(),
{
    if parts.len() == 0 {
        Seq::empty()
    } else if parts.len() == 1 {
        parts[0]
    } else {
        join_with(parts.drop_last(), sep) + sep + parts.last()
    }
}

/// Joining one part more: the parts so far, the separator, and the new part.
pub proof fn lemma_join_step(p: Seq<Seq<char>>, sep: Seq<char>, i: int)
    requires
        0 <= i < p.len(),
    ensures
        join_with(p.take(i + 1), sep) == (if i == 0 {
            p[0]
        } else {
            join_with(p.take(i), sep) + sep + p[i]
        }),
{
    assert(p.take(i + 1).drop_last() =~= p.take(i));
}

/// `String::from_utf8`, with the error as `None`.
#[verifier::external_body]
pub(crate) fn utf8_string(bytes: Vec<u8>) -> (r: Option<String>)
    ensures
        r is Some <==> vstd::utf8::valid_utf8(bytes@),
        r matches Some(s) ==> s@ == vstd::utf8::decode_utf8(bytes@),
{
    String::from_utf8(bytes).ok()
}

/// What the `Display` of `FromUtf8Error` writes for `bytes` that are not UTF-8.
pub uninterp spec fn utf8_error_text(bytes: Seq<u8>) -> Seq<char>;

/// `String::from_utf8`, with the error written out as text.
#[verifier::external_body]
pub(crate) fn decode_utf8(bytes: Vec<u8>) -> (r: Result<String, String>)
    ensures
        r is Ok <==> vstd::utf8::valid_utf8(bytes@),
        r matches Ok(s) ==> s@ == vstd::utf8::decode_utf8(bytes@),
        r matches Err(e) ==> e@ == utf8_error_text(bytes@),
{
    match String::from_utf8(bytes) {
        Ok(s) => Ok(s),
        Err(e) => Err(e.to_string()),
    }
}

/// `str::split_once` on a character: the text before and after the first `c`.
#[verifier::external_body]
pub(crate) fn str_split_once<'a>(s: &'a str, c: char) -> (r: Option<(&'a str, &'a str)>)
    ensures
        r is Some <==> s@.contains(c),
        r matches Some(p) ==> !p.0@.contains(c) && s@ == p.0@ + seq![c] + p.1@,
{
    s.split_once(c)
}

} // verus!
