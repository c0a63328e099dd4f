//! Reading and writing grade numerals.
//!
//! A grade numeral is ASCII-trimmed text made of an optional sign and decimal
//! digits with at most one decimal separator, dot OR comma, so `"6,0"` and
//! `"6.0"` denote the same grade. Written grades always use a dot.
use vstd::prelude::*;
use vstd::string::{StringExecFns, StringSliceAdditionalSpecFns};

verus! {

broadcast use vstd::string::group_string_axioms;

/// ASCII whitespace: space, tab, line feed, form feed, carriage return.
pub open spec fn is_ascii_ws(c: u8) -> bool {
    c == 32 || c == 9 || c == 10 || c == 12 || c == 13
}

/// An ASCII decimal digit.
pub open spec fn is_digit(c: u8) -> bool {
    48 <= c <= 57
}

/// A decimal separator: `'.'` or `','`.
pub open spec fn is_sep(c: u8) -> bool {
    c == 46 || c == 44
}

/// `b` without its leading ASCII whitespace.
pub open spec fn trim_start(b: Seq<u8>) -> Seq<u8>
    decreases b.len(),
{
    if b.len() > 0 && is_ascii_ws(b[0]) {
        trim_start(b.drop_first())
    } else {
        b
    }
}

/// `b` without its trailing ASCII whitespace.
pub open spec fn trim_end(b: Seq<u8>) -> Seq<u8>
    decreases b.len(),
{
    if b.len() > 0 && is_ascii_ws(b.last()) {
        trim_end(b.drop_last())
    } else {
        b
    }
}

/// The sign of a trimmed numeral and the unsigned rest: a leading `'-'`
/// makes it negative, a leading `'+'` is dropped.
pub open spec fn split_sign(t: Seq<u8>) -> (bool, Seq<u8>) {
    if t.len() > 0 && t[0] == 45 {
        (true, t.drop_first())
    } else if t.len() > 0 && t[0] == 43 {
        (false, t.drop_first())
    } else {
        (false, t)
    }
}

/// The unsigned part is well formed: non-empty, digits and separators only,
/// at most one separator, at least one digit.
pub open spec fn is_unsigned_numeral(u: Seq<u8>) -> bool {
    &&& u.len() > 0
    &&& forall|i: int| 0 <= i < u.len() ==> is_digit(#[trigger] u[i]) || is_sep(u[i])
    &&& forall|i: int, j: int| 0 <= i < j < u.len() ==> !(is_sep(#[trigger] u[i]) && is_sep(#[trigger] u[j]))
    &&& exists|i: int| 0 <= i < u.len() && is_digit(#[trigger] u[i])
}

/// The separator normalised to a dot.
pub open spec fn dot_sep(c: u8) -> u8 {
    if c == 44 {
        46
    } else {
        c
    }
}

/// The unsigned part with its separator, if any, written as a dot.
pub open spec fn canonical(u: Seq<u8>) -> Seq<u8> {
    u.map_values(|c: u8| dot_sep(c))
}

/// What reading the UTF-8 bytes `b` as a grade numeral gives: the sign and
/// the canonical unsigned numeral, or nothing.
pub open spec fn spec_parse_grade(b: Seq<u8>) -> Option<(bool, Seq<u8>)> {
    let (negative, u) = split_sign(trim_end(trim_start(b)));
    if is_unsigned_numeral(u) {
        Some((negative, canonical(u)))
    } else {
        None
    }
}

/// A grade numeral: its sign, and its digits with a dot as the only possible
/// separator (ASCII bytes, such as `b"6.0"`).
pub struct Numeral {
    /// Whether the numeral carried a leading `'-'`.
    pub negative: bool,
    /// The unsigned digits with at most one `'.'`.
    pub canonical: Vec<u8>,
}

fn is_ascii_ws_exec(c: u8) -> (r: bool)
    ensures
        r == is_ascii_ws(c),
{
    c == 32 || c == 9 || c == 10 || c == 12 || c == 13
}

proof fn lemma_trim_start_step(b: Seq<u8>, lo: int)
    requires
        0 <= lo < b.len(),
        is_ascii_ws(b[lo]),
    ensures
        trim_start(b.subrange(lo, b.len() as int)) == trim_start(b.subrange(lo + 1, b.len() as int)),
{
    assert(b.subrange(lo, b.len() as int).drop_first() =~= b.subrange(lo + 1, b.len() as int));
}

proof fn lemma_trim_end_step(b: Seq<u8>, lo: int, hi: int)
    requires
        0 <= lo < hi <= b.len(),
        is_ascii_ws(b[hi - 1]),
    ensures
        trim_end(b.subrange(lo, hi)) == trim_end(b.subrange(lo, hi - 1)),
{
    assert(b.subrange(lo, hi).drop_last() =~= b.subrange(lo, hi - 1));
}

/// Parse a grade numeral: ASCII-trimmed digits with a single dot OR comma
/// decimal separator, so `"6,0"` and `"6.0"` both yield the numeral `6.0`.
/// Strict: rejects empty input, a lone sign or separator, multiple or mixed
/// separators, inner whitespace and trailing text. Scale-free (no range
/// check).
pub fn parse_grade(text: &str) -> (r: Option<Numeral>)
    ensures
        match r {
            Some(n) => spec_parse_grade(text.spec_bytes()) == Some((n.negative, n.canonical@)),
            None => spec_parse_grade(text.spec_bytes()) is None,
        },
{
    let b = text.as_bytes();
    let len = b.len();
    let ghost bs = b@;
    let mut lo: usize = 0;
    assert(bs.subrange(0, len as int) =~= bs);
    while lo < len && is_ascii_ws_exec(b[lo])
        invariant
            bs == b@,
            len == bs.len(),
            lo <= len,
            trim_start(bs) == trim_start(bs.subrange(lo as int, len as int)),
        decreases len - lo,
    {
        proof {
            lemma_trim_start_step(bs, lo as int);
        }
        lo += 1;
    }
    assert(bs.subrange(0, len as int) =~= bs);
    assert(trim_start(bs) == bs.subrange(lo as int, len as int));
    let mut hi: usize = len;
    while hi > lo && is_ascii_ws_exec(b[hi - 1])
        invariant
            bs == b@,
            len == bs.len(),
            lo <= hi <= len,
            trim_end(trim_start(bs)) == trim_end(bs.subrange(lo as int, hi as int)),
        decreases hi,
    {
        proof {
            lemma_trim_end_step(bs, lo as int, hi as int);
        }
        hi -= 1;
    }
    let ghost t = bs.subrange(lo as int, hi as int);
    assert(trim_end(trim_start(bs)) == t);
    let mut start = lo;
    let mut negative = false;
    if start < hi && b[start] == 45 {
        negative = true;
        start += 1;
        assert(t.drop_first() =~= bs.subrange(start as int, hi as int));
    } else if start < hi && b[start] == 43 {
        start += 1;
        assert(t.drop_first() =~= bs.subrange(start as int, hi as int));
    } else {
        assert(t =~= bs.subrange(start as int, hi as int));
    }
    let ghost u = bs.subrange(start as int, hi as int);
    assert(split_sign(t) == (negative, u));
    if start == hi {
        return None;
    }
    let mut out: Vec<u8> = Vec::new();
    let mut seen_sep = false;
    let mut seen_digit = false;
    let mut j = start;
    while j < hi
        invariant
            bs == b@,
            len == bs.len(),
            start < hi <= len,
            start <= j <= hi,
            u == bs.subrange(start as int, hi as int),
            bs == text.spec_bytes(),
            split_sign(trim_end(trim_start(bs))) == (negative, u),
            out@ == canonical(u.take(j - start)),
            forall|i: int| 0 <= i < j - start ==> is_digit(#[trigger] u[i]) || is_sep(u[i]),
            forall|i: int, k: int| 0 <= i < k < j - start ==> !(is_sep(#[trigger] u[i]) && is_sep(#[trigger] u[k])),
            seen_sep == exists|i: int| 0 <= i < j - start && is_sep(#[trigger] u[i]),
            seen_digit == exists|i: int| 0 <= i < j - start && is_digit(#[trigger] u[i]),
        decreases hi - j,
    {
        let c = b[j];
        let ghost p = j - start;
        assert(u[p] == c);
        if 48 <= c && c <= 57 {
            out.push(c);
            seen_digit = true;
        } else if c == 46 || c == 44 {
            if seen_sep {
                proof {
                    let i = choose|i: int| 0 <= i < p && is_sep(#[trigger] u[i]);
                    assert(is_sep(u[i]) && is_sep(u[p]));
                }
                return None;
            }
            out.push(46);
            seen_sep = true;
        } else {
            proof {
                assert(!(is_digit(u[p]) || is_sep(u[p])));
            }
            return None;
        }
        assert(u.take(p + 1) =~= u.take(p).push(c));
        assert(canonical(u.take(p + 1)) =~= canonical(u.take(p)).push(dot_sep(c)));
        j += 1;
    }
    assert(u.take(j - start) =~= u);
    if !seen_digit {
        return None;
    }
    Some(Numeral { negative, canonical: out })
}

/// The character of a decimal digit `d` in `0..10`.
pub open spec fn digit_char(d: int) -> char
    recommends
        0 <= d < 10,
{
    seq!['0', '1', '2', '3', '4', '5', '6', '7', '8', '9'][d]
}

/// The decimal rendering of `n`, without leading zeros.
pub open spec fn decimal(n: nat) -> Seq<char>
    decreases n,
{
    if n < 10 {
        seq![digit_char(n as int)]
    } else {
        decimal(n / 10).push(digit_char((n % 10) as int))
    }
}

/// The lowest `width` decimal digits of `n`, zero-padded on the left.
pub open spec fn low_digits(n: nat, width: nat) -> Seq<char>
    decreases width,
{
    if width == 0 {
        seq![]
    } else {
        low_digits(n / 10, (width - 1) as nat).push(digit_char((n % 10) as int))
    }
}

/// `10` to the power `d`.
pub open spec fn pow10(d: nat) -> nat
    decreases d,
{
    if d == 0 {
        1
    } else {
        10 * pow10((d - 1) as nat)
    }
}

/// `m / scale` rounded half away from zero (for `m >= 0`).
pub open spec fn round_half_up(m: nat, scale: nat) -> nat
    recommends
        scale > 0,
{
    if (m % scale) * 2 >= scale {
        m / scale + 1
    } else {
        m / scale
    }
}

/// The magnitude of `t`.
pub open spec fn magnitude(t: int) -> nat {
    if t < 0 {
        (-t) as nat
    } else {
        t as nat
    }
}

/// The unsigned rendering of the thousandths `t` with `d` decimals.
pub open spec fn format_body(t: int, d: nat) -> Seq<char> {
    let r = round_half_up(magnitude(t), pow10((3 - d) as nat));
    if d == 0 {
        decimal(r)
    } else {
        decimal(r / pow10(d)) + seq!['.'] + low_digits(r % pow10(d), d)
    }
}

/// The rendering of the thousandths `t` with `d` decimals: the magnitude is
/// rounded half away from zero to `d` decimals, written with a dot, and
/// prefixed by `'-'` when `t` is negative. Nothing for `d > 3`.
pub open spec fn spec_format_grade(t: int, d: nat) -> Option<Seq<char>> {
    if d > 3 {
        None
    } else if t < 0 {
        Some(seq!['-'] + format_body(t, d))
    } else {
        Some(format_body(t, d))
    }
}

/// The one-character string of a decimal digit.
fn digit_str(d: u64) -> (s: &'static str)
    requires
        d < 10,
    ensures
        s@ == seq![digit_char(d as int)],
{
    let s = match d {
        0 => "0",
        1 => "1",
        2 => "2",
        3 => "3",
        4 => "4",
        5 => "5",
        6 => "6",
        7 => "7",
        8 => "8",
        _ => "9",
    };
    proof {
        reveal_strlit("0");
        reveal_strlit("1");
        reveal_strlit("2");
        reveal_strlit("3");
        reveal_strlit("4");
        reveal_strlit("5");
        reveal_strlit("6");
        reveal_strlit("7");
        reveal_strlit("8");
        reveal_strlit("9");
        assert(s@ =~= seq![digit_char(d as int)]);
    }
    s
}

/// Appends the decimal rendering of `n`.
fn append_decimal(out: &mut String, n: u64)
    ensures
        final(out)@ == old(out)@ + decimal(n as nat),
    decreases n,
{
    if n >= 10 {
        append_decimal(out, n / 10);
    }
    out.append(digit_str(n % 10));
    proof {
        if n >= 10 {
            assert(old(out)@ + decimal(n as nat) =~= old(out)@ + decimal((n / 10) as nat) + seq![
                digit_char((n % 10) as int),
            ]);
        } else {
            assert(decimal(n as nat) =~= seq![digit_char((n % 10) as int)]);
        }
    }
}

/// Appends the lowest `width` decimal digits of `n`, zero-padded.
fn append_low_digits(out: &mut String, n: u64, width: u32)
    ensures
        final(out)@ == old(out)@ + low_digits(n as nat, width as nat),
    decreases width,
{
    if width == 0 {
        assert(low_digits(n as nat, 0) =~= Seq::<char>::empty());
        assert(old(out)@ + low_digits(n as nat, 0) =~= old(out)@);
        return;
    }
    append_low_digits(out, n / 10, width - 1);
    out.append(digit_str(n % 10));
    assert(old(out)@ + low_digits(n as nat, width as nat) =~= old(out)@ + low_digits(
        (n / 10) as nat,
        (width - 1) as nat,
    ) + seq![digit_char((n % 10) as int)]);
}

/// `10` to the power `d`, for `d <= 3`.
fn pow10_exec(d: u32) -> (r: u64)
    requires
        d <= 3,
    ensures
        r as nat == pow10(d as nat),
        0 < r <= 1000,
{
    reveal_with_fuel(pow10, 4);
    match d {
        0 => 1,
        1 => 10,
        2 => 100,
        _ => 1000,
    }
}

/// Render a grade given in thousandths with an explicit decimal count,
/// ALWAYS with a dot decimal separator (`"6.0"`, never `"6,0"`). The
/// requested places round half away from zero on integers. `decimals` must
/// be `0..=3`; returns `None` otherwise.
pub fn format_grade(thousandths: i64, decimals: u32) -> (r: Option<String>)
    ensures
        match r {
            Some(s) => spec_format_grade(thousandths as int, decimals as nat) == Some(s@),
            None => spec_format_grade(thousandths as int, decimals as nat) is None,
        },
{
    if decimals > 3 {
        return None;
    }
    let negative = thousandths < 0;
    let wide: i128 = thousandths as i128;
    let magnitude: u64 = if negative {
        (-wide) as u64
    } else {
        wide as u64
    };
    let scale = pow10_exec(3 - decimals);
    let base = magnitude / scale;
    let rest = magnitude % scale;
    let rounded = if rest * 2 >= scale {
        base + 1
    } else {
        base
    };
    let factor = pow10_exec(decimals);
    let mut out = String::new();
    if negative {
        out.append("-");
        proof {
            reveal_strlit("-");
        }
    }
    let ghost sign = out@;
    if decimals == 0 {
        append_decimal(&mut out, rounded);
    } else {
        append_decimal(&mut out, rounded / factor);
        out.append(".");
        proof {
            reveal_strlit(".");
        }
        append_low_digits(&mut out, rounded % factor, decimals);
    }
    proof {
        let body = format_body(thousandths as int, decimals as nat);
        assert(out@ =~= sign + body);
        if negative {
            assert(sign =~= seq!['-']);
        } else {
            assert(sign =~= Seq::<char>::empty());
            assert(out@ =~= body);
        }
    }
    Some(out)
}

/// `a` and `b` agree byte for byte, except that a separator may stand for
/// another separator (a comma for a dot, or the reverse).
pub open spec fn sep_equiv(a: Seq<u8>, b: Seq<u8>) -> bool {
    &&& a.len() == b.len()
    &&& forall|i: int| 0 <= i < a.len() ==> #[trigger] a[i] == #[trigger] b[i] || (is_sep(a[i]) && is_sep(b[i]))
}

proof fn lemma_sep_equiv_trim_start(a: Seq<u8>, b: Seq<u8>)
    requires
        sep_equiv(a, b),
    ensures
        sep_equiv(trim_start(a), trim_start(b)),
    decreases a.len(),
{
    if a.len() > 0 && is_ascii_ws(a[0]) {
        assert(a[0] == b[0]);
        assert(sep_equiv(a.drop_first(), b.drop_first())) by {
            assert forall|i: int| 0 <= i < a.len() - 1 implies #[trigger] a.drop_first()[i] == #[trigger] b.drop_first()[i]
                || (is_sep(a.drop_first()[i]) && is_sep(b.drop_first()[i])) by {
                assert(a.drop_first()[i] == a[i + 1]);
                assert(b.drop_first()[i] == b[i + 1]);
            }
        }
        lemma_sep_equiv_trim_start(a.drop_first(), b.drop_first());
    } else if a.len() > 0 {
        assert(a[0] == b[0] || (is_sep(a[0]) && is_sep(b[0])));
    }
}

proof fn lemma_sep_equiv_trim_end(a: Seq<u8>, b: Seq<u8>)
    requires
        sep_equiv(a, b),
    ensures
        sep_equiv(trim_end(a), trim_end(b)),
    decreases a.len(),
{
    if a.len() > 0 && is_ascii_ws(a.last()) {
        assert(a[a.len() - 1] == b[b.len() - 1]);
        assert(sep_equiv(a.drop_last(), b.drop_last())) by {
            assert forall|i: int| 0 <= i < a.len() - 1 implies #[trigger] a.drop_last()[i] == #[trigger] b.drop_last()[i]
                || (is_sep(a.drop_last()[i]) && is_sep(b.drop_last()[i])) by {
                assert(a.drop_last()[i] == a[i]);
                assert(b.drop_last()[i] == b[i]);
            }
        }
        lemma_sep_equiv_trim_end(a.drop_last(), b.drop_last());
    } else if a.len() > 0 {
        assert(a[a.len() - 1] == b[b.len() - 1] || (is_sep(a[a.len() - 1]) && is_sep(b[b.len() - 1])));
    }
}

/// The decimal separator may be a dot or a comma: texts that differ only in
/// which separator they use read as the same grade numeral (so `"6,0"` and
/// `"6.0"` both read as `6.0`).
pub proof fn lemma_comma_reads_as_dot(a: Seq<u8>, b: Seq<u8>)
    requires
        sep_equiv(a, b),
    ensures
        spec_parse_grade(a) == spec_parse_grade(b),
{
    lemma_sep_equiv_trim_start(a, b);
    lemma_sep_equiv_trim_end(trim_start(a), trim_start(b));
    let ta = trim_end(trim_start(a));
    let tb = trim_end(trim_start(b));
    let (na, ua) = split_sign(ta);
    let (nb, ub) = split_sign(tb);
    if ta.len() > 0 {
        assert(ta[0] == tb[0] || (is_sep(ta[0]) && is_sep(tb[0])));
    }
    assert(na == nb);
    assert(sep_equiv(ua, ub)) by {
        if ua.len() < ta.len() {
            assert forall|i: int| 0 <= i < ua.len() implies #[trigger] ua[i] == #[trigger] ub[i]
                || (is_sep(ua[i]) && is_sep(ub[i])) by {
                assert(ua[i] == ta[i + 1]);
                assert(ub[i] == tb[i + 1]);
            }
        }
    }
    assert(is_unsigned_numeral(ua) == is_unsigned_numeral(ub)) by {
        if is_unsigned_numeral(ua) {
            let k = choose|k: int| 0 <= k < ua.len() && is_digit(#[trigger] ua[k]);
            assert(ua[k] == ub[k] || (is_sep(ua[k]) && is_sep(ub[k])));
            assert forall|i: int, j: int| 0 <= i < j < ub.len() implies !(is_sep(#[trigger] ub[i]) && is_sep(#[trigger] ub[j])) by {
                assert(ua[i] == ub[i] || (is_sep(ua[i]) && is_sep(ub[i])));
                assert(ua[j] == ub[j] || (is_sep(ua[j]) && is_sep(ub[j])));
            }
            assert forall|i: int| 0 <= i < ub.len() implies is_digit(#[trigger] ub[i]) || is_sep(ub[i]) by {
                assert(ua[i] == ub[i] || (is_sep(ua[i]) && is_sep(ub[i])));
            }
        }
        if is_unsigned_numeral(ub) {
            let k = choose|k: int| 0 <= k < ub.len() && is_digit(#[trigger] ub[k]);
            assert(ua[k] == ub[k] || (is_sep(ua[k]) && is_sep(ub[k])));
            assert forall|i: int, j: int| 0 <= i < j < ua.len() implies !(is_sep(#[trigger] ua[i]) && is_sep(#[trigger] ua[j])) by {
                assert(ua[i] == ub[i] || (is_sep(ua[i]) && is_sep(ub[i])));
                assert(ua[j] == ub[j] || (is_sep(ua[j]) && is_sep(ub[j])));
            }
            assert forall|i: int| 0 <= i < ua.len() implies is_digit(#[trigger] ua[i]) || is_sep(ua[i]) by {
                assert(ua[i] == ub[i] || (is_sep(ua[i]) && is_sep(ub[i])));
            }
        }
    }
    assert(canonical(ua) =~= canonical(ub)) by {
        assert forall|i: int| 0 <= i < ua.len() implies #[trigger] canonical(ua)[i] == canonical(ub)[i] by {
            assert(ua[i] == ub[i] || (is_sep(ua[i]) && is_sep(ub[i])));
        }
    }
}

proof fn lemma_trim_start_push(b: Seq<u8>, c: u8)
    ensures
        trim_start(b.push(c)) == if trim_start(b).len() > 0 {
            trim_start(b).push(c)
        } else if is_ascii_ws(c) {
            Seq::<u8>::empty()
        } else {
            seq![c]
        },
    decreases b.len(),
{
    if b.len() == 0 {
        assert(b.push(c) =~= seq![c]);
        assert(trim_start(b) == b);
        if is_ascii_ws(c) {
            assert(seq![c].drop_first() =~= Seq::<u8>::empty());
            assert(trim_start(Seq::<u8>::empty()) == Seq::<u8>::empty());
        }
    } else {
        assert(b.push(c)[0] == b[0]);
        assert(b.push(c).drop_first() =~= b.drop_first().push(c));
        if is_ascii_ws(b[0]) {
            lemma_trim_start_push(b.drop_first(), c);
        } else {
            assert(trim_start(b) == b);
        }
    }
}

proof fn lemma_trim_end_push_ws(x: Seq<u8>, c: u8)
    requires
        is_ascii_ws(c),
    ensures
        trim_end(x.push(c)) == trim_end(x),
{
    assert(x.push(c).drop_last() =~= x);
}

/// ASCII whitespace around a numeral is ignored: space, tab, line feed, form
/// feed and carriage return (bytes 32, 9, 10, 12, 13) may be added at either
/// end of any text without changing what it reads as (so a line `"5,5\r\n"`
/// reads as `"5,5"`).
pub proof fn lemma_ascii_whitespace_is_trimmed(b: Seq<u8>, c: u8)
    requires
        c == 32 || c == 9 || c == 10 || c == 12 || c == 13,
    ensures
        spec_parse_grade(b.push(c)) == spec_parse_grade(b),
        spec_parse_grade(seq![c] + b) == spec_parse_grade(b),
{
    lemma_trim_start_push(b, c);
    if trim_start(b).len() > 0 {
        lemma_trim_end_push_ws(trim_start(b), c);
    }
    let p = seq![c] + b;
    assert(p[0] == c);
    assert(p.drop_first() =~= b);
}

/// Text that ends in a byte that is neither ASCII whitespace, a digit nor a
/// separator never reads as a numeral (strictness: no trailing text).
pub proof fn lemma_trailing_text_rejected(b: Seq<u8>, c: u8)
    requires
        !(c == 32 || c == 9 || c == 10 || c == 12 || c == 13),
        !(48 <= c <= 57),
        c != 46 && c != 44,
    ensures
        spec_parse_grade(b.push(c)) is None,
{
    lemma_trim_start_push(b, c);
    let ts = trim_start(b.push(c));
    assert(ts.len() > 0 && ts.last() == c);
    assert(trim_end(ts) == ts);
    let (neg, u) = split_sign(ts);
    if u.len() > 0 {
        assert(u.last() == c) by {
            if u.len() < ts.len() {
                assert(u[u.len() - 1] == ts[ts.len() - 1]);
            }
        }
        assert(!(is_digit(u[u.len() - 1]) || is_sep(u[u.len() - 1])));
    }
}

proof fn lemma_trim_end_keeps_first(b: Seq<u8>)
    requires
        b.len() > 0,
        !is_ascii_ws(b[0]),
    ensures
        trim_end(b).len() > 0,
        trim_end(b)[0] == b[0],
    decreases b.len(),
{
    if is_ascii_ws(b.last()) {
        assert(b.len() > 1);
        assert(b.drop_last()[0] == b[0]);
        lemma_trim_end_keeps_first(b.drop_last());
    }
}

proof fn lemma_trim_end_prepend(c: u8, b: Seq<u8>)
    requires
        trim_end(b).len() > 0,
    ensures
        trim_end(seq![c] + b) == seq![c] + trim_end(b),
    decreases b.len(),
{
    let p = seq![c] + b;
    assert(b.len() > 0);
    assert(p.last() == b.last());
    if is_ascii_ws(b.last()) {
        assert(p.drop_last() =~= seq![c] + b.drop_last());
        lemma_trim_end_prepend(c, b.drop_last());
    }
}

/// A leading `'+'` changes nothing and a leading `'-'` makes the numeral
/// negative: for text `b` that starts with a digit or a separator,
/// `"+" + b` reads as `b`, and `"-" + b` reads as `b` with a minus sign.
pub proof fn lemma_sign_prefix(b: Seq<u8>)
    requires
        b.len() > 0,
        (48 <= b[0] <= 57) || b[0] == 46 || b[0] == 44,
    ensures
        spec_parse_grade(seq![43u8] + b) == spec_parse_grade(b),
        spec_parse_grade(seq![45u8] + b) == match spec_parse_grade(b) {
            Some((_, c)) => Some((true, c)),
            None => None,
        },
        spec_parse_grade(b) matches Some((negative, _)) ==> !negative,
{
    lemma_trim_end_keeps_first(b);
    assert(trim_start(b) == b);
    let tb = trim_end(b);
    assert(split_sign(tb) == (false, tb));
    let plus = seq![43u8] + b;
    let minus = seq![45u8] + b;
    assert(trim_start(plus) == plus);
    assert(trim_start(minus) == minus);
    lemma_trim_end_prepend(43u8, b);
    lemma_trim_end_prepend(45u8, b);
    assert((seq![43u8] + tb).drop_first() =~= tb);
    assert((seq![45u8] + tb).drop_first() =~= tb);
}

/// The bytes of an ASCII character sequence.
pub open spec fn ascii_bytes(s: Seq<char>) -> Seq<u8> {
    s.map_values(|c: char| c as u8)
}

/// A character of a written grade body: a digit or the dot.
pub open spec fn is_body_char(c: char) -> bool {
    ('0' <= c && c <= '9') || c == '.'
}

proof fn lemma_decimal_is_digits(n: nat)
    ensures
        decimal(n).len() >= 1,
        forall|i: int| 0 <= i < decimal(n).len() ==> '0' <= #[trigger] decimal(n)[i] <= '9',
    decreases n,
{
    if n >= 10 {
        lemma_decimal_is_digits(n / 10);
    }
}

proof fn lemma_low_digits_are_digits(n: nat, w: nat)
    ensures
        low_digits(n, w).len() == w,
        forall|i: int| 0 <= i < low_digits(n, w).len() ==> '0' <= #[trigger] low_digits(n, w)[i] <= '9',
    decreases w,
{
    if w > 0 {
        lemma_low_digits_are_digits(n / 10, (w - 1) as nat);
    }
}

/// The body of a written grade starts and ends with a digit, holds digits
/// and at most one dot in between.
proof fn lemma_body_shape(t: int, d: nat)
    requires
        d <= 3,
    ensures
        ({
            let b = format_body(t, d);
            &&& b.len() >= 1
            &&& '0' <= b[0] <= '9'
            &&& '0' <= b.last() <= '9'
            &&& forall|i: int| 0 <= i < b.len() ==> is_body_char(#[trigger] b[i])
            &&& forall|i: int, j: int| 0 <= i < j < b.len() ==> !(#[trigger] b[i] == '.' && #[trigger] b[j] == '.')
        }),
{
    let r = round_half_up(magnitude(t), pow10((3 - d) as nat));
    if d == 0 {
        lemma_decimal_is_digits(r);
    } else {
        let hi = decimal(r / pow10(d));
        let lo = low_digits(r % pow10(d), d);
        lemma_decimal_is_digits(r / pow10(d));
        lemma_low_digits_are_digits(r % pow10(d), d);
        let b = format_body(t, d);
        assert(b == hi + seq!['.'] + lo);
        assert forall|i: int, j: int| 0 <= i < j < b.len() implies !(#[trigger] b[i] == '.' && #[trigger] b[j] == '.') by {
            if i < hi.len() {
                assert(b[i] == hi[i]);
            } else if i == hi.len() {
                assert(b[j] == lo[j - hi.len() - 1]);
            } else {
                assert(b[i] == lo[i - hi.len() - 1]);
            }
        }
        assert forall|i: int| 0 <= i < b.len() implies is_body_char(#[trigger] b[i]) by {
            if i < hi.len() {
                assert(b[i] == hi[i]);
            } else if i > hi.len() {
                assert(b[i] == lo[i - hi.len() - 1]);
            }
        }
        assert(b.last() == lo[d - 1]);
    }
}

/// ASCII characters map byte for byte, digits to digits and the dot to the dot.
proof fn lemma_body_bytes(c: char)
    requires
        is_body_char(c),
    ensures
        (c as u8) as int == c as int,
        is_digit(c as u8) <==> ('0' <= c <= '9'),
        is_sep(c as u8) <==> c == '.',
        !is_ascii_ws(c as u8),
        c as u8 != 45 && c as u8 != 43 && c as u8 != 44,
{
}

/// What `format_grade` writes, `parse_grade` reads back: the sign is that of
/// the thousandths, and the numeral is the written body, unchanged.
pub proof fn lemma_format_then_parse(t: int, d: nat)
    requires
        d <= 3,
    ensures
        spec_parse_grade(vstd::utf8::encode_utf8(spec_format_grade(t, d)->0)) == Some(
            (t < 0, ascii_bytes(format_body(t, d))),
        ),
{
    let body = format_body(t, d);
    let out = spec_format_grade(t, d)->0;
    lemma_body_shape(t, d);
    assert forall|i: int| 0 <= i < body.len() implies (#[trigger] body[i] as u8) as int == body[i] as int by {
        lemma_body_bytes(body[i]);
    }
    assert(vstd::utf8::is_ascii_chars(out)) by {
        assert forall|i: int| 0 <= i < out.len() implies '\0' <= #[trigger] out[i] <= '\u{7f}' by {
            if t < 0 && i == 0 {
            } else if t < 0 {
                assert(out[i] == body[i - 1]);
            } else {
                assert(out[i] == body[i]);
            }
        }
    }
    vstd::utf8::is_ascii_chars_encode_utf8(out);
    let bytes = vstd::utf8::encode_utf8(out);
    assert(bytes =~= ascii_bytes(out));
    let bb = ascii_bytes(body);
    lemma_body_bytes(body[0]);
    lemma_body_bytes(body.last());
    assert(!is_ascii_ws(bytes[0]));
    assert(!is_ascii_ws(bytes.last()));
    assert(trim_start(bytes) == bytes);
    assert(trim_end(bytes) == bytes);
    if t < 0 {
        assert(bytes.drop_first() =~= bb);
    } else {
        assert(bytes =~= bb);
    }
    assert(split_sign(bytes) == (t < 0, bb));
    assert forall|i: int| 0 <= i < bb.len() implies is_digit(#[trigger] bb[i]) || is_sep(bb[i]) by {
        lemma_body_bytes(body[i]);
    }
    assert forall|i: int, j: int| 0 <= i < j < bb.len() implies !(is_sep(#[trigger] bb[i]) && is_sep(#[trigger] bb[j])) by {
        lemma_body_bytes(body[i]);
        lemma_body_bytes(body[j]);
        assert(!(body[i] == '.' && body[j] == '.'));
    }
    assert(is_digit(bb[0]));
    assert(is_unsigned_numeral(bb));
    assert forall|i: int| 0 <= i < bb.len() implies #[trigger] canonical(bb)[i] == bb[i] by {
        lemma_body_bytes(body[i]);
    }
    assert(canonical(bb) =~= bb);
}

/// The integer a written numeral denotes once its dot is dropped: the digits
/// read in base ten (`"12.34"` denotes `1234`).
pub open spec fn digits_value(s: Seq<char>) -> int
    decreases s.len(),
{
    if s.len() == 0 {
        0
    } else if s.last() == '.' {
        digits_value(s.drop_last())
    } else {
        10 * digits_value(s.drop_last()) + (s.last() as int - 48)
    }
}

proof fn lemma_digit_char_value(k: int)
    requires
        0 <= k < 10,
    ensures
        digit_char(k) as int == 48 + k,
        digit_char(k) != '.',
{
    let ds = seq!['0', '1', '2', '3', '4', '5', '6', '7', '8', '9'];
    assert(ds[0] == '0' && ds[1] == '1' && ds[2] == '2' && ds[3] == '3' && ds[4] == '4');
    assert(ds[5] == '5' && ds[6] == '6' && ds[7] == '7' && ds[8] == '8' && ds[9] == '9');
}

proof fn lemma_digits_value_push(p: Seq<char>, k: int)
    requires
        0 <= k < 10,
    ensures
        digits_value(p.push(digit_char(k))) == 10 * digits_value(p) + k,
{
    lemma_digit_char_value(k);
    assert(p.push(digit_char(k)).drop_last() =~= p);
}

proof fn lemma_digits_value_decimal(p: Seq<char>, n: nat)
    ensures
        digits_value(p + decimal(n)) == digits_value(p) * pow10(decimal(n).len()) + n,
    decreases n,
{
    if n < 10 {
        assert(p + decimal(n) =~= p.push(digit_char(n as int)));
        lemma_digits_value_push(p, n as int);
        assert(pow10(1) == 10) by {
            reveal_with_fuel(pow10, 2);
        }
    } else {
        let q = n / 10;
        lemma_digits_value_decimal(p, q);
        assert(p + decimal(n) =~= (p + decimal(q)).push(digit_char((n % 10) as int)));
        lemma_digits_value_push(p + decimal(q), (n % 10) as int);
        let w = decimal(q).len();
        assert(decimal(n).len() == w + 1);
        assert(pow10(w + 1) == 10 * pow10(w));
        assert(10 * (digits_value(p) * pow10(w)) == digits_value(p) * (10 * pow10(w))) by (nonlinear_arith);
    }
}

proof fn lemma_pow10_positive(w: nat)
    ensures
        pow10(w) > 0,
    decreases w,
{
    if w > 0 {
        lemma_pow10_positive((w - 1) as nat);
    }
}

proof fn lemma_digits_value_low(p: Seq<char>, n: nat, w: nat)
    ensures
        digits_value(p + low_digits(n, w)) == digits_value(p) * pow10(w) + n % pow10(w),
    decreases w,
{
    if w == 0 {
        assert(p + low_digits(n, 0) =~= p);
        assert(pow10(0) == 1);
    } else {
        let w1 = (w - 1) as nat;
        lemma_digits_value_low(p, n / 10, w1);
        assert(p + low_digits(n, w) =~= (p + low_digits(n / 10, w1)).push(digit_char((n % 10) as int)));
        lemma_digits_value_push(p + low_digits(n / 10, w1), (n % 10) as int);
        lemma_pow10_positive(w1);
        assert(pow10(w) == 10 * pow10(w1));
        vstd::arithmetic::div_mod::lemma_mod_breakdown(n as int, 10, pow10(w1) as int);
        assert(10 * (digits_value(p) * pow10(w1)) == digits_value(p) * (10 * pow10(w1))) by (nonlinear_arith);
    }
}

proof fn lemma_pow10_split(d: nat)
    requires
        d <= 3,
    ensures
        pow10((3 - d) as nat) * pow10(d) == 1000,
{
    reveal_with_fuel(pow10, 4);
    assert(pow10(0) == 1 && pow10(1) == 10 && pow10(2) == 100 && pow10(3) == 1000);
    let e = (3 - d) as nat;
    if d == 0 {
        assert(e == 3 && pow10(e) == 1000 && pow10(d) == 1);
        assert(pow10(e) * pow10(d) == 1000) by (nonlinear_arith)
            requires
                pow10(e) == 1000,
                pow10(d) == 1,
        ;
    } else if d == 1 {
        assert(e == 2 && pow10(e) == 100 && pow10(d) == 10);
        assert(pow10(e) * pow10(d) == 1000) by (nonlinear_arith)
            requires
                pow10(e) == 100,
                pow10(d) == 10,
        ;
    } else if d == 2 {
        assert(e == 1 && pow10(e) == 10 && pow10(d) == 100);
        assert(pow10(e) * pow10(d) == 1000) by (nonlinear_arith)
            requires
                pow10(e) == 10,
                pow10(d) == 100,
        ;
    } else {
        assert(e == 0 && pow10(e) == 1 && pow10(d) == 1000);
        assert(pow10(e) * pow10(d) == 1000) by (nonlinear_arith)
            requires
                pow10(e) == 1,
                pow10(d) == 1000,
        ;
    }
}

/// The rendered body denotes the rounded magnitude in units of `10^-d`.
proof fn lemma_body_value(t: int, d: nat)
    requires
        d <= 3,
    ensures
        digits_value(format_body(t, d)) == round_half_up(magnitude(t), pow10((3 - d) as nat)),
{
    let r = round_half_up(magnitude(t), pow10((3 - d) as nat));
    let e = Seq::<char>::empty();
    if d == 0 {
        lemma_digits_value_decimal(e, r);
        assert(e + decimal(r) =~= decimal(r));
    } else {
        let p = pow10(d);
        lemma_pow10_positive(d);
        let hi = decimal(r / p);
        lemma_digits_value_decimal(e, r / p);
        assert(e + hi =~= hi);
        assert((hi + seq!['.']).drop_last() =~= hi);
        lemma_digits_value_low(hi + seq!['.'], r % p, d);
        vstd::arithmetic::div_mod::lemma_mod_twice(r as int, p as int);
        vstd::arithmetic::div_mod::lemma_fundamental_div_mod(r as int, p as int);
        assert(format_body(t, d) == hi + seq!['.'] + low_digits(r % p, d));
        assert((r / p) * p == p * (r / p)) by (nonlinear_arith);
    }
}

/// `round_half_up(m, s)` is the nearest integer to `m / s`, ties going up.
proof fn lemma_round_half_up_nearest(m: nat, s: nat)
    requires
        s > 0,
    ensures
        2 * m - s < 2 * round_half_up(m, s) * s <= 2 * m + s,
{
    vstd::arithmetic::div_mod::lemma_fundamental_div_mod(m as int, s as int);
    vstd::arithmetic::div_mod::lemma_mod_bound(m as int, s as int);
    let q = m / s;
    let rest = m % s;
    let r = round_half_up(m, s);
    assert(m == s * q + rest);
    if rest * 2 >= s {
        assert(r == q + 1);
        assert(2 * m - s < 2 * r * s <= 2 * m + s) by (nonlinear_arith)
            requires
                m == s * q + rest,
                r == q + 1,
                rest * 2 >= s,
                rest < s,
        ;
    } else {
        assert(r == q);
        assert(2 * m - s < 2 * r * s <= 2 * m + s) by (nonlinear_arith)
            requires
                m == s * q + rest,
                r == q,
                rest * 2 < s,
                rest >= 0,
        ;
    }
}

/// The written body is digits with a dot exactly `d` places from the end
/// (no dot for `d == 0`).
proof fn lemma_body_dot_position(t: int, d: nat)
    requires
        d <= 3,
    ensures
        ({
            let body = format_body(t, d);
            &&& body.len() > d
            &&& forall|i: int| 0 <= i < body.len() ==> if d > 0 && i == body.len() - d - 1 {
                #[trigger] body[i] == '.'
            } else {
                '0' <= body[i] <= '9'
            }
        }),
{
    let body = format_body(t, d);
    let r = round_half_up(magnitude(t), pow10((3 - d) as nat));
    if d > 0 {
        let p = pow10(d);
        lemma_pow10_positive(d);
        let hi = decimal(r / p);
        let lo = low_digits(r % p, d);
        lemma_decimal_is_digits(r / p);
        lemma_low_digits_are_digits(r % p, d);
        assert(body == hi + seq!['.'] + lo);
        assert forall|i: int| 0 <= i < body.len() implies if d > 0 && i == body.len() - d - 1 {
            #[trigger] body[i] == '.'
        } else {
            '0' <= body[i] <= '9'
        } by {
            if i < hi.len() {
                assert(body[i] == hi[i]);
            } else if i > hi.len() {
                assert(body[i] == lo[i - hi.len() - 1]);
            }
        }
    } else {
        lemma_decimal_is_digits(r);
    }
}

/// Half away from zero, to `d` decimals: the number `r` that a written grade
/// denotes (its digits read without the dot, in units of `10^-d`) is the
/// nearest integer to `|t| / 10^(3 - d)`, ties going up, for the thousandths
/// `t`: `2 * |t| * 10^d - 1000 < 2000 * r <= 2 * |t| * 10^d + 1000`. The text
/// is the digits with exactly `d` of them after the single dot (none and no
/// dot for `d == 0`), preceded by `'-'` exactly when `t` is negative.
pub proof fn lemma_format_rounds_half_away_from_zero(t: int, d: nat)
    requires
        d <= 3,
    ensures
        spec_format_grade(t, d) matches Some(out) && ({
            let m = if t < 0 { -t } else { t };
            let body = if t < 0 { out.drop_first() } else { out };
            let r = digits_value(body);
            &&& (out.len() > 0 && out[0] == '-') <==> t < 0
            &&& body.len() > d
            &&& forall|i: int| 0 <= i < body.len() ==> if d > 0 && i == body.len() - d - 1 {
                #[trigger] body[i] == '.'
            } else {
                '0' <= body[i] <= '9'
            }
            &&& 2 * m * pow10(d) - 1000 < 2000 * r <= 2 * m * pow10(d) + 1000
        }),
{
    let out = spec_format_grade(t, d)->0;
    let body = format_body(t, d);
    let m = magnitude(t);
    let s = pow10((3 - d) as nat);
    let r = round_half_up(m, s);
    if t < 0 {
        assert(out.drop_first() =~= body);
    }
    lemma_body_shape(t, d);
    lemma_body_dot_position(t, d);
    lemma_body_value(t, d);
    lemma_pow10_split(d);
    lemma_pow10_positive((3 - d) as nat);
    lemma_pow10_positive(d);
    lemma_round_half_up_nearest(m, s);
    let p = pow10(d);
    assert(2 * m * p - 1000 < 2000 * r <= 2 * m * p + 1000) by (nonlinear_arith)
        requires
            2 * m - s < 2 * r * s <= 2 * m + s,
            s * p == 1000,
            p > 0,
    ;
}

} // verus!
