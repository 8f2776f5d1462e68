//! What a scalar's text means, and when text needs quotes to keep its meaning.
use vstd::prelude::*;
use vstd::string::*;
use vstd::utf8::*;
use std::borrow::Cow;
use crate::text::{
    at, is_blank, is_flow_mark, run, same, scan, Class, AMP, BANG, COLON, COMMA, DASH, DOT, DQUOTE, GREATER, HASH,
    LBRACE, LBRACKET, LF, PERCENT, PIPE, PLUS, QUESTION, RBRACE, RBRACKET, SPACE, SQUOTE, STAR, TAB,
};
use crate::value::{cow_str, lit, BorrowedValue, Val};

verus! {

/// Whether `t` spells null.
pub open spec fn is_null_word(t: Seq<u8>) -> bool {
    t == lit("") || t == lit("~") || t == lit("null") || t == lit("Null") || t == lit("NULL")
}

/// Whether `t` spells true.
pub open spec fn is_true_word(t: Seq<u8>) -> bool {
    t == lit("true") || t == lit("True") || t == lit("TRUE")
}

/// Whether `t` spells false.
pub open spec fn is_false_word(t: Seq<u8>) -> bool {
    t == lit("false") || t == lit("False") || t == lit("FALSE")
}

/// The value of a digit, or none if `b` is no digit below `base`.
pub open spec fn digit_of(b: u8, base: int) -> Option<int> {
    let d = if 0x30 <= b <= 0x39 {
        b - 0x30
    } else if 0x61 <= b <= 0x66 {
        b - 0x61 + 10
    } else if 0x41 <= b <= 0x46 {
        b - 0x41 + 10
    } else {
        base
    };
    if d < base {
        Some(d)
    } else {
        None
    }
}

/// The number that digits in `base` stand for; no digits stand for zero.
pub open spec fn number(t: Seq<u8>, base: int) -> Option<int>
    decreases t.len(),
{
    if t.len() == 0 {
        Some(0)
    } else {
        match (number(t.drop_last(), base), digit_of(t.last(), base)) {
            (Some(n), Some(d)) => Some(n * base + d),
            _ => None,
        }
    }
}

/// The integer that `t` spells: a signed decimal, `0x` hexadecimal or `0o` octal.
pub open spec fn integer(t: Seq<u8>) -> Option<int> {
    if t.len() > 2 && t[0] == 0x30 && t[1] == 0x78 {
        number(t.skip(2), 16)
    } else if t.len() > 2 && t[0] == 0x30 && t[1] == 0x6f {
        number(t.skip(2), 8)
    } else if t.len() > 1 && t[0] == DASH {
        match number(t.skip(1), 10) {
            Some(n) => Some(-n),
            None => None,
        }
    } else if t.len() > 1 && t[0] == PLUS {
        number(t.skip(1), 10)
    } else if t.len() > 0 {
        number(t, 10)
    } else {
        None
    }
}

/// Skips one sign.
pub open spec fn past_sign(t: Seq<u8>, p: int) -> int {
    if at(t, p) == Some(DASH) || at(t, p) == Some(PLUS) {
        p + 1
    } else {
        p
    }
}

/// Whether `t` from `p` on is empty or one exponent.
pub open spec fn is_exponent(t: Seq<u8>, p: int) -> bool {
    let q = past_sign(t, p + 1);
    p == t.len() || ((at(t, p) == Some(0x65u8) || at(t, p) == Some(0x45u8)) && q < run(t, q, Class::Digits)
        && run(t, q, Class::Digits) == t.len())
}

/// Whether `t` is a decimal number: digits, a fraction or both, and perhaps an
/// exponent.
pub open spec fn is_decimal(t: Seq<u8>) -> bool {
    let p = past_sign(t, 0);
    let q = run(t, p, Class::Digits);
    if at(t, q) == Some(DOT) {
        let r = run(t, q + 1, Class::Digits);
        (p < q || q + 1 < r) && is_exponent(t, r)
    } else {
        p < q && is_exponent(t, q)
    }
}

/// Whether `t` spells infinity, without a sign.
pub open spec fn is_inf_word(t: Seq<u8>) -> bool {
    t == lit(".inf") || t == lit(".Inf") || t == lit(".INF")
}

/// Whether `t` spells not-a-number.
pub open spec fn is_nan_word(t: Seq<u8>) -> bool {
    t == lit(".nan") || t == lit(".NaN") || t == lit(".NAN")
}

/// Whether `t` spells a float.
pub open spec fn is_float(t: Seq<u8>) -> bool {
    is_decimal(t) || is_inf_word(t.skip(past_sign(t, 0))) || is_nan_word(t)
}

/// The value that a plain scalar stands for.
pub open spec fn resolved(t: Seq<u8>) -> Val {
    if is_null_word(t) {
        Val::Null
    } else if is_true_word(t) {
        Val::Bool(true)
    } else if is_false_word(t) {
        Val::Bool(false)
    } else {
        match integer(t) {
            Some(n) if i64::MIN <= n <= i64::MAX => Val::Int(n),
            _ => if is_float(t) {
                Val::Float(t)
            } else {
                Val::Str(t)
            },
        }
    }
}

proof fn lemma_number_grows(t: Seq<u8>, i: int, base: int)
    requires
        0 <= i <= t.len(),
        base >= 2,
    ensures
        number(t.take(i), base) is None ==> number(t, base) is None,
        number(t.take(i), base) is Some && number(t, base) is Some ==> 0 <= number(t.take(i), base)->0
            <= number(t, base)->0,
    decreases t.len(), i,
{
    if i < t.len() {
        lemma_number_grows(t.drop_last(), i, base);
        assert(t.drop_last().take(i) =~= t.take(i));
        if number(t.drop_last(), base) is Some && digit_of(t.last(), base) is Some {
            let n = number(t.drop_last(), base)->0;
            let d = digit_of(t.last(), base)->0;
            assert(d >= 0);
            if number(t.take(i), base) is Some {
                assert(n * base + d >= n) by (nonlinear_arith)
                    requires
                        n >= 0,
                        d >= 0,
                        base >= 2,
                ;
            }
        }
    } else {
        assert(t.take(i) =~= t);
        if t.len() > 0 {
            lemma_number_grows(t.drop_last(), t.len() - 1, base);
            assert(t.drop_last().take(t.len() - 1) =~= t.drop_last());
            if number(t, base) is Some {
                let n = number(t.drop_last(), base)->0;
                let d = digit_of(t.last(), base)->0;
                assert(n * base + d >= 0) by (nonlinear_arith)
                    requires
                        n >= 0,
                        d >= 0,
                        base >= 2,
                ;
            }
        }
    }
}

/// The value of a digit, or `base` if `b` is no digit below it.
pub(crate) fn digit_value(b: u8, base: u64) -> (r: u64)
    requires
        2 <= base <= 16,
    ensures
        r <= base,
        digit_of(b, base as int) == (if r < base {
            Some(r as int)
        } else {
            None
        }),
{
    let d: u64 = if 0x30 <= b && b <= 0x39 {
        (b - 0x30) as u64
    } else if 0x61 <= b && b <= 0x66 {
        (b - 0x61 + 10) as u64
    } else if 0x41 <= b && b <= 0x46 {
        (b - 0x41 + 10) as u64
    } else {
        base
    };
    if d < base {
        d
    } else {
        base
    }
}

/// The number that the digits `b[a..e]` stand for, as far as it fits.
///
/// The second part tells whether all of them are digits.
pub(crate) fn read_number(b: &[u8], a: usize, e: usize, base: u64) -> (r: (Option<u64>, bool))
    requires
        a <= e <= b@.len(),
        2 <= base <= 16,
    ensures
        r.1 == number(b@.subrange(a as int, e as int), base as int) is Some,
        r.1 ==> number(b@.subrange(a as int, e as int), base as int)->0 >= 0,
        r.1 ==> match r.0 {
            Some(n) => number(b@.subrange(a as int, e as int), base as int) == Some(n as int),
            None => number(b@.subrange(a as int, e as int), base as int)->0 > u64::MAX,
        },
{
    let ghost t = b@.subrange(a as int, e as int);
    let mut i: usize = a;
    let mut n: u64 = 0;
    let mut over = false;
    assert(t.take(0) =~= Seq::<u8>::empty());
    while i < e
        invariant
            a <= i <= e <= b@.len(),
            2 <= base <= 16,
            t == b@.subrange(a as int, e as int),
            number(t.take(i - a), base as int) is Some,
            !over ==> number(t.take(i - a), base as int) == Some(n as int),
            over ==> number(t.take(i - a), base as int)->0 > u64::MAX,
        decreases e - i,
    {
        let d: u64 = digit_value(b[i], base);
        proof {
            assert(t.take(i + 1 - a).drop_last() =~= t.take(i - a));
            assert(t.take(i + 1 - a).last() == b@[i as int]);
            lemma_number_grows(t.take(i - a), i - a, base as int);
            assert(t.take(i - a).take(i - a) =~= t.take(i - a));
        }
        if d >= base {
            proof {
                lemma_number_grows(t, i + 1 - a, base as int);
            }
            return (None, false);
        }
        if !over {
            if n > (u64::MAX - d) / base {
                proof {
                    assert(n * base + d > u64::MAX) by (nonlinear_arith)
                        requires
                            n > (u64::MAX - d) / (base as int),
                            2 <= base <= 16,
                            0 <= d < base,
                    ;
                }
                over = true;
            } else {
                proof {
                    assert(n * base + d <= u64::MAX) by (nonlinear_arith)
                        requires
                            n <= (u64::MAX - d) / (base as int),
                            2 <= base <= 16,
                            0 <= d < base,
                            n >= 0,
                    ;
                    assert(n * base >= 0) by (nonlinear_arith)
                        requires
                            n >= 0,
                            2 <= base <= 16,
                    ;
                }
                n = n * base + d;
            }
        } else {
            proof {
                let m = number(t.take(i - a), base as int)->0;
                assert(m * base + d >= m) by (nonlinear_arith)
                    requires
                        m >= 0,
                        2 <= base <= 16,
                        d >= 0,
                ;
            }
        }
        i = i + 1;
    }
    proof {
        assert(t.take(e - a) =~= t);
        lemma_number_grows(t, e - a, base as int);
    }
    if over {
        (None, true)
    } else {
        (Some(n), true)
    }
}

/// The integer that `s` spells, if it spells one that fits.
fn read_integer(s: &str) -> (r: Option<i64>)
    ensures
        match r {
            Some(n) => integer(encode_utf8(s@)) == Some(n as int),
            None => match integer(encode_utf8(s@)) {
                Some(n) => !(i64::MIN <= n <= i64::MAX),
                None => true,
            },
        },
{
    let b = s.as_bytes();
    let ghost t = encode_utf8(s@);
    let n: usize = b.len();
    assert(t.skip(2) =~= t.subrange(2, t.len() as int) || t.len() < 2);
    assert(t.skip(1) =~= t.subrange(1, t.len() as int) || t.len() < 1);
    assert(t =~= t.subrange(0, t.len() as int));
    let (m, neg) = if n > 2 && b[0] == 0x30 && b[1] == 0x78 {
        (read_number(b, 2, n, 16), false)
    } else if n > 2 && b[0] == 0x30 && b[1] == 0x6f {
        (read_number(b, 2, n, 8), false)
    } else if n > 1 && b[0] == DASH {
        (read_number(b, 1, n, 10), true)
    } else if n > 1 && b[0] == PLUS {
        (read_number(b, 1, n, 10), false)
    } else if n > 0 {
        (read_number(b, 0, n, 10), false)
    } else {
        return None;
    };
    if !m.1 {
        return None;
    }
    match m.0 {
        None => None,
        Some(v) => if neg {
            if v < 0x8000_0000_0000_0000 {
                Some(-(v as i64))
            } else if v == 0x8000_0000_0000_0000 {
                Some(i64::MIN)
            } else {
                None
            }
        } else if v < 0x8000_0000_0000_0000 {
            Some(v as i64)
        } else {
            None
        },
    }
}

fn skip_sign(b: &[u8], p: usize) -> (q: usize)
    requires
        p <= b@.len(),
    ensures
        q == past_sign(b@, p as int),
        p <= q <= b@.len(),
{
    if p < b.len() && (b[p] == DASH || b[p] == PLUS) {
        p + 1
    } else {
        p
    }
}

fn reads_exponent(b: &[u8], p: usize) -> (r: bool)
    requires
        p <= b@.len(),
    ensures
        r == is_exponent(b@, p as int),
{
    if p == b.len() {
        return true;
    }
    if b[p] != 0x65 && b[p] != 0x45 {
        return false;
    }
    let q: usize = skip_sign(b, p + 1);
    let e: usize = scan(b, q, Class::Digits);
    q < e && e == b.len()
}

fn reads_decimal(b: &[u8]) -> (r: bool)
    ensures
        r == is_decimal(b@),
{
    let p: usize = skip_sign(b, 0);
    let q: usize = scan(b, p, Class::Digits);
    if q < b.len() && b[q] == DOT {
        let e: usize = scan(b, q + 1, Class::Digits);
        (p < q || q + 1 < e) && reads_exponent(b, e)
    } else {
        p < q && reads_exponent(b, q)
    }
}

/// Whether `s` spells infinity, with or without a sign.
fn reads_inf(s: &str) -> (r: bool)
    ensures
        r == is_inf_word(encode_utf8(s@).skip(past_sign(encode_utf8(s@), 0))),
{
    let ghost t = encode_utf8(s@);
    let p: usize = skip_sign(s.as_bytes(), 0);
    proof {
        crate::text::lemma_text(s@);
        crate::text::lemma_bd_ends(t);
        if p == 1 {
            crate::text::lemma_bd_ascii(t, 0);
        }
        assert(t.skip(p as int) =~= t.subrange(p as int, t.len() as int));
    }
    let w = crate::text::slice(s, p, s.as_bytes().len());
    same(w, ".inf") || same(w, ".Inf") || same(w, ".INF")
}

fn reads_float(s: &str) -> (r: bool)
    ensures
        r == is_float(encode_utf8(s@)),
{
    reads_decimal(s.as_bytes()) || reads_inf(s) || same(s, ".nan") || same(s, ".NaN") || same(s, ".NAN")
}

/// The value that a plain scalar stands for.
pub(crate) fn resolve_scalar<'a>(c: Cow<'a, str>) -> (r: BorrowedValue<'a>)
    ensures
        r.val() == resolved(encode_utf8(c@)),
{
    let s = cow_str(&c);
    if same(s, "") || same(s, "~") || same(s, "null") || same(s, "Null") || same(s, "NULL") {
        return BorrowedValue::Null;
    }
    if same(s, "true") || same(s, "True") || same(s, "TRUE") {
        return BorrowedValue::Bool(true);
    }
    if same(s, "false") || same(s, "False") || same(s, "FALSE") {
        return BorrowedValue::Bool(false);
    }
    match read_integer(s) {
        Some(n) => BorrowedValue::Int(n),
        None => if reads_float(s) {
            BorrowedValue::Float(c)
        } else {
            BorrowedValue::String(c)
        },
    }
}

/// Whether `s` stands for a string when written plain.
pub(crate) fn reads_as_string(s: &str) -> (r: bool)
    ensures
        r == resolved(encode_utf8(s@)) is Str,
{
    !(same(s, "") || same(s, "~") || same(s, "null") || same(s, "Null") || same(s, "NULL") || same(s, "true") || same(
        s,
        "True",
    ) || same(s, "TRUE") || same(s, "false") || same(s, "False") || same(s, "FALSE")) && read_integer(s).is_none()
        && !reads_float(s)
}

/// A control character other than the line feed.
pub open spec fn is_ctrl(b: u8) -> bool {
    (b < 0x20 && b != LF) || b == 0x7f
}

/// Whether `t` holds a control character other than the line feed.
pub open spec fn ctrl_in(t: Seq<u8>) -> bool {
    exists|i: int| 0 <= i < t.len() && is_ctrl(#[trigger] t[i])
}

pub(crate) fn has_ctrl_chars(s: &str) -> (r: bool)
    ensures
        r == ctrl_in(encode_utf8(s@)),
{
    let b = s.as_bytes();
    let mut i: usize = 0;
    while i < b.len()
        invariant
            i <= b@.len(),
            b@ == encode_utf8(s@),
            forall|j: int| 0 <= j < i ==> !is_ctrl(#[trigger] b@[j]),
        decreases b@.len() - i,
    {
        if (b[i] < 0x20 && b[i] != LF) || b[i] == 0x7f {
            assert(is_ctrl(encode_utf8(s@)[i as int]));
            return true;
        }
        i = i + 1;
    }
    false
}

pub(crate) fn has_newline(s: &str) -> (r: bool)
    ensures
        r == encode_utf8(s@).contains(LF),
{
    has_byte(s, LF)
}

/// Whether the byte `c` occurs in `s`.
pub(crate) fn has_byte(s: &str, c: u8) -> (r: bool)
    ensures
        r == encode_utf8(s@).contains(c),
{
    let b = s.as_bytes();
    let mut i: usize = 0;
    while i < b.len()
        invariant
            i <= b@.len(),
            b@ == encode_utf8(s@),
            forall|j: int| 0 <= j < i ==> b@[j] != c,
        decreases b@.len() - i,
    {
        if b[i] == c {
            return true;
        }
        i = i + 1;
    }
    false
}

/// Whether `t` begins or ends with a blank.
pub open spec fn edge_blank(t: Seq<u8>) -> bool {
    t.len() > 0 && (is_blank(t[0]) || is_blank(t.last()))
}

pub(crate) fn has_leading_or_trailing_space(s: &str) -> (r: bool)
    ensures
        r == edge_blank(encode_utf8(s@)),
{
    let b = s.as_bytes();
    let n: usize = b.len();
    n > 0 && (b[0] == SPACE || b[0] == TAB || b[n - 1] == SPACE || b[n - 1] == TAB)
}

/// Whether `t` begins like something other than a plain scalar.
pub open spec fn indicator_first(t: Seq<u8>) -> bool {
    t.len() > 0 && {
        let c = t[0];
        let lone = t.len() == 1 || is_blank(t[1]);
        ||| c == COMMA
        ||| c == LBRACKET
        ||| c == RBRACKET
        ||| c == LBRACE
        ||| c == RBRACE
        ||| c == HASH
        ||| c == AMP
        ||| c == STAR
        ||| c == BANG
        ||| c == PIPE
        ||| c == GREATER
        ||| c == SQUOTE
        ||| c == DQUOTE
        ||| c == PERCENT
        ||| c == 0x40
        ||| c == 0x60
        ||| (c == DASH || c == QUESTION || c == COLON) && lone
        ||| t.len() >= 3 && (c == DASH || c == DOT) && t[1] == c && t[2] == c
    }
}

pub(crate) fn starts_with_indicator(s: &str) -> (r: bool)
    ensures
        r == indicator_first(encode_utf8(s@)),
{
    let b = s.as_bytes();
    if b.len() == 0 {
        return false;
    }
    let c = b[0];
    if c == COMMA || c == LBRACKET || c == RBRACKET || c == LBRACE || c == RBRACE || c == HASH || c == AMP || c == STAR
        || c == BANG || c == PIPE || c == GREATER || c == SQUOTE || c == DQUOTE || c == PERCENT || c == 0x40 || c
        == 0x60 {
        return true;
    }
    if (c == DASH || c == QUESTION || c == COLON) && (b.len() == 1 || b[1] == SPACE || b[1] == TAB) {
        return true;
    }
    b.len() >= 3 && (c == DASH || c == DOT) && b[1] == c && b[2] == c
}

/// Whether the bytes `x` and `y` stand side by side somewhere in `t`.
pub open spec fn pair_in(t: Seq<u8>, x: u8, y: u8) -> bool {
    exists|i: int| 0 <= i < t.len() - 1 && #[trigger] t[i] == x && t[i + 1] == y
}

fn has_pair(s: &str, x: u8, y: u8) -> (r: bool)
    ensures
        r == pair_in(encode_utf8(s@), x, y),
{
    let b = s.as_bytes();
    let mut i: usize = 0;
    let n: usize = b.len();
    while i < n
        invariant
            n == b@.len(),
            i <= b@.len(),
            b@ == encode_utf8(s@),
            forall|j: int| 0 <= j < i && j < b@.len() - 1 ==> !(#[trigger] b@[j] == x && b@[j + 1] == y),
        decreases b@.len() - i,
    {
        if i + 1 < n && b[i] == x && b[i + 1] == y {
            assert(encode_utf8(s@)[i as int] == x);
            return true;
        }
        i = i + 1;
    }
    false
}

/// Whether `t` begins with what would be taken for a byte order mark at the start of
/// a stream.
pub open spec fn mark_first(t: Seq<u8>) -> bool {
    t.len() >= 3 && t[0] == 0xef && t[1] == 0xbb && t[2] == 0xbf
}

/// Whether `t`, written plain, would not be read back as one scalar of that text.
pub open spec fn unfit_plain(t: Seq<u8>) -> bool {
    ||| t.len() == 0
    ||| ctrl_in(t)
    ||| t.contains(LF)
    ||| edge_blank(t)
    ||| indicator_first(t)
    ||| pair_in(t, COLON, SPACE)
    ||| t.last() == COLON
    ||| pair_in(t, SPACE, HASH)
    ||| mark_first(t)
}

pub(crate) fn needs_quotes_strict(s: &str) -> (r: bool)
    ensures
        r == unfit_plain(encode_utf8(s@)),
{
    let b = s.as_bytes();
    let n: usize = b.len();
    n == 0 || has_ctrl_chars(s) || has_newline(s) || has_leading_or_trailing_space(s) || starts_with_indicator(s)
        || has_pair(s, COLON, SPACE) || b[n - 1] == COLON || has_pair(s, SPACE, HASH) || (n >= 3 && b[0] == 0xef && b[1]
        == 0xbb && b[2] == 0xbf)
}

/// Whether a text holds neither a colon nor a flow mark.
pub open spec fn fits_flow(t: Seq<u8>) -> bool {
    forall|i: int| 0 <= i < t.len() ==> #[trigger] t[i] != COLON && !is_flow_mark(t[i])
}

/// Whether text needs quotes to be read back as one scalar, inside a flow collection
/// or outside.
pub open spec fn unfit(t: Seq<u8>, flow: bool) -> bool {
    unfit_plain(t) || (flow && !fits_flow(t))
}

pub(crate) fn needs_quotes_in(s: &str, flow: bool) -> (r: bool)
    ensures
        r == unfit(encode_utf8(s@), flow),
{
    if needs_quotes_strict(s) {
        return true;
    }
    if !flow {
        return false;
    }
    let b = s.as_bytes();
    let mut i: usize = 0;
    while i < b.len()
        invariant
            flow,
            b@ == encode_utf8(s@),
            i <= b@.len(),
            forall|j: int| 0 <= j < i ==> #[trigger] b@[j] != COLON && !is_flow_mark(b@[j]),
        decreases b@.len() - i,
    {
        let c: u8 = b[i];
        if c == COLON || c == COMMA || c == LBRACKET || c == RBRACKET || c == LBRACE || c == RBRACE {
            assert(encode_utf8(s@)[i as int] == c);
            return true;
        }
        i = i + 1;
    }
    false
}

/// Whether a string of text `t` needs quotes to be read back as that string.
pub(crate) fn needs_quotes(s: &str) -> (r: bool)
    ensures
        r == (unfit_plain(encode_utf8(s@)) || !(resolved(encode_utf8(s@)) is Str)),
{
    needs_quotes_strict(s) || !reads_as_string(s)
}

} // verus!
