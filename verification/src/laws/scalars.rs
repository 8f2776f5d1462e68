//! What is written as a scalar is read back as that scalar.
use vstd::prelude::*;
use vstd::utf8::*;
use crate::edit::set::{keeps_type, quoted_text, rendered, restyled, writes_quotes, Keep};
use crate::edit::types::{has_quotes, raw_value, same_type, says, tagged, written_value};
use crate::emitter::{double_quoted, dq_body, dq_byte, hex_digit, single_quoted, sq_body};
use crate::parser::layout::{bounds, col_at, gap_at, indicator_at, line_ends, moves, Fail};
use crate::parser::tokens::{
    escaped, plain_end, plain_rest, plain_stop, plain_text, quoted, quoted_class, quoted_rest, token, Token,
};
use crate::patterns::{
    ctrl_in, digit_of, fits_flow, integer, is_ctrl, is_exponent, is_false_word, is_inf_word, is_nan_word,
    is_null_word, is_true_word, number, past_sign, resolved, unfit, unfit_plain,
};
use crate::text::{
    at, back, decimal, is_blank, is_break, is_flow_mark, is_digit, lemma_back_stop, lemma_encode_ascii,
    lemma_encode_push, lemma_run, run, Class, AMP, BACKSLASH, BANG, COLON, CR, DASH, DOT, DQUOTE, GREATER, HASH, LF,
    PIPE, PLUS, SPACE, SQUOTE, STAR, TAB,
};
use crate::value::{int_text, lit, Val};

verus! {

broadcast use {moves, bounds};

/// Whether the text `t` stands in `s` at `p`.
pub open spec fn holds(s: Seq<u8>, p: int, t: Seq<u8>) -> bool {
    0 <= p && p + t.len() <= s.len() && s.subrange(p, p + t.len()) == t
}

pub(crate) proof fn lemma_holds_add(s: Seq<u8>, p: int, a: Seq<u8>, b: Seq<u8>)
    requires
        holds(s, p, a + b),
    ensures
        holds(s, p, a),
        holds(s, p + a.len(), b),
{
    let t = s.subrange(p, p + a.len() + b.len());
    assert(t == a + b);
    assert(s.subrange(p, p + a.len()) =~= t.subrange(0, a.len() as int));
    assert(t.subrange(0, a.len() as int) =~= a);
    assert(s.subrange(p + a.len(), p + a.len() + b.len()) =~= t.subrange(a.len() as int, (a + b).len() as int));
    assert(t.subrange(a.len() as int, (a + b).len() as int) =~= b);
}

/// The byte `i` of a text that stands at `p`.
pub(crate) proof fn lemma_holds_at(s: Seq<u8>, p: int, t: Seq<u8>, i: int)
    requires
        holds(s, p, t),
        0 <= i < t.len(),
    ensures
        s[p + i] == t[i],
{
    assert(s.subrange(p, p + t.len())[i] == t[i]);
}

/// ASCII text is its own encoding.
pub(crate) proof fn lemma_ascii(c: Seq<char>)
    requires
        forall|i: int| 0 <= i < c.len() ==> (#[trigger] c[i] as u32) < 0x80,
    ensures
        encode_utf8(c).len() == c.len(),
        forall|i: int| 0 <= i < c.len() ==> #[trigger] encode_utf8(c)[i] == (c[i] as u32) as u8,
    decreases c.len(),
{
    if c.len() == 0 {
        assert(c =~= Seq::empty());
    } else {
        let d = c.drop_last();
        lemma_ascii(d);
        assert(c =~= d.push(c.last()));
        lemma_encode_push(d, c.last());
        assert((c[c.len() - 1] as u32) < 0x80);
        let b = (c.last() as u32) as u8;
        lemma_encode_ascii(b);
        assert(encode_scalar(c.last() as u32) =~= seq![b]) by {
            char_u32_cast(c.last(), b as u32);
            assert((b as char) == c.last());
            lemma_encode_push(Seq::empty(), c.last());
        }
        assert forall|i: int| 0 <= i < c.len() implies #[trigger] encode_utf8(c)[i] == (c[i] as u32) as u8 by {
            if i < d.len() {
                assert(encode_utf8(d)[i] == (d[i] as u32) as u8);
            }
        }
    }
}

/// Whether no word and no number has the byte `b` in it.
pub open spec fn is_foreign(b: u8) -> bool {
    b == SPACE || b == TAB || b == LF || b == CR || b == PIPE || b == GREATER
}

proof fn lemma_no_number(t: Seq<u8>, i: int, base: int)
    requires
        0 <= i < t.len(),
        is_foreign(t[i]),
    ensures
        number(t, base) is None,
    decreases t.len(),
{
    if i < t.len() - 1 {
        lemma_no_number(t.drop_last(), i, base);
    }
}

/// Digits do not reach past a byte that is none.
proof fn lemma_digits_stop(t: Seq<u8>, p: int, i: int)
    requires
        0 <= p <= i < t.len(),
        is_foreign(t[i]),
    ensures
        p <= run(t, p, Class::Digits) <= i,
    decreases i - p,
{
    if p < i && Class::Digits.holds(t[p]) {
        lemma_digits_stop(t, p + 1, i);
    }
}

/// A literal has no such byte.
proof fn lemma_literals(t: Seq<u8>, i: int)
    requires
        0 <= i < t.len(),
        is_foreign(t[i]),
    ensures
        !is_null_word(t) && !is_true_word(t) && !is_false_word(t) && !is_inf_word(t) && !is_nan_word(t),
{
    reveal_strlit("");
    lemma_ascii(""@);
    reveal_strlit("~");
    lemma_ascii("~"@);
    reveal_strlit("null");
    lemma_ascii("null"@);
    reveal_strlit("Null");
    lemma_ascii("Null"@);
    reveal_strlit("NULL");
    lemma_ascii("NULL"@);
    reveal_strlit("true");
    lemma_ascii("true"@);
    reveal_strlit("True");
    lemma_ascii("True"@);
    reveal_strlit("TRUE");
    lemma_ascii("TRUE"@);
    reveal_strlit("false");
    lemma_ascii("false"@);
    reveal_strlit("False");
    lemma_ascii("False"@);
    reveal_strlit("FALSE");
    lemma_ascii("FALSE"@);
    reveal_strlit(".inf");
    lemma_ascii(".inf"@);
    reveal_strlit(".Inf");
    lemma_ascii(".Inf"@);
    reveal_strlit(".INF");
    lemma_ascii(".INF"@);
    reveal_strlit(".nan");
    lemma_ascii(".nan"@);
    reveal_strlit(".NaN");
    lemma_ascii(".NaN"@);
    reveal_strlit(".NAN");
    lemma_ascii(".NAN"@);
}

/// Text with such a byte is a string.
pub(crate) proof fn lemma_word(t: Seq<u8>, i: int)
    requires
        0 <= i < t.len(),
        is_foreign(t[i]),
    ensures
        resolved(t) == Val::Str(t),
{
    lemma_literals(t, i);
    if i >= 1 {
        lemma_no_number(t.skip(1), i - 1, 10);
    }
    if i >= 2 {
        lemma_no_number(t.skip(2), i - 2, 16);
        lemma_no_number(t.skip(2), i - 2, 8);
    }
    lemma_no_number(t, i, 10);
    let p = past_sign(t, 0);
    assert(p <= i);
    lemma_literals(t.skip(p), i - p);
    lemma_digits_stop(t, p, i);
    let q = run(t, p, Class::Digits);
    if at(t, q) == Some(DOT) {
        lemma_digits_stop(t, q + 1, i);
        let r = run(t, q + 1, Class::Digits);
        lemma_no_exponent(t, r, i);
    } else {
        lemma_no_exponent(t, q, i);
    }
}

proof fn lemma_no_exponent(t: Seq<u8>, p: int, i: int)
    requires
        0 <= p <= i < t.len(),
        is_foreign(t[i]),
    ensures
        !is_exponent(t, p),
{
    if at(t, p) == Some(0x65u8) || at(t, p) == Some(0x45u8) {
        let q = past_sign(t, p + 1);
        assert(q <= i);
        lemma_digits_stop(t, q, i);
    }
}

/// The decimal digits of a number stand for that number.
pub(crate) proof fn lemma_decimal(n: nat)
    ensures
        decimal(n).len() > 0,
        forall|i: int| 0 <= i < decimal(n).len() ==> is_digit(#[trigger] decimal(n)[i]),
        number(decimal(n), 10) == Some(n as int),
    decreases n,
{
    let d = decimal(n);
    if n < 10 {
        assert(d.drop_last() =~= Seq::empty());
        assert(number(d.drop_last(), 10) == Some(0int));
        assert(digit_of(d.last(), 10) == Some(n as int));
    } else {
        lemma_decimal(n / 10);
        assert(d.drop_last() =~= decimal(n / 10));
        assert(d.last() == (0x30 + n % 10) as u8);
        assert(digit_of(d.last(), 10) == Some((n % 10) as int));
        assert((n / 10) * 10 + n % 10 == n);
    }
}

/// No number begins like one of the words for null or a truth value.
pub(crate) proof fn lemma_no_word(t: Seq<u8>)
    requires
        t.len() > 0,
        is_digit(t[0]) || t[0] == DASH || t[0] == PLUS,
    ensures
        !is_null_word(t),
        !is_true_word(t),
        !is_false_word(t),
{
    reveal_strlit("");
    reveal_strlit("~");
    reveal_strlit("null");
    reveal_strlit("Null");
    reveal_strlit("NULL");
    reveal_strlit("true");
    reveal_strlit("True");
    reveal_strlit("TRUE");
    reveal_strlit("false");
    reveal_strlit("False");
    reveal_strlit("FALSE");
    lemma_ascii(""@);
    lemma_ascii("~"@);
    lemma_ascii("null"@);
    lemma_ascii("Null"@);
    lemma_ascii("NULL"@);
    lemma_ascii("true"@);
    lemma_ascii("True"@);
    lemma_ascii("TRUE"@);
    lemma_ascii("false"@);
    lemma_ascii("False"@);
    lemma_ascii("FALSE"@);
    assert(lit("~")[0] == 0x7e);
    assert(lit("null")[0] == 0x6e);
    assert(lit("Null")[0] == 0x4e);
    assert(lit("NULL")[0] == 0x4e);
    assert(lit("true")[0] == 0x74);
    assert(lit("True")[0] == 0x54);
    assert(lit("TRUE")[0] == 0x54);
    assert(lit("false")[0] == 0x66);
    assert(lit("False")[0] == 0x46);
    assert(lit("FALSE")[0] == 0x46);
}

/// An integer is read back from its decimal text.
pub proof fn law_int_reads_back(n: int)
    requires
        i64::MIN <= n <= i64::MAX,
    ensures
        resolved(int_text(n)) == Val::Int(n),
{
    let t = int_text(n);
    if n < 0 {
        let d = decimal((-n) as nat);
        lemma_decimal((-n) as nat);
        assert(t.skip(1) =~= d);
        assert(t[0] == DASH);
        assert(integer(t) == Some(n));
    } else {
        lemma_decimal(n as nat);
        assert(is_digit(t[0]));
        if t.len() > 2 {
            assert(is_digit(t[1]));
        }
        assert(integer(t) == Some(n));
    }
    lemma_no_word(t);
}

/// One byte of a quoted scalar that stands for itself.
proof fn lemma_quoted_byte(s: Seq<u8>, p: int, indent: int, double: bool, text: Seq<u8>)
    requires
        0 <= p < s.len(),
        quoted_class(double).holds(s[p]),
    ensures
        quoted_rest(s, p, indent, double, text) == quoted_rest(s, p + 1, indent, double, text.push(s[p])),
{
    let c = quoted_class(double);
    let q = run(s, p, c);
    lemma_run(s, p, c);
    assert(q == run(s, p + 1, c));
    if q == p + 1 {
        assert(text + s.subrange(p, q) =~= text.push(s[p]));
    } else {
        lemma_run(s, p + 1, c);
        assert(c.holds(s[p + 1]));
        assert(text + s.subrange(p, q) =~= text.push(s[p]) + s.subrange(p + 1, q));
    }
}

/// One blank of a quoted scalar, not at the end of a line.
proof fn lemma_quoted_blank(s: Seq<u8>, p: int, indent: int, double: bool, text: Seq<u8>)
    requires
        0 <= p < s.len(),
        is_blank(s[p]),
        !line_ends(s, run(s, p, Class::Blank)),
    ensures
        quoted_rest(s, p, indent, double, text) == quoted_rest(s, p + 1, indent, double, text.push(s[p])),
{
    let q = run(s, p, Class::Blank);
    lemma_run(s, p, Class::Blank);
    assert(q == run(s, p + 1, Class::Blank));
    if q == p + 1 {
        assert(text + s.subrange(p, q) =~= text.push(s[p]));
    } else {
        lemma_run(s, p + 1, Class::Blank);
        assert(Class::Blank.holds(s[p + 1]));
        assert(text + s.subrange(p, q) =~= text.push(s[p]) + s.subrange(p + 1, q));
    }
}

/// A run of blanks ends before whatever is no blank.
proof fn lemma_run_stops(s: Seq<u8>, p: int, c: Class, e: int)
    requires
        0 <= p <= e < s.len(),
        !c.holds(s[e]),
    ensures
        run(s, p, c) <= e,
{
    lemma_run(s, p, c);
    if run(s, p, c) > e {
        assert(c.holds(s[e]));
    }
}

/// The escape of one byte stands for that byte.
proof fn lemma_escape_byte(s: Seq<u8>, p: int, b: u8)
    requires
        !Class::Printable.holds(b),
        holds(s, p, dq_byte(b)),
    ensures
        escaped(s, p) == Ok::<_, Fail>((seq![b], p + dq_byte(b).len())),
        s[p] == BACKSLASH,
{
    let d = dq_byte(b);
    lemma_holds_at(s, p, d, 0);
    lemma_holds_at(s, p, d, 1);
    assert(encode_scalar(b as u32) =~= seq![b]) by {
        lemma_encode_ascii(b);
        lemma_encode_push(Seq::empty(), b as char);
    }
    if b == BACKSLASH || b == DQUOTE || b == LF || b == TAB || b == 0 {
        assert(encode_scalar(0x0au32) =~= encode_scalar(LF as u32));
    } else {
        lemma_holds_at(s, p, d, 2);
        lemma_holds_at(s, p, d, 3);
        let h = s.subrange(p + 2, p + 4);
        let hi = b as int / 16;
        let lo = b as int % 16;
        assert(h.drop_last().drop_last() =~= Seq::empty());
        assert(h.drop_last().last() == hex_digit(hi));
        assert(h.last() == hex_digit(lo));
        assert(digit_of(hex_digit(hi), 16) == Some(hi));
        assert(digit_of(hex_digit(lo), 16) == Some(lo));
        reveal_with_fuel(number, 3);
        assert(number(h.drop_last().drop_last(), 16) == Some(0int));
        assert(number(h.drop_last(), 16) == Some(hi));
        assert(number(h, 16) == Some(hi * 16 + lo));
        assert(hi * 16 + lo == b as int);
        assert(is_scalar(b as u32));
    }
}

/// The body of a double-quoted scalar has no line breaks.
proof fn lemma_dq_no_break(t: Seq<u8>, i: int)
    requires
        0 <= i < dq_body(t).len(),
    ensures
        !is_break(dq_body(t)[i]),
    decreases t.len(),
{
    if t.len() > 0 {
        if i < dq_body(t.drop_last()).len() {
            lemma_dq_no_break(t.drop_last(), i);
        }
    }
}

/// How much of a double-quoted body the first `k` bytes take.
proof fn lemma_dq_prefix(t: Seq<u8>, k: int)
    requires
        0 <= k < t.len(),
    ensures
        dq_body(t.take(k + 1)) == dq_body(t.take(k)) + dq_byte(t[k]),
        dq_body(t.take(k)).len() + dq_byte(t[k]).len() <= dq_body(t).len(),
        dq_body(t).subrange(
            dq_body(t.take(k)).len() as int,
            (dq_body(t.take(k)).len() + dq_byte(t[k]).len()) as int,
        ) == dq_byte(t[k]),
    decreases t.len() - k,
{
    assert(t.take(k + 1).drop_last() =~= t.take(k));
    assert(t.take(k + 1).last() == t[k]);
    lemma_dq_take(t, k + 1);
    let a = dq_body(t.take(k));
    let b = dq_byte(t[k]);
    let whole = dq_body(t);
    assert(whole.take((a + b).len() as int) == a + b);
    assert(whole.subrange(a.len() as int, (a + b).len() as int) =~= (a + b).subrange(
        a.len() as int,
        (a + b).len() as int,
    ));
    assert((a + b).subrange(a.len() as int, (a + b).len() as int) =~= b);
}

proof fn lemma_dq_take(t: Seq<u8>, k: int)
    requires
        0 <= k <= t.len(),
    ensures
        dq_body(t.take(k)).len() <= dq_body(t).len(),
        dq_body(t).take(dq_body(t.take(k)).len() as int) == dq_body(t.take(k)),
    decreases t.len() - k,
{
    if k == t.len() {
        assert(t.take(k) =~= t);
        assert(dq_body(t).take(dq_body(t).len() as int) =~= dq_body(t));
    } else {
        lemma_dq_take(t, k + 1);
        assert(t.take(k + 1).drop_last() =~= t.take(k));
        assert(t.take(k + 1).last() == t[k]);
        let a = dq_body(t.take(k));
        let b = dq_byte(t[k]);
        assert(dq_body(t.take(k + 1)) == a + b);
        assert(dq_body(t).take(a.len() as int) =~= dq_body(t).take((a + b).len() as int).take(a.len() as int));
        assert((a + b).take(a.len() as int) =~= a);
    }
}

proof fn lemma_dq_rest(s: Seq<u8>, p: int, t: Seq<u8>, k: int, indent: int)
    requires
        holds(s, p, dq_body(t) + seq![DQUOTE]),
        0 <= k <= t.len(),
    ensures
        quoted_rest(s, p + dq_body(t.take(k)).len(), indent, true, t.take(k)) == Ok::<_, Fail>(
            (t, p + dq_body(t).len() + 1),
        ),
    decreases t.len() - k,
{
    let whole = dq_body(t);
    lemma_holds_add(s, p, whole, seq![DQUOTE]);
    lemma_holds_at(s, p + whole.len(), seq![DQUOTE], 0);
    let x = p + dq_body(t.take(k)).len();
    if k == t.len() {
        assert(t.take(k) =~= t);
    } else {
        lemma_dq_prefix(t, k);
        lemma_dq_rest(s, p, t, k + 1, indent);
        let b = t[k];
        let d = dq_byte(b);
        assert(t.take(k + 1) =~= t.take(k).push(b));
        assert(s.subrange(x, x + d.len()) =~= s.subrange(p, p + whole.len()).subrange(x - p, x - p + d.len()));
        assert(holds(s, x, d));
        lemma_holds_at(s, x, d, 0);
        if !Class::Printable.holds(b) {
            lemma_escape_byte(s, x, b);
            assert(t.take(k) + seq![b] =~= t.take(k).push(b));
        } else if is_blank(b) {
            let q = run(s, x, Class::Blank);
            lemma_run_stops(s, x, Class::Blank, p + whole.len());
            if q < p + whole.len() {
                lemma_dq_no_break(t, q - p);
                lemma_holds_at(s, p, whole, q - p);
            }
            lemma_quoted_blank(s, x, indent, true, t.take(k));
        } else {
            lemma_quoted_byte(s, x, indent, true, t.take(k));
        }
    }
}

/// A text written in double quotes is read back, wherever it stands.
pub proof fn law_double_quoted_reads_back(s: Seq<u8>, p: int, t: Seq<u8>)
    requires
        holds(s, p, double_quoted(t)),
    ensures
        quoted(s, p, true) == Ok::<_, Fail>((t, p + double_quoted(t).len())),
        at(s, p) == Some(DQUOTE),
{
    let d = double_quoted(t);
    lemma_holds_at(s, p, d, 0);
    assert(d =~= seq![DQUOTE] + (dq_body(t) + seq![DQUOTE]));
    lemma_holds_add(s, p, seq![DQUOTE], dq_body(t) + seq![DQUOTE]);
    lemma_dq_rest(s, p + 1, t, 0, col_at(s, p));
    assert(t.take(0) =~= Seq::empty());
}

/// Whether `t` holds a line break.
pub open spec fn breaks_in(t: Seq<u8>) -> bool {
    t.contains(LF) || t.contains(CR)
}

proof fn lemma_sq_bytes(t: Seq<u8>, i: int)
    requires
        0 <= i < sq_body(t).len(),
    ensures
        t.contains(sq_body(t)[i]),
    decreases t.len(),
{
    if t.len() > 0 {
        let d = t.drop_last();
        if i < sq_body(d).len() {
            lemma_sq_bytes(d, i);
            let j = choose|j: int| 0 <= j < d.len() && d[j] == sq_body(d)[i];
            assert(t[j] == sq_body(t)[i]);
        } else {
            assert(t[t.len() - 1] == sq_body(t)[i]);
        }
    }
}

proof fn lemma_sq_take(t: Seq<u8>, k: int)
    requires
        0 <= k <= t.len(),
    ensures
        sq_body(t.take(k)).len() <= sq_body(t).len(),
        sq_body(t).take(sq_body(t.take(k)).len() as int) == sq_body(t.take(k)),
    decreases t.len() - k,
{
    if k == t.len() {
        assert(t.take(k) =~= t);
        assert(sq_body(t).take(sq_body(t).len() as int) =~= sq_body(t));
    } else {
        lemma_sq_take(t, k + 1);
        assert(t.take(k + 1).drop_last() =~= t.take(k));
        assert(t.take(k + 1).last() == t[k]);
        let a = sq_body(t.take(k));
        let c = sq_body(t.take(k + 1));
        assert(c.take(a.len() as int) =~= a);
        assert(sq_body(t).take(a.len() as int) =~= sq_body(t).take(c.len() as int).take(a.len() as int));
    }
}

proof fn lemma_sq_rest(s: Seq<u8>, p: int, t: Seq<u8>, k: int, indent: int)
    requires
        holds(s, p, sq_body(t) + seq![SQUOTE]),
        at(s, p + sq_body(t).len() + 1) != Some(SQUOTE),
        !breaks_in(t),
        0 <= k <= t.len(),
    ensures
        quoted_rest(s, p + sq_body(t.take(k)).len(), indent, false, t.take(k)) == Ok::<_, Fail>(
            (t, p + sq_body(t).len() + 1),
        ),
    decreases t.len() - k,
{
    let whole = sq_body(t);
    lemma_holds_add(s, p, whole, seq![SQUOTE]);
    lemma_holds_at(s, p + whole.len(), seq![SQUOTE], 0);
    let x = p + sq_body(t.take(k)).len();
    if k == t.len() {
        assert(t.take(k) =~= t);
    } else {
        lemma_sq_take(t, k + 1);
        lemma_sq_rest(s, p, t, k + 1, indent);
        let b = t[k];
        assert(t.take(k + 1) =~= t.take(k).push(b));
        assert(t.take(k + 1).drop_last() =~= t.take(k));
        let a = sq_body(t.take(k));
        let c = sq_body(t.take(k + 1));
        assert(whole.take(c.len() as int) == c);
        assert(whole[a.len() as int] == c[a.len() as int]);
        lemma_holds_at(s, p, whole, a.len() as int);
        assert(t.contains(b));
        if b == SQUOTE {
            assert(whole[a.len() as int + 1] == c[a.len() as int + 1]);
            lemma_holds_at(s, p, whole, a.len() as int + 1);
        } else if is_blank(b) {
            let q = run(s, x, Class::Blank);
            lemma_run_stops(s, x, Class::Blank, p + whole.len());
            if q < p + whole.len() {
                lemma_sq_bytes(t, q - p);
                lemma_holds_at(s, p, whole, q - p);
            }
            lemma_quoted_blank(s, x, indent, false, t.take(k));
        } else {
            lemma_quoted_byte(s, x, indent, false, t.take(k));
        }
    }
}

/// A text without line breaks written in single quotes is read back, wherever it
/// stands before anything but another quote.
pub proof fn law_single_quoted_reads_back(s: Seq<u8>, p: int, t: Seq<u8>)
    requires
        holds(s, p, single_quoted(t)),
        at(s, p + single_quoted(t).len()) != Some(SQUOTE),
        !breaks_in(t),
    ensures
        quoted(s, p, false) == Ok::<_, Fail>((t, p + single_quoted(t).len())),
        at(s, p) == Some(SQUOTE),
{
    let d = single_quoted(t);
    lemma_holds_at(s, p, d, 0);
    assert(d =~= seq![SQUOTE] + (sq_body(t) + seq![SQUOTE]));
    lemma_holds_add(s, p, seq![SQUOTE], sq_body(t) + seq![SQUOTE]);
    lemma_sq_rest(s, p + 1, t, 0, col_at(s, p));
    assert(t.take(0) =~= Seq::empty());
}

/// Whether a plain scalar in block context ends at `e`: with the line, before a
/// comment, or before the colon of a key, each after any blanks.
pub open spec fn plain_ends(s: Seq<u8>, e: int) -> bool {
    let q = run(s, e, Class::Blank);
    line_ends(s, q) || (e < q && s[q] == HASH) || indicator_at(s, q, COLON)
}

proof fn lemma_plain_through(s: Seq<u8>, p: int, t: Seq<u8>, i: int)
    requires
        holds(s, p, t),
        !unfit_plain(t),
        0 <= i <= t.len(),
        plain_ends(s, p + t.len()),
        0 < i || at(s, p) != Some(HASH),
    ensures
        plain_rest(s, p + i, false) == plain_rest(s, p + t.len(), false),
    decreases t.len() - i,
{
    if i < t.len() {
        lemma_plain_through(s, p, t, i + 1);
        lemma_holds_at(s, p, t, i);
        let b = t[i];
        let x = p + i;
        if is_break(b) {
            assert(b == CR ==> is_ctrl(t[i]));
            assert(t.contains(t[i]));
            assert(false);
        }
        if b == COLON && gap_at(s, x + 1) {
            if i + 1 < t.len() {
                lemma_holds_at(s, p, t, i + 1);
                assert(t[i] == COLON);
                assert(t[i + 1] != SPACE);
                assert(!is_ctrl(t[i + 1]));
                assert(t.contains(t[i + 1]));
            } else {
                assert(t.last() == COLON);
            }
            assert(false);
        }
        if is_blank(b) && at(s, x + 1) == Some(HASH) {
            assert(!is_ctrl(t[i]));
            if i + 1 < t.len() {
                lemma_holds_at(s, p, t, i + 1);
                assert(t[i] == SPACE);
            } else {
                assert(t.last() == b);
            }
            assert(false);
        }
    }
}

proof fn lemma_plain_tail(s: Seq<u8>, e: int)
    requires
        0 <= e <= s.len(),
        plain_ends(s, e),
    ensures
        e <= plain_rest(s, e, false) <= run(s, e, Class::Blank),
        run(s, plain_rest(s, e, false), Class::Blank) == run(s, e, Class::Blank),
        forall|i: int| e <= i < plain_rest(s, e, false) ==> is_blank(#[trigger] s[i]),
    decreases s.len() - e,
{
    let q = run(s, e, Class::Blank);
    if e < q {
        lemma_run(s, e, Class::Blank);
        if plain_rest(s, e, false) != e {
            assert(run(s, e + 1, Class::Blank) == q);
            assert(e + 1 == q ==> s.len() == q || s[q] != HASH);
            lemma_plain_tail(s, e + 1);
        }
    }
}

/// A text that is fit to be written plain is read back, wherever it stands before
/// the end of a line, a comment or the colon of a key.
pub proof fn law_plain_reads_back(s: Seq<u8>, p: int, t: Seq<u8>)
    requires
        holds(s, p, t),
        !unfit_plain(t),
        plain_ends(s, p + t.len()),
    ensures
        plain_text(s, p, false) == t,
        plain_end(s, p, false) == p + t.len(),
        p + t.len() <= plain_stop(s, p, false),
        run(s, plain_stop(s, p, false), Class::Blank) == run(s, p + t.len(), Class::Blank),
        token(s, p) == Ok::<_, Fail>(
            Token { quoted: false, text: t, end: p + t.len(), p: plain_stop(s, p, false) },
        ),
{
    let e = p + t.len();
    lemma_holds_at(s, p, t, 0);
    lemma_holds_at(s, p, t, t.len() - 1);
    lemma_plain_through(s, p, t, 0);
    lemma_plain_tail(s, e);
    let stop = plain_stop(s, p, false);
    lemma_back_stop(s, p, stop, Class::Blank);
    let b = back(s, p, stop, Class::Blank);
    assert(!is_blank(s[e - 1]));
    if b < e {
        assert(Class::Blank.holds(s[e - 1]));
    }
    if b > e {
        assert(is_blank(s[b - 1]));
    }
}

/// Whether a plain scalar in flow context ends at `e`: with the line, before a
/// comment, a colon or a flow mark, each after any blanks.
pub open spec fn flow_ends(s: Seq<u8>, e: int) -> bool {
    let q = run(s, e, Class::Blank);
    line_ends(s, q) || (e < q && s[q] == HASH) || s[q] == COLON || is_flow_mark(s[q])
}

proof fn lemma_flow_through(s: Seq<u8>, p: int, t: Seq<u8>, i: int)
    requires
        holds(s, p, t),
        !unfit_plain(t),
        fits_flow(t),
        0 <= i <= t.len(),
    ensures
        plain_rest(s, p + i, true) == plain_rest(s, p + t.len(), true),
    decreases t.len() - i,
{
    if i < t.len() {
        lemma_flow_through(s, p, t, i + 1);
        lemma_holds_at(s, p, t, i);
        let b = t[i];
        let x = p + i;
        if is_break(b) {
            assert(b == CR ==> is_ctrl(t[i]));
            assert(t.contains(t[i]));
            assert(false);
        }
        if is_blank(b) && at(s, x + 1) == Some(HASH) {
            assert(!is_ctrl(t[i]));
            if i + 1 < t.len() {
                lemma_holds_at(s, p, t, i + 1);
                assert(t[i] == SPACE);
            } else {
                assert(t.last() == b);
            }
            assert(false);
        }
    }
}

proof fn lemma_flow_tail(s: Seq<u8>, e: int)
    requires
        0 <= e <= s.len(),
        flow_ends(s, e),
    ensures
        e <= plain_rest(s, e, true) <= run(s, e, Class::Blank),
        forall|i: int| e <= i < plain_rest(s, e, true) ==> is_blank(#[trigger] s[i]),
    decreases s.len() - e,
{
    let q = run(s, e, Class::Blank);
    if e < q {
        lemma_run(s, e, Class::Blank);
        if plain_rest(s, e, true) != e {
            assert(run(s, e + 1, Class::Blank) == q);
            lemma_flow_tail(s, e + 1);
        }
    }
}

/// A text without colons and flow marks that is fit to be written plain is read
/// back in a flow collection, wherever it stands before a comma, a bracket, a
/// colon, a comment or the end of a line.
pub proof fn law_flow_plain_reads_back(s: Seq<u8>, p: int, t: Seq<u8>)
    requires
        holds(s, p, t),
        !unfit_plain(t),
        fits_flow(t),
        flow_ends(s, p + t.len()),
    ensures
        plain_text(s, p, true) == t,
        plain_end(s, p, true) == p + t.len(),
{
    let e = p + t.len();
    lemma_holds_at(s, p, t, 0);
    lemma_holds_at(s, p, t, t.len() - 1);
    lemma_flow_through(s, p, t, 0);
    lemma_flow_tail(s, e);
    let stop = plain_stop(s, p, true);
    lemma_back_stop(s, p, stop, Class::Blank);
    let b = back(s, p, stop, Class::Blank);
    assert(!is_blank(s[e - 1]));
    if b < e {
        assert(Class::Blank.holds(s[e - 1]));
    }
    if b > e {
        assert(is_blank(s[b - 1]));
    }
}

/// A plain scalar in flow context stops before what follows it, and nothing else begins
/// as it does.
pub(crate) proof fn lemma_flow_plain(s: Seq<u8>, p: int, t: Seq<u8>)
    requires
        holds(s, p, t),
        !unfit_plain(t),
        fits_flow(t),
        flow_ends(s, p + t.len()),
    ensures
        p + t.len() <= plain_stop(s, p, true) <= run(s, p + t.len(), Class::Blank),
        !is_blank(t[0]) && !is_break(t[0]) && t[0] != HASH,
        t[0] != DQUOTE && t[0] != SQUOTE && t[0] != STAR && t[0] != BANG && t[0] != AMP,
{
    lemma_holds_at(s, p, t, 0);
    assert(!is_ctrl(t[0]));
    assert(t.contains(t[0]));
    lemma_flow_through(s, p, t, 0);
    lemma_flow_tail(s, p + t.len());
}

/// The value that a token stands for on its own.
pub open spec fn meaning(k: Token) -> Val {
    if k.quoted {
        Val::Str(k.text)
    } else {
        resolved(k.text)
    }
}

/// A text in quotes of either kind is read back.
pub(crate) proof fn lemma_quoted_text(s: Seq<u8>, p: int, value: Seq<u8>)
    requires
        holds(s, p, quoted_text(value)),
        at(s, p + quoted_text(value).len()) != Some(SQUOTE),
    ensures
        token(s, p) == Ok::<_, Fail>(
            Token {
                quoted: true,
                text: value,
                end: p + quoted_text(value).len(),
                p: p + quoted_text(value).len(),
            },
        ),
{
    if ctrl_in(value) || value.contains(LF) {
        law_double_quoted_reads_back(s, p, value);
    } else {
        if value.contains(CR) {
            let i = choose|i: int| 0 <= i < value.len() && value[i] == CR;
            assert(is_ctrl(value[i]));
        }
        law_single_quoted_reads_back(s, p, value);
    }
}

/// A value that is written in place of another is read back as the text that was
/// set, wherever it stands at the end of a line, before a comment or before the
/// colon of a key.
pub proof fn law_set_value_reads_back(s: Seq<u8>, p: int, model: Seq<u8>, value: Seq<u8>, quotes: bool)
    requires
        holds(s, p, rendered(model, value, quotes)),
        quotes || plain_ends(s, p + rendered(model, value, quotes).len()),
        at(s, p + rendered(model, value, quotes).len()) != Some(SQUOTE),
        has_quotes(model) ==> quotes,
        !quotes ==> !unfit_plain(value),
    ensures
        token(s, p) is Ok,
        token(s, p)->Ok_0.text == value,
        token(s, p)->Ok_0.end == p + rendered(model, value, quotes).len(),
        token(s, p)->Ok_0.quoted == quotes,
        run(s, token(s, p)->Ok_0.p, Class::Blank) == run(
            s,
            p + rendered(model, value, quotes).len(),
            Class::Blank,
        ),
{
    let r = rendered(model, value, quotes);
    let e = p + r.len();
    let q = run(s, e, Class::Blank);
    lemma_run(s, e, Class::Blank);
    assert(at(s, e) != Some(SQUOTE)) by {
        if e < q {
            assert(Class::Blank.holds(s[e]));
        }
    }
    if at(model, 0) == Some(DQUOTE) {
        law_double_quoted_reads_back(s, p, value);
    } else if quotes {
        lemma_quoted_text(s, p, value);
    } else {
        lemma_holds_at(s, p, value, 0);
        law_plain_reads_back(s, p, value);
    }
}

/// What is written in place of another value has the value of its text: a string if
/// it is in quotes.
pub proof fn law_set_value_is_written(model: Seq<u8>, value: Seq<u8>, quotes: bool)
    requires
        has_quotes(model) ==> quotes,
        !quotes ==> !unfit_plain(value),
    ensures
        raw_value(rendered(model, value, quotes)) == written_value(value, quotes),
{
    let r = rendered(model, value, quotes);
    assert(r.subrange(0, r.len() as int) =~= r);
    law_set_value_reads_back(r, 0, model, value, quotes);
    if quotes {
        assert(r.len() >= 2 && (r[0] == DQUOTE || r[0] == SQUOTE));
    }
}

/// Unless types may change, what replaces a value is of the type that was there, with
/// the tags that stay before it, and is the text that was set if that is a string.
/// Where neither the plain text nor the text in quotes is, nothing replaces it.
pub proof fn law_set_keeps_the_type(model: Seq<u8>, value: Seq<u8>, flow: bool, asked: bool, keep: Keep)
    ensures
        match restyled(model, value, flow, asked, Some(keep)) {
            Ok(text) => {
                let v = tagged(keep.tags, raw_value(text));
                keep.old is Some && same_type(keep.old->0, v) && says(v, value)
            },
            Err(_) => !keeps_type(Some(keep), value, true) && (asked || has_quotes(model) || unfit(value, flow)
                || !keeps_type(Some(keep), value, false)),
        },
{
    let quotes = writes_quotes(model, value, flow, asked, Some(keep));
    law_set_value_is_written(model, value, quotes);
}

} // verus!
