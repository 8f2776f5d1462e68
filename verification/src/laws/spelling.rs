//! Other spellings of scalars, and what they are read as.
use vstd::prelude::*;
use vstd::utf8::*;
use super::emit::{lemma_line_start, lemma_plain_start, lemma_run_to, spaces};
use super::flowing::lemma_one_document;
use super::scalars::{
    lemma_ascii, law_int_reads_back, holds, law_plain_reads_back, lemma_decimal, lemma_holds_add, lemma_holds_at,
    lemma_no_word,
};
use super::steps::{step_bare, step_content_scalar, step_node_below, step_scalar};
use crate::parser::grammar::{at_start, stream};
use crate::parser::layout::{col_at, doc_bound, line_blank, line_ends, moves, next_line, past_break, Fail};
use crate::parser::tokens::{
    blank_lines, block_header, block_lines, block_scalar, breaks, escaped, fold_from, line_fold, past_blanks,
    past_blank_lines, past_spaces, plain_folded, quote, quoted, quoted_class, quoted_rest, token, Block, Chomp,
};
use crate::emitter::float_text;
use crate::patterns::{
    integer, is_inf_word, is_nan_word, past_sign, digit_of, is_decimal, number, resolved, unfit_plain,
};
use crate::text::{
    at, decimal, is_blank, is_break, is_digit, lemma_run, run, Class, BACKSLASH, DASH, GREATER, LF, PIPE, PLUS,
    SPACE, DOT,
};
use crate::value::{int_text, lit, with_tag, Val};

verus! {

broadcast use moves;

/// A digit above nine is a letter, of either case.
pub open spec fn digit_text(d: int, upper: bool) -> u8 {
    if d < 10 {
        (0x30 + d) as u8
    } else if upper {
        (0x41 + d - 10) as u8
    } else {
        (0x61 + d - 10) as u8
    }
}

/// `n` in `w` digits.
pub open spec fn in_digits(n: nat, base: nat, w: nat, upper: bool) -> Seq<u8>
    decreases w,
{
    if w == 0 {
        Seq::empty()
    } else {
        in_digits(n / base, base, (w - 1) as nat, upper).push(digit_text((n % base) as int, upper))
    }
}

/// Whether `w` digits are enough for `n`.
pub open spec fn fits_in(n: nat, base: nat, w: nat) -> bool
    decreases w,
{
    if w == 0 {
        n == 0
    } else {
        fits_in(n / base, base, (w - 1) as nat)
    }
}

/// Digits are read back.
proof fn lemma_in_digits(n: nat, base: nat, w: nat, upper: bool)
    requires
        base == 8 || base == 10 || base == 16,
        fits_in(n, base, w),
    ensures
        number(in_digits(n, base, w, upper), base as int) == Some(n as int),
        in_digits(n, base, w, upper).len() == w,
        forall|i: int| 0 <= i < w ==> digit_of(#[trigger] in_digits(n, base, w, upper)[i], base as int) is Some,
    decreases w,
{
    if w > 0 {
        let d = in_digits(n, base, w, upper);
        lemma_in_digits(n / base, base, (w - 1) as nat, upper);
        assert(d.drop_last() =~= in_digits(n / base, base, (w - 1) as nat, upper));
        let r = (n % base) as int;
        assert(0 <= r < base);
        assert(digit_of(digit_text(r, upper), base as int) == Some(r));
        assert((n / base) * base + r == n) by (nonlinear_arith)
            requires
                r == n % base,
                base > 0,
        ;
        assert forall|i: int| 0 <= i < w implies digit_of(#[trigger] d[i], base as int) is Some by {
            if i < w - 1 {
                assert(d[i] == in_digits(n / base, base, (w - 1) as nat, upper)[i]);
            }
        }
    }
}

/// A number in hexadecimal digits after `0x`, in octal digits after `0o`, or in decimal
/// digits, with zeros before it or a plus sign, is read as that number.
pub proof fn law_int_in_any_base_reads_back(n: nat, w: nat, upper: bool)
    requires
        n <= i64::MAX,
        w > 0,
    ensures
        fits_in(n, 16, w) ==> resolved(seq![0x30u8, 0x78u8] + in_digits(n, 16, w, upper)) == Val::Int(n as int),
        fits_in(n, 8, w) ==> resolved(seq![0x30u8, 0x6fu8] + in_digits(n, 8, w, upper)) == Val::Int(n as int),
        fits_in(n, 10, w) ==> resolved(in_digits(n, 10, w, upper)) == Val::Int(n as int),
{
    if fits_in(n, 16, w) {
        lemma_in_digits(n, 16, w, upper);
        let t = seq![0x30u8, 0x78u8] + in_digits(n, 16, w, upper);
        assert(t.skip(2) =~= in_digits(n, 16, w, upper));
        lemma_no_word(t);
    }
    if fits_in(n, 8, w) {
        lemma_in_digits(n, 8, w, upper);
        let t = seq![0x30u8, 0x6fu8] + in_digits(n, 8, w, upper);
        assert(t.skip(2) =~= in_digits(n, 8, w, upper));
        lemma_no_word(t);
    }
    if fits_in(n, 10, w) {
        lemma_in_digits(n, 10, w, upper);
        let t = in_digits(n, 10, w, upper);
        assert(digit_of(t[0], 10) is Some);
        if w > 1 {
            assert(digit_of(t[1], 10) is Some);
        }
        lemma_no_word(t);
    }
}

/// A number in decimal digits that is too large for an integer is read as a float.
pub proof fn law_large_number_is_a_float(n: nat)
    requires
        n > i64::MAX,
    ensures
        resolved(decimal(n)) == Val::Float(decimal(n)),
{
    let t = decimal(n);
    lemma_decimal(n);
    assert(is_digit(t[0]));
    if t.len() > 1 {
        assert(is_digit(t[1]));
    }
    lemma_no_word(t);
    assert forall|i: int| 0 <= i < t.len() implies Class::Digits.holds(#[trigger] t[i]) by {
        assert(is_digit(t[i]));
    }
    lemma_run_to(t, 0, Class::Digits, t.len() as int);
    assert(is_decimal(t));
}

/// A float is written as a float: the text that is emitted for one that was read is read
/// as a float again, and is the same text unless that holds neither a dot nor an
/// exponent.
pub proof fn law_float_stays_a_float(t: Seq<u8>)
    requires
        resolved(t) == Val::Float(t),
    ensures
        resolved(float_text(t)) == Val::Float(float_text(t)),
        float_text(t) == t || float_text(t) == t + seq![DOT, 0x30u8],
{
    reveal_strlit("NaN");
    reveal_strlit("inf");
    reveal_strlit("-inf");
    reveal_strlit(".0");
    lemma_ascii("NaN"@);
    lemma_ascii("inf"@);
    lemma_ascii("-inf"@);
    lemma_ascii(".0"@);
    assert(lit(".0") =~= seq![DOT, 0x30u8]);
    lemma_dotted_words(t);
    let p = past_sign(t, 0);
    let q = run(t, p, Class::Digits);
    lemma_run(t, p, Class::Digits);
    if t.contains(DOT) || t.contains(0x65) || t.contains(0x45) {
        assert(t != lit("NaN")) by {
            if t == lit("NaN") {
                assert(t[0] == 0x4e);
            }
        }
        assert(t != lit("inf")) by {
            if t == lit("inf") {
                assert(t[0] == 0x69);
            }
        }
        assert(t != lit("-inf")) by {
            if t == lit("-inf") {
                assert(t[1] == 0x69);
            }
        }
    } else {
        assert(is_decimal(t));
        assert(q < t.len() ==> t.contains(t[q]));
        assert(p < q && q == t.len());
        assert(is_digit(t[p])) by {
            assert(Class::Digits.holds(t[p]));
        }
        let u = t + lit(".0");
        assert forall|i: int| p <= i < q implies Class::Digits.holds(#[trigger] u[i]) by {
            assert(Class::Digits.holds(t[i]));
        }
        assert(u[q] == DOT && u[q + 1] == 0x30);
        lemma_run_to(u, p, Class::Digits, q);
        lemma_run_to(u, q + 1, Class::Digits, q + 2);
        assert(u[0] == t[0]);
        assert(past_sign(u, 0) == p);
        assert(is_decimal(u));
        lemma_no_word(u);
        lemma_dot_is_no_digit(u, q, 10);
        lemma_dot_is_no_digit(u.skip(1), q - 1, 10);
        assert(u[1] == t[1] || u[1] == DOT);
        if t.len() > 1 {
            assert(Class::Digits.holds(t[1]));
        }
        assert(integer(u) is None);
        assert(float_text(t) == u);
    }
}

/// The words for infinity and not-a-number hold a dot.
proof fn lemma_dotted_words(t: Seq<u8>)
    ensures
        is_inf_word(t.skip(past_sign(t, 0))) || is_nan_word(t) ==> t.contains(DOT),
{
    reveal_strlit(".inf");
    reveal_strlit(".Inf");
    reveal_strlit(".INF");
    reveal_strlit(".nan");
    reveal_strlit(".NaN");
    reveal_strlit(".NAN");
    lemma_ascii(".inf"@);
    lemma_ascii(".Inf"@);
    lemma_ascii(".INF"@);
    lemma_ascii(".nan"@);
    lemma_ascii(".NaN"@);
    lemma_ascii(".NAN"@);
    let p = past_sign(t, 0);
    if is_inf_word(t.skip(p)) {
        assert(t.skip(p)[0] == DOT);
        assert(t[p] == DOT);
    } else if is_nan_word(t) {
        assert(t[0] == DOT);
    }
}

/// A text with a dot is no run of digits.
proof fn lemma_dot_is_no_digit(t: Seq<u8>, i: int, base: int)
    requires
        0 <= i < t.len() ==> t[i] == DOT,
        base == 10,
    ensures
        0 <= i < t.len() ==> number(t, base) is None,
    decreases t.len(),
{
    if 0 <= i < t.len() - 1 {
        assert(t.drop_last()[i] == t[i]);
        lemma_dot_is_no_digit(t.drop_last(), i, base);
    }
}

/// The tags of the core types convert between a number and its text, and any other tag
/// stays on the value: what is tagged as a string is its text, and what is tagged as an
/// integer or a float again is that number.
pub proof fn law_tags_convert(n: int, v: Val, tag: Seq<u8>)
    requires
        i64::MIN <= n <= i64::MAX,
    ensures
        with_tag(lit("!!str"), Val::Int(n)) == Val::Str(int_text(n)),
        with_tag(lit("!!int"), Val::Str(int_text(n))) == Val::Int(n),
        with_tag(lit("!!float"), Val::Int(n)) == Val::Float(int_text(n)),
        with_tag(lit("!!float"), Val::Str(int_text(n))) == Val::Float(int_text(n)),
        with_tag(lit("!!null"), v) is Null,
        with_tag(lit("!!seq"), v) == v,
        with_tag(lit("!!map"), v) == v,
        !core_tag(tag) ==> with_tag(tag, v) == Val::Tagged(tag, Box::new(v)),
        (v is List || v is Dict) && core_tag(tag) && tag != lit("!!null") ==> with_tag(tag, v) == v,
{
    law_int_reads_back(n);
    reveal_strlit("!!str");
    reveal_strlit("!!int");
    reveal_strlit("!!float");
    reveal_strlit("!!bool");
    reveal_strlit("!!null");
    reveal_strlit("!!seq");
    reveal_strlit("!!map");
    lemma_ascii("!!str"@);
    lemma_ascii("!!int"@);
    lemma_ascii("!!float"@);
    lemma_ascii("!!bool"@);
    lemma_ascii("!!null"@);
    lemma_ascii("!!seq"@);
    lemma_ascii("!!map"@);
    assert(lit("!!str")[2] == 0x73 && lit("!!str")[3] == 0x74);
    assert(lit("!!int")[2] == 0x69);
    assert(lit("!!float")[2] == 0x66);
    assert(lit("!!bool")[2] == 0x62);
    assert(lit("!!null")[2] == 0x6e);
    assert(lit("!!seq")[2] == 0x73 && lit("!!seq")[3] == 0x65);
    assert(lit("!!map")[2] == 0x6d);
}

/// Whether a tag is one of the core types.
pub open spec fn core_tag(tag: Seq<u8>) -> bool {
    ||| tag == lit("!!str")
    ||| tag == lit("!!int")
    ||| tag == lit("!!float")
    ||| tag == lit("!!bool")
    ||| tag == lit("!!null")
    ||| tag == lit("!!seq")
    ||| tag == lit("!!map")
}

/// The letter of an escape with `w` digits.
pub open spec fn hex_letter(w: nat) -> u8 {
    if w == 2 {
        0x78
    } else if w == 4 {
        0x75
    } else {
        0x55
    }
}

/// An escape of two, four or eight hexadecimal digits is read as the character of that
/// number, in any place and in either case.
pub proof fn law_hex_escape_reads_back(s: Seq<u8>, p: int, u: u32, w: nat, upper: bool)
    requires
        w == 2 || w == 4 || w == 8,
        is_scalar(u),
        fits_in(u as nat, 16, w),
        holds(s, p, seq![BACKSLASH, hex_letter(w)] + in_digits(u as nat, 16, w, upper)),
    ensures
        escaped(s, p) == Ok::<_, Fail>((encode_scalar(u), p + 2 + w)),
{
    let d = in_digits(u as nat, 16, w, upper);
    lemma_in_digits(u as nat, 16, w, upper);
    lemma_holds_add(s, p, seq![BACKSLASH, hex_letter(w)], d);
    lemma_holds_at(s, p, seq![BACKSLASH, hex_letter(w)], 1);
    assert(s.subrange(p + 2, p + 2 + w) == d);
}

/// Whether every byte of `t` stands for itself between quotes of either kind.
pub open spec fn quiet(t: Seq<u8>) -> bool {
    t.len() > 0 && forall|i: int|
        0 <= i < t.len() ==> Class::Double.holds(#[trigger] t[i]) && Class::Single.holds(t[i])
}

/// What joins two lines with `k` empty lines between them: a space if there are none,
/// else a line break for each.
pub open spec fn joint(k: nat) -> Seq<u8> {
    if k == 0 {
        seq![SPACE]
    } else {
        breaks(k as int)
    }
}

/// A quiet text is read as it stands.
proof fn lemma_quiet(s: Seq<u8>, p: int, t: Seq<u8>, indent: int, double: bool, text: Seq<u8>)
    requires
        quiet(t),
        holds(s, p, t),
        p + t.len() < s.len(),
        !quoted_class(double).holds(s[p + t.len()]),
    ensures
        quoted_rest(s, p, indent, double, text) == quoted_rest(s, p + t.len(), indent, double, text + t),
{
    let e = p + t.len();
    let c = quoted_class(double);
    assert forall|i: int| p <= i < e implies c.holds(#[trigger] s[i]) by {
        lemma_holds_at(s, p, t, i - p);
        assert(Class::Double.holds(t[i - p]) && Class::Single.holds(t[i - p]));
    }
    lemma_run_to(s, p, c, e);
    assert(c.holds(s[p]));
}

/// Blanks are passed over as far as there are any.
proof fn lemma_past_blanks(s: Seq<u8>, p: int, n: int, d: int)
    requires
        0 <= p,
        0 <= d <= n,
        p + d < s.len(),
        forall|i: int| p <= i < p + d ==> #[trigger] s[i] == SPACE,
        !is_blank(s[p + d]),
    ensures
        past_blanks(s, p, n) == p + d,
    decreases d,
{
    if d > 0 {
        assert(s[p] == SPACE);
        lemma_past_blanks(s, p + 1, n - 1, d - 1);
    }
}

/// Empty lines are counted.
proof fn lemma_fold(s: Seq<u8>, q: int, indent: int, n: int, k: int, d: int)
    requires
        0 <= q,
        0 <= n,
        0 <= k,
        0 <= d <= indent,
        q + k + d < s.len(),
        forall|i: int| q <= i < q + k ==> #[trigger] s[i] == LF,
        forall|i: int| q + k <= i < q + k + d ==> #[trigger] s[i] == SPACE,
        !is_blank(s[q + k + d]) && !is_break(s[q + k + d]),
    ensures
        fold_from(s, q, indent, n) == (joint((n + k) as nat), q + k + d),
    decreases k,
{
    if k > 0 {
        assert(s[q] == LF);
        lemma_past_blanks(s, q, indent, 0);
        lemma_fold(s, q + 1, indent, n + 1, k - 1, d);
    } else {
        lemma_past_blanks(s, q, indent, d);
    }
}

/// A quoted scalar on two lines is read as one text: the line break and the indentation
/// after it are read as a space, or as the line breaks of the empty lines between them.
pub proof fn law_quoted_lines_are_folded(s: Seq<u8>, p: int, double: bool, a: Seq<u8>, b: Seq<u8>, k: nat, d: nat)
    requires
        quiet(a),
        quiet(b),
        d <= col_at(s, p),
        holds(s, p, seq![quote(double)] + (a + (breaks(k as int + 1) + (spaces(d as int) + (b + seq![quote(double)]))))),
        at(s, p + a.len() + b.len() + k + d + 3) != Some(quote(double)),
    ensures
        quoted(s, p, double) == Ok::<_, Fail>((a + joint(k) + b, p + a.len() + b.len() + k + d + 3)),
{
    let c = quote(double);
    let q = seq![c];
    let pad = spaces(d as int);
    lemma_holds_add(s, p, q, a + (breaks(k as int + 1) + (pad + (b + q))));
    lemma_holds_add(s, p + 1, a, breaks(k as int + 1) + (pad + (b + q)));
    let x = p + 1 + a.len();
    lemma_holds_add(s, x, breaks(k as int + 1), pad + (b + q));
    let y = x + k + 1;
    lemma_holds_add(s, y, pad, b + q);
    let z = y + d;
    lemma_holds_add(s, z, b, q);
    let e = z + b.len();
    lemma_holds_at(s, e, q, 0);
    lemma_holds_at(s, x, breaks(k as int + 1), 0);
    lemma_holds_at(s, z, b, 0);
    assert(Class::Double.holds(b[0]));
    let indent = col_at(s, p);
    lemma_quiet(s, p + 1, a, indent, double, Seq::empty());
    assert(Seq::<u8>::empty() + a =~= a);
    assert forall|i: int| x + 1 <= i < x + 1 + k implies #[trigger] s[i] == LF by {
        lemma_holds_at(s, x, breaks(k as int + 1), i - x);
    }
    assert forall|i: int| y <= i < z implies #[trigger] s[i] == SPACE by {
        lemma_holds_at(s, y, pad, i - y);
    }
    lemma_fold(s, x + 1, indent, 0, k as int, d as int);
    assert(line_fold(s, x, indent) == (joint(k), z));
    assert(quoted_rest(s, x, indent, double, a) == quoted_rest(s, z, indent, double, a + joint(k)));
    lemma_quiet(s, z, b, indent, double, a + joint(k));
}

/// A line of a block scalar: it holds no line break, and begins with something else than
/// a blank.
pub open spec fn body_line(t: Seq<u8>) -> bool {
    t.len() > 0 && !is_blank(t[0]) && forall|i: int| 0 <= i < t.len() ==> !is_break(#[trigger] t[i])
}

/// The lines from `j` on, each indented by `d` and ended, with `k` empty lines before
/// each but the first.
pub open spec fn body_form(ls: Seq<Seq<u8>>, j: int, d: nat, k: nat) -> Seq<u8>
    decreases ls.len() - j,
{
    if !(0 <= j < ls.len()) {
        Seq::empty()
    } else {
        breaks(if j == 0 {
            0
        } else {
            k as int
        }) + (spaces(d as int) + (ls[j] + (seq![LF] + body_form(ls, j + 1, d, k))))
    }
}

/// The text that the first `j` lines make, with `k` empty lines between any two: every
/// line break is kept in the literal style; in the folded style one is read as a space,
/// and of several the first is dropped.
pub open spec fn body_says(ls: Seq<Seq<u8>>, j: int, k: nat, folded: bool) -> Seq<u8>
    decreases j,
{
    if j <= 0 {
        Seq::empty()
    } else if j == 1 {
        ls[0]
    } else {
        body_says(ls, j - 1, k, folded) + (if folded {
            joint(k)
        } else {
            breaks(k as int + 1)
        }) + ls[j - 1]
    }
}

/// The indicator of a chomping.
pub open spec fn chomp_mark(c: Chomp) -> Seq<u8> {
    match c {
        Chomp::Clip => Seq::empty(),
        Chomp::Strip => seq![DASH],
        Chomp::Keep => seq![PLUS],
    }
}

/// What a chomping leaves of the line break that ends the text and of `e` empty lines
/// after it.
pub open spec fn chomp_says(c: Chomp, e: nat) -> Seq<u8> {
    match c {
        Chomp::Clip => breaks(1),
        Chomp::Strip => Seq::empty(),
        Chomp::Keep => breaks(e as int + 1),
    }
}

/// Past as many spaces as asked for.
proof fn lemma_past_indent(s: Seq<u8>, p: int, d: int)
    requires
        0 <= p,
        0 <= d,
        p + d <= s.len(),
        forall|i: int| p <= i < p + d ==> #[trigger] s[i] == SPACE,
    ensures
        past_spaces(s, p, d) == p + d,
    decreases d,
{
    if d > 0 {
        assert(s[p] == SPACE);
        lemma_past_indent(s, p + 1, d - 1);
    }
}

/// Empty lines of a block scalar are counted.
proof fn lemma_empty_lines(s: Seq<u8>, l: int, d: int, folded: bool, b: Block, e: int)
    requires
        0 <= l,
        0 <= e,
        l + e <= s.len(),
        d > 0,
        forall|i: int| l <= i < l + e ==> #[trigger] s[i] == LF,
    ensures
        block_lines(s, l, d, folded, b) == block_lines(s, l + e, d, folded, Block { empties: b.empties + e, ..b }),
    decreases e,
{
    if e > 0 {
        assert(s[l] == LF);
        assert(past_spaces(s, l, d) == l);
        assert(run(s, l, Class::Line) == l);
        assert(next_line(s, l) == l + 1);
        let c = Block { empties: b.empties + 1, ..b };
        lemma_empty_lines(s, l + 1, d, folded, c, e - 1);
        assert(Block { empties: c.empties + (e - 1), ..c } == Block { empties: b.empties + e, ..b });
    } else {
        assert(Block { empties: b.empties + 0, ..b } == b);
    }
}

/// The lines from `j` on are read, and the `e` empty lines that end the text.
proof fn lemma_body(ls: Seq<Seq<u8>>, j: int, d: nat, k: nat, e: nat, s: Seq<u8>, l: int, folded: bool)
    requires
        0 <= j <= ls.len(),
        ls.len() > 0,
        d > 0,
        forall|i: int| 0 <= i < ls.len() ==> body_line(#[trigger] ls[i]),
        holds(s, l, body_form(ls, j, d, k) + breaks(e as int)),
        l + body_form(ls, j, d, k).len() + e == s.len(),
    ensures
        block_lines(
            s,
            l,
            d as int,
            folded,
            Block { text: body_says(ls, j, k, folded), empties: 0, any: j > 0, more: false },
        ) == (Block { text: body_says(ls, ls.len() as int, k, folded), empties: e as int, any: true, more: false }, s.len() as int),
    decreases ls.len() - j,
{
    let b = Block { text: body_says(ls, j, k, folded), empties: 0, any: j > 0, more: false };
    let whole = body_form(ls, j, d, k);
    lemma_holds_add(s, l, whole, breaks(e as int));
    if j == ls.len() {
        assert forall|i: int| l <= i < l + e implies #[trigger] s[i] == LF by {
            lemma_holds_at(s, l, breaks(e as int), i - l);
        }
        lemma_empty_lines(s, l, d as int, folded, b, e as int);
    } else {
        let n: int = if j == 0 {
            0
        } else {
            k as int
        };
        let pad = spaces(d as int);
        let line = ls[j];
        let rest = body_form(ls, j + 1, d, k);
        let x = l + n;
        let y = x + d;
        let z = y + line.len();
        lemma_holds_add(s, l, breaks(n), pad + (line + (seq![LF] + rest)));
        lemma_holds_add(s, x, pad, line + (seq![LF] + rest));
        lemma_holds_add(s, y, line, seq![LF] + rest);
        lemma_holds_add(s, z, seq![LF], rest);
        lemma_holds_at(s, z, seq![LF], 0);
        assert(body_line(line));
        lemma_holds_at(s, y, line, 0);
        assert forall|i: int| l <= i < l + n implies #[trigger] s[i] == LF by {
            lemma_holds_at(s, l, breaks(n), i - l);
        }
        lemma_empty_lines(s, l, d as int, folded, b, n);
        let c = Block { empties: n, ..b };
        assert(c == Block { empties: b.empties + n, ..b });
        assert forall|i: int| x <= i < y implies #[trigger] s[i] == SPACE by {
            lemma_holds_at(s, x, pad, i - x);
        }
        lemma_past_indent(s, x, d as int);
        assert(s[x] == SPACE);
        assert(!doc_bound(s, x));
        assert forall|i: int| y <= i < z implies Class::Line.holds(#[trigger] s[i]) by {
            lemma_holds_at(s, y, line, i - y);
            assert(!is_break(line[i - y]));
        }
        lemma_run_to(s, y, Class::Line, z);
        assert forall|i: int| x <= i < z implies Class::Line.holds(#[trigger] s[i]) by {
            if i < y {
                assert(s[i] == SPACE);
            } else {
                assert(Class::Line.holds(s[i]));
            }
        }
        lemma_run_to(s, x, Class::Line, z);
        assert(next_line(s, x) == z + 1);
        assert(s.subrange(y, z) == line);
        let t = body_says(ls, j + 1, k, folded);
        assert(b.text + crate::parser::tokens::block_glue(c, folded, false) + line =~= t) by {
            if j == 0 {
                assert(b.text =~= Seq::empty());
                assert(breaks(0) =~= Seq::empty());
            }
        }
        assert(s.subrange(z + 1, s.len() as int) =~= rest + breaks(e as int)) by {
            assert(s.subrange(z + 1, z + 1 + rest.len()) == rest);
            assert(s.subrange(z + 1 + rest.len(), s.len() as int) == breaks(e as int));
        }
        lemma_body(ls, j + 1, d, k, e, s, z + 1, folded);
    }
}

/// A block scalar is read as its lines: joined by line breaks in the literal style and
/// by spaces in the folded one, empty lines between them kept, and the line breaks at its
/// end kept, clipped to one or stripped, as its header says.
pub proof fn law_block_scalar_reads_its_lines(
    ls: Seq<Seq<u8>>,
    d: nat,
    k: nat,
    e: nat,
    folded: bool,
    chomp: Chomp,
    m: int,
)
    requires
        ls.len() > 0,
        forall|i: int| 0 <= i < ls.len() ==> body_line(#[trigger] ls[i]),
        d > 0,
        0 <= m <= d,
    ensures
        ({
            let mark = if folded {
                GREATER
            } else {
                PIPE
            };
            let s = seq![mark] + (chomp_mark(chomp) + (seq![LF] + (body_form(ls, 0, d, k) + breaks(e as int))));
            block_scalar(s, 0, m) == Ok::<_, Fail>(
                (body_says(ls, ls.len() as int, k, folded) + chomp_says(chomp, e), s.len() as int),
            )
        }),
{
    let mark = if folded {
        GREATER
    } else {
        PIPE
    };
    let body = body_form(ls, 0, d, k);
    let tail = body + breaks(e as int);
    let c = chomp_mark(chomp);
    let s = seq![mark] + (c + (seq![LF] + tail));
    let h = 1 + c.len() as int;
    let l = h + 1;
    assert(s.subrange(0, s.len() as int) =~= s);
    lemma_holds_add(s, 0, seq![mark], c + (seq![LF] + tail));
    lemma_holds_add(s, 1, c, seq![LF] + tail);
    lemma_holds_add(s, h, seq![LF], tail);
    lemma_holds_at(s, 0, seq![mark], 0);
    lemma_holds_at(s, h, seq![LF], 0);
    if c.len() > 0 {
        lemma_holds_at(s, 1, c, 0);
    }
    assert(block_header(s, 1) == (chomp, None::<int>, h));
    lemma_run(s, h, Class::Blank);
    assert(run(s, h, Class::Blank) == h);
    assert(line_ends(s, h));
    assert(past_break(s, h) == l);
    lemma_holds_add(s, l, body, breaks(e as int));
    let pad = spaces(d as int);
    let more = ls[0] + (seq![LF] + body_form(ls, 1, d, k));
    assert(breaks(0) =~= Seq::empty());
    assert(body =~= pad + more);
    lemma_holds_add(s, l, pad, more);
    lemma_holds_add(s, l + d, ls[0], seq![LF] + body_form(ls, 1, d, k));
    assert(body_line(ls[0]));
    lemma_holds_at(s, l + d, ls[0], 0);
    assert(!is_break(ls[0][0]));
    assert forall|i: int| l <= i < l + d implies Class::Spaces.holds(#[trigger] s[i]) && Class::Blank.holds(s[i]) by {
        lemma_holds_at(s, l, pad, i - l);
    }
    lemma_run_to(s, l, Class::Spaces, l + d);
    lemma_run_to(s, l, Class::Blank, l + d);
    assert(past_blank_lines(s, l) == l);
    lemma_body(ls, 0, d, k, e, s, l, folded);
    let text = body_says(ls, ls.len() as int, k, folded);
    assert(text.push(LF) =~= text + breaks(1));
    assert(text + Seq::<u8>::empty() =~= text);
}

/// The lines of a plain scalar from `j` on, each after a line break, `k` empty lines and
/// `d` spaces.
pub open spec fn plain_form(ls: Seq<Seq<u8>>, j: int, d: nat, k: nat) -> Seq<u8>
    decreases ls.len() - j,
{
    if !(0 <= j < ls.len()) {
        Seq::empty()
    } else {
        breaks(k as int + 1) + (spaces(d as int) + (ls[j] + plain_form(ls, j + 1, d, k)))
    }
}

/// What a plain scalar of these lines says.
pub open spec fn plain_says(ls: Seq<Seq<u8>>, j: int, k: nat) -> Seq<u8>
    decreases j,
{
    if j <= 1 {
        ls[0]
    } else {
        plain_says(ls, j - 1, k) + joint(k) + ls[j - 1]
    }
}

/// Empty lines are passed over and counted.
proof fn lemma_blank_lines(s: Seq<u8>, l: int, k: int)
    requires
        0 <= l,
        0 <= k,
        l + k <= s.len(),
        forall|i: int| l <= i < l + k ==> #[trigger] s[i] == LF,
        l + k < s.len() ==> !line_blank(s, l + k),
    ensures
        past_blank_lines(s, l) == l + k,
        blank_lines(s, l) == k,
    decreases k,
{
    if k > 0 {
        assert(s[l] == LF);
        assert(run(s, l, Class::Blank) == l);
        assert(run(s, l, Class::Line) == l);
        assert(next_line(s, l) == l + 1);
        lemma_blank_lines(s, l + 1, k - 1);
    }
}

/// The lines of a plain scalar from `j` on are read.
proof fn lemma_plain_lines(ls: Seq<Seq<u8>>, j: int, d: nat, k: nat, s: Seq<u8>, p: int)
    requires
        1 <= j <= ls.len(),
        forall|i: int| 0 <= i < ls.len() ==> !unfit_plain(#[trigger] ls[i]),
        holds(s, p, plain_form(ls, j, d, k)),
        p + plain_form(ls, j, d, k).len() == s.len(),
    ensures
        plain_folded(s, plain_says(ls, j, k), p, 0) == Ok::<_, Fail>((plain_says(ls, ls.len() as int, k), s.len() as int)),
    decreases ls.len() - j,
{
    if j < ls.len() {
        let pad = spaces(d as int);
        let line = ls[j];
        let rest = plain_form(ls, j + 1, d, k);
        let q = p + k + 1;
        let c = q + d;
        let e = c + line.len();
        lemma_holds_add(s, p, breaks(k as int + 1), pad + (line + rest));
        lemma_holds_add(s, q, pad, line + rest);
        lemma_holds_add(s, c, line, rest);
        assert forall|i: int| p <= i < q implies #[trigger] s[i] == LF by {
            lemma_holds_at(s, p, breaks(k as int + 1), i - p);
        }
        assert(s[p] == LF);
        assert forall|i: int| q <= i < c implies Class::Spaces.holds(#[trigger] s[i]) && Class::Blank.holds(s[i]) by {
            lemma_holds_at(s, q, pad, i - q);
        }
        if j + 1 < ls.len() {
            lemma_holds_add(s, e, breaks(k as int + 1), pad + (ls[j + 1] + plain_form(ls, j + 2, d, k)));
            lemma_holds_at(s, e, breaks(k as int + 1), 0);
        }
        assert(line_ends(s, e));
        assert(run(s, e, Class::Blank) == e) by {
            lemma_run(s, e, Class::Blank);
        }
        assert(!unfit_plain(line));
        law_plain_reads_back(s, c, line);
        lemma_plain_start(s, c, line);
        lemma_run_to(s, q, Class::Spaces, c);
        lemma_run_to(s, q, Class::Blank, c);
        assert(!doc_bound(s, q)) by {
            if d > 0 {
                assert(s[q] == SPACE);
            }
        }
        lemma_blank_lines(s, p + 1, k as int);
        assert(past_break(s, p) == p + 1);
        lemma_plain_lines(ls, j + 1, d, k, s, e);
    }
}

/// A plain scalar on several lines is read as one text: every line break with the
/// indentation after it is read as a space, or as the line breaks of the empty lines
/// between the two lines.
pub proof fn law_plain_lines_are_folded(ls: Seq<Seq<u8>>, d: nat, k: nat)
    requires
        ls.len() > 0,
        forall|i: int| 0 <= i < ls.len() ==> !unfit_plain(#[trigger] ls[i]),
    ensures
        stream(ls[0] + plain_form(ls, 1, d, k)) is Ok,
        (stream(ls[0] + plain_form(ls, 1, d, k))->Ok_0).0 == seq![resolved(plain_says(ls, ls.len() as int, k))],
{
    let rest = plain_form(ls, 1, d, k);
    let s = ls[0] + rest;
    let st = at_start();
    let e = ls[0].len() as int;
    assert(s.subrange(0, s.len() as int) =~= s);
    lemma_holds_add(s, 0, ls[0], rest);
    if ls.len() > 1 {
        lemma_holds_add(s, e, breaks(k as int + 1), spaces(d as int) + (ls[1] + plain_form(ls, 2, d, k)));
        lemma_holds_at(s, e, breaks(k as int + 1), 0);
    }
    assert(line_ends(s, e));
    assert(run(s, e, Class::Blank) == e) by {
        lemma_run(s, e, Class::Blank);
    }
    assert(!unfit_plain(ls[0]));
    law_plain_reads_back(s, 0, ls[0]);
    lemma_plain_start(s, 0, ls[0]);
    lemma_plain_lines(ls, 1, d, k, s, e);
    step_content_scalar(s, st, 0, 0);
    step_scalar(s, st, 0, 0, token(s, 0)->Ok_0);
    step_bare(s, st, 0, 0);
    assert(spaces(0) =~= Seq::empty());
    assert(s.subrange(0, 0) =~= spaces(0));
    lemma_line_start(s, 0, 0);
    assert(st.to(0) == st);
    step_node_below(s, st, 0);
    lemma_one_document(s, resolved(plain_says(ls, ls.len() as int, k)));
}

} // verus!
