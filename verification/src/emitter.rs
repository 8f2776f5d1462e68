//! Values to YAML text.
use vstd::prelude::*;
use vstd::string::*;
use vstd::utf8::*;
use crate::error::Error;
use crate::patterns::{ctrl_in, has_byte, has_ctrl_chars, has_newline, needs_quotes, resolved, unfit_plain};
use crate::text::{
    bd, is_text, lemma_bd_ascii, lemma_bd_ends, lemma_run, lemma_run_bd, lemma_text, put, put_byte, put_slice, run,
    same, scan, slice, Class, BACKSLASH, DOT, DQUOTE, LF, SPACE, SQUOTE, TAB,
};
use crate::value::{
    cow_str, int_text, lemma_dict_val, lemma_item_smaller, lemma_list_val, lemma_pair_smaller, lit, pairs_of,
    put_int, vals, BorrowedValue, Val,
};

verus! {

/// The hexadecimal digit of `n`.
pub open spec fn hex_digit(n: int) -> u8 {
    if n < 10 {
        (0x30 + n) as u8
    } else {
        (0x57 + n) as u8
    }
}

/// How one byte is written in a double-quoted scalar.
pub open spec fn dq_byte(b: u8) -> Seq<u8> {
    if b == BACKSLASH || b == DQUOTE {
        seq![BACKSLASH, b]
    } else if b == LF {
        seq![BACKSLASH, 0x6eu8]
    } else if b == TAB {
        seq![BACKSLASH, 0x74u8]
    } else if b == 0 {
        seq![BACKSLASH, 0x30u8]
    } else if b < 0x20 || b == 0x7f {
        seq![BACKSLASH, 0x78u8, hex_digit(b as int / 16), hex_digit(b as int % 16)]
    } else {
        seq![b]
    }
}

/// How a text is written between double quotes.
pub open spec fn dq_body(t: Seq<u8>) -> Seq<u8>
    decreases t.len(),
{
    if t.len() == 0 {
        Seq::empty()
    } else {
        dq_body(t.drop_last()) + dq_byte(t.last())
    }
}

/// A text as a double-quoted scalar.
pub open spec fn double_quoted(t: Seq<u8>) -> Seq<u8> {
    seq![DQUOTE] + dq_body(t) + seq![DQUOTE]
}

/// How a text is written between single quotes.
pub open spec fn sq_body(t: Seq<u8>) -> Seq<u8>
    decreases t.len(),
{
    if t.len() == 0 {
        Seq::empty()
    } else if t.last() == SQUOTE {
        sq_body(t.drop_last()) + seq![SQUOTE, SQUOTE]
    } else {
        sq_body(t.drop_last()).push(t.last())
    }
}

/// A text as a single-quoted scalar.
pub open spec fn single_quoted(t: Seq<u8>) -> Seq<u8> {
    seq![SQUOTE] + sq_body(t) + seq![SQUOTE]
}

/// Bytes that need no escape are written as they are.
pub proof fn lemma_dq_run(t: Seq<u8>, i: int, e: int)
    requires
        0 <= i <= e <= t.len(),
        forall|j: int| i <= j < e ==> Class::Printable.holds(#[trigger] t[j]),
    ensures
        dq_body(t.take(e)) == dq_body(t.take(i)) + t.subrange(i, e),
    decreases e - i,
{
    if i == e {
        assert(dq_body(t.take(i)) + t.subrange(i, e) =~= dq_body(t.take(i)));
    } else {
        lemma_dq_run(t, i, e - 1);
        assert(t.take(e).drop_last() =~= t.take(e - 1));
        assert(t.take(e).last() == t[e - 1]);
        assert(dq_body(t.take(i)) + t.subrange(i, e - 1) + seq![t[e - 1]] =~= dq_body(t.take(i)) + t.subrange(i, e));
    }
}

proof fn lemma_sq_run(t: Seq<u8>, i: int, e: int)
    requires
        0 <= i <= e <= t.len(),
        forall|j: int| i <= j < e ==> #[trigger] t[j] != SQUOTE,
    ensures
        sq_body(t.take(e)) == sq_body(t.take(i)) + t.subrange(i, e),
    decreases e - i,
{
    if i == e {
        assert(sq_body(t.take(i)) + t.subrange(i, e) =~= sq_body(t.take(i)));
    } else {
        lemma_sq_run(t, i, e - 1);
        assert(t.take(e).drop_last() =~= t.take(e - 1));
        assert(t.take(e).last() == t[e - 1]);
        assert((sq_body(t.take(i)) + t.subrange(i, e - 1)).push(t[e - 1]) =~= sq_body(t.take(i)) + t.subrange(i, e));
    }
}

fn hex_byte(n: u8) -> (r: u8)
    requires
        n < 16,
    ensures
        r == hex_digit(n as int),
        r < 0x80,
{
    if n < 10 {
        0x30 + n
    } else {
        0x57 + n
    }
}

/// Appends how the byte `b` is escaped.
fn put_escape(out: &mut String, b: u8)
    requires
        !Class::Printable.holds(b),
    ensures
        encode_utf8(final(out)@) == encode_utf8(old(out)@) + dq_byte(b),
{
    let ghost o = encode_utf8(out@);
    put_byte(out, BACKSLASH);
    if b == BACKSLASH || b == DQUOTE {
        put_byte(out, b);
    } else if b == LF {
        put_byte(out, 0x6e);
    } else if b == TAB {
        put_byte(out, 0x74);
    } else if b == 0 {
        put_byte(out, 0x30);
    } else {
        put_byte(out, 0x78);
        put_byte(out, hex_byte(b / 16));
        put_byte(out, hex_byte(b % 16));
    }
    assert(encode_utf8(out@) =~= o + dq_byte(b));
}

/// Appends `s` as a double-quoted scalar.
pub(crate) fn emit_double_quoted(s: &str, out: &mut String)
    ensures
        encode_utf8(final(out)@) == encode_utf8(old(out)@) + double_quoted(encode_utf8(s@)),
{
    let b = s.as_bytes();
    let ghost t = encode_utf8(s@);
    let ghost o = encode_utf8(out@);
    put_byte(out, DQUOTE);
    let mut i: usize = 0;
    proof {
        lemma_text(s@);
        lemma_bd_ends(t);
        assert(t.take(0) =~= Seq::<u8>::empty());
        assert(encode_utf8(out@) =~= o + seq![DQUOTE] + dq_body(t.take(0)));
    }
    while i < b.len()
        invariant
            b@ == t,
            t == encode_utf8(s@),
            is_text(t),
            i <= t.len(),
            bd(t, i as int),
            encode_utf8(out@) == o + seq![DQUOTE] + dq_body(t.take(i as int)),
        decreases t.len() - i,
    {
        let e: usize = scan(b, i, Class::Printable);
        proof {
            lemma_run(t, i as int, Class::Printable);
            lemma_run_bd(t, i as int, Class::Printable);
            lemma_dq_run(t, i as int, e as int);
        }
        put_slice(out, s, i, e);
        assert(encode_utf8(out@) =~= o + seq![DQUOTE] + dq_body(t.take(e as int)));
        if e < b.len() {
            put_escape(out, b[e]);
            proof {
                lemma_bd_ascii(t, e as int);
                assert(t.take(e + 1).drop_last() =~= t.take(e as int));
                assert(t.take(e + 1).last() == t[e as int]);
                assert(encode_utf8(out@) =~= o + seq![DQUOTE] + dq_body(t.take(e + 1)));
            }
            i = e + 1;
        } else {
            i = e;
        }
    }
    assert(t.take(i as int) =~= t);
    put_byte(out, DQUOTE);
    assert(encode_utf8(out@) =~= o + double_quoted(t));
}

/// Appends `s` as a single-quoted scalar.
pub(crate) fn emit_single_quoted(s: &str, out: &mut String)
    ensures
        encode_utf8(final(out)@) == encode_utf8(old(out)@) + single_quoted(encode_utf8(s@)),
{
    let b = s.as_bytes();
    let ghost t = encode_utf8(s@);
    let ghost o = encode_utf8(out@);
    put_byte(out, SQUOTE);
    let mut i: usize = 0;
    proof {
        lemma_text(s@);
        lemma_bd_ends(t);
        assert(t.take(0) =~= Seq::<u8>::empty());
        assert(encode_utf8(out@) =~= o + seq![SQUOTE] + sq_body(t.take(0)));
    }
    while i < b.len()
        invariant
            b@ == t,
            t == encode_utf8(s@),
            is_text(t),
            i <= t.len(),
            bd(t, i as int),
            encode_utf8(out@) == o + seq![SQUOTE] + sq_body(t.take(i as int)),
        decreases t.len() - i,
    {
        let e: usize = scan(b, i, Class::Until(SQUOTE));
        proof {
            lemma_run(t, i as int, Class::Until(SQUOTE));
            lemma_run_bd(t, i as int, Class::Until(SQUOTE));
            lemma_sq_run(t, i as int, e as int);
        }
        put_slice(out, s, i, e);
        assert(encode_utf8(out@) =~= o + seq![SQUOTE] + sq_body(t.take(e as int)));
        if e < b.len() {
            // YAML escapes a quote by doubling it
            put_byte(out, SQUOTE);
            put_byte(out, SQUOTE);
            proof {
                lemma_bd_ascii(t, e as int);
                assert(t.take(e + 1).drop_last() =~= t.take(e as int));
                assert(t.take(e + 1).last() == t[e as int]);
                assert(encode_utf8(out@) =~= o + seq![SQUOTE] + sq_body(t.take(e + 1)));
            }
            i = e + 1;
        } else {
            i = e;
        }
    }
    assert(t.take(i as int) =~= t);
    put_byte(out, SQUOTE);
    assert(encode_utf8(out@) =~= o + single_quoted(t));
}

/// A float as YAML spells it.
pub open spec fn float_text(t: Seq<u8>) -> Seq<u8> {
    if t == lit("NaN") {
        lit(".nan")
    } else if t == lit("inf") {
        lit(".inf")
    } else if t == lit("-inf") {
        lit("-.inf")
    } else if t.contains(DOT) || t.contains(0x65) || t.contains(0x45) {
        t
    } else {
        t + lit(".0")
    }
}

/// The lines of `s` from `p` on as the body of a block scalar: each on a line of
/// its own, indented unless it is empty.
pub open spec fn block_body(s: Seq<u8>, p: int, pad: Seq<u8>) -> Seq<u8>
    decreases s.len() - p,
        when 0 <= p <= s.len()
{
    let e = run(s, p, Class::Until(LF));
    let line = seq![LF] + (if p < e {
        pad + s.subrange(p, e)
    } else {
        Seq::empty()
    });
    proof {
        lemma_run(s, p, Class::Until(LF));
    }
    if e < s.len() {
        line + block_body(s, e + 1, pad)
    } else {
        line
    }
}

/// A string as a literal block scalar.
pub open spec fn block_text(s: Seq<u8>, pad: Seq<u8>) -> Seq<u8> {
    lit("|") + (if s.len() > 0 && s.last() == LF {
        Seq::empty()
    } else {
        lit("-")
    }) + block_body(s, 0, pad + lit("  "))
}

/// The first byte from `i` on that is neither a space nor a line feed.
pub open spec fn first_ink(s: Seq<u8>, i: int) -> int
    decreases s.len() - i,
{
    if 0 <= i < s.len() && (s[i] == SPACE || s[i] == LF) {
        first_ink(s, i + 1)
    } else {
        i
    }
}

/// Whether a string with line breaks is kept by a block scalar: its first line with
/// more than spaces does not begin with one, and it ends in at most one line break.
pub open spec fn fits_block(s: Seq<u8>) -> bool {
    let f = first_ink(s, 0);
    &&& s.contains(LF) && !ctrl_in(s)
    &&& f < s.len() && (f == 0 || s[f - 1] == LF)
    &&& !(s.len() > 1 && s.last() == LF && s[s.len() - 2] == LF)
}

/// A string as a scalar, in a place that is indented by `pad`.
pub open spec fn str_text(s: Seq<u8>, pad: Seq<u8>) -> Seq<u8> {
    if fits_block(s) {
        block_text(s, pad)
    } else if unfit_plain(s) || !(resolved(s) is Str) {
        if !ctrl_in(s) && !s.contains(LF) && !s.contains(SQUOTE) {
            seq![SQUOTE] + s + seq![SQUOTE]
        } else {
            double_quoted(s)
        }
    } else {
        s
    }
}

/// Whether the value stands on the line it begins on.
pub open spec fn stays_inline(v: Val) -> bool
    decreases v,
{
    match v {
        Val::List(vs) => vs.len() == 0,
        Val::Dict(ps) => ps.len() == 0,
        Val::Tagged(_, b) => stays_inline(*b),
        _ => true,
    }
}

/// Whether a key has to be written with `?`. Without it a tag would be that of the
/// mapping.
pub open spec fn explicit(k: Val) -> bool {
    match k {
        Val::Str(s) => s.contains(LF),
        Val::Tagged(_, _) => true,
        Val::List(_) => true,
        Val::Dict(_) => true,
        _ => false,
    }
}

/// Whether the text of a value begins with a line break.
pub open spec fn breaks_first(v: Val) -> bool {
    match v {
        Val::List(vs) => vs.len() > 0,
        Val::Dict(ps) => ps.len() > 0,
        _ => false,
    }
}

/// What stands between a tag and its value. Another tag stands on a line of its own.
pub open spec fn tag_gap(v: Val, pad: Seq<u8>) -> Seq<u8> {
    if v is Tagged {
        seq![LF] + pad
    } else if stays_inline(v) {
        lit(" ")
    } else {
        Seq::empty()
    }
}

/// The text of a value in a place that is indented by `pad`.
pub open spec fn node_text(v: Val, pad: Seq<u8>) -> Seq<u8>
    decreases v, 0int,
{
    match v {
        Val::Null => lit("null"),
        Val::Bool(b) => if b {
            lit("true")
        } else {
            lit("false")
        },
        Val::Int(n) => int_text(n),
        Val::Float(t) => float_text(t),
        Val::Str(s) => str_text(s, pad),
        Val::Tagged(tag, b) => tag + tag_gap(*b, pad) + node_text(*b, pad),
        Val::List(vs) => if vs.len() == 0 {
            lit("[]")
        } else {
            seq![LF] + pad + items_text(vs, vs.len() as int, pad)
        },
        Val::Dict(ps) => if ps.len() == 0 {
            lit("{}")
        } else {
            seq![LF] + pad + pairs_text(ps, ps.len() as int, pad)
        },
    }
}

/// The first `k` items of a sequence, each after the first on an indented line.
pub open spec fn items_text(vs: Seq<Val>, k: int, pad: Seq<u8>) -> Seq<u8>
    decreases vs, k,
{
    if !(0 < k <= vs.len()) {
        Seq::empty()
    } else if k == 1 {
        item_text(vs[0], pad)
    } else {
        items_text(vs, k - 1, pad) + seq![LF] + pad + item_text(vs[k - 1], pad)
    }
}

/// One item of a sequence. A mapping begins on the line of its dash.
pub open spec fn item_text(v: Val, pad: Seq<u8>) -> Seq<u8>
    decreases v, 1int,
{
    lit("- ") + (match v {
        Val::Dict(ps) if ps.len() > 0 => pairs_text(ps, ps.len() as int, pad + lit("  ")),
        _ => node_text(v, pad + lit("  ")),
    })
}

/// The first `k` entries of a mapping, each after the first on an indented line.
pub open spec fn pairs_text(ps: Seq<(Val, Val)>, k: int, pad: Seq<u8>) -> Seq<u8>
    decreases ps, k,
{
    if !(0 < k <= ps.len()) {
        Seq::empty()
    } else if k == 1 {
        pair_text(ps[0], pad)
    } else {
        pairs_text(ps, k - 1, pad) + seq![LF] + pad + pair_text(ps[k - 1], pad)
    }
}

/// One entry of a mapping.
pub open spec fn pair_text(kv: (Val, Val), pad: Seq<u8>) -> Seq<u8>
    decreases kv, 0int,
{
    (if explicit(kv.0) {
        lit("?") + (if breaks_first(kv.0) {
            Seq::empty()
        } else {
            lit(" ")
        }) + node_text(kv.0, pad + lit("  ")) + seq![LF] + pad
    } else {
        node_text(kv.0, pad)
    }) + lit(":") + (if breaks_first(kv.1) {
        Seq::empty()
    } else {
        lit(" ")
    }) + node_text(kv.1, pad + lit("  "))
}

/// The text of a document: without a leading line break, with a final one.
pub open spec fn document_text(v: Val) -> Seq<u8> {
    let t = node_text(v, Seq::empty());
    let u = if t.len() > 0 && t[0] == LF {
        t.skip(1)
    } else {
        t
    };
    if u.len() > 0 && u.last() == LF {
        u
    } else {
        u.push(LF)
    }
}

/// The indentation one level below `pad`.
fn deeper(pad: &str) -> (r: String)
    ensures
        encode_utf8(r@) == encode_utf8(pad@) + lit("  "),
{
    let mut out = String::new();
    put(&mut out, pad);
    put(&mut out, "  ");
    proof {
        assert(encode_utf8(Seq::<char>::empty()) =~= Seq::<u8>::empty());
        assert(encode_utf8(out@) =~= encode_utf8(pad@) + lit("  "));
    }
    out
}

pub(crate) fn emit_float(t: &str, out: &mut String)
    ensures
        encode_utf8(final(out)@) == encode_utf8(old(out)@) + float_text(encode_utf8(t@)),
{
    if same(t, "NaN") {
        put(out, ".nan");
    } else if same(t, "inf") {
        put(out, ".inf");
    } else if same(t, "-inf") {
        put(out, "-.inf");
    } else {
        let ghost o = encode_utf8(out@);
        put(out, t);
        if !has_byte(t, DOT) && !has_byte(t, 0x65) && !has_byte(t, 0x45) {
            put(out, ".0");
            assert(encode_utf8(out@) =~= o + (encode_utf8(t@) + lit(".0")));
        }
    }
}

fn emit_block_scalar(s: &str, pad: &str, out: &mut String)
    ensures
        encode_utf8(final(out)@) == encode_utf8(old(out)@) + block_text(encode_utf8(s@), encode_utf8(pad@)),
{
    let b = s.as_bytes();
    let n: usize = b.len();
    let ghost t = encode_utf8(s@);
    let ghost o = encode_utf8(out@);
    let child = deeper(pad);
    let ghost cp = encode_utf8(child@);
    put(out, "|");
    if n == 0 || b[n - 1] != LF {
        put(out, "-");
    }
    proof {
        lemma_text(s@);
        lemma_bd_ends(t);
    }
    let ghost head = encode_utf8(out@);
    assert(head + block_body(t, 0, cp) =~= o + block_text(t, encode_utf8(pad@)));
    let mut p: usize = 0;
    loop
        invariant
            b@ == t,
            n == b@.len(),
            t == encode_utf8(s@),
            cp == encode_utf8(child@),
            is_text(t),
            p <= t.len(),
            bd(t, p as int),
            o == encode_utf8(old(out)@),
            encode_utf8(out@) + block_body(t, p as int, cp) == o + block_text(t, encode_utf8(pad@)),
        decreases t.len() - p,
    {
        let ghost now = encode_utf8(out@);
        let e: usize = scan(b, p, Class::Until(LF));
        proof {
            lemma_run(t, p as int, Class::Until(LF));
            lemma_run_bd(t, p as int, Class::Until(LF));
        }
        put_byte(out, LF);
        if p < e {
            put(out, child.as_str());
            put_slice(out, s, p, e);
        }
        if e >= n {
            assert(encode_utf8(out@) =~= now + block_body(t, p as int, cp));
            return;
        }
        proof {
            lemma_bd_ascii(t, e as int);
            assert(encode_utf8(out@) + block_body(t, e + 1, cp) =~= now + block_body(t, p as int, cp));
        }
        p = e + 1;
    }
}

fn keeps_in_block(s: &str) -> (r: bool)
    ensures
        r == fits_block(encode_utf8(s@)),
{
    if !has_newline(s) || has_ctrl_chars(s) {
        return false;
    }
    let b = s.as_bytes();
    let n: usize = b.len();
    let mut f: usize = 0;
    while f < n && (b[f] == SPACE || b[f] == LF)
        invariant
            b@ == encode_utf8(s@),
            n == b@.len(),
            f <= n,
            first_ink(b@, 0) == first_ink(b@, f as int),
        decreases n - f,
    {
        f = f + 1;
    }
    f < n && (f == 0 || b[f - 1] == LF) && !(n > 1 && b[n - 1] == LF && b[n - 2] == LF)
}

fn emit_scalar(s: &str, pad: &str, out: &mut String)
    ensures
        encode_utf8(final(out)@) == encode_utf8(old(out)@) + str_text(encode_utf8(s@), encode_utf8(pad@)),
{
    if keeps_in_block(s) {
        emit_block_scalar(s, pad, out);
    } else if needs_quotes(s) {
        emit_quoted_scalar(s, out);
    } else {
        put(out, s);
    }
}

fn emit_quoted_scalar(s: &str, out: &mut String)
    ensures
        encode_utf8(final(out)@) == encode_utf8(old(out)@) + (if !ctrl_in(encode_utf8(s@)) && !encode_utf8(
            s@,
        ).contains(LF) && !encode_utf8(s@).contains(SQUOTE) {
            seq![SQUOTE] + encode_utf8(s@) + seq![SQUOTE]
        } else {
            double_quoted(encode_utf8(s@))
        }),
{
    if !has_ctrl_chars(s) && !has_newline(s) && !has_byte(s, SQUOTE) {
        let ghost o = encode_utf8(out@);
        put_byte(out, SQUOTE);
        put(out, s);
        put_byte(out, SQUOTE);
        assert(encode_utf8(out@) =~= o + (seq![SQUOTE] + encode_utf8(s@) + seq![SQUOTE]));
    } else {
        emit_double_quoted(s, out);
    }
}

fn is_inline(v: &BorrowedValue<'_>) -> (r: bool)
    ensures
        r == stays_inline(v.val()),
    decreases v,
{
    match v {
        BorrowedValue::Sequence(items) => items.len() == 0,
        BorrowedValue::Mapping(items) => items.len() == 0,
        BorrowedValue::Tagged(_, b) => is_inline(b),
        _ => true,
    }
}

fn key_needs_explicit(k: &BorrowedValue<'_>) -> (r: bool)
    ensures
        r == explicit(k.val()),
{
    match k {
        BorrowedValue::String(s) => has_newline(cow_str(s)),
        BorrowedValue::Tagged(_, _) => true,
        BorrowedValue::Sequence(_) => true,
        BorrowedValue::Mapping(_) => true,
        _ => false,
    }
}

/// True when [`emit_node`] opens its output with a line break
fn emits_leading_break(v: &BorrowedValue<'_>) -> (r: bool)
    ensures
        r == breaks_first(v.val()),
{
    match v {
        BorrowedValue::Sequence(items) => items.len() > 0,
        BorrowedValue::Mapping(pairs) => pairs.len() > 0,
        _ => false,
    }
}

fn emit_node(v: &BorrowedValue<'_>, pad: &str, out: &mut String)
    ensures
        encode_utf8(final(out)@) == encode_utf8(old(out)@) + node_text(v.val(), encode_utf8(pad@)),
    decreases v, 1int,
{
    let ghost o = encode_utf8(out@);
    match v {
        BorrowedValue::Null => put(out, "null"),
        BorrowedValue::Bool(b) => put(
            out,
            if *b {
                "true"
            } else {
                "false"
            },
        ),
        BorrowedValue::Int(n) => put_int(out, *n),
        BorrowedValue::Float(f) => emit_float(cow_str(f), out),
        BorrowedValue::String(s) => emit_scalar(cow_str(s), pad, out),
        BorrowedValue::Tagged(tag, b) => {
            put(out, cow_str(tag));
            if let BorrowedValue::Tagged(_, _) = &**b {
                put_byte(out, LF);
                put(out, pad);
            } else if is_inline(b) {
                put(out, " ");
            }
            emit_node(b, pad, out);
            assert(encode_utf8(out@) =~= o + node_text(v.val(), encode_utf8(pad@)));
        },
        BorrowedValue::Sequence(items) => {
            proof {
                lemma_list_val(*items);
            }
            if items.len() == 0 {
                put(out, "[]");
            } else {
                put_byte(out, LF);
                put(out, pad);
                emit_block_seq(v, pad, out);
                assert(encode_utf8(out@) =~= o + node_text(v.val(), encode_utf8(pad@)));
            }
        },
        BorrowedValue::Mapping(pairs) => {
            proof {
                lemma_dict_val(*pairs);
            }
            if pairs.len() == 0 {
                put(out, "{}");
            } else {
                put_byte(out, LF);
                put(out, pad);
                emit_pairs(v, pad, out);
                assert(encode_utf8(out@) =~= o + node_text(v.val(), encode_utf8(pad@)));
            }
        },
    }
}

/// The items of the sequence `v`.
fn emit_block_seq(v: &BorrowedValue<'_>, pad: &str, out: &mut String)
    requires
        v is Sequence,
    ensures
        encode_utf8(final(out)@) == encode_utf8(old(out)@) + items_text(
            vals(v->Sequence_0@),
            v->Sequence_0@.len() as int,
            encode_utf8(pad@),
        ),
    decreases v, 0int,
{
    let ghost o = encode_utf8(out@);
    let ghost p = encode_utf8(pad@);
    if let BorrowedValue::Sequence(items) = v {
        let ghost all = vals(items@);
        let mut i: usize = 0;
        assert(encode_utf8(out@) =~= o + items_text(all, 0, p));
        while i < items.len()
            invariant
                *v == BorrowedValue::Sequence(*items),
                all == vals(items@),
                p == encode_utf8(pad@),
                i <= items@.len(),
                encode_utf8(out@) == o + items_text(all, i as int, p),
            decreases items@.len() - i,
        {
            let ghost now = encode_utf8(out@);
            proof {
                lemma_item_smaller(*v, i as int);
                assert(all[i as int] == items@[i as int].val());
            }
            if i > 0 {
                put_byte(out, LF);
                put(out, pad);
            }
            emit_item(&items[i], pad, out);
            assert(encode_utf8(out@) =~= o + items_text(all, i + 1, p));
            i = i + 1;
        }
    }
}

/// One item of a sequence. A mapping begins on the line of its dash.
fn emit_item(v: &BorrowedValue<'_>, pad: &str, out: &mut String)
    ensures
        encode_utf8(final(out)@) == encode_utf8(old(out)@) + item_text(v.val(), encode_utf8(pad@)),
    decreases v, 2int,
{
    let ghost o = encode_utf8(out@);
    let child = deeper(pad);
    put(out, "- ");
    let flat = match v {
        BorrowedValue::Mapping(pairs) => {
            proof {
                lemma_dict_val(*pairs);
            }
            pairs.len() > 0
        },
        _ => false,
    };
    if flat {
        emit_pairs(v, child.as_str(), out);
    } else {
        emit_node(v, child.as_str(), out);
    }
    assert(encode_utf8(out@) =~= o + item_text(v.val(), encode_utf8(pad@)));
}

/// The entries of the mapping `v`.
fn emit_pairs(v: &BorrowedValue<'_>, pad: &str, out: &mut String)
    requires
        v is Mapping,
    ensures
        encode_utf8(final(out)@) == encode_utf8(old(out)@) + pairs_text(
            pairs_of(v->Mapping_0@),
            v->Mapping_0@.len() as int,
            encode_utf8(pad@),
        ),
    decreases v, 0int,
{
    let ghost o = encode_utf8(out@);
    let ghost p = encode_utf8(pad@);
    if let BorrowedValue::Mapping(pairs) = v {
        let ghost all = pairs_of(pairs@);
        let mut i: usize = 0;
        assert(encode_utf8(out@) =~= o + pairs_text(all, 0, p));
        while i < pairs.len()
            invariant
                *v == BorrowedValue::Mapping(*pairs),
                all == pairs_of(pairs@),
                p == encode_utf8(pad@),
                i <= pairs@.len(),
                encode_utf8(out@) == o + pairs_text(all, i as int, p),
            decreases pairs@.len() - i,
        {
            let ghost now = encode_utf8(out@);
            proof {
                lemma_pair_smaller(*v, i as int);
                assert(all[i as int] == (pairs@[i as int].0.val(), pairs@[i as int].1.val()));
            }
            if i > 0 {
                put_byte(out, LF);
                put(out, pad);
            }
            emit_kv(&pairs[i], pad, out);
            assert(encode_utf8(out@) =~= o + pairs_text(all, i + 1, p));
            i = i + 1;
        }
    }
}

fn emit_kv(kv: &(BorrowedValue<'_>, BorrowedValue<'_>), pad: &str, out: &mut String)
    ensures
        encode_utf8(final(out)@) == encode_utf8(old(out)@) + pair_text((kv.0.val(), kv.1.val()), encode_utf8(pad@)),
    decreases kv, 0int,
{
    let ghost o = encode_utf8(out@);
    let k = &kv.0;
    let v = &kv.1;
    proof {
        assert(decreases_to!(*kv => kv.0));
        assert(decreases_to!(*kv => kv.1));
    }
    let child = deeper(pad);
    let ghost p = encode_utf8(pad@);
    let ghost kt = node_text(k.val(), p + lit("  "));
    let ghost head = if explicit(k.val()) {
        lit("?") + (if breaks_first(k.val()) {
            Seq::empty()
        } else {
            lit(" ")
        }) + kt + seq![LF] + p
    } else {
        node_text(k.val(), p)
    };
    if key_needs_explicit(k) {
        put(out, "?");
        if !emits_leading_break(k) {
            put(out, " ");
        }
        emit_node(k, child.as_str(), out);
        put_byte(out, LF);
        put(out, pad);
        assert(encode_utf8(out@) =~= o + head);
    } else {
        emit_node(k, pad, out);
    }
    assert(encode_utf8(out@) == o + head);
    let ghost vt = node_text(v.val(), p + lit("  "));
    put(out, ":");
    if !emits_leading_break(v) {
        put(out, " ");
    }
    emit_node(v, child.as_str(), out);
    assert(encode_utf8(out@) =~= o + (head + lit(":") + (if breaks_first(v.val()) {
        Seq::empty()
    } else {
        lit(" ")
    }) + vt));
}

/// The YAML text of a value.
pub fn emit(v: &BorrowedValue<'_>) -> (r: Result<String, Error>)
    ensures
        r is Ok,
        encode_utf8(r->Ok_0@) == document_text(v.val()),
{
    let mut full = String::new();
    emit_node(v, "", &mut full);
    proof {
        reveal_strlit("");
        assert(encode_utf8(""@) =~= Seq::<u8>::empty());
        assert(encode_utf8(Seq::<char>::empty()) =~= Seq::<u8>::empty());
        lemma_text(full@);
        lemma_bd_ends(encode_utf8(full@));
    }
    let ghost t = node_text(v.val(), Seq::empty());
    assert(encode_utf8(full@) =~= t);
    let b = full.as_str().as_bytes();
    let n: usize = b.len();
    let from: usize = if n > 0 && b[0] == LF {
        proof {
            lemma_bd_ascii(t, 0);
        }
        1
    } else {
        0
    };
    let body = slice(full.as_str(), from, n);
    let ghost u = encode_utf8(body@);
    assert(u =~= (if t.len() > 0 && t[0] == LF {
        t.skip(1)
    } else {
        t
    }));
    let mut out = String::new();
    put(&mut out, body);
    assert(encode_utf8(out@) =~= u);
    if n == from || b[n - 1] != LF {
        put_byte(&mut out, LF);
    }
    Ok(out)
}

} // verus!
