//! What is emitted is read back as the same value.
use vstd::prelude::*;
use vstd::utf8::*;
use super::scalars::{
    holds, law_double_quoted_reads_back, law_int_reads_back, law_plain_reads_back, law_single_quoted_reads_back,
    lemma_ascii, lemma_decimal, lemma_holds_add, lemma_holds_at, meaning, plain_ends,
};
use super::steps::{
    step_bare, step_content_block, step_content_flow, step_content_scalar, step_content_seq, step_entry,
    step_explicit, step_explicit_entry, step_first_entry, step_flow_empty, step_flow_or_map, step_map_end,
    step_map_from, step_map_more, step_node_below, step_node_here, step_scalar, step_seq, step_seq_end,
    step_seq_more, step_tagged, step_value_below, step_value_here,
};
use crate::emitter::{
    block_body, block_text, breaks_first, dq_body, dq_byte, document_text, explicit, first_ink, fits_block,
    float_text, stays_inline, tag_gap, item_text, items_text, node_text, pair_text, pairs_text, single_quoted,
};
use crate::parser::grammar::{
    at_start, content, documents, flow_collection, map_entry, map_rest, map_value, next_document, node, node_here,
    past_directives, seq_rest, stream, St,
};
use crate::parser::layout::{
    col_at, doc_bound, indent_at, indicator_at, lemma_col, line_at, line_blank, line_comment, line_ends, moves,
    next_line, past_break, past_filler, Fail,
};
use crate::parser::tokens::{
    block_header, block_lines, block_scalar, breaks, chomped, past_blank_lines, past_spaces, plain_folded, props,
    props_from, tag_end, token, Block, Chomp, Props, Token,
};
use crate::patterns::{ctrl_in, is_ctrl, resolved, unfit_plain};
use crate::text::{
    at, decimal, is_blank, is_break, is_digit, lemma_run, run, Class, AMP, BANG, COLON, CR, DASH, DOT, DQUOTE,
    GREATER, HASH, LBRACE, LBRACKET, LESS, LF, PERCENT, PIPE, QUESTION, RBRACE, RBRACKET, SPACE, SQUOTE, STAR,
};
use crate::edit::sink::Extent;
use crate::parser::{bom_len, past_bom};
use crate::value::{
    absorbed_merges, int_text, is_merge_key, lit, merged, merged_pairs, own_entries, scalar_text, with_tag, Val,
};

verus! {

broadcast use moves;

/// `n` spaces.
pub open spec fn spaces(n: int) -> Seq<u8> {
    Seq::new(n as nat, |i: int| SPACE)
}

proof fn lemma_deeper(n: int)
    requires
        n >= 0,
    ensures
        spaces(n) + lit("  ") == spaces(n + 2),
{
    reveal_strlit("  ");
    lemma_ascii("  "@);
    assert(lit("  ") =~= spaces(2));
    assert(spaces(n) + lit("  ") =~= spaces(n + 2));
}

/// Whether a line with content, indented by less than `m`, starts at `l`.
pub open spec fn line_like(s: Seq<u8>, l: int, m: int) -> bool {
    let q = run(s, l, Class::Spaces);
    0 <= l <= s.len() && q < s.len() && q - l < m && !is_blank(s[q]) && !is_break(s[q]) && s[q] != HASH
}

/// Whether a text that ends at `e` ends its line, with `nx` the start of the next
/// one, which is indented by less than `m`, or the end.
pub open spec fn next_at(s: Seq<u8>, e: int, nx: int, m: int) -> bool {
    ||| e == s.len() && nx == s.len()
    ||| 0 <= e < s.len() && s[e] == LF && nx == e + 1 && (nx == s.len() || line_like(s, nx, m))
}

/// A line with content is no filler.
proof fn lemma_line_like(s: Seq<u8>, l: int, m: int)
    requires
        line_like(s, l, m),
    ensures
        past_filler(s, l) == l,
        past_blank_lines(s, l) == l,
        !line_blank(s, l),
        !line_comment(s, l),
        indent_at(s, l) == Some(run(s, l, Class::Spaces) - l),
        l < s.len(),
{
    let q = run(s, l, Class::Spaces);
    lemma_run(s, l, Class::Spaces);
    lemma_run(s, l, Class::Blank);
    let r = run(s, l, Class::Blank);
    if r > q {
        assert(Class::Blank.holds(s[q]));
    }
    if r < q {
        assert(Class::Spaces.holds(s[r]));
    }
}

/// What follows a text is reached by passing the filler.
proof fn lemma_next(s: Seq<u8>, e: int, nx: int, m: int)
    requires
        next_at(s, e, nx, m),
    ensures
        past_filler(s, e) == nx,
        past_filler(s, nx) == nx,
        run(s, e, Class::Blank) == e,
        line_ends(s, e),
        plain_ends(s, e),
        e <= nx <= s.len(),
{
    reveal_with_fuel(past_filler, 2);
    if e < s.len() {
        assert(line_blank(s, e));
        assert(run(s, e, Class::Line) == e);
        assert(next_line(s, e) == e + 1);
        if nx < s.len() {
            lemma_line_like(s, nx, m);
        }
    }
}

/// A plain scalar does not go on past the end of its line.
proof fn lemma_no_fold(s: Seq<u8>, t: Seq<u8>, e: int, nx: int, m: int)
    requires
        next_at(s, e, nx, m),
    ensures
        plain_folded(s, t, e, m) == Ok::<_, Fail>((t, e)),
{
    if e < s.len() {
        assert(past_break(s, e) == e + 1);
        if nx < s.len() {
            lemma_line_like(s, nx, m);
        }
    }
}

/// Whether a value that was read from `st` on ended in `st1`, before the line at
/// `nx`.
pub open spec fn read_to(s: Seq<u8>, st: St, st1: St, nx: int) -> bool {
    st.p <= st1.p <= s.len() && past_filler(s, st1.p) == nx && st1.a == st.a
}

/// Whether `r` is the value `v`, read from `st` on up to the line at `nx`.
pub open spec fn reads(s: Seq<u8>, st: St, r: Result<(Val, St), Fail>, v: Val, nx: int) -> bool {
    r is Ok && (r->Ok_0).0 == v && read_to(s, st, (r->Ok_0).1, nx)
}

/// The bytes that no scalar begins with and that begin other nodes.
proof fn lemma_token_content(s: Seq<u8>, st: St, n: int, m: int, e: int, nx: int, k: Token)
    requires
        0 <= st.p < s.len(),
        token(s, st.p) == Ok::<_, Fail>(k),
        run(s, k.p, Class::Blank) == e,
        st.p <= e,
        next_at(s, e, nx, m),
        !(s[st.p] == LBRACKET || s[st.p] == LBRACE || s[st.p] == PIPE || s[st.p] == GREATER || s[st.p] == STAR),
        !indicator_at(s, st.p, DASH),
        !indicator_at(s, st.p, QUESTION),
    ensures
        reads(s, st, content(s, st, n, m), meaning(k), nx),
{
    lemma_next(s, e, nx, m);
    lemma_no_fold(s, k.text, e, nx, m);
    step_content_scalar(s, st, n, m);
    step_scalar(s, st, n, m, k);
}

/// Whether what stands at `p` begins a scalar: neither a collection, a block
/// scalar or an alias, nor a tag, an anchor, a comment, a directive or a document
/// marker.
pub open spec fn scalar_start(s: Seq<u8>, p: int) -> bool {
    &&& 0 <= p < s.len()
    &&& !(s[p] == LBRACKET || s[p] == LBRACE || s[p] == PIPE || s[p] == GREATER || s[p] == STAR)
    &&& !(s[p] == BANG || s[p] == AMP || s[p] == HASH || s[p] == PERCENT)
    &&& !is_blank(s[p]) && !is_break(s[p])
    &&& !indicator_at(s, p, DASH) && !indicator_at(s, p, QUESTION) && !indicator_at(s, p, COLON)
    &&& !doc_bound(s, p)
}

/// A text that is fit to be written plain begins a scalar.
pub(crate) proof fn lemma_plain_start(s: Seq<u8>, p: int, t: Seq<u8>)
    requires
        holds(s, p, t),
        !unfit_plain(t),
        plain_ends(s, p + t.len()),
    ensures
        scalar_start(s, p),
        s[p] != DQUOTE && s[p] != SQUOTE,
{
    let e = p + t.len();
    lemma_holds_at(s, p, t, 0);
    assert(!is_ctrl(t[0]));
    assert(t.contains(t[0]));
    if t.len() > 1 {
        lemma_holds_at(s, p, t, 1);
        assert(!is_ctrl(t[1]));
        assert(t.contains(t[1]));
    }
    if t.len() > 2 {
        lemma_holds_at(s, p, t, 2);
    }
    lemma_run(s, e, Class::Blank);
    if run(s, e, Class::Blank) > e {
        assert(Class::Blank.holds(s[e]));
    }
    assert(at(s, e) != Some(DASH) && at(s, e) != Some(DOT));
}

/// Whether a scalar is written on one line and read back from what is written: an
/// integer that fits, a float that is spelled as YAML spells it, any string that
/// does not become a block scalar.
pub open spec fn line_scalar(v: Val) -> bool {
    match v {
        Val::Null => true,
        Val::Bool(_) => true,
        Val::Int(n) => i64::MIN <= n <= i64::MAX,
        Val::Float(t) => !unfit_plain(t) && resolved(t) == Val::Float(t) && float_text(t) == t,
        Val::Str(x) => !fits_block(x),
        _ => false,
    }
}

/// Text of digits and letters is fit to be written plain.
proof fn lemma_word_fit(t: Seq<u8>)
    requires
        t.len() > 0,
        forall|i: int| 0 <= i < t.len() ==> 0x30 <= #[trigger] t[i] <= 0x39 || 0x61 <= t[i] <= 0x7a || (i == 0 && t[i] == DASH),
        t[0] == DASH ==> t.len() > 1,
    ensures
        !unfit_plain(t),
{
    if t.len() > 1 {
        assert(0x30 <= t[1] <= 0x39 || 0x61 <= t[1] <= 0x7a);
    }
    assert(0x30 <= t[0] <= 0x39 || 0x61 <= t[0] <= 0x7a || t[0] == DASH);
    assert(0x30 <= t[t.len() - 1] <= 0x39 || 0x61 <= t[t.len() - 1] <= 0x7a || t[t.len() - 1] == DASH);
    if t.contains(LF) {
        let i = choose|i: int| 0 <= i < t.len() && t[i] == LF;
        assert(t[i] == LF);
    }
}

/// The text of a number or a word is fit to be written plain and stands for it.
pub(crate) proof fn lemma_plain_scalar(v: Val, pad: Seq<u8>)
    requires
        line_scalar(v),
        !(v is Str),
    ensures
        !unfit_plain(node_text(v, pad)),
        resolved(node_text(v, pad)) == v,
{
    match v {
        Val::Null => {
            reveal_strlit("null");
            lemma_ascii("null"@);
            lemma_word_fit(lit("null"));
        },
        Val::Bool(b) => {
            reveal_strlit("true");
            reveal_strlit("false");
            lemma_ascii("true"@);
            lemma_ascii("false"@);
            reveal_strlit("");
            reveal_strlit("~");
            reveal_strlit("null");
            reveal_strlit("Null");
            reveal_strlit("NULL");
            reveal_strlit("True");
            reveal_strlit("TRUE");
            lemma_ascii(""@);
            lemma_ascii("~"@);
            lemma_ascii("null"@);
            lemma_ascii("Null"@);
            lemma_ascii("NULL"@);
            lemma_ascii("True"@);
            lemma_ascii("TRUE"@);
            assert(lit("~").len() == 1);
            assert(lit("null")[0] == 0x6e);
            assert(lit("Null")[0] == 0x4e);
            assert(lit("NULL")[0] == 0x4e);
            assert(lit("True")[0] == 0x54);
            assert(lit("TRUE")[0] == 0x54);
            assert(lit("true")[0] == 0x74);
            assert(lit("false")[0] == 0x66);
            lemma_word_fit(lit("true"));
            lemma_word_fit(lit("false"));
        },
        Val::Int(n) => {
            law_int_reads_back(n);
            let t = int_text(n);
            if n < 0 {
                let d = decimal((-n) as nat);
                lemma_decimal((-n) as nat);
                assert forall|i: int| 0 <= i < t.len() implies 0x30 <= #[trigger] t[i] <= 0x39 || 0x61 <= t[i] <= 0x7a || (i
                    == 0 && t[i] == DASH) by {
                    if i > 0 {
                        assert(t[i] == d[i - 1]);
                        assert(is_digit(d[i - 1]));
                    }
                }
            } else {
                lemma_decimal(n as nat);
                assert forall|i: int| 0 <= i < t.len() implies 0x30 <= #[trigger] t[i] <= 0x39 || 0x61 <= t[i] <= 0x7a || (i
                    == 0 && t[i] == DASH) by {
                    assert(is_digit(decimal(n as nat)[i]));
                }
            }
            lemma_word_fit(t);
        },
        _ => {},
    }
}

/// Quotes without a quote inside are the quotes of a single-quoted scalar.
proof fn lemma_sq_plain(t: Seq<u8>)
    requires
        !t.contains(SQUOTE),
    ensures
        single_quoted(t) == seq![SQUOTE] + t + seq![SQUOTE],
{
    lemma_sq_body_plain(t);
}

proof fn lemma_sq_body_plain(t: Seq<u8>)
    requires
        !t.contains(SQUOTE),
    ensures
        crate::emitter::sq_body(t) == t,
    decreases t.len(),
{
    if t.len() > 0 {
        let d = t.drop_last();
        if d.contains(SQUOTE) {
            let i = choose|i: int| 0 <= i < d.len() && d[i] == SQUOTE;
            assert(t[i] == SQUOTE);
        }
        lemma_sq_body_plain(d);
        assert(t[t.len() - 1] != SQUOTE);
        assert(d.push(t.last()) =~= t);
    } else {
        assert(t =~= Seq::empty());
    }
}

/// A scalar that is written on one line is read back as a token.
proof fn lemma_scalar_token(v: Val, pad: Seq<u8>, s: Seq<u8>, p: int)
    requires
        line_scalar(v),
        holds(s, p, node_text(v, pad)),
        plain_ends(s, p + node_text(v, pad).len()),
    ensures
        scalar_start(s, p),
        token(s, p) is Ok,
        meaning(token(s, p)->Ok_0) == v,
        run(s, token(s, p)->Ok_0.p, Class::Blank) == run(s, p + node_text(v, pad).len(), Class::Blank),
        p < p + node_text(v, pad).len() <= token(s, p)->Ok_0.p,
{
    let t = node_text(v, pad);
    let e = p + t.len();
    lemma_run(s, e, Class::Blank);
    assert(at(s, e) != Some(SQUOTE)) by {
        if e < run(s, e, Class::Blank) {
            assert(Class::Blank.holds(s[e]));
        }
    }
    match v {
        Val::Str(x) => {
            if unfit_plain(x) || !(resolved(x) is Str) {
                if !ctrl_in(x) && !x.contains(LF) && !x.contains(SQUOTE) {
                    lemma_sq_plain(x);
                    if x.contains(CR) {
                        let i = choose|i: int| 0 <= i < x.len() && x[i] == CR;
                        assert(is_ctrl(x[i]));
                    }
                    law_single_quoted_reads_back(s, p, x);
                } else {
                    law_double_quoted_reads_back(s, p, x);
                }
            } else {
                law_plain_reads_back(s, p, x);
                lemma_plain_start(s, p, x);
            }
        },
        _ => {
            lemma_plain_scalar(v, pad);
            law_plain_reads_back(s, p, t);
            lemma_plain_start(s, p, t);
        },
    }
}

/// A scalar that is written on one line is read back as a node.
proof fn lemma_scalar(v: Val, pad: Seq<u8>, s: Seq<u8>, st: St, n: int, m: int, nx: int)
    requires
        line_scalar(v),
        holds(s, st.p, node_text(v, pad)),
        next_at(s, st.p + node_text(v, pad).len(), nx, m),
    ensures
        scalar_start(s, st.p),
        reads(s, st, content(s, st, n, m), v, nx),
{
    let e = st.p + node_text(v, pad).len();
    lemma_next(s, e, nx, m);
    lemma_scalar_token(v, pad, s, st.p);
    lemma_token_content(s, st, n, m, e, nx, token(s, st.p)->Ok_0);
}

/// An empty collection is read back.
proof fn lemma_empty_collection(v: Val, pad: Seq<u8>, s: Seq<u8>, st: St, n: int, m: int, nx: int)
    requires
        v == Val::List(Seq::empty()) || v == Val::Dict(Seq::empty()),
        holds(s, st.p, node_text(v, pad)),
        next_at(s, st.p + node_text(v, pad).len(), nx, m),
    ensures
        reads(s, st, content(s, st, n, m), v, nx),
        0 <= st.p < s.len(),
        s[st.p] == LBRACKET || s[st.p] == LBRACE,
{
    let t = node_text(v, pad);
    reveal_strlit("[]");
    reveal_strlit("{}");
    lemma_ascii("[]"@);
    lemma_ascii("{}"@);
    assert(lit("[]") =~= seq![LBRACKET, RBRACKET]);
    assert(lit("{}") =~= seq![LBRACE, RBRACE]);
    lemma_holds_at(s, st.p, t, 0);
    lemma_holds_at(s, st.p, t, 1);
    lemma_next(s, st.p + 2, nx, m);
    let outer = st.with(st.t.open(st.p, false));
    step_content_flow(s, st, n, m);
    step_flow_empty(s, outer);
    let (w, st1) = flow_collection(s, outer)->Ok_0;
    step_flow_or_map(s, st, n, w, st1);
}

proof fn lemma_first_ink(x: Seq<u8>, i: int)
    requires
        0 <= i <= x.len(),
    ensures
        i <= first_ink(x, i) <= x.len(),
        first_ink(x, i) < x.len() ==> x[first_ink(x, i)] != SPACE && x[first_ink(x, i)] != LF,
        forall|j: int| i <= j < first_ink(x, i) ==> (#[trigger] x[j] == SPACE || x[j] == LF),
    decreases x.len() - i,
{
    if i < x.len() && (x[i] == SPACE || x[i] == LF) {
        lemma_first_ink(x, i + 1);
    }
}

/// The parts of a line of a block scalar's body that stands at `y`.
proof fn lemma_body_line(x: Seq<u8>, a: int, d: int, s: Seq<u8>, y: int)
    requires
        0 <= a <= x.len(),
        d >= 0,
        holds(s, y, block_body(x, a, spaces(d))),
        !ctrl_in(x),
    ensures
        ({
            let e = run(x, a, Class::Until(LF));
            let g = if a < e {
                d
            } else {
                0
            };
            &&& a <= e <= x.len()
            &&& s[y] == LF
            &&& y + 1 + g + (e - a) <= s.len()
            &&& forall|i: int| y + 1 <= i < y + 1 + g ==> #[trigger] s[i] == SPACE
            &&& forall|i: int| a <= i < e ==> s[y + 1 + g + (i - a)] == #[trigger] x[i]
            &&& forall|i: int| y + 1 + g <= i < y + 1 + g + (e - a) ==> !is_break(#[trigger] s[i])
            &&& s.subrange(y + 1 + g, y + 1 + g + (e - a)) == x.subrange(a, e)
            &&& e < x.len() ==> x[e] == LF && holds(s, y + 1 + g + (e - a), block_body(x, e + 1, spaces(d)))
            &&& e == x.len() ==> y + block_body(x, a, spaces(d)).len() == y + 1 + g + (e - a)
            &&& e < x.len() ==> y + block_body(x, a, spaces(d)).len() == y + 1 + g + (e - a) + block_body(
                x,
                e + 1,
                spaces(d),
            ).len()
        }),
{
    let e = run(x, a, Class::Until(LF));
    lemma_run(x, a, Class::Until(LF));
    let pad = spaces(d);
    let body = if a < e {
        pad + x.subrange(a, e)
    } else {
        Seq::empty()
    };
    let g = if a < e {
        d
    } else {
        0
    };
    let line = seq![LF] + body;
    assert(line.len() == 1 + g + (e - a));
    if e < x.len() {
        lemma_holds_add(s, y, line, block_body(x, e + 1, pad));
    }
    assert(holds(s, y, line));
    lemma_holds_at(s, y, line, 0);
    assert forall|i: int| y + 1 <= i < y + 1 + g implies #[trigger] s[i] == SPACE by {
        lemma_holds_at(s, y, line, i - y);
    }
    assert forall|i: int| a <= i < e implies s[y + 1 + g + (i - a)] == #[trigger] x[i] by {
        lemma_holds_at(s, y, line, 1 + g + (i - a));
    }
    assert forall|i: int| y + 1 + g <= i < y + 1 + g + (e - a) implies !is_break(#[trigger] s[i]) by {
        lemma_holds_at(s, y, line, i - y);
        let j = a + (i - (y + 1 + g));
        assert(s[i] == x[j]);
        assert(Class::Until(LF).holds(x[j]));
        assert(!is_ctrl(x[j]));
    }
    assert(s.subrange(y + 1 + g, y + 1 + g + (e - a)) =~= x.subrange(a, e));
}

/// A run that meets only members up to a byte outside ends there.
pub(crate) proof fn lemma_run_to(s: Seq<u8>, p: int, c: Class, e: int)
    requires
        0 <= p <= e <= s.len(),
        forall|i: int| p <= i < e ==> c.holds(#[trigger] s[i]),
        e == s.len() || !c.holds(s[e]),
    ensures
        run(s, p, c) == e,
    decreases e - p,
{
    if p < e {
        lemma_run_to(s, p + 1, c, e);
    }
}

/// The indentation of a block scalar's body is found from its first line with
/// more than spaces.
proof fn lemma_body_depth(x: Seq<u8>, a: int, d: int, s: Seq<u8>, y: int)
    requires
        0 <= a <= x.len(),
        a == 0 || x[a - 1] == LF,
        d >= 0,
        holds(s, y, block_body(x, a, spaces(d))),
        !ctrl_in(x),
        first_ink(x, a) < x.len(),
        first_ink(x, a) == 0 || x[first_ink(x, a) - 1] == LF,
    ensures
        ({
            let q = past_blank_lines(s, y + 1);
            run(s, q, Class::Spaces) - q == d
        }),
    decreases x.len() - a,
{
    let e = run(x, a, Class::Until(LF));
    let f = first_ink(x, a);
    lemma_first_ink(x, a);
    lemma_body_line(x, a, d, s, y);
    lemma_run(x, a, Class::Until(LF));
    let g = if a < e {
        d
    } else {
        0
    };
    let l = y + 1;
    let z = l + g + (e - a);
    if f < e {
        // The line begins with its first ink.
        if f > a {
            assert(Class::Until(LF).holds(x[f - 1]));
        }
        assert(f == a);
        assert(s[l + d] == x[a]);
        assert(!is_ctrl(x[a]));
        lemma_run_to(s, l, Class::Spaces, l + d);
        assert forall|i: int| l <= i < l + d implies Class::Blank.holds(#[trigger] s[i]) by {
            assert(s[i] == SPACE);
        }
        lemma_run_to(s, l, Class::Blank, l + d);
        assert(!line_blank(s, l));
    } else {
        // Spaces alone, then a line break.
        assert(e < x.len()) by {
            if e == x.len() {
                assert(f == e);
            }
        }
        lemma_holds_at(s, z, block_body(x, e + 1, spaces(d)), 0);
        assert(s[z] == LF);
        assert forall|i: int| l <= i < z implies Class::Blank.holds(#[trigger] s[i]) by {
            if i < l + g {
                assert(s[i] == SPACE);
            } else {
                let j = a + (i - (l + g));
                assert(s[i] == x[j]);
                assert(x[j] == SPACE || x[j] == LF);
                assert(Class::Until(LF).holds(x[j]));
            }
        }
        lemma_run_to(s, l, Class::Blank, z);
        assert(line_blank(s, l));
        assert forall|i: int| l <= i < z implies Class::Line.holds(#[trigger] s[i]) by {
            assert(Class::Blank.holds(s[i]));
        }
        lemma_run_to(s, l, Class::Line, z);
        assert(next_line(s, l) == z + 1);
        lemma_ink_on(x, a, e + 1);
        lemma_body_depth(x, e + 1, d, s, z);
    }
}

/// The first ink is the same from anywhere before it.
proof fn lemma_ink_on(x: Seq<u8>, i: int, j: int)
    requires
        0 <= i <= j <= first_ink(x, i),
        first_ink(x, i) <= x.len(),
    ensures
        first_ink(x, j) == first_ink(x, i),
    decreases j - i,
{
    if i < j {
        lemma_ink_on(x, i + 1, j);
    }
}

/// What has been read of a literal block scalar, each line with its line break.
pub open spec fn so_far(b: Block) -> Seq<u8> {
    if b.any {
        b.text + breaks(b.empties + 1)
    } else {
        breaks(b.empties)
    }
}

/// Past at most `d` spaces, where there are at least that many.
proof fn lemma_past_spaces(s: Seq<u8>, l: int, d: int, k: int)
    requires
        0 <= l,
        0 <= k <= d,
        l + k <= s.len(),
        forall|i: int| l <= i < l + k ==> #[trigger] s[i] == SPACE,
        k == d || l + k == s.len() || s[l + k] != SPACE,
    ensures
        past_spaces(s, l, d) == l + k,
    decreases d,
{
    if k > 0 {
        lemma_past_spaces(s, l + 1, d - 1, k - 1);
    }
}

/// A block scalar ends before a line that is indented less.
proof fn lemma_end_lines(s: Seq<u8>, nx: int, d: int, m: int, b: Block)
    requires
        m <= d,
        nx == s.len() || line_like(s, nx, m),
    ensures
        block_lines(s, nx, d, false, b) == (b, nx),
{
    if nx < s.len() {
        let q = run(s, nx, Class::Spaces);
        lemma_run(s, nx, Class::Spaces);
        assert forall|i: int| nx <= i < q implies #[trigger] s[i] == SPACE by {
            assert(Class::Spaces.holds(s[i]));
        }
        lemma_past_spaces(s, nx, d, q - nx);
        assert(run(s, q, Class::Blank) == q);
        assert(!line_blank(s, q));
    }
}

/// The lines of a block scalar are read back, up to what follows.
proof fn lemma_body_lines(x: Seq<u8>, a: int, d: int, s: Seq<u8>, y: int, b: Block, nx: int, m: int)
    requires
        0 <= a <= x.len(),
        m <= d,
        2 <= d,
        holds(s, y, block_body(x, a, spaces(d))),
        !ctrl_in(x),
        x.len() > 0,
        so_far(b) == x.take(a),
        a == x.len() ==> b.any && x.last() == LF && b.empties == 0,
        0 <= b.empties,
        next_at(s, y + block_body(x, a, spaces(d)).len(), nx, m),
        !(x.len() > 1 && x.last() == LF && x[x.len() - 2] == LF),
        first_ink(x, 0) < x.len(),
        !b.any ==> first_ink(x, 0) >= a && b.text == Seq::<u8>::empty(),
    ensures
        ({
            let r = block_lines(s, y + 1, d, false, b);
            &&& r.1 == nx
            &&& r.0.any
            &&& r.0.text == (if x.last() == LF {
                x.drop_last()
            } else {
                x
            })
        }),
    decreases x.len() - a,
{
    let e = run(x, a, Class::Until(LF));
    lemma_body_line(x, a, d, s, y);
    lemma_run(x, a, Class::Until(LF));
    lemma_first_ink(x, 0);
    let g = if a < e {
        d
    } else {
        0
    };
    let l = y + 1;
    let z = l + g + (e - a);
    lemma_next(s, y + block_body(x, a, spaces(d)).len(), nx, m);
    // Where the line ends.
    if e < x.len() {
        lemma_holds_at(s, z, block_body(x, e + 1, spaces(d)), 0);
    }
    assert(z == s.len() || s[z] == LF);
    assert forall|i: int| l <= i < z implies Class::Line.holds(#[trigger] s[i]) by {
        if i < l + g {
            assert(s[i] == SPACE);
        }
    }
    lemma_run_to(s, l, Class::Line, z);
    assert(next_line(s, l) == (if z < s.len() {
        z + 1
    } else {
        z
    }));
    if a == e {
        // An empty line.
        if e == x.len() {
            assert(z == l);
            assert(x.take(a) =~= x);
            assert(breaks(1) =~= seq![LF]);
            assert(b.text + breaks(1) == x);
            assert(x.drop_last() =~= b.text);
            if l < s.len() {
                lemma_past_spaces(s, l, d, 0);
                lemma_end_lines(s, nx, d, m, Block { empties: b.empties + 1, ..b });
            }
        } else {
            let c = Block { empties: b.empties + 1, ..b };
            lemma_past_spaces(s, l, d, 0);
            assert(so_far(c) =~= so_far(b).push(LF)) by {
                assert(breaks(b.empties + 1) =~= breaks(b.empties).push(LF));
                assert(breaks(b.empties + 2) =~= breaks(b.empties + 1).push(LF));
            }
            assert(x.take(e + 1) =~= x.take(a).push(LF));
            if e + 1 == x.len() {
                // The text would end in two line breaks, or be nothing but one.
                assert(x.last() == LF);
                if a > 0 {
                    assert(so_far(b).len() == a);
                    assert(x.take(a).last() == x[a - 1]);
                    assert(so_far(b).last() == LF);
                    assert(false);
                } else {
                    assert(first_ink(x, 0) >= 1) by {
                        assert(x[0] == LF);
                        assert(first_ink(x, 0) == first_ink(x, 1));
                    }
                    assert(false);
                }
            }
            if !b.any {
                assert(first_ink(x, 0) != a);
            }
            lemma_body_lines(x, e + 1, d, s, z, c, nx, m);
        }
    } else {
        lemma_past_spaces(s, l, d, d);
        let more = is_blank(s[l + d]);
        assert(!is_break(s[l + d]));
        let c = Block { text: x.take(e), empties: 0, any: true, more };
        assert(!doc_bound(s, l)) by {
            assert(s[l] == SPACE);
        }
        lemma_run_to(s, l + d, Class::Line, z);
        let glue = crate::parser::tokens::block_glue(b, false, more);
        assert(b.text + glue == so_far(b)) by {
            if !b.any {
                assert(Seq::<u8>::empty() + glue =~= glue);
            }
        }
        assert(b.text + glue + s.subrange(l + d, z) =~= x.take(e));
        if e == x.len() {
            assert(x.take(e) =~= x);
            assert(x.last() != LF) by {
                assert(Class::Until(LF).holds(x[e - 1]));
            }
            if nx == z {
                assert(z == s.len());
            }
            lemma_end_lines(s, nx, d, m, c);
        } else {
            assert(so_far(c) =~= x.take(e + 1)) by {
                assert(breaks(1) =~= seq![LF]);
            }
            lemma_body_lines(x, e + 1, d, s, z, c, nx, m);
        }
    }
}

/// A string that is written as a block scalar is read back.
proof fn lemma_block(x: Seq<u8>, k: int, s: Seq<u8>, st: St, n: int, m: int, nx: int)
    requires
        fits_block(x),
        k >= 0,
        m <= k + 2,
        holds(s, st.p, node_text(Val::Str(x), spaces(k))),
        next_at(s, st.p + node_text(Val::Str(x), spaces(k)).len(), nx, m),
    ensures
        reads(s, st, content(s, st, n, m), Val::Str(x), nx),
        0 <= st.p < s.len(),
        s[st.p] == PIPE,
{
    let p = st.p;
    let d = k + 2;
    lemma_deeper(k);
    let body = block_body(x, 0, spaces(d));
    reveal_strlit("|");
    reveal_strlit("-");
    lemma_ascii("|"@);
    lemma_ascii("-"@);
    assert(lit("|") =~= seq![PIPE]);
    assert(lit("-") =~= seq![DASH]);
    let clip = x.last() == LF;
    let head: Seq<u8> = if clip {
        seq![PIPE]
    } else {
        seq![PIPE, DASH]
    };
    let t = node_text(Val::Str(x), spaces(k));
    assert(t == block_text(x, spaces(k)));
    assert(t =~= head + body);
    lemma_holds_add(s, p, head, body);
    lemma_holds_at(s, p, head, 0);
    if !clip {
        lemma_holds_at(s, p, head, 1);
    }
    let y = p + head.len();
    lemma_body_line(x, 0, d, s, y);
    assert(block_header(s, p + 1) == (if clip {
        (Chomp::Clip, None::<int>, y)
    } else {
        (Chomp::Strip, None::<int>, y)
    }));
    assert(run(s, y, Class::Blank) == y);
    assert(past_break(s, y) == y + 1);
    lemma_first_ink(x, 0);
    lemma_body_depth(x, 0, d, s, y);
    let b = Block { text: Seq::empty(), empties: 0, any: false, more: false };
    assert(so_far(b) =~= x.take(0));
    lemma_body_lines(x, 0, d, s, y, b, nx, m);
    lemma_next(s, p + t.len(), nx, m);
    let r = block_lines(s, y + 1, d, false, b);
    assert(block_scalar(s, p, m) == Ok::<_, Fail>(
        (chomped(r.0, if clip {
            Chomp::Clip
        } else {
            Chomp::Strip
        }), nx),
    ));
    if clip {
        assert(x.drop_last().push(LF) =~= x);
    }
    step_content_block(s, st, n, m);
}

/// Whether a tag is read back and stays on its value.
pub open spec fn custom_tag(tag: Seq<u8>) -> bool {
    &&& tag.len() > 0 && tag[0] == BANG
    &&& if tag.len() > 1 && tag[1] == LESS {
        tag.len() > 2 && tag.last() == GREATER && forall|i: int| 2 <= i < tag.len() - 1 ==> #[trigger] tag[i] != GREATER
    } else {
        forall|i: int| 1 <= i < tag.len() ==> Class::Name.holds(#[trigger] tag[i])
    }
    &&& forall|v: Val| #[trigger] with_tag(tag, v) == Val::Tagged(tag, Box::new(v))
}

/// Whether a value is read back from what is emitted for it.
///
/// Left out are numbers that do not fit, floats that YAML spells otherwise, tags that
/// are not read back as such, and merge keys.
pub open spec fn faithful(v: Val) -> bool
    decreases v,
{
    match v {
        Val::Str(_) => true,
        Val::List(vs) => faithful_items(vs),
        Val::Dict(ps) => faithful_pairs(ps),
        Val::Tagged(tag, b) => custom_tag(tag) && faithful(*b),
        _ => line_scalar(v),
    }
}

/// Whether the items of a sequence are read back.
pub open spec fn faithful_items(vs: Seq<Val>) -> bool
    decreases vs,
{
    forall|i: int| 0 <= i < vs.len() ==> faithful(#[trigger] vs[i])
}

/// Whether the entries of a mapping are read back.
pub open spec fn faithful_pairs(ps: Seq<(Val, Val)>) -> bool
    decreases ps,
{
    forall|i: int|
        0 <= i < ps.len() ==> faithful((#[trigger] ps[i]).0) && faithful(ps[i].1) && !is_merge_key(ps[i].0)
}

/// Whether an entry of a mapping is read back.
pub open spec fn faithful_pair(kv: (Val, Val)) -> bool {
    &&& faithful(kv.0) && faithful(kv.1)
    &&& !is_merge_key(kv.0)
}

pub(crate) proof fn lemma_faithful_pair(ps: Seq<(Val, Val)>, i: int)
    requires
        faithful(Val::Dict(ps)),
        0 <= i < ps.len(),
    ensures
        faithful_pair(ps[i]),
{
    assert(faithful_pairs(ps));
}

/// Whether what stands at `p` begins a node: no white space, comment, directive
/// or document marker.
pub open spec fn node_start(s: Seq<u8>, p: int) -> bool {
    &&& 0 <= p < s.len()
    &&& !is_blank(s[p]) && !is_break(s[p])
    &&& s[p] != HASH && s[p] != PERCENT && s[p] != AMP
    &&& !doc_bound(s, p)
}

proof fn lemma_tag(s: Seq<u8>, p: int, tag: Seq<u8>)
    requires
        custom_tag(tag),
        holds(s, p, tag),
        p + tag.len() < s.len(),
        s[p + tag.len()] == SPACE || s[p + tag.len()] == LF,
    ensures
        tag_end(s, p) == p + tag.len(),
        s[p] == BANG,
        s.subrange(p, tag_end(s, p)) == tag,
{
    let e = p + tag.len();
    lemma_holds_at(s, p, tag, 0);
    if tag.len() > 1 && tag[1] == LESS {
        lemma_holds_at(s, p, tag, 1);
        lemma_holds_at(s, p, tag, tag.len() - 1);
        assert forall|i: int| p + 2 <= i < e - 1 implies Class::Until(GREATER).holds(#[trigger] s[i]) by {
            lemma_holds_at(s, p, tag, i - p);
        }
        lemma_run_to(s, p + 2, Class::Until(GREATER), e - 1);
    } else {
        if tag.len() > 1 {
            lemma_holds_at(s, p, tag, 1);
        }
        assert forall|i: int| p + 1 <= i < e implies Class::Name.holds(#[trigger] s[i]) by {
            lemma_holds_at(s, p, tag, i - p);
        }
        lemma_run_to(s, p + 1, Class::Name, e);
    }
}

/// One tag, then the node.
proof fn lemma_tag_props(s: Seq<u8>, p: int, tag: Seq<u8>, q: int)
    requires
        custom_tag(tag),
        holds(s, p, tag),
        p + tag.len() < s.len(),
        s[p + tag.len()] == SPACE || s[p + tag.len()] == LF,
        q == run(s, p + tag.len(), Class::Blank),
        at(s, q) != Some(AMP),
    ensures
        props(s, p, false) == Ok::<_, Fail>((Props { tag: Some(tag), anchor: None }, q)),
        p < q <= s.len(),
{
    lemma_tag(s, p, tag);
    let got = Props { tag: Some(tag), anchor: None };
    assert(props_from(s, q, false, got) == Ok::<_, Fail>((got, q)));
}

/// A wider bound on the indentation of the next line.
proof fn lemma_next_wider(s: Seq<u8>, e: int, nx: int, m: int, w: int)
    requires
        next_at(s, e, nx, m),
        m <= w,
    ensures
        next_at(s, e, nx, w),
{
}

/// A line that starts with `k` spaces and a node.
pub(crate) proof fn lemma_line_start(s: Seq<u8>, l: int, k: int)
    requires
        0 <= l,
        k >= 0,
        holds(s, l, spaces(k)),
        node_start(s, l + k),
    ensures
        line_like(s, l, k + 1),
        run(s, l, Class::Spaces) == l + k,
        past_filler(s, l) == l,
        indent_at(s, l) == Some(k),
        !doc_bound(s, l),
{
    assert forall|i: int| l <= i < l + k implies Class::Spaces.holds(#[trigger] s[i]) by {
        lemma_holds_at(s, l, spaces(k), i - l);
    }
    lemma_run_to(s, l, Class::Spaces, l + k);
    lemma_line_like(s, l, k + 1);
    if k > 0 {
        lemma_holds_at(s, l, spaces(k), 0);
    }
}

/// A node that does not begin with a line break is read back where it stands.
proof fn lemma_here(v: Val, k: int, s: Seq<u8>, st: St, n: int, m: int, nx: int)
    requires
        faithful(v),
        !breaks_first(v),
        k >= 0,
        m <= k,
        holds(s, st.p, node_text(v, spaces(k))),
        next_at(s, st.p + node_text(v, spaces(k)).len(), nx, m),
    ensures
        node_start(s, st.p),
        !(v is Tagged) ==> s[st.p] != BANG,
        reads(s, st, node_here(s, st, n, m), v, nx),
    decreases v, 2int,
{
    let pad = spaces(k);
    let t = node_text(v, pad);
    match v {
        Val::Tagged(tag, b) => {
            let gap = tag_gap(*b, pad);
            let u = node_text(*b, pad);
            reveal_strlit(" ");
            lemma_ascii(" "@);
            assert(lit(" ") =~= seq![SPACE]);
            assert(t =~= tag + (gap + u));
            lemma_holds_add(s, st.p, tag, gap + u);
            lemma_holds_add(s, st.p + tag.len(), gap, u);
            let e = st.p + tag.len();
            let q = e + gap.len();
            let inner = st.to(q);
            if *b is Tagged {
                lemma_tag_below(*b, k, s, st.to(e), m, nx);
                lemma_run_to(s, e, Class::Blank, e);
                lemma_tag_props(s, st.p, tag, e);
                step_tagged(s, st, n, m, tag, e);
            } else if stays_inline(*b) {
                lemma_holds_at(s, e, gap, 0);
                lemma_here(*b, k, s, inner, n, m, nx);
                lemma_run_to(s, e, Class::Blank, q);
                lemma_tag_props(s, st.p, tag, q);
                step_tagged(s, st, n, m, tag, q);
                step_bare(s, inner, n, m);
            } else {
                assert(breaks_first(*b));
                lemma_below(*b, k, s, inner, m, nx);
                lemma_run_to(s, e, Class::Blank, q);
                lemma_tag_props(s, st.p, tag, q);
                step_tagged(s, st, n, m, tag, q);
            }
            lemma_tag(s, st.p, tag);
        },
        Val::List(vs) => {
            assert(vs =~= Seq::empty());
            lemma_empty_collection(v, pad, s, st, n, m, nx);
            step_bare(s, st, n, m);
        },
        Val::Dict(ps) => {
            assert(ps =~= Seq::empty());
            lemma_empty_collection(v, pad, s, st, n, m, nx);
            step_bare(s, st, n, m);
        },
        Val::Str(x) if !line_scalar(v) => {
            lemma_block(x, k, s, st, n, m, nx);
            step_bare(s, st, n, m);
        },
        _ => {
            lemma_scalar(v, pad, s, st, n, m, nx);
            step_bare(s, st, n, m);
        },
    }
}

/// A tagged value on the line below is read back.
proof fn lemma_tag_below(v: Val, k: int, s: Seq<u8>, st: St, m: int, nx: int)
    requires
        faithful(v),
        v is Tagged,
        k >= 0,
        m <= k,
        holds(s, st.p, seq![LF] + spaces(k)),
        holds(s, st.p + 1 + k, node_text(v, spaces(k))),
        next_at(s, st.p + 1 + k + node_text(v, spaces(k)).len(), nx, m),
    ensures
        reads(s, st, node(s, st, m), v, nx),
        0 <= st.p < s.len(),
        s[st.p] == LF,
    decreases v, 3int,
{
    let pad = spaces(k);
    let l = st.p + 1;
    lemma_holds_add(s, st.p, seq![LF], pad);
    lemma_holds_at(s, st.p, seq![LF], 0);
    assert forall|i: int| l <= i < l + k implies !is_break(#[trigger] s[i]) by {
        lemma_holds_at(s, l, pad, i - l);
    }
    let inner = st.to(l + k);
    lemma_col(s, l, l + k);
    lemma_here(v, k, s, inner, k, m, nx);
    lemma_line_start(s, l, k);
    assert(past_filler(s, st.p) == l) by {
        reveal_with_fuel(past_filler, 2);
        assert(run(s, st.p, Class::Blank) == st.p);
        assert(run(s, st.p, Class::Line) == st.p);
        assert(next_line(s, st.p) == l);
    }
    step_node_below(s, st, m);
}

/// A collection on the lines below is read back.
proof fn lemma_below(v: Val, k: int, s: Seq<u8>, st: St, m: int, nx: int)
    requires
        faithful(v),
        breaks_first(v),
        k >= 0,
        m <= k,
        holds(s, st.p, node_text(v, spaces(k))),
        next_at(s, st.p + node_text(v, spaces(k)).len(), nx, m),
    ensures
        reads(s, st, node(s, st, m), v, nx),
        0 <= st.p < s.len(),
        s[st.p] == LF,
    decreases v, 1int,
{
    let l = st.p + 1;
    lemma_below_start(v, k, s, st.p);
    let inner = st.to(l + k);
    lemma_col(s, l, l + k);
    lemma_collection(v, k, s, inner, m, nx);
    lemma_line_start(s, l, k);
    assert(past_filler(s, st.p) == l) by {
        reveal_with_fuel(past_filler, 2);
        assert(run(s, st.p, Class::Blank) == st.p);
        assert(run(s, st.p, Class::Line) == st.p);
        assert(next_line(s, st.p) == l);
    }
    step_node_below(s, st, m);
    step_bare(s, inner, k, m);
}

/// The text of the parts of a collection.
pub open spec fn parts_text(v: Val, pad: Seq<u8>) -> Seq<u8> {
    match v {
        Val::List(vs) => items_text(vs, vs.len() as int, pad),
        Val::Dict(ps) => pairs_text(ps, ps.len() as int, pad),
        _ => Seq::empty(),
    }
}

/// A collection begins with a line break and its indentation.
proof fn lemma_below_start(v: Val, k: int, s: Seq<u8>, p: int)
    requires
        breaks_first(v),
        k >= 0,
        holds(s, p, node_text(v, spaces(k))),
    ensures
        s[p] == LF,
        p + 1 + k <= s.len(),
        holds(s, p + 1, spaces(k)),
        forall|i: int| p + 1 <= i < p + 1 + k ==> !is_break(#[trigger] s[i]),
        holds(s, p + 1 + k, parts_text(v, spaces(k))),
        p + node_text(v, spaces(k)).len() == p + 1 + k + parts_text(v, spaces(k)).len(),
        col_at(s, p + 1) == 0,
{
    let pad = spaces(k);
    let u = parts_text(v, pad);
    let t = node_text(v, pad);
    assert(t =~= seq![LF] + (pad + u));
    lemma_holds_add(s, p, seq![LF], pad + u);
    lemma_holds_add(s, p + 1, pad, u);
    lemma_holds_at(s, p, seq![LF], 0);
    assert forall|i: int| p + 1 <= i < p + 1 + k implies !is_break(#[trigger] s[i]) by {
        lemma_holds_at(s, p + 1, pad, i - (p + 1));
    }
}

/// The first items of a sequence are written first.
proof fn lemma_items_prefix(vs: Seq<Val>, j: int, pad: Seq<u8>)
    requires
        0 <= j <= vs.len(),
    ensures
        items_text(vs, j, pad).len() <= items_text(vs, vs.len() as int, pad).len(),
        items_text(vs, vs.len() as int, pad).take(items_text(vs, j, pad).len() as int) == items_text(vs, j, pad),
    decreases vs.len() - j,
{
    let whole = items_text(vs, vs.len() as int, pad);
    let a = items_text(vs, j, pad);
    if j == vs.len() {
        assert(whole.take(whole.len() as int) =~= whole);
    } else {
        lemma_items_prefix(vs, j + 1, pad);
        let c = items_text(vs, j + 1, pad);
        if j == 0 {
            assert(whole.take(0) =~= a);
        } else {
            assert(c.take(a.len() as int) =~= a);
            assert(whole.take(a.len() as int) =~= whole.take(c.len() as int).take(a.len() as int));
        }
    }
}

/// The first entries of a mapping are written first.
proof fn lemma_pairs_prefix(ps: Seq<(Val, Val)>, j: int, pad: Seq<u8>)
    requires
        0 <= j <= ps.len(),
    ensures
        pairs_text(ps, j, pad).len() <= pairs_text(ps, ps.len() as int, pad).len(),
        pairs_text(ps, ps.len() as int, pad).take(pairs_text(ps, j, pad).len() as int) == pairs_text(ps, j, pad),
    decreases ps.len() - j,
{
    let whole = pairs_text(ps, ps.len() as int, pad);
    let a = pairs_text(ps, j, pad);
    if j == ps.len() {
        assert(whole.take(whole.len() as int) =~= whole);
    } else {
        lemma_pairs_prefix(ps, j + 1, pad);
        let c = pairs_text(ps, j + 1, pad);
        if j == 0 {
            assert(whole.take(0) =~= a);
        } else {
            assert(c.take(a.len() as int) =~= a);
            assert(whole.take(a.len() as int) =~= whole.take(c.len() as int).take(a.len() as int));
        }
    }
}

proof fn lemma_holds_take(s: Seq<u8>, p: int, t: Seq<u8>, n: int)
    requires
        holds(s, p, t),
        0 <= n <= t.len(),
    ensures
        holds(s, p, t.take(n)),
{
    assert(t =~= t.take(n) + t.skip(n));
    lemma_holds_add(s, p, t.take(n), t.skip(n));
}

/// Where item `j` stands: after those before it, a line break and the
/// indentation.
proof fn lemma_item_place(vs: Seq<Val>, j: int, k: int, s: Seq<u8>, p: int)
    requires
        0 <= j < vs.len(),
        k >= 0,
        holds(s, p, items_text(vs, vs.len() as int, spaces(k))),
    ensures
        ({
            let pad = spaces(k);
            let y = p + items_text(vs, j, pad).len();
            let x = if j == 0 {
                p
            } else {
                y + 1 + k
            };
            &&& holds(s, x, item_text(vs[j], pad))
            &&& x + item_text(vs[j], pad).len() == p + items_text(vs, j + 1, pad).len()
            &&& j > 0 ==> 0 <= y < s.len() && s[y] == LF && holds(s, y + 1, pad)
        }),
{
    let pad = spaces(k);
    let a = items_text(vs, j, pad);
    let c = items_text(vs, j + 1, pad);
    lemma_items_prefix(vs, j + 1, pad);
    lemma_holds_take(s, p, items_text(vs, vs.len() as int, pad), c.len() as int);
    if j > 0 {
        let x = item_text(vs[j], pad);
        assert(c =~= a + (seq![LF] + (pad + x)));
        lemma_holds_add(s, p, a, seq![LF] + (pad + x));
        lemma_holds_add(s, p + a.len(), seq![LF], pad + x);
        lemma_holds_add(s, p + a.len() + 1, pad, x);
        lemma_holds_at(s, p + a.len(), seq![LF], 0);
    }
}

/// Where entry `j` stands.
proof fn lemma_pair_place(ps: Seq<(Val, Val)>, j: int, k: int, s: Seq<u8>, p: int)
    requires
        0 <= j < ps.len(),
        k >= 0,
        holds(s, p, pairs_text(ps, ps.len() as int, spaces(k))),
    ensures
        ({
            let pad = spaces(k);
            let y = p + pairs_text(ps, j, pad).len();
            let x = if j == 0 {
                p
            } else {
                y + 1 + k
            };
            &&& holds(s, x, pair_text(ps[j], pad))
            &&& x + pair_text(ps[j], pad).len() == p + pairs_text(ps, j + 1, pad).len()
            &&& j > 0 ==> 0 <= y < s.len() && s[y] == LF && holds(s, y + 1, pad)
        }),
{
    let pad = spaces(k);
    let a = pairs_text(ps, j, pad);
    let c = pairs_text(ps, j + 1, pad);
    lemma_pairs_prefix(ps, j + 1, pad);
    lemma_holds_take(s, p, pairs_text(ps, ps.len() as int, pad), c.len() as int);
    if j > 0 {
        let x = pair_text(ps[j], pad);
        assert(c =~= a + (seq![LF] + (pad + x)));
        lemma_holds_add(s, p, a, seq![LF] + (pad + x));
        lemma_holds_add(s, p + a.len(), seq![LF], pad + x);
        lemma_holds_add(s, p + a.len() + 1, pad, x);
        lemma_holds_at(s, p + a.len(), seq![LF], 0);
    }
}

/// An item begins with a dash and a space.
proof fn lemma_item_start(v: Val, pad: Seq<u8>, s: Seq<u8>, p: int)
    requires
        holds(s, p, item_text(v, pad)),
    ensures
        p + 2 <= s.len(),
        s[p] == DASH,
        s[p + 1] == SPACE,
        node_start(s, p),
        indicator_at(s, p, DASH),
        holds(
            s,
            p + 2,
            match v {
                Val::Dict(ps) if ps.len() > 0 => parts_text(v, pad + lit("  ")),
                _ => node_text(v, pad + lit("  ")),
            },
        ),
        item_text(v, pad).len() == 2 + (match v {
            Val::Dict(ps) if ps.len() > 0 => parts_text(v, pad + lit("  ")),
            _ => node_text(v, pad + lit("  ")),
        }).len(),
{
    reveal_strlit("- ");
    lemma_ascii("- "@);
    assert(lit("- ") =~= seq![DASH, SPACE]);
    let u = match v {
        Val::Dict(ps) if ps.len() > 0 => parts_text(v, pad + lit("  ")),
        _ => node_text(v, pad + lit("  ")),
    };
    assert(item_text(v, pad) == lit("- ") + u);
    lemma_holds_add(s, p, lit("- "), u);
    lemma_holds_at(s, p, lit("- "), 0);
    lemma_holds_at(s, p, lit("- "), 1);
}

/// One item is read back.
proof fn lemma_item(v: Val, k: int, s: Seq<u8>, st: St, p: int, nx: int)
    requires
        faithful(v),
        k >= 0,
        col_at(s, p) == k,
        holds(s, p, item_text(v, spaces(k))),
        next_at(s, p + item_text(v, spaces(k)).len(), nx, k + 1),
    ensures
        ({
            let x = st.to(run(s, p + 1, Class::Blank));
            &&& x.p == p + 2
            &&& reads(s, x, node(s, x, k + 1), v, nx)
        }),
    decreases v, 3int,
{
    let pad = spaces(k);
    lemma_deeper(k);
    lemma_item_start(v, pad, s, p);
    let x = st.to(p + 2);
    lemma_col(s, p, p + 2);
    if breaks_first(v) && v is List {
        lemma_below(v, k + 2, s, x, k + 1, nx);
        lemma_run_to(s, p + 1, Class::Blank, p + 2);
    } else if breaks_first(v) {
        lemma_collection(v, k + 2, s, x, k + 1, nx);
        lemma_run_to(s, p + 1, Class::Blank, p + 2);
        step_node_here(s, x, k + 1);
        step_bare(s, x, k + 2, k + 1);
    } else {
        lemma_here(v, k + 2, s, x, k + 2, k + 1, nx);
        lemma_run_to(s, p + 1, Class::Blank, p + 2);
        step_node_here(s, x, k + 1);
    }
}

/// The items from `j` on are read back.
proof fn lemma_items(vs: Seq<Val>, j: int, k: int, s: Seq<u8>, p: int, st: St, m: int, nx: int)
    requires
        faithful(Val::List(vs)),
        0 <= j <= vs.len(),
        vs.len() > 0,
        k >= 0,
        m <= k,
        col_at(s, p) == k,
        holds(s, p, items_text(vs, vs.len() as int, spaces(k))),
        next_at(s, p + items_text(vs, vs.len() as int, spaces(k)).len(), nx, m),
        0 <= st.p <= s.len(),
        j == 0 ==> st.p == p,
        0 < j < vs.len() ==> past_filler(s, st.p) == p + items_text(vs, j, spaces(k)).len() + 1,
        0 < j == vs.len() ==> past_filler(s, st.p) == nx,
    ensures
        ({
            let r = seq_rest(s, st, k, vs.take(j));
            r is Ok && (r->Ok_0).0 == vs && (r->Ok_0).1.p == nx && (r->Ok_0).1.a == st.a
        }),
    decreases vs, vs.len() - j,
{
    let pad = spaces(k);
    let e = p + items_text(vs, vs.len() as int, pad).len();
    lemma_next(s, e, nx, m);
    if j == vs.len() {
        assert(vs.take(j) =~= vs);
        if nx < s.len() {
            let i = run(s, nx, Class::Spaces) - nx;
            lemma_line_like(s, nx, m);
            lemma_run(s, nx, Class::Spaces);
            assert forall|x: int| nx <= x < nx + i implies !is_break(#[trigger] s[x]) by {
                assert(Class::Spaces.holds(s[x]));
            }
            lemma_col(s, nx, nx + i);
        }
        step_seq_end(s, st, k, vs);
    } else {
        let v = vs[j];
        assert(faithful_items(vs));
        assert(faithful(v));
        lemma_item_place(vs, j, k, s, p);
        let y = p + items_text(vs, j, pad).len();
        let x = if j == 0 {
            p
        } else {
            y + 1 + k
        };
        lemma_item_start(v, pad, s, x);
        let e1 = x + item_text(v, pad).len();
        // The line after this item.
        let after = if j + 1 < vs.len() {
            e1 + 1
        } else {
            nx
        };
        if j + 1 < vs.len() {
            lemma_item_place(vs, j + 1, k, s, p);
            lemma_item_start(vs[j + 1], pad, s, e1 + 1 + k);
            lemma_line_start(s, e1 + 1, k);
        } else {
            lemma_next_wider(s, e1, nx, m, k + 1);
        }
        assert(next_at(s, e1, after, k + 1));
        if j == 0 {
            assert(run(s, p, Class::Blank) == p);
            assert(past_filler(s, p) == p);
            assert(run(s, p, Class::Spaces) == p);
        } else {
            lemma_line_start(s, y + 1, k);
            assert forall|i: int| y + 1 <= i < x implies !is_break(#[trigger] s[i]) by {
                lemma_holds_at(s, y + 1, pad, i - (y + 1));
            }
            lemma_col(s, y + 1, x);
        }
        lemma_item(v, k, s, st, x, after);
        let at_item = st.to(run(s, x + 1, Class::Blank));
        let (w, st1) = node(s, at_item, k + 1)->Ok_0;
        step_seq_more(s, st, k, vs.take(j), v, st1);
        assert(vs.take(j).push(v) =~= vs.take(j + 1));
        lemma_items(vs, j + 1, k, s, p, st1, m, nx);
    }
}

/// Whether an entry can begin at `p`.
pub open spec fn entry_start(s: Seq<u8>, p: int) -> bool {
    &&& node_start(s, p)
    &&& s[p] != BANG
    &&& !(s[p] == LBRACKET || s[p] == LBRACE || s[p] == PIPE || s[p] == GREATER || s[p] == STAR)
    &&& !indicator_at(s, p, DASH)
}

/// The parts of an entry's text.
pub open spec fn key_text(k: Val, pad: Seq<u8>) -> Seq<u8> {
    if explicit(k) {
        lit("?") + (if breaks_first(k) {
            Seq::empty()
        } else {
            lit(" ")
        }) + node_text(k, pad + lit("  ")) + seq![LF] + pad
    } else {
        node_text(k, pad)
    }
}

pub open spec fn value_text(v: Val, pad: Seq<u8>) -> Seq<u8> {
    (if breaks_first(v) {
        Seq::empty()
    } else {
        lit(" ")
    }) + node_text(v, pad + lit("  "))
}

/// A key, a colon, a value.
proof fn lemma_pair_parts(kv: (Val, Val), k: int, s: Seq<u8>, p: int)
    requires
        k >= 0,
        faithful_pair(kv),
        holds(s, p, pair_text(kv, spaces(k))),
    ensures
        ({
            let pad = spaces(k);
            let c = p + key_text(kv.0, pad).len();
            &&& holds(s, p, key_text(kv.0, pad))
            &&& 0 <= c < s.len() && s[c] == COLON
            &&& holds(s, c + 1, value_text(kv.1, pad))
            &&& c + 1 + value_text(kv.1, pad).len() == p + pair_text(kv, pad).len()
            &&& indicator_at(s, c, COLON)
            &&& c + 1 < s.len()
            &&& !breaks_first(kv.1) ==> s[c + 1] == SPACE
            &&& breaks_first(kv.1) ==> s[c + 1] == LF
        }),
{
    let pad = spaces(k);
    let a = key_text(kv.0, pad);
    let b = value_text(kv.1, pad);
    reveal_strlit(":");
    lemma_ascii(":"@);
    assert(lit(":") =~= seq![COLON]);
    assert(pair_text(kv, pad) =~= a + (lit(":") + b));
    lemma_holds_add(s, p, a, lit(":") + b);
    lemma_holds_add(s, p + a.len(), lit(":"), b);
    lemma_holds_at(s, p + a.len(), lit(":"), 0);
    let c = p + a.len();
    if !breaks_first(kv.1) {
        reveal_strlit(" ");
        lemma_ascii(" "@);
        assert(lit(" ") =~= seq![SPACE]);
        lemma_holds_at(s, c + 1, b, 0);
    } else {
        lemma_deeper(k);
        assert(b =~= node_text(kv.1, spaces(k + 2)));
        lemma_below_start(kv.1, k + 2, s, c + 1);
    }
}

/// An explicit key.
proof fn lemma_explicit_parts(key: Val, k: int, s: Seq<u8>, p: int)
    requires
        k >= 0,
        faithful(key),
        explicit(key),
        holds(s, p, key_text(key, spaces(k))),
        p + key_text(key, spaces(k)).len() < s.len(),
    ensures
        ({
            let pad = spaces(k);
            let u = node_text(key, spaces(k + 2));
            let x = if breaks_first(key) {
                p + 1
            } else {
                p + 2
            };
            &&& 0 <= p < s.len() && s[p] == QUESTION
            &&& indicator_at(s, p, QUESTION)
            &&& holds(s, x, u)
            &&& !breaks_first(key) ==> s[p + 1] == SPACE
            &&& 0 <= x + u.len() < s.len()
            &&& s[x + u.len()] == LF
            &&& holds(s, x + u.len() + 1, pad)
            &&& x + u.len() + 1 + k == p + key_text(key, pad).len()
            &&& entry_start(s, p)
        }),
{
    let pad = spaces(k);
    lemma_deeper(k);
    let u = node_text(key, spaces(k + 2));
    reveal_strlit("?");
    reveal_strlit(" ");
    lemma_ascii("?"@);
    lemma_ascii(" "@);
    assert(lit("?") =~= seq![QUESTION]);
    assert(lit(" ") =~= seq![SPACE]);
    let gap: Seq<u8> = if breaks_first(key) {
        Seq::empty()
    } else {
        lit(" ")
    };
    let x = p + 1 + gap.len();
    assert(key_text(key, pad) =~= seq![QUESTION] + (gap + (u + (seq![LF] + pad))));
    lemma_holds_add(s, p, seq![QUESTION], gap + (u + (seq![LF] + pad)));
    lemma_holds_add(s, p + 1, gap, u + (seq![LF] + pad));
    lemma_holds_add(s, x, u, seq![LF] + pad);
    lemma_holds_add(s, x + u.len(), seq![LF], pad);
    lemma_holds_at(s, p, seq![QUESTION], 0);
    lemma_holds_at(s, x + u.len(), seq![LF], 0);
    if breaks_first(key) {
        lemma_below_start(key, k + 2, s, x);
    } else {
        lemma_holds_at(s, p + 1, gap, 0);
    }
}

/// What an entry begins with.
proof fn lemma_pair_start(kv: (Val, Val), k: int, s: Seq<u8>, p: int)
    requires
        k >= 0,
        faithful_pair(kv),
        holds(s, p, pair_text(kv, spaces(k))),
    ensures
        entry_start(s, p),
{
    lemma_pair_parts(kv, k, s, p);
    if explicit(kv.0) {
        lemma_explicit_parts(kv.0, k, s, p);
    } else {
        let c = p + key_text(kv.0, spaces(k)).len();
        assert(run(s, c, Class::Blank) == c);
        lemma_implicit_key(kv.0);
        lemma_scalar_token(kv.0, spaces(k), s, p);
    }
}

/// An implicit key is a scalar on one line.
proof fn lemma_implicit_key(key: Val)
    requires
        faithful(key),
        !explicit(key),
    ensures
        line_scalar(key),
{
}

/// The value of an entry is read back.
proof fn lemma_value(v: Val, k: int, s: Seq<u8>, st: St, nx: int)
    requires
        faithful(v),
        k >= 0,
        0 < st.p,
        col_at(s, st.p) > 0,
        holds(s, st.p, value_text(v, spaces(k))),
        next_at(s, st.p + value_text(v, spaces(k)).len(), nx, k + 1),
    ensures
        reads(s, st, map_value(s, st, k), v, nx),
    decreases v, 3int,
{
    let pad = spaces(k);
    lemma_deeper(k);
    let u = node_text(v, spaces(k + 2));
    if !breaks_first(v) {
        reveal_strlit(" ");
        lemma_ascii(" "@);
        assert(lit(" ") =~= seq![SPACE]);
        lemma_holds_add(s, st.p, lit(" "), u);
        lemma_holds_at(s, st.p, lit(" "), 0);
        let x = st.to(st.p + 1);
        lemma_col(s, st.p, st.p + 1);
        lemma_here(v, k + 2, s, x, col_at(s, x.p), k + 1, nx);
        lemma_run_to(s, st.p, Class::Blank, st.p + 1);
        step_value_here(s, st, k);
        step_node_here(s, x, k + 1);
    } else {
        assert(value_text(v, pad) =~= u);
        let l = st.p + 1;
        lemma_below_start(v, k + 2, s, st.p);
        let inner = st.to(l + k + 2);
        lemma_col(s, l, l + k + 2);
        lemma_collection(v, k + 2, s, inner, k + 1, nx);
        lemma_line_start(s, l, k + 2);
        assert(past_filler(s, st.p) == l) by {
            reveal_with_fuel(past_filler, 2);
            assert(run(s, st.p, Class::Blank) == st.p);
            assert(run(s, st.p, Class::Line) == st.p);
            assert(next_line(s, st.p) == l);
        }
        assert(run(s, st.p, Class::Blank) == st.p);
        step_value_below(s, st, k);
    }
}

/// An explicit key is read back.
proof fn lemma_explicit_key(key: Val, k: int, s: Seq<u8>, st: St)
    requires
        faithful(key),
        explicit(key),
        k >= 0,
        0 <= st.p,
        col_at(s, st.p) == k,
        holds(s, st.p, key_text(key, spaces(k))),
        st.p + key_text(key, spaces(k)).len() < s.len(),
        indicator_at(s, st.p + key_text(key, spaces(k)).len(), COLON),
    ensures
        ({
            let x = if breaks_first(key) {
                st.p + 1
            } else {
                st.p + 2
            };
            let l = st.p + key_text(key, spaces(k)).len() - k;
            &&& reads(s, st.to(x), node(s, st.to(x), k + 1), key, l)
            &&& run(s, st.p + 1, Class::Blank) == x
            &&& 0 <= l <= s.len()
            &&& past_filler(s, l) == l
            &&& indent_at(s, l) == Some(k)
        }),
    decreases key, 4int,
{
    lemma_explicit_parts(key, k, s, st.p);
    let u = node_text(key, spaces(k + 2));
    let x = if breaks_first(key) {
        st.p + 1
    } else {
        st.p + 2
    };
    let l = x + u.len() + 1;
    assert(node_start(s, l + k));
    lemma_line_start(s, l, k);
    assert(next_at(s, x + u.len(), l, k + 1));
    let at_key = st.to(x);
    lemma_col(s, st.p, x);
    if breaks_first(key) {
        lemma_below(key, k + 2, s, at_key, k + 1, l);
        assert(run(s, st.p + 1, Class::Blank) == st.p + 1);
    } else {
        lemma_here(key, k + 2, s, at_key, col_at(s, x), k + 1, l);
        lemma_run_to(s, st.p + 1, Class::Blank, x);
        step_node_here(s, at_key, k + 1);
    }
}

/// What is written in double quotes holds no line break.
pub(crate) proof fn lemma_dq_line(t: Seq<u8>)
    ensures
        forall|i: int| 0 <= i < dq_body(t).len() ==> !is_break(#[trigger] dq_body(t)[i]),
    decreases t.len(),
{
    if t.len() > 0 {
        lemma_dq_line(t.drop_last());
        let b = t.last();
        let a = dq_body(t.drop_last());
        assert forall|i: int| 0 <= i < dq_body(t).len() implies !is_break(#[trigger] dq_body(t)[i]) by {
            if i < a.len() {
                assert(dq_body(t)[i] == a[i]);
            } else {
                assert(dq_body(t)[i] == dq_byte(b)[i - a.len()]);
            }
        }
    }
}

/// The text of a scalar that is written on one line holds no line break.
proof fn lemma_on_line(v: Val, pad: Seq<u8>)
    requires
        line_scalar(v),
    ensures
        forall|i: int| 0 <= i < node_text(v, pad).len() ==> !is_break(#[trigger] node_text(v, pad)[i]),
{
    let t = node_text(v, pad);
    match v {
        Val::Str(x) => {
            lemma_dq_line(x);
            assert forall|i: int| 0 <= i < t.len() implies !is_break(#[trigger] t[i]) by {
                if unfit_plain(x) || !(resolved(x) is Str) {
                    if !ctrl_in(x) && !x.contains(LF) && !x.contains(SQUOTE) {
                        if 0 < i < t.len() - 1 {
                            assert(t[i] == x[i - 1]);
                            assert(!is_ctrl(x[i - 1]));
                            assert(x.contains(x[i - 1]));
                        }
                    } else if 0 < i < t.len() - 1 {
                        assert(t[i] == dq_body(x)[i - 1]);
                    }
                } else {
                    assert(!is_ctrl(x[i]));
                    assert(x.contains(x[i]));
                }
            }
        },
        _ => {
            lemma_plain_scalar(v, pad);
            assert forall|i: int| 0 <= i < t.len() implies !is_break(#[trigger] t[i]) by {
                assert(!is_ctrl(t[i]));
                assert(t.contains(t[i]));
            }
        },
    }
}

/// An implicit key is on the line of its colon.
proof fn lemma_key_on_line(key: Val, k: int, s: Seq<u8>, p: int)
    requires
        line_scalar(key),
        0 <= p,
        holds(s, p, node_text(key, spaces(k))),
    ensures
        line_at(s, p + node_text(key, spaces(k)).len()) == line_at(s, p),
{
    let t = node_text(key, spaces(k));
    lemma_on_line(key, spaces(k));
    assert forall|i: int| p <= i < p + t.len() implies !is_break(#[trigger] s[i]) by {
        lemma_holds_at(s, p, t, i - p);
    }
    lemma_line_same(s, p, p + t.len());
}

pub(crate) proof fn lemma_line_same(s: Seq<u8>, p: int, q: int)
    requires
        0 <= p <= q <= s.len(),
        forall|i: int| p <= i < q ==> !is_break(#[trigger] s[i]),
    ensures
        line_at(s, q) == line_at(s, p),
    decreases q - p,
{
    if p < q {
        lemma_line_same(s, p, q - 1);
    }
}

/// One entry is read back.
proof fn lemma_pair(kv: (Val, Val), k: int, s: Seq<u8>, st: St, nx: int)
    requires
        faithful_pair(kv),
        k >= 0,
        0 <= st.p,
        col_at(s, st.p) == k,
        holds(s, st.p, pair_text(kv, spaces(k))),
        next_at(s, st.p + pair_text(kv, spaces(k)).len(), nx, k + 1),
    ensures
        ({
            let r = map_entry(s, st, k);
            r is Ok && (r->Ok_0).0 == kv && read_to(s, st, (r->Ok_0).1, nx) && st.p < (r->Ok_0).1.p
        }),
    decreases kv, 0int,
{
    let pad = spaces(k);
    let (key, v) = kv;
    lemma_pair_parts(kv, k, s, st.p);
    let c = st.p + key_text(key, pad).len();
    assert(decreases_to!(kv => kv.0));
    assert(decreases_to!(kv => kv.1));
    if explicit(key) {
        lemma_explicit_parts(key, k, s, st.p);
        let x = if breaks_first(key) {
            st.p + 1
        } else {
            st.p + 2
        };
        let at_key = st.to(x);
        lemma_explicit_key(key, k, s, st);
        let (w, st1) = node(s, at_key, k + 1)->Ok_0;
        let at_value = St { p: c + 1, t: st1.t.promote(scalar_text(key)), ..st1 };
        lemma_col_after(s, c);
        lemma_value(v, k, s, at_value, nx);
        let (z, st3) = map_value(s, at_value, k)->Ok_0;
        step_explicit_entry(s, st, k);
        step_explicit(s, st, k, key, st1, v, st3);
    } else {
        assert(run(s, c, Class::Blank) == c);
        lemma_implicit_key(key);
        lemma_scalar_token(key, pad, s, st.p);
        let tok = token(s, st.p)->Ok_0;
        let at_value = St {
            p: c + 1,
            t: st.t.key(Extent { a: st.p, b: tok.end }, Some(tok.text)),
            ..st
        };
        lemma_col_after(s, c);
        lemma_value(v, k, s, at_value, nx);
        let (z, st3) = map_value(s, at_value, k)->Ok_0;
        lemma_key_on_line(key, k, s, st.p);
        step_entry(s, st, k, tok, v, st3);
    }
}

/// After a colon the column is not the first.
pub(crate) proof fn lemma_col_after(s: Seq<u8>, c: int)
    requires
        0 <= c < s.len(),
        s[c] == COLON,
    ensures
        col_at(s, c + 1) > 0,
{
    crate::parser::layout::lemma_place(s, c);
}

/// The entries from `j` on are read back.
proof fn lemma_pairs(ps: Seq<(Val, Val)>, j: int, k: int, s: Seq<u8>, p: int, st: St, m: int, nx: int)
    requires
        faithful(Val::Dict(ps)),
        0 < j <= ps.len(),
        k >= 0,
        m <= k,
        holds(s, p, pairs_text(ps, ps.len() as int, spaces(k))),
        next_at(s, p + pairs_text(ps, ps.len() as int, spaces(k)).len(), nx, m),
        0 <= st.p <= s.len(),
        j < ps.len() ==> past_filler(s, st.p) == p + pairs_text(ps, j, spaces(k)).len() + 1,
        j == ps.len() ==> past_filler(s, st.p) == nx,
    ensures
        ({
            let r = map_rest(s, st, k, ps.take(j));
            r is Ok && (r->Ok_0).0 == ps && (r->Ok_0).1.p == nx && (r->Ok_0).1.a == st.a
        }),
    decreases ps, ps.len() - j,
{
    let pad = spaces(k);
    let e = p + pairs_text(ps, ps.len() as int, pad).len();
    lemma_next(s, e, nx, m);
    if j == ps.len() {
        assert(ps.take(j) =~= ps);
        if nx < s.len() {
            lemma_line_like(s, nx, m);
        }
        step_map_end(s, st, k, ps);
    } else {
        lemma_pair_place(ps, j, k, s, p);
        let y = p + pairs_text(ps, j, pad).len();
        let x = y + 1 + k;
        lemma_faithful_pair(ps, j);
        lemma_pair_start(ps[j], k, s, x);
        lemma_line_start(s, y + 1, k);
        assert forall|i: int| y + 1 <= i < x implies !is_break(#[trigger] s[i]) by {
            lemma_holds_at(s, y + 1, pad, i - (y + 1));
        }
        lemma_col(s, y + 1, x);
        let after = lemma_pair_after(ps, j, k, s, p, m, nx);
        let at_key = st.to(x);
        lemma_pair(ps[j], k, s, at_key, after);
        let (kv, st1) = map_entry(s, at_key, k)->Ok_0;
        step_map_more(s, st, k, ps.take(j), kv, st1);
        assert(ps.take(j).push(kv) =~= ps.take(j + 1));
        lemma_pairs(ps, j + 1, k, s, p, st1, m, nx);
    }
}

/// The line after entry `j`.
proof fn lemma_pair_after(ps: Seq<(Val, Val)>, j: int, k: int, s: Seq<u8>, p: int, m: int, nx: int) -> (after: int)
    requires
        faithful(Val::Dict(ps)),
        0 <= j < ps.len(),
        k >= 0,
        m <= k,
        holds(s, p, pairs_text(ps, ps.len() as int, spaces(k))),
        next_at(s, p + pairs_text(ps, ps.len() as int, spaces(k)).len(), nx, m),
    ensures
        next_at(s, p + pairs_text(ps, j + 1, spaces(k)).len(), after, k + 1),
        j + 1 < ps.len() ==> after == p + pairs_text(ps, j + 1, spaces(k)).len() + 1,
        j + 1 == ps.len() ==> after == nx,
{
    let pad = spaces(k);
    let e1 = p + pairs_text(ps, j + 1, pad).len();
    if j + 1 < ps.len() {
        lemma_pair_place(ps, j + 1, k, s, p);
        lemma_faithful_pair(ps, j + 1);
        lemma_pair_start(ps[j + 1], k, s, e1 + 1 + k);
        lemma_line_start(s, e1 + 1, k);
        e1 + 1
    } else {
        lemma_next_wider(s, e1, nx, m, k + 1);
        nx
    }
}

/// A collection is read back from its first part on.
proof fn lemma_collection(v: Val, k: int, s: Seq<u8>, st: St, m: int, nx: int)
    requires
        faithful(v),
        breaks_first(v),
        k >= 0,
        m <= k,
        0 <= st.p,
        col_at(s, st.p) == k,
        holds(s, st.p, parts_text(v, spaces(k))),
        next_at(s, st.p + parts_text(v, spaces(k)).len(), nx, m),
    ensures
        node_start(s, st.p),
        s[st.p] != BANG,
        reads(s, st, content(s, st, k, m), v, nx),
    decreases v, 0int,
{
    let p = st.p;
    let pad = spaces(k);
    lemma_next(s, p + parts_text(v, pad).len(), nx, m);
    let open = st.with(st.t.open(p, false));
    match v {
        Val::List(vs) => {
            lemma_item_place(vs, 0, k, s, p);
            lemma_item_start(vs[0], pad, s, p);
            assert(vs.take(0) =~= Seq::empty());
            lemma_items(vs, 0, k, s, p, open, m, nx);
            step_content_seq(s, st, k, m);
            step_seq(s, st, k);
        },
        Val::Dict(ps) => {
            lemma_pair_place(ps, 0, k, s, p);
            lemma_faithful_pair(ps, 0);
            lemma_pair_start(ps[0], k, s, p);
            let after = lemma_pair_after(ps, 0, k, s, p, m, nx);
            lemma_pair(ps[0], k, s, open, after);
            let (kv, st1) = map_entry(s, open, k)->Ok_0;
            step_content_scalar(s, st, k, m);
            step_first_entry(s, st, k, m, kv, st1);
            step_map_from(s, p, st1, k, seq![kv]);
            assert(ps.take(1) =~= seq![kv]);
            lemma_pairs(ps, 1, k, s, p, st1, m, nx);
        },
        _ => {},
    }
}

/// Without merge keys nothing is merged.
proof fn lemma_no_merges(ps: Seq<(Val, Val)>, acc: Seq<(Val, Val)>)
    requires
        forall|i: int| 0 <= i < ps.len() ==> !is_merge_key((#[trigger] ps[i]).0),
    ensures
        own_entries(ps) == ps,
        absorbed_merges(acc, ps) == acc,
    decreases ps.len(),
{
    if ps.len() > 0 {
        let d = ps.drop_last();
        assert forall|i: int| 0 <= i < d.len() implies !is_merge_key((#[trigger] d[i]).0) by {
            assert(d[i] == ps[i]);
        }
        assert(!is_merge_key(ps[ps.len() - 1].0));
        lemma_no_merges(d, acc);
        assert(d.push(ps.last()) =~= ps);
    }
}

/// A value that is read back holds nothing to merge.
pub(crate) proof fn lemma_merged(v: Val)
    requires
        faithful(v),
    ensures
        merged(v) == v,
    decreases v,
{
    match v {
        Val::List(vs) => {
            assert(faithful_items(vs));
            assert forall|i: int| 0 <= i < vs.len() implies merged(#[trigger] vs[i]) == vs[i] by {
                assert(decreases_to!(v => vs));
                assert(decreases_to!(vs => vs[i]));
                lemma_merged(vs[i]);
            }
            assert(merged(v)->List_0 =~= vs);
        },
        Val::Dict(ps) => {
            assert forall|i: int| 0 <= i < ps.len() implies merged((#[trigger] ps[i]).0) == ps[i].0 && merged(ps[i].1)
                == ps[i].1 && !is_merge_key(ps[i].0) by {
                assert(decreases_to!(v => ps));
                assert(decreases_to!(ps => ps[i]));
                assert(decreases_to!(ps[i] => ps[i].0));
                assert(decreases_to!(ps[i] => ps[i].1));
                lemma_faithful_pair(ps, i);
                lemma_merged(ps[i].0);
                lemma_merged(ps[i].1);
            }
            assert(merged_pairs(ps) =~= ps);
            lemma_no_merges(ps, own_entries(ps));
        },
        Val::Tagged(_, b) => {
            lemma_merged(*b);
        },
        _ => {},
    }
}

/// A document of one value and nothing else.
proof fn lemma_document(v: Val, s: Seq<u8>)
    requires
        faithful(v),
        ({
            let t = if breaks_first(v) {
                parts_text(v, spaces(0))
            } else {
                node_text(v, spaces(0))
            };
            holds(s, 0, t) && next_at(s, t.len() as int, s.len() as int, 0)
        }),
    ensures
        stream(s) is Ok,
        (stream(s)->Ok_0).0 == seq![v],
        (stream(s)->Ok_0).1.p == s.len(),
{
    let st = at_start();
    let nx = s.len() as int;
    if breaks_first(v) {
        lemma_collection(v, 0, s, st, 0, nx);
        step_bare(s, st, 0, 0);
    } else {
        lemma_here(v, 0, s, st, 0, 0, nx);
    }
    assert(spaces(0) =~= Seq::empty());
    assert(s.subrange(0, 0) =~= spaces(0));
    lemma_line_start(s, 0, 0);
    assert(st.to(0) == st);
    step_node_below(s, st, 0);
    let (w, st1) = node(s, st, 0)->Ok_0;
    lemma_merged(v);
    assert(past_directives(s, 0) == 0);
    assert(St { p: 0, a: Seq::empty(), ..st } == st);
    reveal(next_document);
    assert(next_document(s, st, true) == Ok::<_, Fail>((Some((v, false)), st1.to(nx))));
    let st2 = st1.to(nx);
    assert(past_filler(s, nx) == nx);
    assert(past_directives(s, nx) == nx);
    assert(next_document(s, st2, false) == Ok::<_, Fail>((None::<(Val, bool)>, st2.to(nx))));
    reveal_with_fuel(documents, 3);
    assert(Seq::<Val>::empty().push(v) =~= seq![v]);
}

/// The text of a node that does not begin with a line break begins with an ASCII
/// byte, or is a plain scalar.
proof fn lemma_first_byte(v: Val, k: int)
    requires
        faithful(v),
        !breaks_first(v),
    ensures
        ({
            let t = node_text(v, spaces(k));
            t.len() > 0 && (t[0] < 0x80 || !unfit_plain(t))
        }),
{
    let pad = spaces(k);
    match v {
        Val::Str(x) => {
            if fits_block(x) {
                reveal_strlit("|");
                lemma_ascii("|"@);
            }
        },
        Val::Tagged(tag, b) => {},
        Val::List(vs) => {
            reveal_strlit("[]");
            lemma_ascii("[]"@);
        },
        Val::Dict(ps) => {
            reveal_strlit("{}");
            lemma_ascii("{}"@);
        },
        _ => {
            lemma_plain_scalar(v, pad);
        },
    }
}

/// Text that begins with a node does not begin with a byte order mark.
proof fn lemma_no_mark(s: Seq<u8>, t: Seq<u8>)
    requires
        holds(s, 0, t),
        t.len() > 0,
        t[0] < 0x80 || (!unfit_plain(t) && t.len() < s.len() && s[t.len() as int] < 0x80),
    ensures
        bom_len(s) == 0,
{
    lemma_holds_at(s, 0, t, 0);
    if t.len() >= 3 {
        lemma_holds_at(s, 0, t, 1);
        lemma_holds_at(s, 0, t, 2);
    }
}

/// The entries of a mapping do not begin with a byte order mark.
proof fn lemma_pairs_mark(ps: Seq<(Val, Val)>, s: Seq<u8>)
    requires
        faithful(Val::Dict(ps)),
        ps.len() > 0,
        holds(s, 0, pairs_text(ps, ps.len() as int, spaces(0))),
    ensures
        bom_len(s) == 0,
{
    let pad = spaces(0);
    lemma_faithful_pair(ps, 0);
    lemma_pairs_prefix(ps, 1, pad);
    let whole = pairs_text(ps, ps.len() as int, pad);
    let a = pair_text(ps[0], pad);
    assert(pairs_text(ps, 1, pad) == a);
    assert(s.subrange(0, a.len() as int) =~= s.subrange(0, whole.len() as int).take(a.len() as int));
    assert(holds(s, 0, a));
    lemma_pair_parts(ps[0], 0, s, 0);
    let key = ps[0].0;
    if explicit(key) {
        lemma_explicit_parts(key, 0, s, 0);
    } else {
        lemma_implicit_key(key);
        lemma_first_byte(key, 0);
        lemma_no_mark(s, node_text(key, pad));
    }
}

/// What is emitted for a value is read back as one document of that value.
pub proof fn law_emit_reads_back(v: Val)
    requires
        faithful(v),
    ensures
        stream(past_bom(document_text(v))) is Ok,
        (stream(past_bom(document_text(v)))->Ok_0).0 == seq![v],
{
    let s = document_text(v);
    let t = node_text(v, Seq::empty());
    assert(spaces(0) =~= Seq::<u8>::empty());
    if breaks_first(v) {
        let u = parts_text(v, spaces(0));
        assert(t =~= seq![LF] + u);
        assert(t.skip(1) =~= u);
        assert(s.subrange(0, u.len() as int) =~= u);
        match v {
            Val::Dict(ps) => {
                lemma_pairs_mark(ps, s);
            },
            Val::List(vs) => {
                lemma_items_prefix(vs, 1, spaces(0));
                reveal_strlit("- ");
                lemma_ascii("- "@);
                let a = item_text(vs[0], spaces(0));
                assert(items_text(vs, 1, spaces(0)) == a);
                assert(u.take(a.len() as int)[0] == a[0]);
                assert(s[0] == DASH);
            },
            _ => {},
        }
    } else {
        assert(t.subrange(0, t.len() as int) =~= t);
        lemma_here(v, 0, t, at_start(), 0, 0, t.len() as int);
        assert(t[0] != LF);
        assert(s.subrange(0, t.len() as int) =~= t);
        lemma_first_byte(v, 0);
        if s.len() == t.len() {
            assert(t.last() == LF);
            if t[0] >= 0x80 {
                assert(t.contains(LF));
            }
        }
        lemma_no_mark(s, t);
    }
    assert(past_bom(s) =~= s);
    lemma_document(v, s);
}

} // verus!
