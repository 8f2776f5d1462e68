//! What is written in flow style is read back as the same value.
use vstd::prelude::*;
use super::emit::{
    faithful, faithful_items, lemma_faithful_pair, lemma_line_start, lemma_merged, lemma_plain_scalar, lemma_run_to,
    spaces,
};
use super::scalars::{
    flow_ends, holds, law_double_quoted_reads_back, law_flow_plain_reads_back, lemma_ascii, lemma_decimal,
    lemma_flow_plain, lemma_holds_add, lemma_holds_at,
};
use super::steps::{step_bare, step_content_flow, step_flow_or_map, step_node_below};
use super::unfold::{
    unfold_flow_collection, unfold_flow_content, unfold_flow_map, unfold_flow_node, unfold_flow_seq,
    unfold_flow_value,
};
use crate::emitter::{double_quoted, node_text};
use crate::parser::grammar::{
    at_start, documents, flow_collection, flow_map, flow_node, flow_seq, flow_value, next_document, node,
    past_directives, stream, St,
};
use crate::parser::layout::{doc_bound, moves, past_filler, past_flow_gap, Fail};
use crate::parser::tokens::{props, Props};
use crate::patterns::{fits_flow, resolved, unfit_plain};
use crate::text::{
    decimal, is_blank, is_break, is_digit, is_flow_mark, lemma_run, run, Class, COLON, COMMA, DASH, HASH, LBRACE,
    LBRACKET, PERCENT, RBRACE, RBRACKET, SPACE,
};
use crate::value::{merged, scalar_text, Val};

verus! {

broadcast use moves;

/// A way to write a value in flow style: with some blanks and line breaks between the
/// parts, with a comma after the last part or none, and with strings in quotes or, if
/// they can do without, bare.
pub struct Style {
    pub gap: Seq<u8>,
    pub trail: bool,
    pub quotes: bool,
}

impl Style {
    pub open spec fn ok(self) -> bool {
        forall|i: int| 0 <= i < self.gap.len() ==> is_blank(#[trigger] self.gap[i]) || is_break(self.gap[i])
    }
}

/// Whether a string is read back as itself without quotes.
pub open spec fn can_be_bare(x: Seq<u8>) -> bool {
    resolved(x) == Val::Str(x) && !unfit_plain(x) && fits_flow(x)
}

/// A value in flow style.
pub open spec fn flow_form(v: Val, y: Style) -> Seq<u8>
    decreases v, 0int,
{
    match v {
        Val::List(vs) => seq![LBRACKET] + items_form(vs, 0, y),
        Val::Dict(ps) => seq![LBRACE] + pairs_form(ps, 0, y),
        Val::Str(x) => if y.quotes || !can_be_bare(x) {
            double_quoted(x)
        } else {
            x
        },
        _ => node_text(v, Seq::empty()),
    }
}

/// The items from `j` on, and the bracket that closes them.
pub open spec fn items_form(vs: Seq<Val>, j: int, y: Style) -> Seq<u8>
    decreases vs, vs.len() - j,
{
    if !(0 <= j < vs.len()) {
        y.gap + seq![RBRACKET]
    } else {
        y.gap + flow_form(vs[j], y) + y.gap + (if j + 1 == vs.len() && !y.trail {
            seq![RBRACKET]
        } else {
            seq![COMMA] + items_form(vs, j + 1, y)
        })
    }
}

/// The entries from `j` on, and the bracket that closes them.
pub open spec fn pairs_form(ps: Seq<(Val, Val)>, j: int, y: Style) -> Seq<u8>
    decreases ps, ps.len() - j,
{
    if !(0 <= j < ps.len()) {
        y.gap + seq![RBRACE]
    } else {
        y.gap + flow_form(ps[j].0, y) + y.gap + seq![COLON, SPACE] + y.gap + flow_form(ps[j].1, y) + y.gap + (if j + 1
            == ps.len() && !y.trail {
            seq![RBRACE]
        } else {
            seq![COMMA] + pairs_form(ps, j + 1, y)
        })
    }
}

/// Whether no part of a value is tagged, and its floats hold no flow mark.
pub open spec fn flow_plain(v: Val) -> bool
    decreases v,
{
    match v {
        Val::List(vs) => forall|i: int| 0 <= i < vs.len() ==> flow_plain(#[trigger] vs[i]),
        Val::Dict(ps) => forall|i: int|
            0 <= i < ps.len() ==> flow_plain((#[trigger] ps[i]).0) && flow_plain(ps[i].1),
        Val::Tagged(_, _) => false,
        Val::Float(t) => fits_flow(t),
        _ => true,
    }
}

/// Whether a gap stands at `p`, and after it a mark that ends what stands before.
pub open spec fn closes(s: Seq<u8>, p: int, y: Style) -> bool {
    let e = p + y.gap.len();
    &&& holds(s, p, y.gap)
    &&& e < s.len()
    &&& s[e] == COMMA || s[e] == RBRACKET || s[e] == RBRACE || s[e] == COLON
}

/// A gap is passed over.
pub(crate) proof fn lemma_gap(s: Seq<u8>, p: int, q: int, y: Style)
    requires
        y.ok(),
        holds(s, p, y.gap),
        p <= q <= p + y.gap.len(),
        p + y.gap.len() < s.len(),
        !is_blank(s[p + y.gap.len()]) && !is_break(s[p + y.gap.len()]) && s[p + y.gap.len()] != HASH,
    ensures
        past_flow_gap(s, q) == p + y.gap.len(),
{
    let e = p + y.gap.len();
    assert forall|i: int| q <= i < e implies Class::Gap.holds(#[trigger] s[i]) by {
        lemma_holds_at(s, p, y.gap, i - p);
        assert(is_blank(y.gap[i - p]) || is_break(y.gap[i - p]));
    }
    lemma_run_to(s, q, Class::Gap, e);
}

/// The words and numbers hold no flow mark.
proof fn lemma_word_in_flow(v: Val)
    requires
        faithful(v),
        flow_plain(v),
        !(v is List || v is Dict || v is Str),
    ensures
        fits_flow(node_text(v, Seq::empty())),
{
    let t = node_text(v, Seq::empty());
    match v {
        Val::Null => {
            reveal_strlit("null");
            lemma_ascii("null"@);
        },
        Val::Bool(b) => {
            reveal_strlit("true");
            reveal_strlit("false");
            lemma_ascii("true"@);
            lemma_ascii("false"@);
        },
        Val::Int(n) => {
            if n < 0 {
                let d = decimal((-n) as nat);
                lemma_decimal((-n) as nat);
                assert forall|i: int| 0 <= i < t.len() implies #[trigger] t[i] != COLON && !is_flow_mark(t[i]) by {
                    if i > 0 {
                        assert(t[i] == d[i - 1]);
                        assert(is_digit(d[i - 1]));
                    } else {
                        assert(t[i] == DASH);
                    }
                }
            } else {
                lemma_decimal(n as nat);
                assert forall|i: int| 0 <= i < t.len() implies #[trigger] t[i] != COLON && !is_flow_mark(t[i]) by {
                    assert(is_digit(decimal(n as nat)[i]));
                }
            }
        },
        _ => {},
    }
}

/// A plain scalar ends where a gap and a mark follow.
proof fn lemma_ends_there(s: Seq<u8>, e: int, y: Style)
    requires
        y.ok(),
        closes(s, e, y),
    ensures
        flow_ends(s, e),
        run(s, e, Class::Blank) <= e + y.gap.len(),
{
    let x = e + y.gap.len();
    lemma_run(s, e, Class::Blank);
    let q = run(s, e, Class::Blank);
    if q > x {
        assert(Class::Blank.holds(s[x]));
    }
    if q < x {
        lemma_holds_at(s, e, y.gap, q - e);
        assert(is_blank(y.gap[q - e]) || is_break(y.gap[q - e]));
    }
}

/// Whether reading a node ends at `e` or in the gap after it.
pub open spec fn flow_reads(s: Seq<u8>, st: St, r: Result<(Val, St), Fail>, v: Val, e: int, y: Style) -> bool {
    &&& r is Ok
    &&& (r->Ok_0).0 == v
    &&& e <= (r->Ok_0).1.p <= e + y.gap.len()
    &&& (r->Ok_0).1.a == st.a
}

/// A node without tag or anchor.
pub(crate) proof fn lemma_bare_node(s: Seq<u8>, st: St)
    requires
        0 <= st.p < s.len(),
        s[st.p] != crate::text::BANG && s[st.p] != crate::text::AMP,
    ensures
        flow_node(s, st) == crate::parser::grammar::flow_content(s, st),
{
    unfold_flow_node(s, st);
    assert(props(s, st.p, true) == Ok::<_, Fail>((Props { tag: None, anchor: None }, st.p)));
    assert(st.to(st.p) == st);
}

/// The text of a value in flow style is not empty and begins no comment, gap or mark.
pub(crate) proof fn lemma_first_of_form(v: Val, y: Style, s: Seq<u8>, p: int)
    requires
        y.ok(),
        faithful(v),
        flow_plain(v),
        holds(s, p, flow_form(v, y)),
    ensures
        flow_form(v, y).len() > 0,
        0 <= p < s.len(),
        !is_blank(s[p]) && !is_break(s[p]) && s[p] != HASH,
        s[p] != COMMA && s[p] != RBRACKET && s[p] != RBRACE,
        s[p] != crate::text::BANG && s[p] != crate::text::AMP,
{
    let t = flow_form(v, y);
    match v {
        Val::List(_) => {},
        Val::Dict(_) => {},
        Val::Str(x) if y.quotes || !can_be_bare(x) => {},
        _ => {
            if !(v is Str) {
                lemma_plain_scalar(v, Seq::empty());
                lemma_word_in_flow(v);
            }
            let u = t + seq![COMMA];
            assert(u.subrange(0, t.len() as int) =~= t);
            lemma_run(u, t.len() as int, Class::Blank);
            assert(run(u, t.len() as int, Class::Blank) == t.len());
            lemma_flow_plain(u, 0, t);
        },
    }
    lemma_holds_at(s, p, t, 0);
}

/// A scalar in flow style is read back.
proof fn lemma_flow_scalar(v: Val, y: Style, s: Seq<u8>, st: St)
    requires
        y.ok(),
        faithful(v),
        flow_plain(v),
        !(v is List || v is Dict),
        holds(s, st.p, flow_form(v, y)),
        closes(s, st.p + flow_form(v, y).len(), y),
    ensures
        flow_reads(s, st, flow_node(s, st), v, st.p + flow_form(v, y).len(), y),
{
    let t = flow_form(v, y);
    let e = st.p + t.len();
    lemma_first_of_form(v, y, s, st.p);
    lemma_bare_node(s, st);
    unfold_flow_content(s, st);
    lemma_holds_at(s, st.p, t, 0);
    match v {
        Val::Str(x) if y.quotes || !can_be_bare(x) => {
            law_double_quoted_reads_back(s, st.p, x);
        },
        _ => {
            if !(v is Str) {
                lemma_plain_scalar(v, Seq::empty());
                lemma_word_in_flow(v);
            }
            lemma_ends_there(s, e, y);
            law_flow_plain_reads_back(s, st.p, t);
            lemma_flow_plain(s, st.p, t);
        },
    }
}

/// A value in flow style is read back.
pub(crate) proof fn lemma_flow(v: Val, y: Style, s: Seq<u8>, st: St)
    requires
        y.ok(),
        faithful(v),
        flow_plain(v),
        holds(s, st.p, flow_form(v, y)),
        closes(s, st.p + flow_form(v, y).len(), y),
    ensures
        flow_reads(s, st, flow_node(s, st), v, st.p + flow_form(v, y).len(), y),
    decreases v, 1int, 0int,
{
    if v is List || v is Dict {
        lemma_first_of_form(v, y, s, st.p);
        lemma_bare_node(s, st);
        unfold_flow_content(s, st);
        lemma_holds_at(s, st.p, flow_form(v, y), 0);
        lemma_flow_whole(v, y, s, st);
    } else {
        lemma_flow_scalar(v, y, s, st);
    }
}

/// A collection in flow style is read back.
pub(crate) proof fn lemma_flow_whole(v: Val, y: Style, s: Seq<u8>, st: St)
    requires
        y.ok(),
        faithful(v),
        flow_plain(v),
        v is List || v is Dict,
        holds(s, st.p, flow_form(v, y)),
    ensures
        flow_collection(s, st) is Ok,
        (flow_collection(s, st)->Ok_0).0 == v,
        (flow_collection(s, st)->Ok_0).1.p == st.p + flow_form(v, y).len(),
        (flow_collection(s, st)->Ok_0).1.a == st.a,
    decreases v, 0int, 0int,
{
    let t = flow_form(v, y);
    let inner = St { p: st.p + 1, t: st.t.open(st.p, true), ..st };
    match v {
        Val::List(vs) => {
            lemma_holds_add(s, st.p, seq![LBRACKET], items_form(vs, 0, y));
            lemma_holds_at(s, st.p, t, 0);
            unfold_flow_collection(s, st);
            assert(decreases_to!(v => vs));
            assert(faithful_items(vs));
            assert forall|i: int| 0 <= i < vs.len() implies faithful(#[trigger] vs[i]) && flow_plain(vs[i]) by {}
            lemma_flow_items(vs, 0, y, s, inner);
            assert(vs.take(0) =~= Seq::empty());
        },
        Val::Dict(ps) => {
            lemma_holds_add(s, st.p, seq![LBRACE], pairs_form(ps, 0, y));
            lemma_holds_at(s, st.p, t, 0);
            unfold_flow_collection(s, st);
            assert(decreases_to!(v => ps));
            lemma_flow_pairs(ps, 0, y, s, inner);
            assert(ps.take(0) =~= Seq::empty());
        },
        _ => {},
    }
}

/// The items from `j` on are read back.
proof fn lemma_flow_items(vs: Seq<Val>, j: int, y: Style, s: Seq<u8>, st: St)
    requires
        y.ok(),
        0 <= j <= vs.len(),
        forall|i: int| 0 <= i < vs.len() ==> faithful(#[trigger] vs[i]) && flow_plain(vs[i]),
        holds(s, st.p, items_form(vs, j, y)),
    ensures
        flow_seq(s, st, vs.take(j)) is Ok,
        (flow_seq(s, st, vs.take(j))->Ok_0).0 == vs,
        (flow_seq(s, st, vs.take(j))->Ok_0).1.p == st.p + items_form(vs, j, y).len(),
        (flow_seq(s, st, vs.take(j))->Ok_0).1.a == st.a,
    decreases vs, 0int, vs.len() - j,
{
    let g = y.gap;
    unfold_flow_seq(s, st, vs.take(j));
    if j == vs.len() {
        lemma_holds_add(s, st.p, g, seq![RBRACKET]);
        lemma_holds_at(s, st.p + g.len(), seq![RBRACKET], 0);
        lemma_gap(s, st.p, st.p, y);
        assert(vs.take(j) =~= vs);
    } else {
        let f = flow_form(vs[j], y);
        let rest = if j + 1 == vs.len() && !y.trail {
            seq![RBRACKET]
        } else {
            seq![COMMA] + items_form(vs, j + 1, y)
        };
        let a = st.p + g.len();
        let b = a + f.len();
        let c = b + g.len();
        assert(items_form(vs, j, y) =~= g + (f + (g + rest)));
        lemma_holds_add(s, st.p, g, f + (g + rest));
        lemma_holds_add(s, a, f, g + rest);
        lemma_holds_add(s, b, g, rest);
        lemma_holds_at(s, c, rest, 0);
        lemma_first_of_form(vs[j], y, s, a);
        lemma_gap(s, st.p, st.p, y);
        assert(decreases_to!(vs => vs[j]));
        lemma_flow(vs[j], y, s, st.to(a));
        let (v, st1) = flow_node(s, st.to(a))->Ok_0;
        lemma_gap(s, b, st1.p, y);
        assert(vs.take(j).push(vs[j]) =~= vs.take(j + 1));
        if j + 1 == vs.len() && !y.trail {
            assert(vs.take(j + 1) =~= vs);
        } else {
            lemma_holds_add(s, c, seq![COMMA], items_form(vs, j + 1, y));
            lemma_flow_items(vs, j + 1, y, s, st1.to(c + 1));
        }
    }
}

/// Where the parts of an entry stand.
proof fn lemma_pair_spots(ps: Seq<(Val, Val)>, j: int, y: Style, s: Seq<u8>, p: int)
    requires
        0 <= j < ps.len(),
        holds(s, p, pairs_form(ps, j, y)),
    ensures
        ({
            let a = p + y.gap.len();
            let b = a + flow_form(ps[j].0, y).len();
            let c = b + y.gap.len();
            let d = c + 2 + y.gap.len();
            let e = d + flow_form(ps[j].1, y).len();
            let z = e + y.gap.len();
            &&& holds(s, p, y.gap) && holds(s, a, flow_form(ps[j].0, y)) && holds(s, b, y.gap)
            &&& c + 1 < s.len() && s[c] == COLON && s[c + 1] == SPACE
            &&& holds(s, c + 2, y.gap) && holds(s, d, flow_form(ps[j].1, y)) && holds(s, e, y.gap)
            &&& z < s.len()
            &&& if j + 1 == ps.len() && !y.trail {
                s[z] == RBRACE && z + 1 == p + pairs_form(ps, j, y).len()
            } else {
                s[z] == COMMA && holds(s, z + 1, pairs_form(ps, j + 1, y)) && z + 1 + pairs_form(ps, j + 1, y).len() == p
                    + pairs_form(ps, j, y).len()
            }
        }),
{
    let g = y.gap;
    let f = flow_form(ps[j].0, y);
    let h = flow_form(ps[j].1, y);
    let rest = if j + 1 == ps.len() && !y.trail {
        seq![RBRACE]
    } else {
        seq![COMMA] + pairs_form(ps, j + 1, y)
    };
    let colon = seq![COLON, SPACE];
    let a = p + g.len();
    let b = a + f.len();
    let c = b + g.len();
    let d = c + 2 + g.len();
    let e = d + h.len();
    let z = e + g.len();
    let tail = g + (h + (g + rest));
    assert(pairs_form(ps, j, y) =~= g + (f + (g + (colon + tail))));
    lemma_holds_add(s, p, g, f + (g + (colon + tail)));
    lemma_holds_add(s, a, f, g + (colon + tail));
    lemma_holds_add(s, b, g, colon + tail);
    lemma_holds_add(s, c, colon, tail);
    lemma_holds_add(s, c + 2, g, h + (g + rest));
    lemma_holds_add(s, d, h, g + rest);
    lemma_holds_add(s, e, g, rest);
    lemma_holds_at(s, c, colon, 0);
    lemma_holds_at(s, c, colon, 1);
    lemma_holds_at(s, z, rest, 0);
    if !(j + 1 == ps.len() && !y.trail) {
        lemma_holds_add(s, z, seq![COMMA], pairs_form(ps, j + 1, y));
    }
}

/// The value of an entry whose key ended before the gap at `b`.
proof fn lemma_value_there(s: Seq<u8>, st: St, b: int, y: Style)
    requires
        y.ok(),
        holds(s, b, y.gap),
        b <= st.p <= b + y.gap.len(),
        ({
            let c = b + y.gap.len();
            let d = c + 2 + y.gap.len();
            &&& c + 1 < s.len() && s[c] == COLON && s[c + 1] == SPACE
            &&& holds(s, c + 2, y.gap)
            &&& d < s.len()
            &&& !is_blank(s[d]) && !is_break(s[d]) && s[d] != HASH
            &&& s[d] != COMMA && s[d] != RBRACKET && s[d] != RBRACE
        }),
    ensures
        flow_value(s, st) == flow_node(s, st.to(b + 2 * y.gap.len() + 2)),
{
    lemma_gap(s, b, st.p, y);
    lemma_wider_gap(s, b + y.gap.len() + 1, y);
    unfold_flow_value(s, st);
}

/// The entries from `j` on are read back.
proof fn lemma_flow_pairs(ps: Seq<(Val, Val)>, j: int, y: Style, s: Seq<u8>, st: St)
    requires
        y.ok(),
        0 <= j <= ps.len(),
        faithful(Val::Dict(ps)),
        flow_plain(Val::Dict(ps)),
        holds(s, st.p, pairs_form(ps, j, y)),
    ensures
        flow_map(s, st, ps.take(j)) is Ok,
        (flow_map(s, st, ps.take(j))->Ok_0).0 == ps,
        (flow_map(s, st, ps.take(j))->Ok_0).1.p == st.p + pairs_form(ps, j, y).len(),
        (flow_map(s, st, ps.take(j))->Ok_0).1.a == st.a,
    decreases ps, 0int, ps.len() - j,
{
    let g = y.gap;
    unfold_flow_map(s, st, ps.take(j));
    if j == ps.len() {
        lemma_holds_add(s, st.p, g, seq![RBRACE]);
        lemma_holds_at(s, st.p + g.len(), seq![RBRACE], 0);
        lemma_gap(s, st.p, st.p, y);
        assert(ps.take(j) =~= ps);
    } else {
        let (key, value) = ps[j];
        lemma_faithful_pair(ps, j);
        assert(flow_plain(ps[j].0) && flow_plain(ps[j].1));
        let a = st.p + y.gap.len();
        let b = a + flow_form(key, y).len();
        let d = b + 2 * y.gap.len() + 2;
        let e = d + flow_form(value, y).len();
        let z = e + y.gap.len();
        lemma_pair_spots(ps, j, y, s, st.p);
        lemma_first_of_form(key, y, s, a);
        lemma_first_of_form(value, y, s, d);
        lemma_gap(s, st.p, st.p, y);
        assert(decreases_to!(ps => ps[j]));
        assert(decreases_to!(ps[j] => ps[j].0));
        assert(decreases_to!(ps[j] => ps[j].1));
        lemma_flow(key, y, s, st.to(a));
        let (k, st1) = flow_node(s, st.to(a))->Ok_0;
        let st2 = st1.with(st1.t.promote(scalar_text(k)));
        lemma_flow(value, y, s, st2.to(d));
        lemma_value_there(s, st2, b, y);
        let (v, st3) = flow_node(s, st2.to(d))->Ok_0;
        lemma_gap(s, e, st3.p, y);
        assert(ps.take(j).push(ps[j]) =~= ps.take(j + 1));
        if j + 1 == ps.len() && !y.trail {
            assert(ps.take(j + 1) =~= ps);
        } else {
            lemma_flow_pairs(ps, j + 1, y, s, st3.to(z + 1));
        }
    }
}

/// A gap is passed over with a space before it.
proof fn lemma_wider_gap(s: Seq<u8>, p: int, y: Style)
    requires
        y.ok(),
        0 <= p < s.len(),
        s[p] == SPACE,
        holds(s, p + 1, y.gap),
        p + 1 + y.gap.len() < s.len(),
        !is_blank(s[p + 1 + y.gap.len()]) && !is_break(s[p + 1 + y.gap.len()]) && s[p + 1 + y.gap.len()] != HASH,
    ensures
        past_flow_gap(s, p) == p + 1 + y.gap.len(),
{
    let e = p + 1 + y.gap.len();
    assert forall|i: int| p <= i < e implies Class::Gap.holds(#[trigger] s[i]) by {
        if i > p {
            lemma_holds_at(s, p + 1, y.gap, i - p - 1);
            assert(is_blank(y.gap[i - p - 1]) || is_break(y.gap[i - p - 1]));
        }
    }
    lemma_run_to(s, p, Class::Gap, e);
}

/// A text that is read as one node to its end, from past the filler before it on, is one
/// document.
pub(crate) proof fn lemma_one_document_from(s: Seq<u8>, p: int, v: Val)
    requires
        0 <= p < s.len(),
        past_filler(s, 0) == p,
        s[p] != PERCENT && !doc_bound(s, p),
        node(s, at_start().to(p), 0) is Ok,
        (node(s, at_start().to(p), 0)->Ok_0).0 == v,
        (node(s, at_start().to(p), 0)->Ok_0).1.p == s.len(),
        merged(v) == v,
    ensures
        stream(s) is Ok,
        (stream(s)->Ok_0).0 == seq![v],
        (stream(s)->Ok_0).1.t == (node(s, at_start().to(p), 0)->Ok_0).1.t,
{
    let st = at_start();
    let nx = s.len() as int;
    let (x, st1) = node(s, st.to(p), 0)->Ok_0;
    assert(past_directives(s, p) == p);
    assert(St { p, a: Seq::empty(), ..st } == st.to(p));
    reveal(next_document);
    assert(past_filler(s, nx) == nx);
    assert(next_document(s, st, true) == Ok::<_, Fail>((Some((v, false)), st1.to(nx))));
    let st2 = st1.to(nx);
    assert(past_directives(s, nx) == nx);
    assert(next_document(s, st2, false) == Ok::<_, Fail>((None::<(Val, bool)>, st2.to(nx))));
    reveal_with_fuel(documents, 3);
    assert(Seq::<Val>::empty().push(v) =~= seq![v]);
}

/// A text that is read as one node from its start to its end is one document.
pub(crate) proof fn lemma_one_document(s: Seq<u8>, v: Val)
    requires
        s.len() > 0,
        past_filler(s, 0) == 0,
        s[0] != PERCENT && !doc_bound(s, 0),
        node(s, at_start(), 0) is Ok,
        (node(s, at_start(), 0)->Ok_0).0 == v,
        (node(s, at_start(), 0)->Ok_0).1.p == s.len(),
        merged(v) == v,
    ensures
        stream(s) is Ok,
        (stream(s)->Ok_0).0 == seq![v],
        (stream(s)->Ok_0).1.t == (node(s, at_start(), 0)->Ok_0).1.t,
{
    assert(at_start().to(0) == at_start());
    lemma_one_document_from(s, 0, v);
}

/// A collection that is written in flow style, in whatever way, is read back as one
/// document of that value: every item and every entry, in their order.
pub proof fn law_flow_reads_back(v: Val, y: Style)
    requires
        y.ok(),
        faithful(v),
        flow_plain(v),
        v is List || v is Dict,
    ensures
        stream(flow_form(v, y)) is Ok,
        (stream(flow_form(v, y))->Ok_0).0 == seq![v],
{
    let s = flow_form(v, y);
    let st = at_start();
    let nx = s.len() as int;
    assert(s.subrange(0, nx) =~= s);
    let outer = st.with(st.t.open(st.p, false));
    assert(s[0] == LBRACKET || s[0] == LBRACE);
    lemma_flow_whole(v, y, s, outer);
    let (w, st0) = flow_collection(s, outer)->Ok_0;
    lemma_run(s, nx, Class::Blank);
    step_content_flow(s, st, 0, 0);
    step_flow_or_map(s, st, 0, w, st0);
    step_bare(s, st, 0, 0);
    assert(spaces(0) =~= Seq::empty());
    assert(s.subrange(0, 0) =~= spaces(0));
    lemma_line_start(s, 0, 0);
    assert(st.to(0) == st);
    step_node_below(s, st, 0);
    lemma_merged(v);
    lemma_one_document(s, v);
}

} // verus!
