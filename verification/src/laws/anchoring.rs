//! Aliases are read as what their anchor was given to last.
use vstd::prelude::*;
use super::emit::{faithful, faithful_items, lemma_line_start, lemma_merged, lemma_run_to, spaces};
use super::flowing::{
    closes, flow_form, flow_plain, flow_reads, lemma_bare_node, lemma_first_of_form, lemma_flow, lemma_gap,
    lemma_one_document, Style,
};
use super::scalars::{holds, lemma_holds_add, lemma_holds_at};
use super::steps::{step_bare, step_content_flow, step_flow_or_map, step_node_below};
use super::unfold::{unfold_flow_collection, unfold_flow_content, unfold_flow_node, unfold_flow_seq};
use crate::edit::sink::Extent;
use crate::parser::grammar::{anchored, at_start, flow_collection, flow_node, flow_seq, stream, St};
use crate::parser::layout::{moves, past_flow_gap, Fail};
use crate::parser::tokens::{props, props_from, props_round, Props};
use crate::text::{is_blank, is_break, lemma_run, run, Class, AMP, COMMA, LBRACKET, RBRACKET, SPACE, STAR};
use crate::value::Val;

verus! {

broadcast use moves;

/// An item of a sequence: a value, a value with an anchor, or an alias.
pub enum Piece {
    Plain(Val),
    Named(Seq<u8>, Val),
    Again(Seq<u8>),
}

/// Whether a name can be given to an anchor.
pub open spec fn good_name(n: Seq<u8>) -> bool {
    n.len() > 0 && forall|i: int| 0 <= i < n.len() ==> Class::Name.holds(#[trigger] n[i])
}

/// Whether piece `i` gives `v` the name `n`, and no piece from there up to `k` gives it
/// to another.
pub open spec fn named_last(xs: Seq<Piece>, n: Seq<u8>, v: Val, i: int, k: int) -> bool {
    &&& 0 <= i < k <= xs.len()
    &&& xs[i] == Piece::Named(n, v)
    &&& forall|j: int| i < j < k ==> !(#[trigger] xs[j] is Named && xs[j]->Named_0 == n)
}

/// Whether a piece can be written where it stands: its value is read back, and an alias
/// comes after an anchor of its name.
pub open spec fn good_piece(xs: Seq<Piece>, k: int) -> bool {
    match xs[k] {
        Piece::Plain(v) => faithful(v) && flow_plain(v),
        Piece::Named(n, v) => good_name(n) && faithful(v) && flow_plain(v),
        Piece::Again(n) => good_name(n) && exists|i: int, v: Val| #[trigger] named_last(xs, n, v, i, k),
    }
}

/// A piece in flow style.
pub open spec fn piece_form(x: Piece, y: Style) -> Seq<u8> {
    match x {
        Piece::Plain(v) => flow_form(v, y),
        Piece::Named(n, v) => seq![AMP] + n + seq![SPACE] + flow_form(v, y),
        Piece::Again(n) => seq![STAR] + n,
    }
}

/// The pieces from `j` on, and the bracket that closes them.
pub open spec fn pieces_form(xs: Seq<Piece>, j: int, y: Style) -> Seq<u8>
    decreases xs.len() - j,
{
    if !(0 <= j < xs.len()) {
        y.gap + seq![RBRACKET]
    } else {
        y.gap + piece_form(xs[j], y) + y.gap + (if j + 1 == xs.len() && !y.trail {
            seq![RBRACKET]
        } else {
            seq![COMMA] + pieces_form(xs, j + 1, y)
        })
    }
}

/// Whether piece `k` is read as `v`: as its own value, or for an alias as the value that
/// was given its name last.
pub open spec fn read_as(xs: Seq<Piece>, k: int, v: Val) -> bool {
    match xs[k] {
        Piece::Plain(w) => v == w,
        Piece::Named(_, w) => v == w,
        Piece::Again(n) => exists|i: int| #[trigger] named_last(xs, n, v, i, k),
    }
}

/// The names given before piece `k`.
spec fn given(xs: Seq<Piece>, k: int) -> Seq<(Seq<u8>, Val)>
    decreases k,
{
    if k <= 0 {
        Seq::empty()
    } else {
        match xs[k - 1] {
            Piece::Named(n, v) => given(xs, k - 1).push((n, v)),
            _ => given(xs, k - 1),
        }
    }
}

proof fn lemma_given(xs: Seq<Piece>, n: Seq<u8>, v: Val, i: int, k: int)
    requires
        named_last(xs, n, v, i, k),
    ensures
        anchored(given(xs, k), n) == Some(v),
    decreases k,
{
    let g = given(xs, k);
    if i == k - 1 {
        assert(g.last() == (n, v));
    } else {
        assert(named_last(xs, n, v, i, k - 1));
        lemma_given(xs, n, v, i, k - 1);
        assert(!(xs[k - 1] is Named && xs[k - 1]->Named_0 == n));
        if xs[k - 1] is Named {
            assert(g.drop_last() =~= given(xs, k - 1));
        }
    }
}

/// An alias is read.
proof fn lemma_again(xs: Seq<Piece>, k: int, y: Style, s: Seq<u8>, st: St) -> (v: Val)
    requires
        y.ok(),
        0 <= k < xs.len(),
        good_piece(xs, k),
        xs[k] is Again,
        st.a == given(xs, k),
        holds(s, st.p, piece_form(xs[k], y)),
        closes(s, st.p + piece_form(xs[k], y).len(), y),
        s[st.p + piece_form(xs[k], y).len() + y.gap.len()] == COMMA || s[st.p + piece_form(xs[k], y).len() + y.gap.len()]
            == RBRACKET,
    ensures
        read_as(xs, k, v),
        flow_reads(s, st, flow_node(s, st), v, st.p + piece_form(xs[k], y).len(), y),
{
    let n = xs[k]->Again_0;
    let (i, v) = choose|i: int, v: Val| #[trigger] named_last(xs, n, v, i, k);
    let t = piece_form(xs[k], y);
    let e = st.p + t.len();
    lemma_holds_at(s, st.p, t, 0);
    lemma_holds_add(s, st.p, seq![STAR], n);
    lemma_name_ends(s, st.p + 1, n, y);
    lemma_given(xs, n, v, i, k);
    unfold_flow_node(s, st);
    assert(props(s, st.p, true) == Ok::<_, Fail>((Props { tag: None, anchor: None }, st.p)));
    assert(st.to(st.p) == st);
    unfold_flow_content(s, st);
    v
}

/// A name ends before a gap or a mark.
proof fn lemma_name_ends(s: Seq<u8>, p: int, n: Seq<u8>, y: Style)
    requires
        y.ok(),
        good_name(n),
        holds(s, p, n),
        holds(s, p + n.len(), y.gap),
        p + n.len() + y.gap.len() < s.len(),
        s[p + n.len() + y.gap.len()] == COMMA || s[p + n.len() + y.gap.len()] == RBRACKET || s[p + n.len()] == SPACE,
    ensures
        run(s, p, Class::Name) == p + n.len(),
        s.subrange(p, p + n.len()) == n,
{
    let e = p + n.len();
    assert forall|i: int| p <= i < e implies Class::Name.holds(#[trigger] s[i]) by {
        lemma_holds_at(s, p, n, i - p);
        assert(Class::Name.holds(n[i - p]));
    }
    if y.gap.len() > 0 {
        lemma_holds_at(s, e, y.gap, 0);
        assert(is_blank(y.gap[0]) || is_break(y.gap[0]));
    }
    lemma_run_to(s, p, Class::Name, e);
}

/// A value with an anchor is read, and its name is given.
proof fn lemma_named(n: Seq<u8>, v: Val, y: Style, s: Seq<u8>, st: St)
    requires
        y.ok(),
        good_name(n),
        faithful(v),
        flow_plain(v),
        holds(s, st.p, piece_form(Piece::Named(n, v), y)),
        closes(s, st.p + piece_form(Piece::Named(n, v), y).len(), y),
    ensures
        ({
            let e = st.p + piece_form(Piece::Named(n, v), y).len();
            let r = flow_node(s, st);
            &&& r is Ok
            &&& (r->Ok_0).0 == v
            &&& e <= (r->Ok_0).1.p <= e + y.gap.len()
            &&& (r->Ok_0).1.a == st.a.push((n, v))
        }),
{
    let f = flow_form(v, y);
    let t = piece_form(Piece::Named(n, v), y);
    let p = st.p;
    let e = p + 1 + n.len();
    let q = e + 1;
    assert(t =~= seq![AMP] + (n + (seq![SPACE] + f)));
    lemma_holds_at(s, p, t, 0);
    lemma_holds_add(s, p, seq![AMP], n + (seq![SPACE] + f));
    lemma_holds_add(s, p + 1, n, seq![SPACE] + f);
    lemma_holds_add(s, e, seq![SPACE], f);
    lemma_holds_at(s, e, seq![SPACE], 0);
    lemma_first_of_form(v, y, s, q);
    assert forall|i: int| p + 1 <= i < e implies Class::Name.holds(#[trigger] s[i]) by {
        lemma_holds_at(s, p + 1, n, i - p - 1);
        assert(Class::Name.holds(n[i - p - 1]));
    }
    lemma_run_to(s, p + 1, Class::Name, e);
    assert forall|i: int| e <= i < q implies Class::Blank.holds(#[trigger] s[i]) by {}
    lemma_run_to(s, e, Class::Blank, q);
    lemma_run_to(s, q, Class::Gap, q);
    assert(past_flow_gap(s, q) == q);
    let none = Props { tag: None, anchor: None };
    let got = Props { tag: None, anchor: Some((n, Extent { a: p, b: e })) };
    assert(props_round(s, p, true, none) == Ok::<_, Fail>(Some((got, q))));
    assert(props_round(s, q, true, got) == Ok::<_, Fail>(None::<(Props, int)>));
    assert(props_from(s, q, true, got) == Ok::<_, Fail>((got, q)));
    assert(props(s, p, true) == Ok::<_, Fail>((got, q)));
    unfold_flow_node(s, st);
    lemma_flow(v, y, s, st.to(q));
    lemma_bare_node(s, st.to(q));
}

/// The pieces from `j` on are read, `vs` having been read before them.
proof fn lemma_pieces(xs: Seq<Piece>, j: int, y: Style, s: Seq<u8>, st: St, vs: Seq<Val>) -> (ws: Seq<Val>)
    requires
        y.ok(),
        0 <= j <= xs.len(),
        forall|i: int| 0 <= i < xs.len() ==> #[trigger] good_piece(xs, i),
        holds(s, st.p, pieces_form(xs, j, y)),
        st.a == given(xs, j),
        vs.len() == j,
        forall|i: int| 0 <= i < j ==> read_as(xs, i, #[trigger] vs[i]),
    ensures
        flow_seq(s, st, vs) is Ok,
        (flow_seq(s, st, vs)->Ok_0).0 == ws,
        (flow_seq(s, st, vs)->Ok_0).1.p == st.p + pieces_form(xs, j, y).len(),
        ws.len() == xs.len(),
        forall|i: int| 0 <= i < ws.len() ==> read_as(xs, i, #[trigger] ws[i]),
    decreases xs.len() - j,
{
    let g = y.gap;
    unfold_flow_seq(s, st, vs);
    if j == xs.len() {
        lemma_holds_add(s, st.p, g, seq![RBRACKET]);
        lemma_holds_at(s, st.p + g.len(), seq![RBRACKET], 0);
        lemma_gap(s, st.p, st.p, y);
        vs
    } else {
        let f = piece_form(xs[j], y);
        let rest = if j + 1 == xs.len() && !y.trail {
            seq![RBRACKET]
        } else {
            seq![COMMA] + pieces_form(xs, j + 1, y)
        };
        let a = st.p + g.len();
        let b = a + f.len();
        let c = b + g.len();
        assert(pieces_form(xs, j, y) =~= g + (f + (g + rest)));
        lemma_holds_add(s, st.p, g, f + (g + rest));
        lemma_holds_add(s, a, f, g + rest);
        lemma_holds_add(s, b, g, rest);
        lemma_holds_at(s, c, rest, 0);
        assert(good_piece(xs, j));
        let st0 = st.to(a);
        let w = match xs[j] {
            Piece::Plain(v) => {
                lemma_first_of_form(v, y, s, a);
                lemma_flow(v, y, s, st0);
                v
            },
            Piece::Named(n, v) => {
                lemma_named(n, v, y, s, st0);
                lemma_holds_at(s, a, f, 0);
                v
            },
            Piece::Again(n) => {
                lemma_holds_at(s, a, f, 0);
                lemma_again(xs, j, y, s, st0)
            },
        };
        lemma_gap(s, st.p, st.p, y);
        let (v, st1) = flow_node(s, st0)->Ok_0;
        assert(v == w && st1.a == given(xs, j + 1));
        lemma_gap(s, b, st1.p, y);
        let more = vs.push(w);
        if j + 1 == xs.len() && !y.trail {
            more
        } else {
            lemma_holds_add(s, c, seq![COMMA], pieces_form(xs, j + 1, y));
            lemma_pieces(xs, j + 1, y, s, st1.to(c + 1), more)
        }
    }
}

/// An alias is read as the value that was given its name last before it, and every other
/// item as its own value, with an anchor or without.
pub proof fn law_aliases_read_their_anchor(xs: Seq<Piece>, y: Style) -> (vs: Seq<Val>)
    requires
        y.ok(),
        forall|i: int| 0 <= i < xs.len() ==> #[trigger] good_piece(xs, i),
    ensures
        stream(seq![LBRACKET] + pieces_form(xs, 0, y)) is Ok,
        (stream(seq![LBRACKET] + pieces_form(xs, 0, y))->Ok_0).0 == seq![Val::List(vs)],
        vs.len() == xs.len(),
        forall|i: int| 0 <= i < vs.len() ==> read_as(xs, i, #[trigger] vs[i]),
{
    let s = seq![LBRACKET] + pieces_form(xs, 0, y);
    let nx = s.len() as int;
    assert(s.subrange(0, nx) =~= s);
    lemma_holds_add(s, 0, seq![LBRACKET], pieces_form(xs, 0, y));
    assert(s[0] == LBRACKET);
    let st = at_start();
    let outer = st.with(st.t.open(st.p, false));
    let inner = St { p: outer.p + 1, t: outer.t.open(outer.p, true), ..outer };
    unfold_flow_collection(s, outer);
    let vs = lemma_pieces(xs, 0, y, s, inner, Seq::empty());
    let v = Val::List(vs);
    let (w, st0) = flow_collection(s, outer)->Ok_0;
    assert(w == v && st0.p == nx);
    assert(faithful_items(vs)) by {
        assert forall|i: int| 0 <= i < vs.len() implies faithful(#[trigger] vs[i]) by {
            assert(read_as(xs, i, vs[i]));
            assert(good_piece(xs, i));
            if let Piece::Again(n) = xs[i] {
                let j = choose|j: int| #[trigger] named_last(xs, n, vs[i], j, i);
                assert(good_piece(xs, j));
            }
        }
    }
    assert(faithful(v));
    lemma_run(s, nx, Class::Blank);
    step_content_flow(s, st, 0, 0);
    step_flow_or_map(s, st, 0, w, st0);
    step_bare(s, st, 0, 0);
    assert(spaces(0) =~= Seq::empty());
    assert(s.subrange(0, 0) =~= spaces(0));
    lemma_line_start(s, 0, 0);
    assert(st.to(0) == st);
    step_node_below(s, st, 0);
    lemma_merged(v);
    lemma_one_document(s, v);
    vs
}

} // verus!
