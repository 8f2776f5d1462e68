//! Flow collections around the scalar are read alike.
use vstd::prelude::*;
use super::super::unfold::{
    unfold_flow_collection, unfold_flow_content, unfold_flow_map, unfold_flow_node, unfold_flow_seq,
    unfold_flow_value,
};
use super::basic::{
    b_collection, b_flow_content, b_flow_map, b_flow_node, b_flow_seq, b_flow_value, lemma_key_nodes,
    lemma_kept_nodes, within,
};
use super::cut::{lemma_flow_gap, Cut};
use super::ends::{lemma_props_bd, lemma_quoted_end};
use super::flows::{
    f_map, f_node, f_props, f_seq, f_sound, f_value, lemma_quiet_after, lemma_quiet_down, lemma_quiet_props, quiet,
};
use super::growth::{
    covers, frame_is, good, kept, lemma_grow_open, lemma_grow_part, lemma_grow_promote, lemma_kept_from,
    lemma_kept_same, lemma_kept_trans, read_one,
};
use super::leaf::{lemma_plain_last, lemma_quoted_last, lemma_run_skip_class, lemma_trimmed_gap};
use super::lists::{
    entries_of, lemma_kept_len, lemma_key_apart, lemma_more_apart, lemma_more_grew, lemma_more_key, lemma_more_same,
    lemma_more_trans, more_entries,
};
use super::place::{
    end_of, keys_apart, leaf_at, lemma_alias_new, lemma_leaf_down, lemma_leaf_new, lemma_mid, lemma_not_empty, mid,
    node_free,
};
use super::shift::{m_close_flow, m_close_leaf, m_open, m_promote, moved_st, moved_tree};
use super::turn::{
    lemma_items_end, lemma_items_kept, lemma_items_on, lemma_items_with, lemma_pairs_end, lemma_pairs_kept,
    lemma_pairs_on, lemma_pairs_with, lemma_turned_leaf, lemma_turned_props, lemma_raw_quoted, turned, turned_items,
    turned_pairs, was,
};
use super::words::{lemma_props, moved_props};
use crate::edit::sink::{grew, inside, sound, trimmed, width, Extent, Tree};
use crate::parser::grammar::{flow_collection, flow_content, flow_map, flow_node, flow_seq, flow_value, with_props, St};
use crate::parser::layout::{bounds, col_at, moves, past_flow_gap, past_flow_gap_in, Fail};
use crate::parser::tokens::{lemma_plain, plain_end, plain_rest_in, plain_stop, plain_text, props, quoted, Props};
use crate::patterns::resolved;
use crate::text::{
    at, back, is_blank, is_break, lemma_back_stop, lemma_bd_ascii, run, Class, COLON, COMMA, DQUOTE, LBRACE,
    LBRACKET, RBRACE, RBRACKET, SQUOTE, STAR,
};
use crate::value::{scalar_text, Val};

verus! {

broadcast use {moves, bounds};

/// Whether the scalar of the second source is read as one scalar in flow context.
pub open spec fn flow_written(k: Cut) -> bool {
    let t = k.t;
    &&& k.x == k.a && k.y == k.b
    &&& Class::Name.holds(k.s[k.a])
    &&& Class::Name.holds(t[k.a])
    &&& t[k.a] != STAR
    &&& if t[k.a] == DQUOTE || t[k.a] == SQUOTE {
        quoted(t, k.a, t[k.a] == DQUOTE) is Ok && (quoted(t, k.a, t[k.a] == DQUOTE)->Ok_0).1 == k.c && k.n
            == Val::Str((quoted(t, k.a, t[k.a] == DQUOTE)->Ok_0).0)
    } else {
        plain_end(t, k.a, true) == k.c && k.n == resolved(plain_text(t, k.a, true))
    }
}

/// Whether among the nodes from `n` on neither one with an anchor nor a key covers
/// the scalar.
#[verifier::opaque]
pub open spec fn free(k: Cut, t: Tree, n: int) -> bool {
    forall|i: int| 0 <= n <= i < t.nodes.len() ==> node_free(k.a, #[trigger] t.nodes[i])
}

pub(crate) proof fn lemma_free_down(k: Cut, t: Tree, t1: Tree, from: int, n: int, n1: int)
    requires
        free(k, t1, n1),
        kept(t, t1, from),
        0 <= n1 <= n,
    ensures
        free(k, t, n),
{
    reveal(free);
    reveal(kept);
    assert forall|i: int| 0 <= n <= i < t.nodes.len() implies node_free(k.a, #[trigger] t.nodes[i]) by {
        assert(t1.nodes[i] == t.nodes[i]);
        assert(node_free(k.a, t1.nodes[i]));
    }
}

/// What is read from `st` to `st1` has the scalar in it.
pub open spec fn held(k: Cut, id: int, st: St, st1: St) -> bool {
    &&& mid(id, st.t, st1.t)
    &&& leaf_at(k, st1.t, id)
    &&& free(k, st1.t, st.t.nodes.len() as int)
    &&& quiet(k, st1.t, st.t.nodes.len() as int)
}

/// Whether what comes next in a flow collection is the same in both sources.
pub open spec fn flow_beside(k: Cut, st1: St, st2: St) -> bool {
    &&& st2.t == moved_tree(k, st1.t)
    &&& st2.a == st1.a
    &&& k.b <= st1.p <= k.s.len()
    &&& k.c <= st2.p <= k.t.len()
    &&& past_flow_gap(k.t, st2.p) == k.to(past_flow_gap(k.s, st1.p))
}

pub open spec fn flow_same(k: Cut, r: Result<(Val, St), Fail>, r2: Result<(Val, St), Fail>) -> bool {
    &&& r is Ok
    &&& r2 is Ok
    &&& flow_beside(k, end_of(r), end_of(r2))
    &&& turned(k, end_of(r).t, (r->Ok_0).0, (r2->Ok_0).0)
}

/// The parts of something that has the scalar in it.
proof fn lemma_held_part(k: Cut, id: int, st: St, sta: St, stb: St, end: St)
    requires
        held(k, id, st, end),
        st.t.nodes.len() <= sta.t.nodes.len(),
        kept(stb.t, end.t, stb.p),
        stb.p <= end.p,
        mid(id, sta.t, stb.t),
    ensures
        held(k, id, sta, stb),
{
    lemma_leaf_down(k, stb.t, end.t, stb.p, id);
    lemma_free_down(k, stb.t, end.t, stb.p, sta.t.nodes.len() as int, st.t.nodes.len() as int);
    lemma_quiet_down(k, stb.t, end.t, stb.p, sta.t.nodes.len() as int, st.t.nodes.len() as int);
}

/// Blanks are part of the gap that follows them.
proof fn lemma_gap_skip(s: Seq<u8>, p: int, q: int)
    requires
        0 <= p <= q <= s.len(),
        forall|i: int| p <= i < q ==> is_blank(#[trigger] s[i]),
    ensures
        past_flow_gap(s, p) == past_flow_gap(s, q),
{
    assert forall|i: int| p <= i < q implies Class::Gap.holds(#[trigger] s[i]) by {
        assert(is_blank(s[i]));
    }
    lemma_run_skip_class(s, p, q, Class::Gap);
}

/// The scalar itself.
proof fn g_leaf(k: Cut, id: int, st: St)
    requires
        k.base(),
        flow_written(k),
        good(k.s, st),
        st.p == k.a,
        flow_content(k.s, st) is Ok,
        held(k, id, st, end_of(flow_content(k.s, st))),
    ensures
        flow_same(k, flow_content(k.s, st), flow_content(k.t, moved_st(k, st))),
{
    let s = k.s;
    let st2 = moved_st(k, st);
    unfold_flow_content(s, st);
    unfold_flow_content(k.t, st2);
    let end = end_of(flow_content(s, st));
    let b = s[k.a];
    if b == STAR {
        let q = run(s, st.p + 1, Class::Name);
        lemma_alias_new(st.t, st.p, q, s, s.subrange(st.p + 1, q));
        assert(false);
    }
    let q = end.p;
    if b == DQUOTE || b == SQUOTE {
        lemma_quoted_last(s, k.a, b == DQUOTE);
    } else {
        lemma_plain(s, k.a, true);
        lemma_plain_end(s, k.a);
    }
    lemma_leaf_new(st.t, k.a, q, s);
    lemma_trimmed_gap(s, k.a, q);
    assert(trimmed(s, k.a, q) == k.b);
    lemma_gap_skip(s, k.b, q);
    let q2 = if k.t[k.a] == DQUOTE || k.t[k.a] == SQUOTE {
        k.c
    } else {
        plain_stop(k.t, k.a, true)
    };
    lemma_new_leaf(k);
    lemma_flow_gap(k, k.b);
    let t = st.t.open(k.a, false);
    m_open(k, st.t, k.a, false);
    assert(t.stack.len() > 0 && t.stack.last().start == k.a && t.stack.last().entries.len() == 0
        && t.stack.last().children.len() == 0) by {
        reveal(Tree::open);
    }
    m_close_leaf(k, t, q, q2);
    if b == DQUOTE || b == SQUOTE {
        lemma_quoted_end(s, k.a + 1, col_at(s, k.a), b == DQUOTE, Seq::empty());
        assert(back(s, k.a, q, Class::Breaks) == q);
        assert(back(s, k.a, q, Class::Blank) == q);
    } else {
        assert(back(s, k.a, q, Class::Breaks) == q);
    }
    lemma_flow_was(k, (flow_content(s, st)->Ok_0).0);
    super::turn::lemma_closed(t, q, s);
    lemma_turned_leaf(k, end.t, (flow_content(s, st)->Ok_0).0);
}

/// What the scalar of the first source was read as.
pub(crate) proof fn lemma_flow_was(k: Cut, v: Val)
    requires
        0 <= k.a < k.b <= k.s.len(),
        k.x == k.a && k.y == k.b,
        ({
            let s = k.s;
            let b = s[k.a];
            if b == DQUOTE || b == SQUOTE {
                &&& quoted(s, k.a, b == DQUOTE) is Ok
                &&& (quoted(s, k.a, b == DQUOTE)->Ok_0).1 == k.b
                &&& v == Val::Str((quoted(s, k.a, b == DQUOTE)->Ok_0).0)
            } else {
                &&& plain_end(s, k.a, true) == k.b
                &&& v == resolved(plain_text(s, k.a, true))
            }
        }),
    ensures
        was(k, v),
{
    let s = k.s;
    let raw = s.subrange(k.a, k.b);
    assert(raw[0] == s[k.a]);
    if s[k.a] == DQUOTE || s[k.a] == SQUOTE {
        lemma_raw_quoted(s, k.a, k.b);
    }
}

/// A plain scalar that has bytes does not end with its line.
proof fn lemma_plain_end(s: Seq<u8>, p: int)
    requires
        0 <= p < s.len(),
    ensures
        plain_stop(s, p, true) > p ==> !is_break(s[plain_stop(s, p, true) - 1]),
{
    if plain_stop(s, p, true) > p {
        lemma_plain_last(s, p, true);
    }
}

/// The scalar of the second source ends where it was written.
proof fn lemma_new_leaf(k: Cut)
    requires
        k.base(),
        flow_written(k),
    ensures
        ({
            let t = k.t;
            let q = if t[k.a] == DQUOTE || t[k.a] == SQUOTE {
                k.c
            } else {
                plain_stop(t, k.a, true)
            };
            &&& trimmed(t, k.a, q) == k.c
            &&& k.c <= q <= t.len()
            &&& past_flow_gap(t, q) == past_flow_gap(t, k.c)
        }),
{
    let t = k.t;
    if t[k.a] == DQUOTE || t[k.a] == SQUOTE {
        lemma_quoted_end(t, k.a + 1, col_at(t, k.a), t[k.a] == DQUOTE, Seq::empty());
        assert(back(t, k.a, k.c, Class::Breaks) == k.c);
        assert(back(t, k.a, k.c, Class::Blank) == k.c);
    } else {
        let q = plain_stop(t, k.a, true);
        plain_rest_in(t, k.a, true);
        lemma_back_stop(t, k.a, q, Class::Blank);
        lemma_plain_end(t, k.a);
        assert(back(t, k.a, q, Class::Breaks) == q);
        assert forall|i: int| k.c <= i < q implies is_blank(#[trigger] t[i]) by {
            assert(Class::Blank.holds(t[i]));
        }
        lemma_gap_skip(t, k.c, q);
    }
}

/// The state inside a flow collection, the scalar still to come.
proof fn lemma_held_mid(k: Cut, id: int, s: Seq<u8>, st: St, end: St)
    requires
        held(k, id, st, end),
        s == k.s,
        kept(st.t, end.t, st.p),
        good(s, end),
    ensures
        st.p <= k.a,
        k.b <= end.p,
{
    lemma_mid(k, id, s, st, end);
}

pub(crate) proof fn g_content(k: Cut, id: int, st: St)
    requires
        k.base(),
        flow_written(k),
        good(k.s, st),
        flow_content(k.s, st) is Ok,
        held(k, id, st, end_of(flow_content(k.s, st))),
    ensures
        flow_same(k, flow_content(k.s, st), flow_content(k.t, moved_st(k, st))),
    decreases k.s.len() - st.p, 2int,
{
    let s = k.s;
    b_flow_content(s, st);
    let end = end_of(flow_content(s, st));
    lemma_held_mid(k, id, s, st, end);
    if st.p == k.a {
        g_leaf(k, id, st);
    } else {
        unfold_flow_content(s, st);
        unfold_flow_content(k.t, moved_st(k, st));
        assert(s[st.p] == k.t[k.to(st.p)]);
        let b = s[st.p];
        if b == LBRACKET || b == LBRACE {
            g_collection(k, id, st);
        } else {
            if b == DQUOTE || b == SQUOTE {
                lemma_leaf_new(st.t, st.p, (quoted(s, st.p, b == DQUOTE)->Ok_0).1, s);
            } else if b == STAR {
                let q = run(s, st.p + 1, Class::Name);
                lemma_alias_new(st.t, st.p, q, s, s.subrange(st.p + 1, q));
            } else if b == COMMA || b == RBRACKET || b == RBRACE {
                lemma_not_empty(k, id, st.t, st.p);
            } else {
                lemma_leaf_new(st.t, st.p, plain_stop(s, st.p, true), s);
            }
            assert(false);
        }
    }
}

pub(crate) proof fn g_collection(k: Cut, id: int, st: St)
    requires
        k.base(),
        flow_written(k),
        good(k.s, st),
        st.p != k.a,
        at(k.s, st.p) == Some(LBRACKET) || at(k.s, st.p) == Some(LBRACE),
        flow_collection(k.s, st) is Ok,
        held(k, id, st, end_of(flow_collection(k.s, st))),
    ensures
        flow_collection(k.t, moved_st(k, st)) is Ok,
        end_of(flow_collection(k.t, moved_st(k, st))) == moved_st(k, end_of(flow_collection(k.s, st))),
        flow_same(k, flow_collection(k.s, st), flow_collection(k.t, moved_st(k, st))),
    decreases k.s.len() - st.p, 1int,
{
    let s = k.s;
    unfold_flow_collection(s, st);
    unfold_flow_collection(k.t, moved_st(k, st));
    b_collection(s, st);
    let end = end_of(flow_collection(s, st));
    lemma_held_mid(k, id, s, st, end);
    lemma_bd_ascii(s, st.p);
    lemma_grow_open(s, st, true);
    let t = st.t.open(st.p, true);
    f_sound(s, st.with(t), st.p + 1);
    let inner = St { p: st.p + 1, t, ..st };
    assert(s[st.p] == k.t[k.to(st.p)]);
    m_open(k, st.t, st.p, true);
    super::basic::lemma_open_count(st.t, st.p, true);
    if s[st.p] == LBRACKET {
        b_flow_seq(s, st.t, st.p, inner, Seq::empty());
        let (vs, st1) = flow_seq(s, inner, Seq::empty())->Ok_0;
        lemma_held_close(k, id, st, inner, st1);
        g_seq(k, id, st.t, st.p, inner, Seq::empty());
        lemma_flow_frame(k, id, st, inner, st1);
        let vs2 = (flow_seq(k.t, moved_st(k, inner), Seq::empty())->Ok_0).0;
        lemma_items_end(k, st1.t, st1.p, s, vs, vs2);
        m_close_flow(k, st1.t, st1.p);
    } else {
        b_flow_map(s, st.t, st.p, inner, Seq::empty(), false);
        let (kvs, st1) = flow_map(s, inner, Seq::empty())->Ok_0;
        lemma_held_close(k, id, st, inner, st1);
        g_map(k, id, st.t, st.p, inner, Seq::empty(), false);
        lemma_flow_frame(k, id, st, inner, st1);
        let kvs2 = (flow_map(k.t, moved_st(k, inner), Seq::empty())->Ok_0).0;
        lemma_pairs_end(k, st1.t, st1.p, s, kvs, kvs2);
        m_close_flow(k, st1.t, st1.p);
    }
    lemma_flow_gap(k, end.p);
}

/// The frame of a flow collection, before its bracket closes it.
proof fn lemma_flow_frame(k: Cut, id: int, st: St, inner: St, st1: St)
    requires
        within(k.s, st.t, st.p, st1, true, false) || within(k.s, st.t, st.p, st1, true, true),
    ensures
        st1.t.stack.len() > 0,
        st1.t.stack.last().delimited,
        st1.t.stack.last().start == st.p,
{
    reveal(inside);
    reveal(frame_is);
}

/// The scalar is among the parts of a flow collection that begins before it.
proof fn lemma_held_close(k: Cut, id: int, st: St, inner: St, st1: St)
    requires
        k.base(),
        held(k, id, st, st1.with(st1.t.close(st1.p, k.s))),
        st.p != k.a,
        inner.t.nodes == st.t.nodes,
        within(k.s, st.t, st.p, st1, true, false) || within(k.s, st.t, st.p, st1, true, true),
    ensures
        held(k, id, inner, st1),
        keys_apart(k.a, entries_of(st1.t)),
{
    let t = st1.t.close(st1.p, k.s);
    let n = st1.t.nodes.len() as int;
    assert(t.nodes.len() == n + 1 && t.nodes[n].span.a == st.p && (t.nodes[n].shape is Entries ==> t.nodes[n].shape->Entries_0
        == entries_of(st1.t)) && (entries_of(st1.t).len() > 0 ==> t.nodes[n].shape is Entries)) by {
        reveal(Tree::close);
        reveal(inside);
    }
    assert(kept(st1.t, t, st.p)) by {
        reveal(kept);
        reveal(Tree::close);
    }
    assert(st.t.nodes.len() <= n) by {
        reveal(inside);
    }
    lemma_free_down(k, st1.t, t, st.p, st.t.nodes.len() as int, st.t.nodes.len() as int);
    lemma_quiet_down(k, st1.t, t, st.p, st.t.nodes.len() as int, st.t.nodes.len() as int);
    lemma_leaf_down(k, st1.t, t, st.p, id);
    assert(keys_apart(k.a, entries_of(st1.t))) by {
        reveal(free);
        assert(node_free(k.a, t.nodes[n]));
    }
}


pub(crate) proof fn g_node(k: Cut, id: int, st: St)
    requires
        k.base(),
        flow_written(k),
        good(k.s, st),
        flow_node(k.s, st) is Ok,
        held(k, id, st, end_of(flow_node(k.s, st))),
    ensures
        flow_same(k, flow_node(k.s, st), flow_node(k.t, moved_st(k, st))),
    decreases k.s.len() - st.p, 3int,
{
    let s = k.s;
    unfold_flow_node(s, st);
    unfold_flow_node(k.t, moved_st(k, st));
    b_flow_node(s, st);
    let end = end_of(flow_node(s, st));
    let none = Props { tag: None, anchor: None };
    lemma_props_bd(s, st.p, true, none);
    let (x, p) = props(s, st.p, true)->Ok_0;
    f_sound(s, st, p);
    let st0 = st.to(p);
    b_flow_content(s, st0);
    let (v, st1) = flow_content(s, st0)->Ok_0;
    lemma_no_anchor(k, id, st, x, v, st1, end);
    assert(held(k, id, st0, st1));
    lemma_held_mid(k, id, s, st0, st1);
    assert(moved_props(k, none) == none);
    lemma_props(k, st.p, true, none);
    g_content(k, id, st0);
    f_props(k, x, v, st1);
    assert(st1.t.last is Some ==> 0 <= st1.t.last->0 < st1.t.nodes.len()) by {
        reveal(sound);
    }
    lemma_turned_props(k, x, v, (flow_content(k.t, moved_st(k, st0))->Ok_0).0, st1);
}

/// A node with the scalar in it has no anchor.
proof fn lemma_no_anchor(k: Cut, id: int, st: St, x: Props, v: Val, st1: St, end: St)
    requires
        k.base(),
        read_one(k.s, st, end),
        sound(st1.t, k.s, st1.p),
        end == with_props(x, v, st1).1,
        held(k, id, st, end),
        !k.flow(),
    ensures
        x.anchor is None,
        held(k, id, st, st1),
{
    reveal(Tree::set_anchor);
    reveal(Tree::set_tag);
    reveal(grew);
    reveal(free);
    lemma_quiet_props(k, x, v, st1, st.t.nodes.len() as int);
    assert(st1.t.last is Some ==> 0 <= st1.t.last->0 < st1.t.nodes.len()) by {
        reveal(sound);
    }
    let last = end.t.last->0;
    assert(st1.t.nodes.len() == end.t.nodes.len());
    assert forall|i: int| 0 <= i < st1.t.nodes.len() implies (#[trigger] end.t.nodes[i]).span == st1.t.nodes[i].span
        && end.t.nodes[i].shape == st1.t.nodes[i].shape && end.t.nodes[i].kind == st1.t.nodes[i].kind
        && end.t.nodes[i].delimited == st1.t.nodes[i].delimited by {}
    let n = st.t.nodes.len() as int;
    assert forall|i: int| 0 <= n <= i < st1.t.nodes.len() implies node_free(k.a, #[trigger] st1.t.nodes[i]) by {
        assert(node_free(k.a, end.t.nodes[i]));
        if i != last {
            assert(end.t.nodes[i] == st1.t.nodes[i]);
        }
    }
    if x.anchor is Some {
        reveal(covers);
        assert(end.t.nodes[last].anchor is Some);
        assert(end.t.nodes[last].span.a <= end.t.nodes[id].span.a && end.t.nodes[id].span.b
            <= end.t.nodes[last].span.b);
        assert(node_free(k.a, end.t.nodes[last]));
    }
}

pub(crate) proof fn g_value(k: Cut, id: int, st: St)
    requires
        k.base(),
        flow_written(k),
        good(k.s, st),
        flow_value(k.s, st) is Ok,
        held(k, id, st, end_of(flow_value(k.s, st))),
    ensures
        flow_same(k, flow_value(k.s, st), flow_value(k.t, moved_st(k, st))),
    decreases k.s.len() - st.p, 4int,
{
    let s = k.s;
    unfold_flow_value(s, st);
    b_flow_value(s, st);
    let p = past_flow_gap(s, st.p);
    let end = end_of(flow_value(s, st));
    if at(s, p) == Some(COLON) {
        past_flow_gap_in(s, p + 1);
        lemma_bd_ascii(s, p);
        let q = past_flow_gap(s, p + 1);
        f_sound(s, st, q);
        if q >= s.len() || s[q] == COMMA || s[q] == RBRACE {
            lemma_not_empty(k, id, st.t, q);
            assert(false);
        }
        b_flow_node(s, st.to(q));
        lemma_held_mid(k, id, s, st.to(q), end);
        lemma_flow_gap(k, st.p);
        assert(s[p] == k.t[k.to(p)]);
        lemma_flow_gap(k, p + 1);
        unfold_flow_value(k.t, moved_st(k, st));
        assert(at(k.t, q) is Some && k.t[q] != COMMA && k.t[q] != RBRACE) by {
            if q < k.a {
                assert(s[q] == k.t[q]);
            }
        }
        g_node(k, id, st.to(q));
    } else {
        lemma_not_empty(k, id, st.t, p);
        assert(false);
    }
}

/// Where the items of a flow sequence end does not depend on what came before.
proof fn lemma_seq_any(k: Cut, t: Tree, s: Seq<u8>, st: St, vs: Seq<Val>, vs2: Seq<Val>)
    requires
        0 <= st.p <= s.len(),
        flow_seq(s, st, vs) is Ok,
        turned_items(k, t, vs, vs2),
    ensures
        flow_seq(s, st, vs2) is Ok,
        end_of(flow_seq(s, st, vs2)) == end_of(flow_seq(s, st, vs)),
        turned_items(k, t, (flow_seq(s, st, vs)->Ok_0).0, (flow_seq(s, st, vs2)->Ok_0).0),
    decreases s.len() - st.p,
{
    unfold_flow_seq(s, st, vs);
    unfold_flow_seq(s, st, vs2);
    let p = past_flow_gap(s, st.p);
    past_flow_gap_in(s, st.p);
    if s[p] != RBRACKET {
        let (v, st1) = flow_node(s, st.to(p))->Ok_0;
        let q = past_flow_gap(s, st1.p);
        lemma_kept_same(t, 0);
        lemma_items_on(k, t, t, vs, vs2, v, 0);
        if s[q] == COMMA {
            lemma_seq_any(k, t, s, st1.to(q + 1), vs.push(v), vs2.push(v));
        }
    }
}

proof fn lemma_map_any(k: Cut, t: Tree, s: Seq<u8>, st: St, kvs: Seq<(Val, Val)>, kvs2: Seq<(Val, Val)>)
    requires
        0 <= st.p <= s.len(),
        flow_map(s, st, kvs) is Ok,
        turned_pairs(k, t, kvs, kvs2),
    ensures
        flow_map(s, st, kvs2) is Ok,
        end_of(flow_map(s, st, kvs2)) == end_of(flow_map(s, st, kvs)),
        turned_pairs(k, t, (flow_map(s, st, kvs)->Ok_0).0, (flow_map(s, st, kvs2)->Ok_0).0),
    decreases s.len() - st.p,
{
    unfold_flow_map(s, st, kvs);
    unfold_flow_map(s, st, kvs2);
    let p = past_flow_gap(s, st.p);
    past_flow_gap_in(s, st.p);
    if s[p] != RBRACE {
        let (key, st1) = flow_node(s, st.to(p))->Ok_0;
        let (v, st2) = flow_value(s, st1.with(st1.t.promote(scalar_text(key))))->Ok_0;
        let q = past_flow_gap(s, st2.p);
        lemma_kept_same(t, 0);
        lemma_pairs_on(k, t, t, kvs, kvs2, (key, v), 0);
        if s[q] == COMMA {
            lemma_map_any(k, t, s, st2.to(q + 1), kvs.push((key, v)), kvs2.push((key, v)));
        }
    }
}

pub(crate) proof fn g_seq(k: Cut, id: int, t0: Tree, start: int, st: St, vs: Seq<Val>)
    requires
        k.base(),
        flow_written(k),
        within(k.s, t0, start, st, true, false),
        flow_seq(k.s, st, vs) is Ok,
        held(k, id, st, end_of(flow_seq(k.s, st, vs))),
    ensures
        flow_seq(k.t, moved_st(k, st), vs) is Ok,
        end_of(flow_seq(k.t, moved_st(k, st), vs)) == moved_st(k, end_of(flow_seq(k.s, st, vs))),
        turned_items(
            k,
            end_of(flow_seq(k.s, st, vs)).t,
            (flow_seq(k.s, st, vs)->Ok_0).0,
            (flow_seq(k.t, moved_st(k, st), vs)->Ok_0).0,
        ),
        k.b < end_of(flow_seq(k.s, st, vs)).p,
    decreases k.s.len() - st.p, 4int,
{
    let s = k.s;
    unfold_flow_seq(s, st, vs);
    unfold_flow_seq(k.t, moved_st(k, st), vs);
    b_flow_seq(s, t0, start, st, vs);
    let end = end_of(flow_seq(s, st, vs));
    lemma_held_mid(k, id, s, st, end);
    let p = past_flow_gap(s, st.p);
    assert(s[p] != RBRACKET);
    f_sound(s, st, p);
    let st0 = st.to(p);
    b_flow_node(s, st0);
    let (v, st1) = flow_node(s, st0)->Ok_0;
    lemma_grow_part(s, t0, start, st0, st1, true, false);
    let q = past_flow_gap(s, st1.p);
    lemma_bd_ascii(s, q);
    f_sound(s, st1, q + 1);
    if s[q] == COMMA {
        b_flow_seq(s, t0, start, st1.to(q + 1), vs.push(v));
    } else {
        lemma_kept_same(st1.t, q + 1);
    }
    assert(kept(st1.t, end.t, q + 1) && q < end.p);
    lemma_kept_len(st0.t, st1.t, p);
    lemma_kept_len(st1.t, end.t, q + 1);
    lemma_kept_from(st1.t, end.t, q + 1, st1.p);
    if id < st1.t.nodes.len() {
        // The scalar is in this item.
        lemma_held_part(k, id, st, st0, st1, end);
        lemma_held_mid(k, id, s, st0, st1);
        lemma_flow_gap(k, st.p);
        assert(at(k.t, p) is Some && k.t[p] != RBRACKET) by {
            if p < k.a {
                assert(s[p] == k.t[p]);
            }
        }
        g_node(k, id, st0);
        let (w, st1b) = flow_node(k.t, moved_st(k, st0))->Ok_0;
        assert(s[q] == k.t[k.to(q)]);
        assert(k.to(q + 1) == k.to(q) + 1);
        lemma_items_with(k, st1.t, vs, v, w);
        if s[q] == COMMA {
            let st3 = st1.to(q + 1);
            lemma_seq_any(k, st1.t, s, st3, vs.push(v), vs.push(w));
            lemma_quiet_after(k, end.t, st.t.nodes.len() as int, st3.t.nodes.len() as int);
            f_seq(k, t0, start, st3, vs.push(w));
            assert(st1b.to(k.to(q) + 1) == moved_st(k, st3));
        }
        lemma_items_kept(
            k,
            st1.t,
            end.t,
            (flow_seq(s, st, vs)->Ok_0).0,
            (flow_seq(k.t, moved_st(k, st), vs)->Ok_0).0,
            q + 1,
        );
    } else {
        assert(q + 1 <= k.a) by {
            reveal(kept);
            assert(end.t.nodes[id].span.a >= q + 1);
        }
        lemma_flow_gap(k, st.p);
        assert(s[p] == k.t[p]);
        f_node(k, st0);
        lemma_flow_gap(k, st1.p);
        assert(s[q] == k.t[q]);
        let st3 = st1.to(q + 1);
        lemma_kept_same(end.t, end.p);
        lemma_held_part(k, id, st, st3, end, end);
        g_seq(k, id, t0, start, st3, vs.push(v));
    }
}

/// The entries of a flow mapping are only added to.
proof fn e_flow_map(s: Seq<u8>, t0: Tree, start: int, st: St, kvs: Seq<(Val, Val)>, entries: bool)
    requires
        within(s, t0, start, st, true, entries),
        width(st.t) == 0,
        flow_map(s, st, kvs) is Ok,
    ensures
        more_entries(st.t, end_of(flow_map(s, st, kvs)).t),
    decreases s.len() - st.p,
{
    unfold_flow_map(s, st, kvs);
    let p = past_flow_gap(s, st.p);
    lemma_more_same(st.t);
    if s[p] != RBRACE {
        f_sound(s, st, p);
        let st0 = st.to(p);
        b_flow_node(s, st0);
        let (key, st1) = flow_node(s, st0)->Ok_0;
        lemma_grow_part(s, t0, start, st0, st1, true, entries);
        lemma_grow_promote(s, t0, start, st1, scalar_text(key), true, entries);
        let st2 = st1.with(st1.t.promote(scalar_text(key)));
        b_flow_value(s, st2);
        let (v, st3) = flow_value(s, st2)->Ok_0;
        lemma_grow_part(s, t0, start, st2, st3, true, entries);
        let q = past_flow_gap(s, st3.p);
        lemma_bd_ascii(s, q);
        f_sound(s, st3, q + 1);
        assert(st0.t.stack.len() > 0 && st2.t.stack.len() > 0) by {
            reveal(inside);
        }
        lemma_more_grew(st.t, st1.t, p);
        lemma_more_key(st1.t, Extent { a: 0, b: 0 }, scalar_text(key));
        lemma_more_trans(st.t, st1.t, st2.t);
        lemma_more_grew(st2.t, st3.t, st2.p);
        lemma_more_trans(st.t, st2.t, st3.t);
        if s[q] == COMMA {
            e_flow_map(s, t0, start, st3.to(q + 1), kvs.push((key, v)), true);
            lemma_more_trans(st.t, st3.t, end_of(flow_map(s, st, kvs)).t);
        }
    }
}

pub(crate) proof fn g_map(k: Cut, id: int, t0: Tree, start: int, st: St, kvs: Seq<(Val, Val)>, entries: bool)
    requires
        k.base(),
        flow_written(k),
        within(k.s, t0, start, st, true, entries),
        width(st.t) == 0,
        flow_map(k.s, st, kvs) is Ok,
        held(k, id, st, end_of(flow_map(k.s, st, kvs))),
        keys_apart(k.a, entries_of(end_of(flow_map(k.s, st, kvs)).t)),
    ensures
        flow_map(k.t, moved_st(k, st), kvs) is Ok,
        end_of(flow_map(k.t, moved_st(k, st), kvs)) == moved_st(k, end_of(flow_map(k.s, st, kvs))),
        turned_pairs(
            k,
            end_of(flow_map(k.s, st, kvs)).t,
            (flow_map(k.s, st, kvs)->Ok_0).0,
            (flow_map(k.t, moved_st(k, st), kvs)->Ok_0).0,
        ),
        k.b < end_of(flow_map(k.s, st, kvs)).p,
    decreases k.s.len() - st.p, 5int,
{
    let s = k.s;
    unfold_flow_map(s, st, kvs);
    unfold_flow_map(k.t, moved_st(k, st), kvs);
    b_flow_map(s, t0, start, st, kvs, entries);
    let end = end_of(flow_map(s, st, kvs));
    lemma_held_mid(k, id, s, st, end);
    let p = past_flow_gap(s, st.p);
    assert(s[p] != RBRACE);
    f_sound(s, st, p);
    let st0 = st.to(p);
    b_flow_node(s, st0);
    let (key, st1) = flow_node(s, st0)->Ok_0;
    let st2 = st1.with(st1.t.promote(scalar_text(key)));
    let (v, st3) = flow_value(s, st2)->Ok_0;
    let q = past_flow_gap(s, st3.p);
    lemma_map_parts(k, id, t0, start, st, kvs, entries);
    // The key is read alike.
    lemma_flow_gap(k, st.p);
    assert(s[p] == k.t[p]);
    f_node(k, st0);
    m_promote(k, st1.t, s, st1.p, scalar_text(key));
    let st2b = moved_st(k, st2);
    lemma_grow_part(s, t0, start, st0, st1, true, entries);
    lemma_grow_promote(s, t0, start, st1, scalar_text(key), true, entries);
    b_flow_value(s, st2);
    lemma_grow_part(s, t0, start, st2, st3, true, entries);
    lemma_bd_ascii(s, q);
    f_sound(s, st3, q + 1);
    let st4 = st3.to(q + 1);
    if id < st3.t.nodes.len() {
        // The scalar is in this value.
        lemma_held_mid(k, id, s, st2, st3);
        g_value(k, id, st2);
        let (w, st3b) = flow_value(k.t, st2b)->Ok_0;
        assert(s[q] == k.t[k.to(q)]);
        assert(k.to(q + 1) == k.to(q) + 1);
        lemma_pairs_with(k, st3.t, kvs, key, v, w);
        if s[q] == COMMA {
            lemma_map_any(k, st3.t, s, st4, kvs.push((key, v)), kvs.push((key, w)));
            lemma_quiet_after(k, end.t, st.t.nodes.len() as int, st4.t.nodes.len() as int);
            f_map(k, t0, start, st4, kvs.push((key, w)), true);
            assert(st3b.to(k.to(q) + 1) == moved_st(k, st4));
        }
        lemma_pairs_kept(
            k,
            st3.t,
            end.t,
            (flow_map(s, st, kvs)->Ok_0).0,
            (flow_map(k.t, moved_st(k, st), kvs)->Ok_0).0,
            q + 1,
        );
    } else {
        f_value(k, st2);
        lemma_flow_gap(k, st3.p);
        assert(s[q] == k.t[q]);
        lemma_kept_same(end.t, end.p);
        lemma_held_part(k, id, st, st4, end, end);
        g_map(k, id, t0, start, st4, kvs.push((key, v)), true);
    }
}

/// The parts of a flow mapping with the scalar in it: its first key lies before it,
/// and so does its first value unless the scalar is in that.
proof fn lemma_map_parts(k: Cut, id: int, t0: Tree, start: int, st: St, kvs: Seq<(Val, Val)>, entries: bool)
    requires
        k.base(),
        within(k.s, t0, start, st, true, entries),
        width(st.t) == 0,
        flow_map(k.s, st, kvs) is Ok,
        at(k.s, past_flow_gap(k.s, st.p)) != Some(RBRACE),
        held(k, id, st, end_of(flow_map(k.s, st, kvs))),
        keys_apart(k.a, entries_of(end_of(flow_map(k.s, st, kvs)).t)),
    ensures
        ({
            let s = k.s;
            let p = past_flow_gap(s, st.p);
            let st0 = st.to(p);
            let (key, st1) = flow_node(s, st0)->Ok_0;
            let st2 = st1.with(st1.t.promote(scalar_text(key)));
            let (v, st3) = flow_value(s, st2)->Ok_0;
            let q = past_flow_gap(s, st3.p);
            let end = end_of(flow_map(s, st, kvs));
            &&& st1.p < k.a
            &&& kept(st3.t, end.t, q + 1)
            &&& q < end.p
            &&& st.t.nodes.len() <= st3.t.nodes.len()
            &&& id < st3.t.nodes.len() ==> held(k, id, st2, st3)
            &&& id >= st3.t.nodes.len() ==> q + 1 <= k.a && mid(id, st3.t, end.t) && s[q] == COMMA
        }),
{
    let s = k.s;
    unfold_flow_map(s, st, kvs);
    let end = end_of(flow_map(s, st, kvs));
    let p = past_flow_gap(s, st.p);
    f_sound(s, st, p);
    let st0 = st.to(p);
    b_flow_node(s, st0);
    let (key, st1) = flow_node(s, st0)->Ok_0;
    lemma_grow_part(s, t0, start, st0, st1, true, entries);
    lemma_grow_promote(s, t0, start, st1, scalar_text(key), true, entries);
    lemma_key_nodes(st1.t, Extent { a: 0, b: 0 }, scalar_text(key));
    let st2 = st1.with(st1.t.promote(scalar_text(key)));
    b_flow_value(s, st2);
    let (v, st3) = flow_value(s, st2)->Ok_0;
    lemma_grow_part(s, t0, start, st2, st3, true, entries);
    let q = past_flow_gap(s, st3.p);
    lemma_bd_ascii(s, q);
    f_sound(s, st3, q + 1);
    if s[q] == COMMA {
        b_flow_map(s, t0, start, st3.to(q + 1), kvs.push((key, v)), true);
        e_flow_map(s, t0, start, st3.to(q + 1), kvs.push((key, v)), true);
    } else {
        lemma_kept_same(st3.t, q + 1);
        lemma_more_same(st3.t);
    }
    lemma_kept_len(st0.t, st1.t, p);
    lemma_kept_len(st2.t, st3.t, st2.p);
    lemma_kept_len(st3.t, end.t, q + 1);
    lemma_kept_from(st3.t, end.t, q + 1, st3.p);
    lemma_kept_nodes(st1.t, st2.t, st3.t, st2.p, st1.p);
    lemma_kept_trans(st1.t, st3.t, end.t, st1.p, st3.p);
    // It is not in the key.
    lemma_more_apart(k, st3.t, end.t);
    assert(st0.t.stack.len() > 0) by {
        reveal(inside);
    }
    if id < st1.t.nodes.len() {
        lemma_leaf_down(k, st1.t, end.t, st1.p, id);
        lemma_key_apart(k, id, st0.t, st1.t, st2.t, st3.t, p, st2.p, scalar_text(key));
    }
    if id < st3.t.nodes.len() {
        lemma_held_part(k, id, st, st2, st3, end);
        lemma_value_after(k, id, st2);
    } else {
        reveal(kept);
        assert(end.t.nodes[id].span.a >= q + 1);
    }
}

/// A value with the scalar in it comes after a colon.
proof fn lemma_value_after(k: Cut, id: int, st: St)
    requires
        k.base(),
        good(k.s, st),
        flow_value(k.s, st) is Ok,
        held(k, id, st, end_of(flow_value(k.s, st))),
    ensures
        st.p < k.a,
{
    let s = k.s;
    unfold_flow_value(s, st);
    let p = past_flow_gap(s, st.p);
    let end = end_of(flow_value(s, st));
    if at(s, p) == Some(COLON) {
        past_flow_gap_in(s, p + 1);
        lemma_bd_ascii(s, p);
        let q = past_flow_gap(s, p + 1);
        f_sound(s, st, q);
        if q >= s.len() || s[q] == COMMA || s[q] == RBRACE {
            lemma_not_empty(k, id, st.t, q);
        } else {
            b_flow_node(s, st.to(q));
            lemma_held_mid(k, id, s, st.to(q), end);
        }
    } else {
        lemma_not_empty(k, id, st.t, p);
    }
}

} // verus!
