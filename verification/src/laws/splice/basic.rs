//! Every part of the grammar adds to the span tree what it reads, and nothing
//! else.
use vstd::prelude::*;
use super::ends::{lemma_block_bd, lemma_folded_bd, lemma_props_bd, lemma_quoted_bd, lemma_token_bd};
use super::super::unfold::unfold_flow_collection;
use super::nest::{framed, n_kind_open};
use super::growth::{
    frame_is, good, kept, lemma_grow_anchor, lemma_grow_close, lemma_grow_close_flow, lemma_grow_dissolve,
    lemma_grow_empty, lemma_grow_key, lemma_grow_leaf, lemma_grow_open, lemma_grow_part, lemma_grow_promote,
    lemma_grow_tag, lemma_kept_from, lemma_kept_same, lemma_kept_trans, lemma_read_from, read_one, tail_ends,
};
use crate::edit::sink::{inside, lemma_kind_open, lemma_sound_on, lemma_width, waits, width, Extent, Tree};
use crate::edit::KindView;
use crate::parser::grammar::{
    absent, alias, block_seq, content, explicit_entry, flow_collection, flow_content, flow_map, flow_node,
    flow_or_map, flow_seq, flow_value, leaf, map_entry, map_from, map_rest, map_value, node, node_here,
    scalar_or_map, seq_rest, with_props, St,
};
use crate::parser::layout::{
    bounds, col_at, doc_bound, indent_at, indicator_at, line_ends, moves, past_filler, past_flow_gap, Fail,
};
use crate::parser::tokens::{block_scalar, lemma_plain, plain_folded, plain_stop, props, quoted, token, Props};
use crate::text::{
    at, bd, lemma_bd_ascii, run, Class, COLON, COMMA, DASH, DQUOTE, GREATER, LBRACE, LBRACKET, PIPE, QUESTION,
    RBRACE, RBRACKET, SQUOTE, STAR,
};
use crate::value::{scalar_text, Val};

verus! {

broadcast use {moves, bounds};

/// Whether a result is an error or one node more.
pub open spec fn adds_one(s: Seq<u8>, st: St, r: Result<(Val, St), Fail>) -> bool {
    match r {
        Ok((_, st1)) => read_one(s, st, st1),
        Err(_) => true,
    }
}

/// The state inside an open block collection that began at `start`.
pub open spec fn within(s: Seq<u8>, t0: Tree, start: int, st: St, delimited: bool, entries: bool) -> bool {
    &&& good(s, st)
    &&& start <= st.p
    &&& inside(t0, st.t, start)
    &&& kept(t0, st.t, start)
    &&& frame_is(st.t, delimited, entries)
    &&& framed(t0, st.t)
    &&& entries ==> width(st.t) == 0
    &&& !waits(st.t)
}

pub(crate) proof fn lemma_sound_to(s: Seq<u8>, st: St, p: int)
    requires
        good(s, st),
        st.p <= p <= s.len(),
        bd(s, p),
    ensures
        good(s, st.to(p)),
{
    lemma_sound_on(st.t, s, st.p, p);
}

proof fn b_leaf(s: Seq<u8>, st: St, v: Val, p: int)
    requires
        good(s, st),
        st.p <= p <= s.len(),
        bd(s, p),
    ensures
        read_one(s, st, leaf(s, st, v, p).1),
        read_one(s, st, St { p, t: st.t.open(st.p, false).close(p, s), ..st }),
{
    lemma_grow_open(s, st, false);
    lemma_open_count(st.t, st.p, false);
    lemma_grow_leaf(s, st, st.t.open(st.p, false), p);
}

pub(crate) proof fn lemma_open_count(t: Tree, p: int, delimited: bool)
    ensures
        t.open(p, delimited).nodes == t.nodes,
        t.open(p, delimited).anchors == t.anchors,
{
    reveal(Tree::open);
}

pub(crate) proof fn b_alias(s: Seq<u8>, st: St)
    requires
        good(s, st),
        at(s, st.p) == Some(STAR),
    ensures
        adds_one(s, st, alias(s, st)),
{
    lemma_bd_ascii(s, st.p);
    let q = run(s, st.p + 1, Class::Name);
    let name = s.subrange(st.p + 1, q);
    lemma_grow_open(s, st, false);
    lemma_open_count(st.t, st.p, false);
    let t = st.t.open(st.p, false);
    lemma_kind_open(st.t, t, s, st.p, st.p, KindView::AliasRef(name));
    let u = t.kind_open(KindView::AliasRef(name));
    assert(u.nodes == t.nodes) by {
        reveal(Tree::kind_open);
    }
    assert(kept(st.t, u, st.p)) by {
        reveal(kept);
    }
    n_kind_open(st.t, t, KindView::AliasRef(name));
    lemma_grow_leaf(s, st, u, q);
}

proof fn b_props(s: Seq<u8>, st: St, x: Props, v: Val, st1: St)
    requires
        read_one(s, st, st1),
    ensures
        read_one(s, st, with_props(x, v, st1).1),
{
    let t = match x.tag {
        Some(t) => st1.t.set_tag(t),
        None => st1.t,
    };
    if let Some(tag) = x.tag {
        lemma_grow_tag(s, st, st1, tag);
    }
    if let Some((name, token)) = x.anchor {
        lemma_grow_anchor(s, st, st1.with(t), name, token, with_props(x, v, st1).1.a);
    }
}

pub(crate) proof fn b_node(s: Seq<u8>, st: St, m: int)
    requires
        good(s, st),
    ensures
        adds_one(s, st, node(s, st, m)),
    decreases s.len() - st.p, 8int,
{
    reveal(node);
    reveal(node_here);
    let p = past_filler(s, st.p);
    lemma_grow_empty(s, st, st.p);
    lemma_grow_empty(s, st, p);
    if !doc_bound(s, st.p) {
        if !line_ends(s, st.p) && col_at(s, st.p) > 0 {
            b_here(s, st, col_at(s, st.p), m);
        } else if p < s.len() && !doc_bound(s, p) {
            if let Some(n) = indent_at(s, p) {
                if n >= m {
                    lemma_sound_to(s, st, p + n);
                    b_here(s, st.to(p + n), n, m);
                    if let Ok((_, st1)) = node_here(s, st.to(p + n), n, m) {
                        lemma_read_from(s, st, p + n, st1);
                    }
                }
            }
        }
    }
}

pub(crate) proof fn b_here(s: Seq<u8>, st: St, n: int, m: int)
    requires
        good(s, st),
    ensures
        adds_one(s, st, node_here(s, st, n, m)),
    decreases s.len() - st.p, 7int,
{
    reveal(node_here);
    reveal(node);
    reveal(content);
    lemma_props_bd(s, st.p, false, Props { tag: None, anchor: None });
    if let Ok((x, p)) = props(s, st.p, false) {
        lemma_sound_to(s, st, p);
        let st0 = st.to(p);
        if (x.tag is Some || x.anchor is Some) && line_ends(s, p) {
            b_node(s, st0, m);
            if let Ok((v, st1)) = node(s, st0, m) {
                lemma_read_from(s, st, p, st1);
                b_props(s, st, x, v, st1);
            }
        } else {
            b_content(s, st0, n, m);
            if let Ok((v, st1)) = content(s, st0, n, m) {
                lemma_read_from(s, st, p, st1);
                b_props(s, st, x, v, st1);
            }
        }
    }
}

pub(crate) proof fn b_content(s: Seq<u8>, st: St, n: int, m: int)
    requires
        good(s, st),
    ensures
        adds_one(s, st, content(s, st, n, m)),
    decreases s.len() - st.p, 6int,
{
    reveal(content);
    reveal(flow_or_map);
    reveal(block_seq);
    reveal(scalar_or_map);
    lemma_grow_empty(s, st, st.p);
    if let Some(b) = at(s, st.p) {
        if b == LBRACKET || b == LBRACE {
            b_flow_or_map(s, st, n);
        } else if b == PIPE || b == GREATER {
            lemma_block_bd(s, st.p, m);
            if let Ok((t, p)) = block_scalar(s, st.p, m) {
                b_leaf(s, st, Val::Str(t), p);
            }
        } else if b == STAR {
            b_alias(s, st);
        } else if indicator_at(s, st.p, DASH) {
            b_seq(s, st, n);
        } else {
            b_scalar(s, st, n, m);
        }
    }
}

pub(crate) proof fn b_scalar(s: Seq<u8>, st: St, n: int, m: int)
    requires
        good(s, st),
    ensures
        adds_one(s, st, scalar_or_map(s, st, n, m)),
    decreases s.len() - st.p, 5int,
{
    reveal(scalar_or_map);
    reveal(explicit_entry);
    reveal(map_value);
    reveal(map_from);
    let t = st.t.open(st.p, false);
    let inner = st.with(t);
    lemma_grow_open(s, st, false);
    if indicator_at(s, st.p, QUESTION) {
        b_explicit(s, st.t, st.p, inner, n, false);
        if let Ok((kv, st1)) = explicit_entry(s, inner, n) {
            b_map_from(s, st, st1, n, seq![kv]);
        }
    } else {
        lemma_token_bd(s, st.p);
        if let Ok(x) = token(s, st.p) {
            let p = run(s, x.p, Class::Blank);
            if !indicator_at(s, p, COLON) {
                if x.quoted {
                    b_leaf(s, st, Val::Str(x.text), p);
                } else {
                    lemma_folded_bd(s, x.text, p, m);
                    if let Ok((u, q)) = plain_folded(s, x.text, p, m) {
                        b_leaf(s, st, Val::Str(u), q);
                    }
                }
            } else {
                lemma_bd_ascii(s, p);
                lemma_sound_to(s, inner, p + 1);
                lemma_grow_key(
                    s,
                    st.t,
                    st.p,
                    inner.to(p + 1),
                    Extent { a: st.p, b: x.end },
                    Some(x.text),
                    false,
                    false,
                );
                let st1 = St { p: p + 1, t: t.key(Extent { a: st.p, b: x.end }, Some(x.text)), ..st };
                b_value(s, st1, n);
                if let Ok((v, st2)) = map_value(s, st1, n) {
                    lemma_grow_part(s, st.t, st.p, st1, st2, false, false);
                    let key = if x.quoted {
                        Val::Str(x.text)
                    } else {
                        crate::patterns::resolved(x.text)
                    };
                    b_map_from(s, st, st2, n, seq![(key, v)]);
                }
            }
        }
    }
}

proof fn b_map_from(s: Seq<u8>, st: St, st1: St, n: int, kvs: Seq<(Val, Val)>)
    requires
        good(s, st),
        within(s, st.t, st.p, st1, false, true),
        tail_ends(st.t, st1.t),
        st.p < st1.p,
    ensures
        adds_one(s, st, map_from(s, st.p, st1, n, kvs)),
    decreases s.len() - st.p, 0int,
{
    reveal(map_from);
    reveal(map_rest);
    b_map_rest(s, st.t, st.p, st1, n, kvs);
    if let Ok((all, st2)) = map_rest(s, st1, n, kvs) {
        lemma_grow_close(s, st, st2);
    }
}

pub(crate) proof fn b_map_rest(s: Seq<u8>, t0: Tree, start: int, st: St, n: int, kvs: Seq<(Val, Val)>)
    requires
        within(s, t0, start, st, false, true),
        tail_ends(t0, st.t),
    ensures
        match map_rest(s, st, n, kvs) {
            Ok((_, st1)) => {
                &&& within(s, t0, start, st1, false, true)
                &&& tail_ends(t0, st1.t)
                &&& st.p <= st1.p
                &&& kept(st.t, st1.t, st.p)
            },
            Err(_) => true,
        },
    decreases s.len() - st.p, 5int,
{
    reveal(map_rest);
    reveal(map_entry);
    let p = past_filler(s, st.p);
    lemma_sound_to(s, st, p);
    lemma_kept_same(st.t, st.p);
    if p < s.len() && !doc_bound(s, p) && indent_at(s, p) == Some(n) {
        lemma_sound_to(s, st, p + n);
        if !indicator_at(s, p + n, DASH) {
            let st0 = st.to(p + n);
            b_entry(s, t0, start, st0, n, true);
            if let Ok((kv, st1)) = map_entry(s, st0, n) {
                b_map_rest(s, t0, start, st1, n, kvs.push(kv));
                if let Ok((_, st2)) = map_rest(s, st1, n, kvs.push(kv)) {
                    lemma_kept_trans(st.t, st1.t, st2.t, st0.p, st1.p);
                    lemma_kept_from(st.t, st2.t, st0.p, st.p);
                }
            }
        }
    }
}

pub(crate) proof fn b_entry(s: Seq<u8>, t0: Tree, start: int, st: St, n: int, entries: bool)
    requires
        within(s, t0, start, st, false, entries),
        width(st.t) == 0,
    ensures
        match map_entry(s, st, n) {
            Ok((_, st1)) => {
                &&& within(s, t0, start, st1, false, true)
                &&& tail_ends(t0, st1.t)
                &&& st.p < st1.p
                &&& kept(st.t, st1.t, st.p)
            },
            Err(_) => true,
        },
    decreases s.len() - st.p, 4int,
{
    reveal(map_entry);
    reveal(explicit_entry);
    reveal(map_value);
    if indicator_at(s, st.p, QUESTION) {
        b_explicit(s, t0, start, st, n, entries);
    } else {
        lemma_token_bd(s, st.p);
        if let Ok(x) = token(s, st.p) {
            let p = run(s, x.p, Class::Blank);
            if indicator_at(s, p, COLON) {
                lemma_bd_ascii(s, p);
                lemma_sound_to(s, st, p + 1);
                let ext = Extent { a: st.p, b: x.end };
                lemma_grow_key(s, t0, start, st.to(p + 1), ext, Some(x.text), false, entries);
                let st1 = St { p: p + 1, t: st.t.key(ext, Some(x.text)), ..st };
                lemma_key_nodes(st.t, ext, Some(x.text));
                b_value(s, st1, n);
                if let Ok((v, st2)) = map_value(s, st1, n) {
                    lemma_grow_part(s, t0, start, st1, st2, false, entries);
                    lemma_kept_nodes(st.t, st1.t, st2.t, st1.p, st.p);
                }
            }
        }
    }
}

/// Keys leave the finished nodes alone.
pub(crate) proof fn lemma_key_nodes(t: Tree, x: Extent, text: Option<Seq<u8>>)
    ensures
        t.key(x, text).nodes == t.nodes,
        t.promote(text).nodes == t.nodes,
        t.dissolve().nodes == t.nodes,
        t.key(x, text).anchors == t.anchors,
        t.promote(text).anchors == t.anchors,
        t.dissolve().anchors == t.anchors,
{
    reveal(Tree::key);
    reveal(Tree::promote);
    reveal(Tree::dissolve);
}

pub(crate) proof fn lemma_kept_nodes(t: Tree, u: Tree, v: Tree, from: int, earlier: int)
    requires
        t.nodes == u.nodes,
        kept(u, v, from),
        earlier <= from,
    ensures
        kept(t, v, earlier),
{
    reveal(kept);
}

pub(crate) proof fn b_value(s: Seq<u8>, st: St, n: int)
    requires
        good(s, st),
    ensures
        adds_one(s, st, map_value(s, st, n)),
    decreases s.len() - st.p, 9int,
{
    reveal(map_value);
    reveal(node);
    reveal(block_seq);
    reveal(content);
    let p = run(s, st.p, Class::Blank);
    let q = past_filler(s, p);
    lemma_sound_to(s, st, p);
    lemma_grow_empty(s, st, q);
    if !line_ends(s, p) {
        b_node(s, st.to(p), n + 1);
        if let Ok((_, st1)) = node(s, st.to(p), n + 1) {
            lemma_read_from(s, st, p, st1);
        }
    } else if q < s.len() {
        if let Some(k) = indent_at(s, q) {
            lemma_sound_to(s, st, q + k);
            if k == n && indicator_at(s, q + k, DASH) {
                b_seq(s, st.to(q + k), k);
                if let Ok((_, st1)) = block_seq(s, st.to(q + k), k) {
                    lemma_read_from(s, st, q + k, st1);
                }
            } else if k > n {
                b_content(s, st.to(q + k), k, n + 1);
                if let Ok((_, st1)) = content(s, st.to(q + k), k, n + 1) {
                    lemma_read_from(s, st, q + k, st1);
                }
            }
        }
    }
}

pub(crate) proof fn b_explicit(s: Seq<u8>, t0: Tree, start: int, st: St, n: int, entries: bool)
    requires
        within(s, t0, start, st, false, entries),
        width(st.t) == 0,
        at(s, st.p) == Some(QUESTION),
    ensures
        match explicit_entry(s, st, n) {
            Ok((_, st1)) => {
                &&& within(s, t0, start, st1, false, true)
                &&& tail_ends(t0, st1.t)
                &&& st.p < st1.p
                &&& kept(st.t, st1.t, st.p)
            },
            Err(_) => true,
        },
    decreases s.len() - st.p, 3int,
{
    reveal(explicit_entry);
    reveal(node);
    reveal(map_value);
    lemma_bd_ascii(s, st.p);
    let p = run(s, st.p + 1, Class::Blank);
    lemma_sound_to(s, st, p);
    let st0 = st.to(p);
    b_node(s, st0, n + 1);
    if let Ok((key, st1)) = node(s, st0, n + 1) {
        lemma_grow_part(s, t0, start, st0, st1, false, entries);
        lemma_width(st0.t);
        lemma_grow_promote(s, t0, start, st1, scalar_text(key), false, entries);
        lemma_key_nodes(st1.t, Extent { a: 0, b: 0 }, scalar_text(key));
        let st2 = st1.with(st1.t.promote(scalar_text(key)));
        let q = past_filler(s, st1.p);
        lemma_grow_empty(s, st2, q);
        if q >= s.len() || indent_at(s, q) != Some(n) || !indicator_at(s, q + n, COLON) {
            let st3 = absent(st2, q).1;
            lemma_grow_part(s, t0, start, st2, st3, false, entries);
            lemma_kept_nodes(st1.t, st2.t, st3.t, st2.p, st1.p);
            lemma_kept_trans(st0.t, st1.t, st3.t, st0.p, st1.p);
            lemma_kept_from(st0.t, st3.t, st0.p, st.p);
        } else {
            lemma_bd_ascii(s, q + n);
            lemma_sound_to(s, st2, q + n + 1);
            let st3 = st2.to(q + n + 1);
            b_value(s, st3, n);
            if let Ok((v, st4)) = map_value(s, st3, n) {
                lemma_grow_part(s, t0, start, st3, st4, false, entries);
                lemma_kept_nodes(st1.t, st3.t, st4.t, st3.p, st1.p);
                lemma_kept_trans(st0.t, st1.t, st4.t, st0.p, st1.p);
                lemma_kept_from(st0.t, st4.t, st0.p, st.p);
            }
        }
    }
}

pub(crate) proof fn b_seq(s: Seq<u8>, st: St, n: int)
    requires
        good(s, st),
    ensures
        adds_one(s, st, block_seq(s, st, n)),
    decreases s.len() - st.p, 5int,
{
    reveal(block_seq);
    reveal(seq_rest);
    lemma_grow_open(s, st, false);
    lemma_open_count(st.t, st.p, false);
    let inner = st.with(st.t.open(st.p, false));
    b_seq_rest(s, st.t, st.p, inner, n, Seq::empty());
    if let Ok((vs, st1)) = seq_rest(s, inner, n, Seq::empty()) {
        lemma_grow_close(s, st, st1);
    }
}

pub(crate) proof fn b_seq_rest(s: Seq<u8>, t0: Tree, start: int, st: St, n: int, vs: Seq<Val>)
    requires
        within(s, t0, start, st, false, false),
        tail_ends(t0, st.t) || st.t.nodes.len() == t0.nodes.len(),
    ensures
        match seq_rest(s, st, n, vs) {
            Ok((_, st1)) => {
                &&& within(s, t0, start, st1, false, false)
                &&& tail_ends(t0, st1.t) || st1.t.nodes.len() == t0.nodes.len()
                &&& st.p <= st1.p
                &&& kept(st.t, st1.t, st.p)
            },
            Err(_) => true,
        },
    decreases s.len() - st.p, 4int,
{
    reveal(seq_rest);
    reveal(node);
    let p = past_filler(s, st.p);
    lemma_sound_to(s, st, p);
    lemma_kept_same(st.t, st.p);
    if p < s.len() {
        if let Some(k) = indent_at(s, p) {
            if indicator_at(s, p + k, DASH) {
                lemma_bd_ascii(s, p + k);
                let x = run(s, p + k + 1, Class::Blank);
                lemma_sound_to(s, st, x);
                let st0 = st.to(x);
                b_node(s, st0, n + 1);
                if let Ok((v, st1)) = node(s, st0, n + 1) {
                    lemma_grow_part(s, t0, start, st0, st1, false, false);
                    b_seq_rest(s, t0, start, st1, n, vs.push(v));
                    if let Ok((_, st2)) = seq_rest(s, st1, n, vs.push(v)) {
                        lemma_kept_trans(st.t, st1.t, st2.t, st0.p, st1.p);
                        lemma_kept_from(st.t, st2.t, st0.p, st.p);
                    }
                }
            }
        }
    }
}

pub(crate) proof fn b_flow_or_map(s: Seq<u8>, st: St, n: int)
    requires
        good(s, st),
        at(s, st.p) == Some(LBRACKET) || at(s, st.p) == Some(LBRACE),
    ensures
        adds_one(s, st, flow_or_map(s, st, n)),
    decreases s.len() - st.p, 5int,
{
    reveal(flow_or_map);
    reveal(flow_collection);
    reveal(map_value);
    reveal(map_from);
    lemma_grow_open(s, st, false);
    lemma_open_count(st.t, st.p, false);
    let inner = st.with(st.t.open(st.p, false));
    b_collection(s, inner);
    if let Ok((v, st1)) = flow_collection(s, inner) {
        let p = run(s, st1.p, Class::Blank);
        lemma_sound_to(s, st1, p);
        if !indicator_at(s, p, COLON) {
            lemma_grow_dissolve(s, st, inner.t, st1.to(p));
        } else if st.p <= p < s.len() {
            lemma_bd_ascii(s, p);
            lemma_sound_to(s, st1, p + 1);
            lemma_grow_part(s, st.t, st.p, inner, st1, false, false);
            lemma_width(inner.t);
            lemma_grow_promote(s, st.t, st.p, st1.to(p + 1), None, false, false);
            let st2 = St { p: p + 1, t: st1.t.promote(None), ..st1 };
            b_value(s, st2, n);
            if let Ok((w, st3)) = map_value(s, st2, n) {
                lemma_grow_part(s, st.t, st.p, st2, st3, false, false);
                b_map_from(s, st, st3, n, seq![(v, w)]);
            }
        }
    }
}

pub(crate) proof fn b_collection(s: Seq<u8>, st: St)
    requires
        good(s, st),
        at(s, st.p) == Some(LBRACKET) || at(s, st.p) == Some(LBRACE),
    ensures
        adds_one(s, st, flow_collection(s, st)),
        match flow_collection(s, st) {
            Ok((_, st1)) => {
                let x = st1.t.nodes[st1.t.last->0];
                x.delimited && x.span.a == st.p && x.span.b == st1.p && st.p < st1.p && (s[st1.p - 1] == RBRACKET
                    || s[st1.p - 1] == RBRACE)
            },
            Err(_) => true,
        },
    decreases s.len() - st.p, 1int,
{
    unfold_flow_collection(s, st);
    lemma_bd_ascii(s, st.p);
    lemma_grow_open(s, st, true);
    let t = st.t.open(st.p, true);
    lemma_sound_to(s, st.with(t), st.p + 1);
    let inner = St { p: st.p + 1, t, ..st };
    if s[st.p] == LBRACKET {
        b_flow_seq(s, st.t, st.p, inner, Seq::empty());
        if let Ok((vs, st1)) = flow_seq(s, inner, Seq::empty()) {
            lemma_grow_close_flow(s, st, st1, false);
        }
    } else {
        b_flow_map(s, st.t, st.p, inner, Seq::empty(), false);
        if let Ok((kvs, st1)) = flow_map(s, inner, Seq::empty()) {
            if within(s, st.t, st.p, st1, true, true) {
                lemma_grow_close_flow(s, st, st1, true);
            } else {
                lemma_grow_close_flow(s, st, st1, false);
            }
        }
    }
}

pub(crate) proof fn b_flow_seq(s: Seq<u8>, t0: Tree, start: int, st: St, vs: Seq<Val>)
    requires
        within(s, t0, start, st, true, false),
    ensures
        match flow_seq(s, st, vs) {
            Ok((_, st1)) => {
                &&& within(s, t0, start, st1, true, false)
                &&& st.p < st1.p
                &&& s[st1.p - 1] == RBRACKET
                &&& kept(st.t, st1.t, st.p)
            },
            Err(_) => true,
        },
    decreases s.len() - st.p, 4int,
{
    reveal(flow_seq);
    reveal(flow_node);
    let p = past_flow_gap(s, st.p);
    lemma_sound_to(s, st, p);
    lemma_kept_same(st.t, st.p);
    if p < s.len() {
        if s[p] == RBRACKET {
            lemma_bd_ascii(s, p);
            lemma_sound_to(s, st, p + 1);
        } else {
            let st0 = st.to(p);
            b_flow_node(s, st0);
            if let Ok((v, st1)) = flow_node(s, st0) {
                lemma_grow_part(s, t0, start, st0, st1, true, false);
                let q = past_flow_gap(s, st1.p);
                lemma_kept_from(st.t, st1.t, st0.p, st.p);
                if q < s.len() && (s[q] == COMMA || s[q] == RBRACKET) {
                    lemma_bd_ascii(s, q);
                    lemma_sound_to(s, st1, q + 1);
                    if s[q] == COMMA {
                        b_flow_seq(s, t0, start, st1.to(q + 1), vs.push(v));
                        if let Ok((_, st2)) = flow_seq(s, st1.to(q + 1), vs.push(v)) {
                            lemma_kept_trans(st.t, st1.t, st2.t, st.p, q + 1);
                        }
                    }
                }
            }
        }
    }
}

pub(crate) proof fn b_flow_value(s: Seq<u8>, st: St)
    requires
        good(s, st),
    ensures
        adds_one(s, st, flow_value(s, st)),
    decreases s.len() - st.p, 4int,
{
    reveal(flow_value);
    reveal(flow_node);
    let p = past_flow_gap(s, st.p);
    lemma_sound_to(s, st, p);
    lemma_grow_empty(s, st.to(p), p);
    lemma_read_from(s, st, p, absent(st.to(p), p).1);
    if at(s, p) == Some(COLON) {
        lemma_bd_ascii(s, p);
        let q = past_flow_gap(s, p + 1);
        lemma_sound_to(s, st, q);
        lemma_grow_empty(s, st.to(q), q);
        lemma_read_from(s, st, q, absent(st.to(q), q).1);
        if q < s.len() && s[q] != COMMA && s[q] != RBRACE {
            b_flow_node(s, st.to(q));
            if let Ok((_, st1)) = flow_node(s, st.to(q)) {
                lemma_read_from(s, st, q, st1);
            }
        }
    }
}

pub(crate) proof fn b_flow_map(s: Seq<u8>, t0: Tree, start: int, st: St, kvs: Seq<(Val, Val)>, entries: bool)
    requires
        within(s, t0, start, st, true, entries),
        width(st.t) == 0,
    ensures
        match flow_map(s, st, kvs) {
            Ok((_, st1)) => {
                &&& within(s, t0, start, st1, true, false) || within(s, t0, start, st1, true, true)
                &&& st.p < st1.p
                &&& s[st1.p - 1] == RBRACE
                &&& kept(st.t, st1.t, st.p)
            },
            Err(_) => true,
        },
    decreases s.len() - st.p, 5int,
{
    reveal(flow_map);
    reveal(flow_node);
    reveal(flow_value);
    let p = past_flow_gap(s, st.p);
    lemma_sound_to(s, st, p);
    lemma_kept_same(st.t, st.p);
    if p < s.len() {
        if s[p] == RBRACE {
            lemma_bd_ascii(s, p);
            lemma_sound_to(s, st, p + 1);
        } else {
            let st0 = st.to(p);
            b_flow_node(s, st0);
            if let Ok((key, st1)) = flow_node(s, st0) {
                lemma_grow_part(s, t0, start, st0, st1, true, entries);
                lemma_grow_promote(s, t0, start, st1, scalar_text(key), true, entries);
                lemma_key_nodes(st1.t, Extent { a: 0, b: 0 }, scalar_text(key));
                lemma_kept_from(st.t, st1.t, st0.p, st.p);
                let st2 = st1.with(st1.t.promote(scalar_text(key)));
                b_flow_value(s, st2);
                if let Ok((v, st3)) = flow_value(s, st2) {
                    lemma_grow_part(s, t0, start, st2, st3, true, entries);
                    lemma_kept_nodes(st1.t, st2.t, st3.t, st2.p, st1.p);
                    lemma_kept_trans(st.t, st1.t, st3.t, st.p, st1.p);
                    let q = past_flow_gap(s, st3.p);
                    if q < s.len() && (s[q] == COMMA || s[q] == RBRACE) {
                        lemma_bd_ascii(s, q);
                        lemma_sound_to(s, st3, q + 1);
                        if s[q] == COMMA {
                            b_flow_map(s, t0, start, st3.to(q + 1), kvs.push((key, v)), true);
                            if let Ok((_, st4)) = flow_map(s, st3.to(q + 1), kvs.push((key, v))) {
                                lemma_kept_trans(st.t, st3.t, st4.t, st.p, q + 1);
                            }
                        }
                    }
                }
            }
        }
    }
}

pub(crate) proof fn b_flow_node(s: Seq<u8>, st: St)
    requires
        good(s, st),
    ensures
        adds_one(s, st, flow_node(s, st)),
    decreases s.len() - st.p, 3int,
{
    reveal(flow_node);
    reveal(flow_content);
    lemma_props_bd(s, st.p, true, Props { tag: None, anchor: None });
    if let Ok((x, p)) = props(s, st.p, true) {
        lemma_sound_to(s, st, p);
        b_flow_content(s, st.to(p));
        if let Ok((v, st1)) = flow_content(s, st.to(p)) {
            lemma_read_from(s, st, p, st1);
            b_props(s, st, x, v, st1);
        }
    }
}

pub(crate) proof fn b_flow_content(s: Seq<u8>, st: St)
    requires
        good(s, st),
    ensures
        adds_one(s, st, flow_content(s, st)),
    decreases s.len() - st.p, 2int,
{
    reveal(flow_content);
    reveal(flow_collection);
    lemma_grow_empty(s, st, st.p);
    if let Some(b) = at(s, st.p) {
        if b == LBRACKET || b == LBRACE {
            b_collection(s, st);
        } else if b == DQUOTE || b == SQUOTE {
            lemma_quoted_bd(s, st.p, b == DQUOTE);
            if let Ok((t, q)) = quoted(s, st.p, b == DQUOTE) {
                b_leaf(s, st, Val::Str(t), q);
            }
        } else if b == STAR {
            b_alias(s, st);
        } else if b == COMMA || b == RBRACKET || b == RBRACE {
        } else {
            lemma_plain(s, st.p, true);
            b_leaf(s, st, Val::Null, plain_stop(s, st.p, true));
        }
    }
}

} // verus!
