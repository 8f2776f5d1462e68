//! The span tree has the shape of the value.
use vstd::prelude::*;
use super::super::unfold::{
    unfold_block_seq, unfold_content, unfold_explicit_entry, unfold_flow_collection, unfold_flow_content,
    unfold_flow_map, unfold_flow_node, unfold_flow_or_map, unfold_flow_seq, unfold_flow_value, unfold_map_entry,
    unfold_map_from, unfold_map_rest, unfold_map_value, unfold_node, unfold_node_here, unfold_scalar_or_map,
    unfold_seq_rest,
};
use super::basic::{
    b_collection, b_entry, b_explicit, b_flow_map, b_flow_node, b_flow_seq, b_flow_value, b_node, b_value,
    lemma_key_nodes, lemma_open_count, within,
};
use super::cut::Cut;
use super::ends::{lemma_block_bd, lemma_folded_bd, lemma_props_bd, lemma_quoted_bd, lemma_quoted_end, lemma_token_bd};
use super::flows::f_sound;
use super::growth::{
    frame_is, good, kept, lemma_grow_empty, lemma_grow_key, lemma_grow_open, lemma_grow_part, lemma_grow_promote,
    tail_ends,
};
use super::inner::lemma_flow_was;
use super::leaf::{lemma_block_was, lemma_folded_last, lemma_plain_last, lemma_plain_was, lemma_trimmed_gap};
use super::place::{end_of, lemma_leaf_new};
use super::turn::{lemma_closed, lemma_raw_quoted};
use crate::edit::locate::{alias_target, anchor_before, lemma_linked, linked};
use crate::edit::sink::{grew, lemma_width, sound, trimmed, waits, width, Extent, NodeView, ShapeView, Tree};
use crate::edit::KindView;
use crate::edit::types::{flat, raw_value, same_type, tagged};
use crate::laws::places::is_leaf;
use crate::parser::grammar::{
    alias, anchored, block_seq, content, explicit_entry, flow_collection, flow_content, flow_map, flow_node,
    flow_or_map, flow_seq, flow_value, map_entry, map_from, map_rest, map_value, node, node_here, scalar_or_map,
    seq_rest, with_props, St,
};
use crate::parser::layout::{
    bounds, col_at, doc_bound, indent_at, indicator_at, line_ends, moves, past_filler, past_flow_gap, Fail,
};
use crate::parser::tokens::{
    block_scalar, plain_folded, plain_rest_in, plain_stop, plain_text, props, quote, quoted, token, Props,
};
use crate::patterns::resolved;
use crate::text::{
    at, back, is_blank, is_break, lemma_back_stop, lemma_bd_ascii, lemma_run, run, Class, COLON, COMMA, DASH, DQUOTE,
    GREATER, LBRACE, LBRACKET, PIPE, QUESTION, RBRACE, RBRACKET, SQUOTE, STAR,
};
use crate::value::{scalar_text, Val};

verus! {

broadcast use {moves, bounds};

/// Whether a scalar with the bytes `x` may read `u`: what the bytes say if they do
/// wherever they stand, and a value of their type in any case.
pub open spec fn leaf_says(s: Seq<u8>, x: Extent, u: Val) -> bool {
    let raw = s.subrange(x.a, x.b);
    &&& is_leaf(u) && !(u is Tagged)
    &&& x.a < x.b && !is_break(s[x.a]) ==> same_type(u, raw_value(raw)) && (flat(raw) ==> u == raw_value(raw))
    &&& x.a < x.b && (s[x.a] == DQUOTE || s[x.a] == SQUOTE) ==> token(s, x.a) is Ok && u == Val::Str(
        token(s, x.a)->Ok_0.text,
    )
}

/// Whether `text`, by which an entry is found, is that of its key.
pub open spec fn key_says(text: Option<Seq<u8>>, key: Val) -> bool {
    match text {
        Some(c) => key == Val::Str(c) || key == resolved(c) || scalar_text(key) == Some(c),
        None => true,
    }
}

/// Whether `v` is `u` with the first `n` tags of node `id`.
pub open spec fn wears(t: Tree, id: int, n: int, u: Val, v: Val) -> bool {
    v == tagged(t.nodes[id].tags.take(n), u)
}

/// Whether node `id` has `n` tags or more.
pub open spec fn has_tags(t: Tree, id: int, n: int) -> bool {
    0 <= n <= t.nodes[id].tags.len()
}

/// Whether the value `v` was read from node `id` with the first `n` of its tags: a
/// sequence of what was read from its items, a mapping of what was read from its
/// entries, or what its bytes say. An alias reads what the node that it stands for was
/// read as where its anchor stands; tags may come before that.
#[verifier::opaque]
pub open spec fn mirrors_upto(s: Seq<u8>, t: Tree, id: int, n: int, v: Val) -> bool
    decreases id,
{
    exists|u: Val| #[trigger] wears(t, id, n, u, v) && {
        let x = t.nodes[id];
        if x.kind is AliasRef {
            match alias_target(t, id) {
                Some(def) => 0 <= def < id && exists|m: int| #[trigger] has_tags(t, def, m) && mirrors_upto(s, t, def, m, u),
                None => false,
            }
        } else {
            match x.shape {
                ShapeView::Items(c) => match u {
                    Val::List(vs) => vs.len() == c.len() && forall|i: int|
                        0 <= i < c.len() ==> 0 <= #[trigger] c[i] < id && mirrors_upto(s, t, c[i], t.nodes[c[i]].tags.len() as int, vs[i]),
                    _ => false,
                },
                ShapeView::Entries(es) => match u {
                    Val::Dict(kvs) => kvs.len() == es.len() && forall|i: int|
                        0 <= i < es.len() ==> 0 <= (#[trigger] es[i]).value < id && mirrors_upto(
                            s,
                            t,
                            es[i].value,
                            t.nodes[es[i].value].tags.len() as int,
                            kvs[i].1,
                        ) && key_says(es[i].text, kvs[i].0),
                    _ => false,
                },
                ShapeView::Leaf => if x.delimited {
                    u == Val::List(Seq::empty()) || u == Val::Dict(Seq::empty())
                } else {
                    leaf_says(s, x.span, u)
                },
            }
        }
    }
}

/// Whether the value `v` was read from node `id`, with its tags.
pub open spec fn mirrors(s: Seq<u8>, t: Tree, id: int, v: Val) -> bool {
    mirrors_upto(s, t, id, t.nodes[id].tags.len() as int, v)
}

/// Whether the value `v` was read from node `id` with some of its tags.
pub open spec fn mirrors_some(s: Seq<u8>, t: Tree, id: int, v: Val) -> bool {
    exists|m: int| #[trigger] has_tags(t, id, m) && mirrors_upto(s, t, id, m, v)
}

/// Whether the value `u` was read from node `id`, its tags left aside.
pub open spec fn mirrors_bare(s: Seq<u8>, t: Tree, id: int, u: Val) -> bool {
    let x = t.nodes[id];
    if x.kind is AliasRef {
        match alias_target(t, id) {
            Some(def) => 0 <= def < id && exists|m: int| #[trigger] has_tags(t, def, m) && mirrors_upto(s, t, def, m, u),
            None => false,
        }
    } else {
        match x.shape {
            ShapeView::Items(c) => match u {
                Val::List(vs) => vs.len() == c.len() && forall|i: int|
                    0 <= i < c.len() ==> 0 <= #[trigger] c[i] < id && mirrors_upto(s, t, c[i], t.nodes[c[i]].tags.len() as int, vs[i]),
                _ => false,
            },
            ShapeView::Entries(es) => match u {
                Val::Dict(kvs) => kvs.len() == es.len() && forall|i: int|
                    0 <= i < es.len() ==> 0 <= (#[trigger] es[i]).value < id && mirrors_upto(
                        s,
                        t,
                        es[i].value,
                        t.nodes[es[i].value].tags.len() as int,
                        kvs[i].1,
                    ) && key_says(es[i].text, kvs[i].0),
                _ => false,
            },
            ShapeView::Leaf => if x.delimited {
                u == Val::List(Seq::empty()) || u == Val::Dict(Seq::empty())
            } else {
                leaf_says(s, x.span, u)
            },
        }
    }
}

/// A value with tags of its node.
proof fn lemma_mirrors(s: Seq<u8>, t: Tree, id: int, n: int, u: Val)
    requires
        mirrors_bare(s, t, id, u),
    ensures
        mirrors_upto(s, t, id, n, tagged(t.nodes[id].tags.take(n), u)),
{
    reveal(mirrors_upto);
    assert(wears(t, id, n, u, tagged(t.nodes[id].tags.take(n), u)));
}

pub(crate) proof fn lemma_bare_upto(s: Seq<u8>, t: Tree, id: int, n: int, v: Val) -> (u: Val)
    requires
        mirrors_upto(s, t, id, n, v),
    ensures
        mirrors_bare(s, t, id, u),
        v == tagged(t.nodes[id].tags.take(n), u),
{
    reveal(mirrors_upto);
    choose|u: Val| #[trigger] wears(t, id, n, u, v) && mirrors_bare(s, t, id, u)
}

/// The value under the tags of its node.
pub(crate) proof fn lemma_bare(s: Seq<u8>, t: Tree, id: int, v: Val) -> (u: Val)
    requires
        mirrors(s, t, id, v),
    ensures
        mirrors_bare(s, t, id, u),
        v == tagged(t.nodes[id].tags, u),
{
    let tags = t.nodes[id].tags;
    assert(tags.take(tags.len() as int) =~= tags);
    lemma_bare_upto(s, t, id, tags.len() as int, v)
}

/// Whether two nodes are the same but for their tags and anchors.
spec fn like(x: NodeView, y: NodeView) -> bool {
    x.span == y.span && x.kind == y.kind && x.shape == y.shape && x.delimited == y.delimited
}

/// Whether anchors were only added, for the last node of `t` or later ones.
pub open spec fn anchors_on(t: Tree, t1: Tree) -> bool {
    &&& t.nodes.len() <= t1.nodes.len()
    &&& t.anchors.len() <= t1.anchors.len()
    &&& forall|i: int| 0 <= i < t.anchors.len() ==> #[trigger] t1.anchors[i] == t.anchors[i]
    &&& forall|i: int| t.anchors.len() <= i < t1.anchors.len() ==> (#[trigger] t1.anchors[i]).1 >= t.nodes.len() - 1
}

proof fn lemma_anchors_trans(t: Tree, t1: Tree, t2: Tree)
    requires
        anchors_on(t, t1),
        anchors_on(t1, t2),
    ensures
        anchors_on(t, t2),
{
    assert forall|i: int| 0 <= i < t.anchors.len() implies #[trigger] t2.anchors[i] == t.anchors[i] by {
        assert(t1.anchors[i] == t.anchors[i]);
    }
    assert forall|i: int| t.anchors.len() <= i < t2.anchors.len() implies (#[trigger] t2.anchors[i]).1 >= t.nodes.len()
        - 1 by {
        if i < t1.anchors.len() {
            assert(t2.anchors[i] == t1.anchors[i]);
            assert(t1.anchors[i].1 >= t.nodes.len() - 1);
        }
    }
}

/// Anchors that come later do not count.
proof fn lemma_anchor_later(a: Seq<(Seq<u8>, int)>, b: Seq<(Seq<u8>, int)>, name: Seq<u8>, before: int)
    requires
        a.len() <= b.len(),
        forall|i: int| 0 <= i < a.len() ==> #[trigger] b[i] == a[i],
        forall|i: int| a.len() <= i < b.len() ==> (#[trigger] b[i]).1 >= before,
    ensures
        anchor_before(b, name, before) == anchor_before(a, name, before),
    decreases b.len(),
{
    if b.len() > a.len() {
        let c = b.drop_last();
        assert(b.last() == b[b.len() - 1]);
        assert forall|i: int| 0 <= i < a.len() implies #[trigger] c[i] == a[i] by {
            assert(b[i] == a[i]);
        }
        assert forall|i: int| a.len() <= i < c.len() implies (#[trigger] c[i]).1 >= before by {
            assert(c[i] == b[i]);
        }
        lemma_anchor_later(a, c, name, before);
    } else {
        assert(a =~= b);
    }
}

proof fn lemma_target_same(t: Tree, t1: Tree, id: int)
    requires
        anchors_on(t, t1),
        0 <= id < t.nodes.len(),
        t1.nodes[id].kind == t.nodes[id].kind,
    ensures
        alias_target(t1, id) == alias_target(t, id),
{
    if let KindView::AliasRef(name) = t.nodes[id].kind {
        assert forall|i: int| t.anchors.len() <= i < t1.anchors.len() implies (#[trigger] t1.anchors[i]).1 >= id by {}
        lemma_anchor_later(t.anchors, t1.anchors, name, id);
    }
}

proof fn lemma_bare_same(s: Seq<u8>, t: Tree, t1: Tree, id: int, u: Val)
    requires
        mirrors_bare(s, t, id, u),
        0 <= id < t.nodes.len(),
        anchors_on(t, t1),
        forall|i: int| 0 <= i < id ==> #[trigger] t1.nodes[i] == t.nodes[i],
        like(t.nodes[id], t1.nodes[id]),
    ensures
        mirrors_bare(s, t1, id, u),
    decreases id, 0int,
{
    if t.nodes[id].kind is AliasRef {
        lemma_target_same(t, t1, id);
        let def = alias_target(t, id)->0;
        let m = choose|m: int| #[trigger] has_tags(t, def, m) && mirrors_upto(s, t, def, m, u);
        assert(t1.nodes[def] == t.nodes[def]);
        lemma_upto_same(s, t, t1, def, m, u);
        assert(has_tags(t1, def, m));
    } else {
        match t.nodes[id].shape {
            ShapeView::Items(c) => {
                let vs = u->List_0;
                assert forall|i: int| 0 <= i < c.len() implies 0 <= #[trigger] c[i] < id && mirrors(s, t1, c[i], vs[i]) by {
                    assert(t1.nodes[c[i]] == t.nodes[c[i]]);
                    lemma_upto_same(s, t, t1, c[i], t.nodes[c[i]].tags.len() as int, vs[i]);
                }
            },
            ShapeView::Entries(es) => {
                let kvs = u->Dict_0;
                assert forall|i: int| 0 <= i < es.len() implies 0 <= (#[trigger] es[i]).value < id && mirrors(
                    s,
                    t1,
                    es[i].value,
                    kvs[i].1,
                ) && key_says(es[i].text, kvs[i].0) by {
                    let c = es[i].value;
                    assert(t1.nodes[c] == t.nodes[c]);
                    lemma_upto_same(s, t, t1, c, t.nodes[c].tags.len() as int, kvs[i].1);
                }
            },
            _ => {},
        }
    }
}

proof fn lemma_upto_same(s: Seq<u8>, t: Tree, t1: Tree, id: int, n: int, v: Val)
    requires
        mirrors_upto(s, t, id, n, v),
        0 <= id < t.nodes.len(),
        anchors_on(t, t1),
        forall|i: int| 0 <= i < id ==> #[trigger] t1.nodes[i] == t.nodes[i],
        like(t.nodes[id], t1.nodes[id]),
        t1.nodes[id].tags.take(n) == t.nodes[id].tags.take(n),
    ensures
        mirrors_upto(s, t1, id, n, v),
    decreases id, 1int,
{
    let u = lemma_bare_upto(s, t, id, n, v);
    lemma_bare_same(s, t, t1, id, u);
    lemma_mirrors(s, t1, id, n, u);
}

proof fn lemma_mirrors_same(s: Seq<u8>, t: Tree, t1: Tree, id: int, v: Val)
    requires
        mirrors(s, t, id, v),
        0 <= id < t.nodes.len(),
        anchors_on(t, t1),
        forall|i: int| 0 <= i <= id ==> #[trigger] t1.nodes[i] == t.nodes[i],
    ensures
        mirrors(s, t1, id, v),
{
    assert(t1.nodes[id] == t.nodes[id]);
    lemma_upto_same(s, t, t1, id, t.nodes[id].tags.len() as int, v);
}

/// Nodes that were read stay.
pub(crate) proof fn lemma_mirrors_kept(s: Seq<u8>, t: Tree, t1: Tree, from: int, id: int, v: Val)
    requires
        mirrors(s, t, id, v),
        kept(t, t1, from),
        anchors_on(t, t1),
        0 <= id < t.nodes.len(),
    ensures
        mirrors(s, t1, id, v),
{
    reveal(kept);
    lemma_mirrors_same(s, t, t1, id, v);
}

/// Whether the anchors of the document so far are the last of those in the tree, and
/// their values were read from their nodes.
#[verifier::opaque]
pub open spec fn known(s: Seq<u8>, t: Tree, a: Seq<(Seq<u8>, Val)>) -> bool {
    let n = t.anchors.len() - a.len();
    &&& n >= 0
    &&& forall|i: int| 0 <= i < t.anchors.len() ==> 0 <= (#[trigger] t.anchors[i]).1 < t.nodes.len()
    &&& forall|i: int|
        0 <= i < a.len() ==> t.anchors[n + i].0 == (#[trigger] a[i]).0 && mirrors_some(s, t, t.anchors[n + i].1, a[i].1)
}

/// Nodes were added, or the last one got a tag.
proof fn lemma_known(s: Seq<u8>, t: Tree, t1: Tree, a: Seq<(Seq<u8>, Val)>)
    requires
        known(s, t, a),
        t1.anchors == t.anchors,
        t.nodes.len() <= t1.nodes.len(),
        forall|i: int| 0 <= i < t.nodes.len() - 1 ==> #[trigger] t1.nodes[i] == t.nodes[i],
        t.nodes.len() > 0 ==> grown(t.nodes.last(), t1.nodes[t.nodes.len() - 1]),
    ensures
        known(s, t1, a),
        anchors_on(t, t1),
{
    reveal(known);
    let n = t.anchors.len() - a.len();
    assert forall|i: int| 0 <= i < a.len() implies t1.anchors[n + i].0 == (#[trigger] a[i]).0 && mirrors_some(
        s,
        t1,
        t1.anchors[n + i].1,
        a[i].1,
    ) by {
        let id = t.anchors[n + i].1;
        let m = choose|m: int| #[trigger] has_tags(t, id, m) && mirrors_upto(s, t, id, m, a[i].1);
        assert(0 <= id < t.nodes.len());
        assert(t1.nodes[id].tags.take(m) =~= t.nodes[id].tags.take(m));
        lemma_upto_same(s, t, t1, id, m, a[i].1);
        assert(has_tags(t1, id, m));
    }
}

/// Whether a node is the same up to tags that were added and its anchor.
spec fn grown(x: NodeView, y: NodeView) -> bool {
    &&& like(x, y)
    &&& x.tags.len() <= y.tags.len()
    &&& y.tags.take(x.tags.len() as int) == x.tags
}

/// Nodes were added.
proof fn lemma_known_on(s: Seq<u8>, t: Tree, t1: Tree, a: Seq<(Seq<u8>, Val)>)
    requires
        known(s, t, a),
        t1.anchors == t.anchors,
        t.nodes.len() <= t1.nodes.len(),
        forall|i: int| 0 <= i < t.nodes.len() ==> #[trigger] t1.nodes[i] == t.nodes[i],
    ensures
        known(s, t1, a),
        anchors_on(t, t1),
{
    if t.nodes.len() > 0 {
        let x = t.nodes.last();
        assert(t1.nodes[t.nodes.len() - 1] == x);
        assert(x.tags.take(x.tags.len() as int) =~= x.tags);
    }
    lemma_known(s, t, t1, a);
}

/// A document begins without anchors.
pub(crate) proof fn lemma_known_none(s: Seq<u8>, t: Tree, p: int)
    requires
        sound(t, s, p),
    ensures
        known(s, t, Seq::empty()),
{
    reveal(known);
    lemma_linked(t, s, p);
    reveal(linked);
}

/// What reading from the tree `t` on leaves.
pub open spec fn done(s: Seq<u8>, t: Tree, end: St) -> bool {
    known(s, end.t, end.a) && anchors_on(t, end.t)
}

/// Whether the node read last is what `v` was read from.
pub open spec fn last_mirrors(s: Seq<u8>, t: Tree, v: Val) -> bool {
    t.last is Some && t.last->0 == t.nodes.len() - 1 && t.nodes.len() > 0 && mirrors(s, t, t.last->0, v)
}

proof fn m_new(s: Seq<u8>, t: Tree, v: Val)
    requires
        t.last is Some,
        t.last->0 == t.nodes.len() - 1,
        t.nodes.len() > 0,
        t.nodes[t.last->0].tags.len() == 0,
        mirrors_bare(s, t, t.last->0, v),
    ensures
        last_mirrors(s, t, v),
{
    assert(t.nodes[t.last->0].tags.take(0).len() == 0);
    lemma_mirrors(s, t, t.last->0, 0, v);
}

proof fn m_leaf(s: Seq<u8>, st: St, v: Val, p: int)
    requires
        0 <= st.p <= p <= s.len(),
        trimmed(s, st.p, p) > st.p ==> leaf_says(s, Extent { a: st.p, b: trimmed(s, st.p, p) }, v),
        is_leaf(v) && !(v is Tagged),
        known(s, st.t, st.a),
    ensures
        last_mirrors(s, st.t.open(st.p, false).close(p, s), v),
        known(s, st.t.open(st.p, false).close(p, s), st.a),
        anchors_on(st.t, st.t.open(st.p, false).close(p, s)),
{
    let t = st.t.open(st.p, false);
    assert(t.stack.len() > 0 && t.nodes == st.t.nodes) by {
        reveal(Tree::open);
    }
    lemma_closed(t, p, s);
    lemma_leaf_new(st.t, st.p, p, s);
    m_new(s, t.close(p, s), v);
    assert(t.close(p, s).anchors == st.t.anchors) by {
        reveal(Tree::open);
        reveal(Tree::close);
    }
    lemma_known_on(s, st.t, t.close(p, s), st.a);
}

proof fn m_empty(s: Seq<u8>, st: St, p: int)
    requires
        known(s, st.t, st.a),
    ensures
        last_mirrors(s, st.t.empty(p), Val::Null),
        known(s, st.t.empty(p), st.a),
        anchors_on(st.t, st.t.empty(p)),
{
    reveal(Tree::empty);
    m_new(s, st.t.empty(p), Val::Null);
    lemma_known_on(s, st.t, st.t.empty(p), st.a);
}

/// The value last given to an anchor was read from the node that has it.
proof fn lemma_known_alias(s: Seq<u8>, t: Tree, a: Seq<(Seq<u8>, Val)>, n: int, name: Seq<u8>, before: int)
    requires
        anchored(a, name) is Some,
        a.len() <= n <= t.anchors.len(),
        forall|i: int| 0 <= i < t.anchors.len() ==> 0 <= (#[trigger] t.anchors[i]).1 < t.nodes.len(),
        t.nodes.len() <= before,
        forall|i: int|
            0 <= i < a.len() ==> t.anchors[n - a.len() + i].0 == (#[trigger] a[i]).0 && mirrors_some(
                s,
                t,
                t.anchors[n - a.len() + i].1,
                a[i].1,
            ),
    ensures
        ({
            let def = anchor_before(t.anchors.take(n), name, before);
            def is Some && 0 <= def->0 < t.nodes.len() && mirrors_some(s, t, def->0, anchored(a, name)->0)
        }),
    decreases a.len(),
{
    let c = t.anchors.take(n);
    let last = a.len() - 1;
    assert(a[last] == a.last());
    assert(t.anchors[n - a.len() + last] == c.last());
    if a.last().0 != name {
        let b = a.drop_last();
        assert(c.drop_last() =~= t.anchors.take(n - 1));
        assert forall|i: int| 0 <= i < b.len() implies t.anchors[n - 1 - b.len() + i].0 == (#[trigger] b[i]).0
            && mirrors_some(s, t, t.anchors[n - 1 - b.len() + i].1, b[i].1) by {
            assert(b[i] == a[i]);
        }
        lemma_known_alias(s, t, b, n - 1, name, before);
    }
}

proof fn m_alias(s: Seq<u8>, st: St)
    requires
        alias(s, st) is Ok,
        known(s, st.t, st.a),
    ensures
        last_mirrors(s, end_of(alias(s, st)).t, (alias(s, st)->Ok_0).0),
        done(s, st.t, end_of(alias(s, st))),
{
    reveal(Tree::open);
    reveal(Tree::kind_open);
    reveal(Tree::close);
    let (v, end) = alias(s, st)->Ok_0;
    lemma_known_on(s, st.t, end.t, st.a);
    let id = st.t.nodes.len() as int;
    let name = s.subrange(st.p + 1, run(s, st.p + 1, Class::Name));
    assert(end.t.nodes[id].kind == KindView::AliasRef(name) && end.t.nodes[id].shape is Leaf);
    let n = st.t.anchors.len() as int;
    assert(st.t.anchors.take(n) =~= st.t.anchors);
    assert(mirrors_bare(s, end.t, id, v)) by {
        reveal(known);
        lemma_known_alias(s, st.t, st.a, n, name, id);
        let def = alias_target(end.t, id)->0;
        let m = choose|m: int| #[trigger] has_tags(st.t, def, m) && mirrors_upto(s, st.t, def, m, v);
        assert(end.t.nodes[def] == st.t.nodes[def]);
        lemma_upto_same(s, st.t, end.t, def, m, v);
        assert(has_tags(end.t, def, m));
    }
    m_new(s, end.t, v);
}

/// A node with its tag and anchor.
proof fn m_props(s: Seq<u8>, t0: Tree, x: Props, v: Val, st: St)
    requires
        last_mirrors(s, st.t, v),
        done(s, t0, st),
    ensures
        last_mirrors(s, with_props(x, v, st).1.t, with_props(x, v, st).0),
        done(s, t0, with_props(x, v, st).1),
{
    reveal(Tree::set_tag);
    reveal(Tree::set_anchor);
    let id = st.t.last->0;
    let u = lemma_bare(s, st.t, id, v);
    let (w, end) = with_props(x, v, st);
    let t1 = match x.tag {
        Some(tag) => st.t.set_tag(tag),
        None => st.t,
    };
    let tags = st.t.nodes[id].tags;
    if let Some(tag) = x.tag {
        assert(t1.nodes[id].tags == tags.push(tag));
        assert(tags.push(tag).drop_last() =~= tags);
        assert(tags.push(tag).take(tags.len() as int) =~= tags);
    } else {
        assert(tags.take(tags.len() as int) =~= tags);
    }
    lemma_known(s, st.t, t1, st.a);
    lemma_bare_same(s, st.t, t1, id, u);
    let full = t1.nodes[id].tags;
    assert(full.take(full.len() as int) =~= full);
    lemma_mirrors(s, t1, id, full.len() as int, u);
    assert(w == tagged(full, u));
    lemma_anchors_trans(t0, st.t, t1);
    if let Some((name, token)) = x.anchor {
        let t2 = t1.set_anchor(name, token);
        assert(end.t == t2);
        // The node differs in its anchor alone.
        let t3 = Tree { anchors: t1.anchors, ..t2 };
        lemma_known(s, t1, t3, st.a);
        lemma_upto_same(s, t1, t3, id, full.len() as int, w);
        lemma_known_push(s, t3, t2, st.a, name, w);
        lemma_anchors_trans(t0, t1, t2);
        lemma_upto_same(s, t3, t2, id, full.len() as int, w);
    }
}

/// The last node got an anchor.
proof fn lemma_known_push(s: Seq<u8>, t: Tree, t1: Tree, a: Seq<(Seq<u8>, Val)>, name: Seq<u8>, v: Val)
    requires
        known(s, t, a),
        last_mirrors(s, t, v),
        t1.nodes == t.nodes,
        t1.anchors == t.anchors.push((name, t.last->0)),
    ensures
        known(s, t1, a.push((name, v))),
        anchors_on(t, t1),
{
    reveal(known);
    let n = t.anchors.len() - a.len();
    let b = a.push((name, v));
    assert(t1.anchors.len() - b.len() == n);
    assert forall|i: int| 0 <= i < b.len() implies t1.anchors[n + i].0 == (#[trigger] b[i]).0 && mirrors_some(
        s,
        t1,
        t1.anchors[n + i].1,
        b[i].1,
    ) by {
        if i < a.len() {
            assert(b[i] == a[i]);
            let id = t.anchors[n + i].1;
            assert(t1.anchors[n + i] == t.anchors[n + i]);
            let m = choose|m: int| #[trigger] has_tags(t, id, m) && mirrors_upto(s, t, id, m, a[i].1);
            lemma_upto_same(s, t, t1, id, m, a[i].1);
            assert(has_tags(t1, id, m));
        } else {
            let id = t.last->0;
            let m = t.nodes[id].tags.len() as int;
            lemma_upto_same(s, t, t1, id, m, v);
            assert(has_tags(t1, id, m));
        }
    }
}

/// Whether the items of the innermost open node are what `vs` were read from.
#[verifier::opaque]
pub open spec fn items_mirror(s: Seq<u8>, t: Tree, vs: Seq<Val>) -> bool {
    let c = t.stack.last().children;
    &&& t.stack.len() > 0
    &&& t.stack.last().kind is Literal
    &&& t.stack.last().entries.len() == 0
    &&& c.len() == vs.len()
    &&& forall|i: int| 0 <= i < c.len() ==> 0 <= #[trigger] c[i] < t.nodes.len() && mirrors(s, t, c[i], vs[i])
}

/// Whether the entries of the innermost open node are what `kvs` were read from.
#[verifier::opaque]
pub open spec fn pairs_mirror(s: Seq<u8>, t: Tree, kvs: Seq<(Val, Val)>) -> bool {
    let es = t.stack.last().entries;
    &&& t.stack.len() > 0
    &&& t.stack.last().kind is Literal
    &&& es.len() == kvs.len()
    &&& forall|i: int|
        0 <= i < es.len() ==> 0 <= (#[trigger] es[i]).value < t.nodes.len() && mirrors(s, t, es[i].value, kvs[i].1)
            && key_says(es[i].text, kvs[i].0)
}

/// An item was read.
proof fn m_item(s: Seq<u8>, t: Tree, t1: Tree, from: int, vs: Seq<Val>, v: Val)
    requires
        items_mirror(s, t, vs),
        !waits(t),
        grew(t, t1, from),
        kept(t, t1, from),
        anchors_on(t, t1),
        last_mirrors(s, t1, v),
    ensures
        items_mirror(s, t1, vs.push(v)),
{
    reveal(items_mirror);
    reveal(waits);
    reveal(grew);
    let c = t.stack.last().children;
    let d = t1.stack.last().children;
    assert(d == c.push(t1.last->0));
    assert(t.nodes.len() <= t1.nodes.len()) by {
        reveal(kept);
    }
    assert forall|i: int| 0 <= i < d.len() implies 0 <= #[trigger] d[i] < t1.nodes.len() && mirrors(
        s,
        t1,
        d[i],
        vs.push(v)[i],
    ) by {
        if i < c.len() {
            assert(d[i] == c[i]);
            lemma_mirrors_kept(s, t, t1, from, c[i], vs[i]);
        }
    }
}

/// A value was read whose key waits.
proof fn m_pair(s: Seq<u8>, t: Tree, t1: Tree, from: int, kvs: Seq<(Val, Val)>, key: Val, v: Val)
    requires
        pairs_mirror(s, t, kvs),
        t.stack.last().pending is Some,
        key_says((t.stack.last().pending->0).1, key),
        grew(t, t1, from),
        kept(t, t1, from),
        anchors_on(t, t1),
        last_mirrors(s, t1, v),
    ensures
        pairs_mirror(s, t1, kvs.push((key, v))),
{
    reveal(pairs_mirror);
    reveal(grew);
    let es = t.stack.last().entries;
    let fs = t1.stack.last().entries;
    assert(fs.len() == es.len() + 1);
    assert(fs.last().value == t1.last->0 && fs.last().text == (t.stack.last().pending->0).1);
    assert(t.nodes.len() <= t1.nodes.len()) by {
        reveal(kept);
    }
    assert forall|i: int| 0 <= i < fs.len() implies 0 <= (#[trigger] fs[i]).value < t1.nodes.len() && mirrors(
        s,
        t1,
        fs[i].value,
        kvs.push((key, v))[i].1,
    ) && key_says(fs[i].text, kvs.push((key, v))[i].0) by {
        if i < es.len() {
            assert(fs[i] == es[i]);
            lemma_mirrors_kept(s, t, t1, from, es[i].value, kvs[i].1);
        }
    }
}

/// A node was read that becomes a key.
proof fn m_key_node(s: Seq<u8>, t: Tree, t1: Tree, from: int, kvs: Seq<(Val, Val)>, text: Option<Seq<u8>>)
    requires
        pairs_mirror(s, t, kvs),
        !waits(t),
        grew(t, t1, from),
        kept(t, t1, from),
        anchors_on(t, t1),
    ensures
        pairs_mirror(s, t1.promote(text), kvs),
        t1.promote(text).stack.last().pending is Some,
        (t1.promote(text).stack.last().pending->0).1 == text,
{
    reveal(pairs_mirror);
    reveal(waits);
    reveal(grew);
    reveal(Tree::promote);
    let t2 = t1.promote(text);
    let es = t.stack.last().entries;
    assert(t1.stack.last().children.len() > 0 && t1.stack.last().entries == es);
    assert(t2.stack.last().entries == es && t2.nodes == t1.nodes);
    assert(t.nodes.len() <= t1.nodes.len()) by {
        reveal(kept);
    }
    assert forall|i: int| 0 <= i < es.len() implies 0 <= (#[trigger] es[i]).value < t2.nodes.len() && mirrors(
        s,
        t2,
        es[i].value,
        kvs[i].1,
    ) && key_says(es[i].text, kvs[i].0) by {
        lemma_mirrors_kept(s, t, t1, from, es[i].value, kvs[i].1);
        lemma_mirrors_same(s, t1, t2, es[i].value, kvs[i].1);
    }
}

/// A key was read.
proof fn m_key(s: Seq<u8>, t: Tree, kvs: Seq<(Val, Val)>, x: Extent, text: Option<Seq<u8>>)
    requires
        pairs_mirror(s, t, kvs),
    ensures
        pairs_mirror(s, t.key(x, text), kvs),
        t.key(x, text).stack.last().pending == Some((x, text)),
{
    reveal(pairs_mirror);
    reveal(Tree::key);
    let t1 = t.key(x, text);
    let es = t.stack.last().entries;
    assert(t1.stack.last().entries == es && t1.nodes == t.nodes);
    assert forall|i: int| 0 <= i < es.len() implies 0 <= (#[trigger] es[i]).value < t1.nodes.len() && mirrors(
        s,
        t1,
        es[i].value,
        kvs[i].1,
    ) && key_says(es[i].text, kvs[i].0) by {
        lemma_mirrors_same(s, t, t1, es[i].value, kvs[i].1);
    }
}

/// A collection was opened.
proof fn m_open(s: Seq<u8>, t: Tree, p: int, delimited: bool)
    ensures
        items_mirror(s, t.open(p, delimited), Seq::empty()),
        pairs_mirror(s, t.open(p, delimited), Seq::empty()),
{
    reveal(items_mirror);
    reveal(pairs_mirror);
    reveal(Tree::open);
}

/// A sequence is closed.
proof fn m_close_items(s: Seq<u8>, t: Tree, p: int, vs: Seq<Val>)
    requires
        items_mirror(s, t, vs),
        vs.len() > 0 || t.stack.last().delimited,
    ensures
        last_mirrors(s, t.close(p, s), Val::List(vs)),
{
    reveal(items_mirror);
    lemma_closed(t, p, s);
    let u = t.close(p, s);
    let id = t.nodes.len() as int;
    let c = t.stack.last().children;
    assert(u.nodes[id].shape == (if c.len() > 0 {
        ShapeView::Items(c)
    } else {
        ShapeView::Leaf
    }) && u.nodes[id].delimited == t.stack.last().delimited && u.nodes[id].tags.len() == 0 && u.nodes[id].kind
        == t.stack.last().kind && u.anchors == t.anchors) by {
        reveal(Tree::close);
    }
    if c.len() > 0 {
        assert forall|i: int| 0 <= i < c.len() implies 0 <= #[trigger] c[i] < id && mirrors(s, u, c[i], vs[i]) by {
            lemma_mirrors_same(s, t, u, c[i], vs[i]);
        }
    } else {
        assert(vs =~= Seq::empty());
    }
    m_new(s, u, Val::List(vs));
}

/// A mapping is closed.
proof fn m_close_pairs(s: Seq<u8>, t: Tree, p: int, kvs: Seq<(Val, Val)>)
    requires
        pairs_mirror(s, t, kvs),
        kvs.len() > 0 || (t.stack.last().delimited && t.stack.last().children.len() == 0),
    ensures
        last_mirrors(s, t.close(p, s), Val::Dict(kvs)),
{
    reveal(pairs_mirror);
    lemma_closed(t, p, s);
    let u = t.close(p, s);
    let id = t.nodes.len() as int;
    let es = t.stack.last().entries;
    assert(u.nodes[id].shape == (if es.len() > 0 {
        ShapeView::Entries(es)
    } else {
        ShapeView::Leaf
    }) && u.nodes[id].delimited == t.stack.last().delimited && u.nodes[id].tags.len() == 0 && u.nodes[id].kind
        == t.stack.last().kind && u.anchors == t.anchors) by {
        reveal(Tree::close);
    }
    if es.len() > 0 {
        assert forall|i: int| 0 <= i < es.len() implies 0 <= (#[trigger] es[i]).value < id && mirrors(
            s,
            u,
            es[i].value,
            kvs[i].1,
        ) && key_says(es[i].text, kvs[i].0) by {
            lemma_mirrors_same(s, t, u, es[i].value, kvs[i].1);
        }
    } else {
        assert(kvs =~= Seq::empty());
    }
    m_new(s, u, Val::Dict(kvs));
}

/// A collection is closed.
proof fn m_close(s: Seq<u8>, t0: Tree, t: Tree, st: St)
    requires
        anchors_on(t0, t),
        done(s, t, st),
    ensures
        done(s, t0, st.with(st.t.close(st.p, s))),
{
    if st.t.stack.len() > 0 {
        lemma_closed(st.t, st.p, s);
    }
    assert(st.t.close(st.p, s).anchors == st.t.anchors && (st.t.stack.len() == 0 ==> st.t.close(st.p, s) == st.t)) by {
        reveal(Tree::close);
    }
    lemma_known_on(s, st.t, st.t.close(st.p, s), st.a);
    lemma_anchors_trans(t0, t, st.t);
    lemma_anchors_trans(t0, st.t, st.t.close(st.p, s));
}

/// The bytes of a scalar, seen alone.
spec fn alone(s: Seq<u8>, a: int, b: int) -> Cut {
    Cut { s, t: s, a, b, c: b, x: a, y: b, l: 0, n: Val::Null }
}

/// What a block scalar says.
proof fn l_block(s: Seq<u8>, a: int, u: Seq<u8>, p: int)
    requires
        0 <= a < p <= s.len(),
        s[a] == PIPE || s[a] == GREATER,
    ensures
        trimmed(s, a, p) > a ==> leaf_says(s, Extent { a, b: trimmed(s, a, p) }, Val::Str(u)),
{
    let b = trimmed(s, a, p);
    lemma_trimmed_gap(s, a, p);
    if b > a {
        lemma_block_was(alone(s, a, b), u);
    }
}

/// What a quoted scalar says.
proof fn l_quoted(s: Seq<u8>, a: int, double: bool, p: int)
    requires
        0 <= a < s.len(),
        s[a] == quote(double),
        quoted(s, a, double) is Ok,
        (quoted(s, a, double)->Ok_0).1 <= p <= s.len(),
        forall|i: int| (quoted(s, a, double)->Ok_0).1 <= i < p ==> is_blank(#[trigger] s[i]),
    ensures
        trimmed(s, a, p) > a ==> leaf_says(
            s,
            Extent { a, b: trimmed(s, a, p) },
            Val::Str((quoted(s, a, double)->Ok_0).0),
        ),
{
    let (u, q) = quoted(s, a, double)->Ok_0;
    let b = trimmed(s, a, p);
    lemma_quoted_end(s, a + 1, col_at(s, a), double, Seq::empty());
    lemma_trimmed_gap(s, a, p);
    assert(b == q) by {
        lemma_back_stop(s, a, p, Class::Breaks);
        assert(back(s, a, p, Class::Breaks) == p) by {
            if back(s, a, p, Class::Breaks) < p {
                assert(Class::Breaks.holds(s[p - 1]));
                if p - 1 >= q {
                    assert(is_blank(s[p - 1]));
                }
            }
        }
        lemma_back_stop(s, a, p, Class::Blank);
        if b > q {
            assert(is_blank(s[b - 1]));
        }
        if b < q {
            assert(Class::Blank.holds(s[q - 1]));
        }
    }
    lemma_raw_quoted(s, a, q);
}

/// What a plain scalar says.
proof fn l_plain(s: Seq<u8>, a: int, u: Seq<u8>, q: int, m: int)
    requires
        0 <= a < s.len(),
        s[a] != DQUOTE && s[a] != SQUOTE,
        plain_folded(s, plain_text(s, a, false), run(s, plain_stop(s, a, false), Class::Blank), m) == Ok::<_, Fail>(
            (u, q),
        ),
        a <= q <= s.len(),
    ensures
        trimmed(s, a, q) > a ==> leaf_says(s, Extent { a, b: trimmed(s, a, q) }, resolved(u)),
{
    let stop = plain_stop(s, a, false);
    plain_rest_in(s, a, false);
    let p = run(s, stop, Class::Blank);
    let b = trimmed(s, a, q);
    lemma_run(s, stop, Class::Blank);
    lemma_trimmed_gap(s, a, q);
    if b > a && !is_break(s[a]) {
        assert(a < p);
        assert(!is_break(s[p - 1])) by {
            if p > stop {
                assert(Class::Blank.holds(s[p - 1]));
            } else {
                lemma_plain_last(s, a, false);
            }
        }
        lemma_folded_last(s, plain_text(s, a, false), p, m);
        lemma_plain_was(alone(s, a, b), u, q, m);
    }
}

/// What a plain scalar in flow context says.
proof fn l_flow_plain(s: Seq<u8>, a: int)
    requires
        0 <= a < s.len(),
        s[a] != DQUOTE && s[a] != SQUOTE,
    ensures
        a <= plain_stop(s, a, true) <= s.len(),
        trimmed(s, a, plain_stop(s, a, true)) > a ==> leaf_says(
            s,
            Extent { a, b: trimmed(s, a, plain_stop(s, a, true)) },
            resolved(plain_text(s, a, true)),
        ),
{
    let stop = plain_stop(s, a, true);
    plain_rest_in(s, a, true);
    let b = trimmed(s, a, stop);
    lemma_trimmed_gap(s, a, stop);
    if b > a {
        lemma_plain_last(s, a, true);
        assert(back(s, a, stop, Class::Breaks) == stop);
        lemma_flow_was(alone(s, a, b), resolved(plain_text(s, a, true)));
    }
}

pub(crate) proof fn m_node(s: Seq<u8>, st: St, m: int)
    requires
        good(s, st),
        node(s, st, m) is Ok,
        known(s, st.t, st.a),
    ensures
        last_mirrors(s, end_of(node(s, st, m)).t, (node(s, st, m)->Ok_0).0),
        done(s, st.t, end_of(node(s, st, m))),
    decreases s.len() - st.p, 8int,
{
    unfold_node(s, st, m);
    let p = past_filler(s, st.p);
    m_empty(s, st, st.p);
    if !doc_bound(s, st.p) {
        if !line_ends(s, st.p) && col_at(s, st.p) > 0 {
            m_here(s, st, col_at(s, st.p), m);
        } else if p < s.len() && !doc_bound(s, p) {
            let n = indent_at(s, p)->0;
            if n >= m {
                f_sound(s, st, p + n);
                m_here(s, st.to(p + n), n, m);
            }
        }
    }
}

proof fn m_here(s: Seq<u8>, st: St, n: int, m: int)
    requires
        good(s, st),
        node_here(s, st, n, m) is Ok,
        known(s, st.t, st.a),
    ensures
        last_mirrors(s, end_of(node_here(s, st, n, m)).t, (node_here(s, st, n, m)->Ok_0).0),
        done(s, st.t, end_of(node_here(s, st, n, m))),
    decreases s.len() - st.p, 7int,
{
    unfold_node_here(s, st, n, m);
    lemma_props_bd(s, st.p, false, Props { tag: None, anchor: None });
    let (x, p) = props(s, st.p, false)->Ok_0;
    f_sound(s, st, p);
    let st0 = st.to(p);
    if (x.tag is Some || x.anchor is Some) && line_ends(s, p) {
        m_node(s, st0, m);
        let (v, st1) = node(s, st0, m)->Ok_0;
        m_props(s, st.t, x, v, st1);
    } else {
        m_content(s, st0, n, m);
        let (v, st1) = content(s, st0, n, m)->Ok_0;
        m_props(s, st.t, x, v, st1);
    }
}

proof fn m_content(s: Seq<u8>, st: St, n: int, m: int)
    requires
        good(s, st),
        content(s, st, n, m) is Ok,
        known(s, st.t, st.a),
    ensures
        last_mirrors(s, end_of(content(s, st, n, m)).t, (content(s, st, n, m)->Ok_0).0),
        done(s, st.t, end_of(content(s, st, n, m))),
    decreases s.len() - st.p, 6int,
{
    unfold_content(s, st, n, m);
    m_empty(s, st, st.p);
    if let Some(b) = at(s, st.p) {
        if b == LBRACKET || b == LBRACE {
            m_flow_or_map(s, st, n);
        } else if b == PIPE || b == GREATER {
            lemma_block_bd(s, st.p, m);
            super::words::lemma_block_in(s, st.p, m);
            let (u, p) = block_scalar(s, st.p, m)->Ok_0;
            l_block(s, st.p, u, p);
            m_leaf(s, st, Val::Str(u), p);
        } else if b == STAR {
            m_alias(s, st);
        } else if indicator_at(s, st.p, DASH) {
            m_seq(s, st, n);
        } else {
            m_scalar(s, st, n, m);
        }
    }
}

proof fn m_scalar(s: Seq<u8>, st: St, n: int, m: int)
    requires
        good(s, st),
        st.p < s.len(),
        scalar_or_map(s, st, n, m) is Ok,
        known(s, st.t, st.a),
    ensures
        last_mirrors(s, end_of(scalar_or_map(s, st, n, m)).t, (scalar_or_map(s, st, n, m)->Ok_0).0),
        done(s, st.t, end_of(scalar_or_map(s, st, n, m))),
    decreases s.len() - st.p, 5int,
{
    unfold_scalar_or_map(s, st, n, m);
    let t = st.t.open(st.p, false);
    let inner = st.with(t);
    lemma_grow_open(s, st, false);
    lemma_open_count(st.t, st.p, false);
    m_open(s, st.t, st.p, false);
    lemma_known_on(s, st.t, t, st.a);
    if indicator_at(s, st.p, QUESTION) {
        b_explicit(s, st.t, st.p, inner, n, false);
        m_explicit(s, st.t, st.p, inner, n, Seq::empty(), false);
        let (kv, st1) = explicit_entry(s, inner, n)->Ok_0;
        lemma_anchors_trans(st.t, t, st1.t);
        assert(seq![kv] =~= Seq::empty().push(kv));
        m_map_from(s, st, st1, n, seq![kv]);
    } else {
        lemma_token_bd(s, st.p);
        let x = token(s, st.p)->Ok_0;
        let p = run(s, x.p, Class::Blank);
        lemma_run(s, x.p, Class::Blank);
        if !indicator_at(s, p, COLON) {
            if x.quoted {
                assert forall|i: int| x.p <= i < p implies is_blank(#[trigger] s[i]) by {
                    assert(Class::Blank.holds(s[i]));
                }
                l_quoted(s, st.p, s[st.p] == DQUOTE, p);
                m_leaf(s, st, Val::Str(x.text), p);
            } else {
                lemma_folded_bd(s, x.text, p, m);
                let (u, q) = plain_folded(s, x.text, p, m)->Ok_0;
                super::words::lemma_folded_in(s, x.text, p, m);
                l_plain(s, st.p, u, q, m);
                m_leaf(s, st, resolved(u), q);
            }
        } else {
            lemma_bd_ascii(s, p);
            f_sound(s, inner, p + 1);
            let ext = Extent { a: st.p, b: x.end };
            lemma_grow_key(s, st.t, st.p, inner.to(p + 1), ext, Some(x.text), false, false);
            let st1 = St { p: p + 1, t: t.key(ext, Some(x.text)), ..st };
            m_key(s, t, Seq::empty(), ext, Some(x.text));
            lemma_key_nodes(t, ext, Some(x.text));
            lemma_known_on(s, t, st1.t, st.a);
            b_value(s, st1, n);
            m_value(s, st1, n);
            let (v, st2) = map_value(s, st1, n)->Ok_0;
            lemma_grow_part(s, st.t, st.p, st1, st2, false, false);
            let key = if x.quoted {
                Val::Str(x.text)
            } else {
                resolved(x.text)
            };
            m_pair(s, st1.t, st2.t, st1.p, Seq::empty(), key, v);
            lemma_anchors_trans(st.t, t, st1.t);
            lemma_anchors_trans(st.t, st1.t, st2.t);
            assert(seq![(key, v)] =~= Seq::empty().push((key, v)));
            m_map_from(s, st, st2, n, seq![(key, v)]);
        }
    }
}

proof fn m_map_from(s: Seq<u8>, st: St, st1: St, n: int, kvs: Seq<(Val, Val)>)
    requires
        good(s, st),
        within(s, st.t, st.p, st1, false, true),
        tail_ends(st.t, st1.t),
        st.p < st1.p,
        map_from(s, st.p, st1, n, kvs) is Ok,
        pairs_mirror(s, st1.t, kvs),
        kvs.len() > 0,
        done(s, st.t, st1),
    ensures
        last_mirrors(s, end_of(map_from(s, st.p, st1, n, kvs)).t, (map_from(s, st.p, st1, n, kvs)->Ok_0).0),
        done(s, st.t, end_of(map_from(s, st.p, st1, n, kvs))),
    decreases s.len() - st.p, 0int,
{
    unfold_map_from(s, st.p, st1, n, kvs);
    m_map_rest(s, st.t, st.p, st1, n, kvs);
    let (all, st2) = map_rest(s, st1, n, kvs)->Ok_0;
    m_close_pairs(s, st2.t, st2.p, all);
    m_close(s, st.t, st1.t, st2);
}

proof fn m_map_rest(s: Seq<u8>, t0: Tree, start: int, st: St, n: int, kvs: Seq<(Val, Val)>)
    requires
        within(s, t0, start, st, false, true),
        tail_ends(t0, st.t),
        map_rest(s, st, n, kvs) is Ok,
        pairs_mirror(s, st.t, kvs),
        known(s, st.t, st.a),
    ensures
        pairs_mirror(s, end_of(map_rest(s, st, n, kvs)).t, (map_rest(s, st, n, kvs)->Ok_0).0),
        done(s, st.t, end_of(map_rest(s, st, n, kvs))),
        (map_rest(s, st, n, kvs)->Ok_0).0.len() >= kvs.len(),
    decreases s.len() - st.p, 5int,
{
    unfold_map_rest(s, st, n, kvs);
    let p = past_filler(s, st.p);
    if p < s.len() && !doc_bound(s, p) && indent_at(s, p) == Some(n) && !indicator_at(s, p + n, DASH) {
        f_sound(s, st, p + n);
        let st0 = st.to(p + n);
        b_entry(s, t0, start, st0, n, true);
        m_entry(s, t0, start, st0, n, kvs, true);
        let (kv, st1) = map_entry(s, st0, n)->Ok_0;
        m_map_rest(s, t0, start, st1, n, kvs.push(kv));
        lemma_anchors_trans(st.t, st1.t, end_of(map_rest(s, st1, n, kvs.push(kv))).t);
    } else {
        lemma_known_on(s, st.t, st.t, st.a);
    }
}

proof fn m_entry(s: Seq<u8>, t0: Tree, start: int, st: St, n: int, kvs: Seq<(Val, Val)>, entries: bool)
    requires
        within(s, t0, start, st, false, entries),
        width(st.t) == 0,
        map_entry(s, st, n) is Ok,
        pairs_mirror(s, st.t, kvs),
        known(s, st.t, st.a),
    ensures
        pairs_mirror(s, end_of(map_entry(s, st, n)).t, kvs.push((map_entry(s, st, n)->Ok_0).0)),
        done(s, st.t, end_of(map_entry(s, st, n))),
    decreases s.len() - st.p, 4int,
{
    unfold_map_entry(s, st, n);
    if indicator_at(s, st.p, QUESTION) {
        m_explicit(s, t0, start, st, n, kvs, entries);
    } else {
        lemma_token_bd(s, st.p);
        let x = token(s, st.p)->Ok_0;
        let p = run(s, x.p, Class::Blank);
        lemma_bd_ascii(s, p);
        f_sound(s, st, p + 1);
        let ext = Extent { a: st.p, b: x.end };
        lemma_grow_key(s, t0, start, st.to(p + 1), ext, Some(x.text), false, entries);
        let st1 = St { p: p + 1, t: st.t.key(ext, Some(x.text)), ..st };
        m_key(s, st.t, kvs, ext, Some(x.text));
        lemma_key_nodes(st.t, ext, Some(x.text));
        lemma_known_on(s, st.t, st1.t, st.a);
        b_value(s, st1, n);
        m_value(s, st1, n);
        let (v, st2) = map_value(s, st1, n)->Ok_0;
        let key = if x.quoted {
            Val::Str(x.text)
        } else {
            resolved(x.text)
        };
        m_pair(s, st1.t, st2.t, st1.p, kvs, key, v);
        lemma_anchors_trans(st.t, st1.t, st2.t);
    }
}

proof fn m_explicit(s: Seq<u8>, t0: Tree, start: int, st: St, n: int, kvs: Seq<(Val, Val)>, entries: bool)
    requires
        within(s, t0, start, st, false, entries),
        width(st.t) == 0,
        at(s, st.p) == Some(QUESTION),
        explicit_entry(s, st, n) is Ok,
        pairs_mirror(s, st.t, kvs),
        known(s, st.t, st.a),
    ensures
        pairs_mirror(s, end_of(explicit_entry(s, st, n)).t, kvs.push((explicit_entry(s, st, n)->Ok_0).0)),
        done(s, st.t, end_of(explicit_entry(s, st, n))),
    decreases s.len() - st.p, 3int,
{
    unfold_explicit_entry(s, st, n);
    lemma_bd_ascii(s, st.p);
    let p = run(s, st.p + 1, Class::Blank);
    f_sound(s, st, p);
    let st0 = st.to(p);
    b_node(s, st0, n + 1);
    let (key, st1) = node(s, st0, n + 1)->Ok_0;
    lemma_grow_part(s, t0, start, st0, st1, false, entries);
    lemma_width(st0.t);
    lemma_grow_promote(s, t0, start, st1, scalar_text(key), false, entries);
    m_node(s, st0, n + 1);
    m_key_node(s, st0.t, st1.t, st0.p, kvs, scalar_text(key));
    let st2 = st1.with(st1.t.promote(scalar_text(key)));
    lemma_key_nodes(st1.t, Extent { a: 0, b: 0 }, scalar_text(key));
    lemma_known_on(s, st1.t, st2.t, st1.a);
    lemma_anchors_trans(st.t, st1.t, st2.t);
    let q = past_filler(s, st1.p);
    if q >= s.len() || indent_at(s, q) != Some(n) || !indicator_at(s, q + n, COLON) {
        lemma_grow_empty(s, st2, q);
        m_empty(s, st2, st2.p);
        m_pair(s, st2.t, st2.t.empty(st2.p), st2.p, kvs, key, Val::Null);
        lemma_anchors_trans(st.t, st2.t, st2.t.empty(st2.p));
    } else {
        lemma_bd_ascii(s, q + n);
        f_sound(s, st2, q + n + 1);
        let st3 = st2.to(q + n + 1);
        b_value(s, st3, n);
        m_value(s, st3, n);
        let (v, st4) = map_value(s, st3, n)->Ok_0;
        m_pair(s, st3.t, st4.t, st3.p, kvs, key, v);
        lemma_anchors_trans(st.t, st3.t, st4.t);
    }
}

proof fn m_value(s: Seq<u8>, st: St, n: int)
    requires
        good(s, st),
        map_value(s, st, n) is Ok,
        known(s, st.t, st.a),
    ensures
        last_mirrors(s, end_of(map_value(s, st, n)).t, (map_value(s, st, n)->Ok_0).0),
        done(s, st.t, end_of(map_value(s, st, n))),
    decreases s.len() - st.p, 9int,
{
    unfold_map_value(s, st, n);
    let p = run(s, st.p, Class::Blank);
    let q = past_filler(s, p);
    f_sound(s, st, p);
    m_empty(s, st, st.p);
    if !line_ends(s, p) {
        m_node(s, st.to(p), n + 1);
    } else if q < s.len() {
        let k = indent_at(s, q)->0;
        f_sound(s, st, q + k);
        if k == n && indicator_at(s, q + k, DASH) {
            m_seq(s, st.to(q + k), k);
        } else if k > n {
            m_content(s, st.to(q + k), k, n + 1);
        }
    }
}

proof fn m_seq(s: Seq<u8>, st: St, n: int)
    requires
        good(s, st),
        indicator_at(s, st.p, DASH),
        block_seq(s, st, n) is Ok,
        known(s, st.t, st.a),
    ensures
        last_mirrors(s, end_of(block_seq(s, st, n)).t, (block_seq(s, st, n)->Ok_0).0),
        done(s, st.t, end_of(block_seq(s, st, n))),
    decreases s.len() - st.p, 5int,
{
    unfold_block_seq(s, st, n);
    lemma_grow_open(s, st, false);
    m_open(s, st.t, st.p, false);
    let inner = st.with(st.t.open(st.p, false));
    lemma_open_count(st.t, st.p, false);
    lemma_known_on(s, st.t, inner.t, st.a);
    m_seq_rest(s, st.t, st.p, inner, n, Seq::empty());
    let (vs, st1) = seq_rest(s, inner, n, Seq::empty())->Ok_0;
    m_close_items(s, st1.t, st1.p, vs);
    m_close(s, st.t, inner.t, st1);
}

proof fn m_seq_rest(s: Seq<u8>, t0: Tree, start: int, st: St, n: int, vs: Seq<Val>)
    requires
        within(s, t0, start, st, false, false),
        seq_rest(s, st, n, vs) is Ok,
        items_mirror(s, st.t, vs),
        known(s, st.t, st.a),
        vs.len() == 0 ==> indicator_at(s, st.p, DASH),
    ensures
        items_mirror(s, end_of(seq_rest(s, st, n, vs)).t, (seq_rest(s, st, n, vs)->Ok_0).0),
        done(s, st.t, end_of(seq_rest(s, st, n, vs))),
        (seq_rest(s, st, n, vs)->Ok_0).0.len() > 0,
    decreases s.len() - st.p, 4int,
{
    unfold_seq_rest(s, st, n, vs);
    let p = past_filler(s, st.p);
    if vs.len() == 0 {
        assert(run(s, st.p, Class::Blank) == st.p);
        assert(p == st.p);
    }
    if p < s.len() {
        let k = indent_at(s, p)->0;
        let here = vs.len() == 0 && k == 0;
        if vs.len() == 0 {
            assert(run(s, p, Class::Spaces) == p);
            assert(k == 0);
        }
        if indicator_at(s, p + k, DASH) && (here || col_at(s, p + k) == n) {
            lemma_bd_ascii(s, p + k);
            let x = run(s, p + k + 1, Class::Blank);
            f_sound(s, st, x);
            let st0 = st.to(x);
            b_node(s, st0, n + 1);
            m_node(s, st0, n + 1);
            let (v, st1) = node(s, st0, n + 1)->Ok_0;
            lemma_grow_part(s, t0, start, st0, st1, false, false);
            m_item(s, st0.t, st1.t, st0.p, vs, v);
            m_seq_rest(s, t0, start, st1, n, vs.push(v));
            lemma_anchors_trans(st.t, st1.t, end_of(seq_rest(s, st1, n, vs.push(v))).t);
        }
    }
    lemma_known_on(s, st.t, st.t, st.a);
}

proof fn m_flow_or_map(s: Seq<u8>, st: St, n: int)
    requires
        good(s, st),
        at(s, st.p) == Some(LBRACKET) || at(s, st.p) == Some(LBRACE),
        flow_or_map(s, st, n) is Ok,
        known(s, st.t, st.a),
    ensures
        last_mirrors(s, end_of(flow_or_map(s, st, n)).t, (flow_or_map(s, st, n)->Ok_0).0),
        done(s, st.t, end_of(flow_or_map(s, st, n))),
    decreases s.len() - st.p, 5int,
{
    unfold_flow_or_map(s, st, n);
    lemma_grow_open(s, st, false);
    lemma_open_count(st.t, st.p, false);
    m_open(s, st.t, st.p, false);
    let inner = st.with(st.t.open(st.p, false));
    lemma_known_on(s, st.t, inner.t, st.a);
    b_collection(s, inner);
    m_collection(s, inner);
    let (v, st1) = flow_collection(s, inner)->Ok_0;
    lemma_anchors_trans(st.t, inner.t, st1.t);
    lemma_key_nodes(st1.t, Extent { a: 0, b: 0 }, None);
    let p = run(s, st1.p, Class::Blank);
    f_sound(s, st1, p);
    if !indicator_at(s, p, COLON) {
        lemma_known_on(s, st1.t, st1.t.dissolve(), st1.a);
        lemma_anchors_trans(st.t, st1.t, st1.t.dissolve());
        assert(st1.t.dissolve().last == st1.t.last && st1.t.dissolve().nodes == st1.t.nodes) by {
            reveal(grew);
            reveal(Tree::dissolve);
            reveal(Tree::open);
        }
        lemma_mirrors_same(s, st1.t, st1.t.dissolve(), st1.t.last->0, v);
    } else {
        lemma_bd_ascii(s, p);
        f_sound(s, st1, p + 1);
        lemma_grow_part(s, st.t, st.p, inner, st1, false, false);
        lemma_width(inner.t);
        lemma_grow_promote(s, st.t, st.p, st1.to(p + 1), None, false, false);
        m_key_node(s, inner.t, st1.t, inner.p, Seq::empty(), None);
        let st2 = St { p: p + 1, t: st1.t.promote(None), ..st1 };
        lemma_known_on(s, st1.t, st2.t, st1.a);
        lemma_anchors_trans(st.t, st1.t, st2.t);
        b_value(s, st2, n);
        m_value(s, st2, n);
        let (w, st3) = map_value(s, st2, n)->Ok_0;
        lemma_grow_part(s, st.t, st.p, st2, st3, false, false);
        m_pair(s, st2.t, st3.t, st2.p, Seq::empty(), v, w);
        lemma_anchors_trans(st.t, st2.t, st3.t);
        assert(seq![(v, w)] =~= Seq::empty().push((v, w)));
        m_map_from(s, st, st3, n, seq![(v, w)]);
    }
}

proof fn m_collection(s: Seq<u8>, st: St)
    requires
        good(s, st),
        at(s, st.p) == Some(LBRACKET) || at(s, st.p) == Some(LBRACE),
        flow_collection(s, st) is Ok,
        known(s, st.t, st.a),
    ensures
        last_mirrors(s, end_of(flow_collection(s, st)).t, (flow_collection(s, st)->Ok_0).0),
        done(s, st.t, end_of(flow_collection(s, st))),
    decreases s.len() - st.p, 1int,
{
    unfold_flow_collection(s, st);
    lemma_bd_ascii(s, st.p);
    lemma_grow_open(s, st, true);
    m_open(s, st.t, st.p, true);
    let t = st.t.open(st.p, true);
    f_sound(s, st.with(t), st.p + 1);
    let inner = St { p: st.p + 1, t, ..st };
    lemma_open_count(st.t, st.p, true);
    lemma_known_on(s, st.t, t, st.a);
    if s[st.p] == LBRACKET {
        b_flow_seq(s, st.t, st.p, inner, Seq::empty());
        m_flow_seq(s, st.t, st.p, inner, Seq::empty());
        let (vs, st1) = flow_seq(s, inner, Seq::empty())->Ok_0;
        assert(st1.t.stack.last().delimited) by {
            reveal(frame_is);
        }
        m_close_items(s, st1.t, st1.p, vs);
        m_close(s, st.t, t, st1);
    } else {
        b_flow_map(s, st.t, st.p, inner, Seq::empty(), false);
        assert(inner.t.stack.last().children.len() == 0) by {
            reveal(Tree::open);
        }
        m_flow_map(s, st.t, st.p, inner, Seq::empty(), false);
        let (kvs, st1) = flow_map(s, inner, Seq::empty())->Ok_0;
        assert(st1.t.stack.last().delimited) by {
            reveal(frame_is);
        }
        m_close_pairs(s, st1.t, st1.p, kvs);
        m_close(s, st.t, t, st1);
    }
}

proof fn m_flow_seq(s: Seq<u8>, t0: Tree, start: int, st: St, vs: Seq<Val>)
    requires
        within(s, t0, start, st, true, false),
        flow_seq(s, st, vs) is Ok,
        items_mirror(s, st.t, vs),
        known(s, st.t, st.a),
    ensures
        items_mirror(s, end_of(flow_seq(s, st, vs)).t, (flow_seq(s, st, vs)->Ok_0).0),
        done(s, st.t, end_of(flow_seq(s, st, vs))),
    decreases s.len() - st.p, 4int,
{
    unfold_flow_seq(s, st, vs);
    let p = past_flow_gap(s, st.p);
    f_sound(s, st, p);
    if s[p] != RBRACKET {
        let st0 = st.to(p);
        b_flow_node(s, st0);
        m_flow_node(s, st0);
        let (v, st1) = flow_node(s, st0)->Ok_0;
        lemma_grow_part(s, t0, start, st0, st1, true, false);
        m_item(s, st0.t, st1.t, st0.p, vs, v);
        let q = past_flow_gap(s, st1.p);
        if s[q] == COMMA {
            lemma_bd_ascii(s, q);
            f_sound(s, st1, q + 1);
            m_flow_seq(s, t0, start, st1.to(q + 1), vs.push(v));
            lemma_anchors_trans(st.t, st1.t, end_of(flow_seq(s, st1.to(q + 1), vs.push(v))).t);
        }
    }
    lemma_known_on(s, st.t, st.t, st.a);
}

proof fn m_flow_value(s: Seq<u8>, st: St)
    requires
        good(s, st),
        flow_value(s, st) is Ok,
        known(s, st.t, st.a),
    ensures
        last_mirrors(s, end_of(flow_value(s, st)).t, (flow_value(s, st)->Ok_0).0),
        done(s, st.t, end_of(flow_value(s, st))),
    decreases s.len() - st.p, 4int,
{
    unfold_flow_value(s, st);
    let p = past_flow_gap(s, st.p);
    f_sound(s, st, p);
    m_empty(s, st, p);
    if at(s, p) == Some(COLON) {
        lemma_bd_ascii(s, p);
        let q = past_flow_gap(s, p + 1);
        f_sound(s, st, q);
        m_empty(s, st, q);
        if q < s.len() && s[q] != COMMA && s[q] != RBRACE {
            m_flow_node(s, st.to(q));
        }
    }
}

proof fn m_flow_map(s: Seq<u8>, t0: Tree, start: int, st: St, kvs: Seq<(Val, Val)>, entries: bool)
    requires
        within(s, t0, start, st, true, entries),
        width(st.t) == 0,
        flow_map(s, st, kvs) is Ok,
        pairs_mirror(s, st.t, kvs),
        known(s, st.t, st.a),
        kvs.len() > 0 || st.t.stack.last().children.len() == 0,
    ensures
        pairs_mirror(s, end_of(flow_map(s, st, kvs)).t, (flow_map(s, st, kvs)->Ok_0).0),
        done(s, st.t, end_of(flow_map(s, st, kvs))),
        (flow_map(s, st, kvs)->Ok_0).0.len() > 0 || end_of(flow_map(s, st, kvs)).t.stack.last().children.len() == 0,
    decreases s.len() - st.p, 5int,
{
    unfold_flow_map(s, st, kvs);
    let p = past_flow_gap(s, st.p);
    f_sound(s, st, p);
    if s[p] != RBRACE {
        let st0 = st.to(p);
        b_flow_node(s, st0);
        let (key, st1) = flow_node(s, st0)->Ok_0;
        lemma_grow_part(s, t0, start, st0, st1, true, entries);
        lemma_grow_promote(s, t0, start, st1, scalar_text(key), true, entries);
        m_flow_node(s, st0);
        m_key_node(s, st0.t, st1.t, st0.p, kvs, scalar_text(key));
        let st2 = st1.with(st1.t.promote(scalar_text(key)));
        lemma_key_nodes(st1.t, Extent { a: 0, b: 0 }, scalar_text(key));
        lemma_known_on(s, st1.t, st2.t, st1.a);
        lemma_anchors_trans(st.t, st1.t, st2.t);
        b_flow_value(s, st2);
        m_flow_value(s, st2);
        let (v, st3) = flow_value(s, st2)->Ok_0;
        lemma_grow_part(s, t0, start, st2, st3, true, entries);
        m_pair(s, st2.t, st3.t, st2.p, kvs, key, v);
        lemma_anchors_trans(st.t, st2.t, st3.t);
        let q = past_flow_gap(s, st3.p);
        if s[q] == COMMA {
            lemma_bd_ascii(s, q);
            f_sound(s, st3, q + 1);
            m_flow_map(s, t0, start, st3.to(q + 1), kvs.push((key, v)), true);
            lemma_anchors_trans(st.t, st3.t, end_of(flow_map(s, st3.to(q + 1), kvs.push((key, v)))).t);
        }
    }
    lemma_known_on(s, st.t, st.t, st.a);
}

proof fn m_flow_node(s: Seq<u8>, st: St)
    requires
        good(s, st),
        flow_node(s, st) is Ok,
        known(s, st.t, st.a),
    ensures
        last_mirrors(s, end_of(flow_node(s, st)).t, (flow_node(s, st)->Ok_0).0),
        done(s, st.t, end_of(flow_node(s, st))),
    decreases s.len() - st.p, 3int,
{
    unfold_flow_node(s, st);
    lemma_props_bd(s, st.p, true, Props { tag: None, anchor: None });
    let (x, p) = props(s, st.p, true)->Ok_0;
    f_sound(s, st, p);
    m_flow_content(s, st.to(p));
    let (v, st1) = flow_content(s, st.to(p))->Ok_0;
    m_props(s, st.t, x, v, st1);
}

proof fn m_flow_content(s: Seq<u8>, st: St)
    requires
        good(s, st),
        flow_content(s, st) is Ok,
        known(s, st.t, st.a),
    ensures
        last_mirrors(s, end_of(flow_content(s, st)).t, (flow_content(s, st)->Ok_0).0),
        done(s, st.t, end_of(flow_content(s, st))),
    decreases s.len() - st.p, 2int,
{
    unfold_flow_content(s, st);
    m_empty(s, st, st.p);
    if let Some(b) = at(s, st.p) {
        if b == LBRACKET || b == LBRACE {
            m_collection(s, st);
        } else if b == DQUOTE || b == SQUOTE {
            lemma_quoted_bd(s, st.p, b == DQUOTE);
            let (u, q) = quoted(s, st.p, b == DQUOTE)->Ok_0;
            l_quoted(s, st.p, b == DQUOTE, q);
            m_leaf(s, st, Val::Str(u), q);
        } else if b == STAR {
            m_alias(s, st);
        } else if b == COMMA || b == RBRACKET || b == RBRACE {
        } else {
            l_flow_plain(s, st.p);
            m_leaf(s, st, resolved(plain_text(s, st.p, true)), plain_stop(s, st.p, true));
        }
    }
}

} // verus!
