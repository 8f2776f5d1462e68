//! Where the scalar that differs stands in what is read.
use vstd::prelude::*;
use super::cut::{lemma_filler, Cut};
use super::growth::{covers, kept};
use super::low::one_line;
use super::turn::turned;
use super::shift::{moved_st, moved_tree};
use crate::edit::around::reads_alike;
use crate::edit::sink::{sound, sound_node, trimmed, EntryView, Extent, NodeView, ShapeView, Tree};
use crate::edit::KindView;
use crate::parser::grammar::St;
use crate::parser::layout::{moves, past_filler, Fail};
use crate::text::{is_break, DQUOTE, SQUOTE};
use crate::value::Val;

verus! {

broadcast use moves;

/// The state after something was read.
pub open spec fn end_of<T>(r: Result<(T, St), Fail>) -> St {
    (r->Ok_0).1
}

/// Whether node `id` is the scalar that differs.
pub open spec fn scalar_at(k: Cut, t: Tree, id: int) -> bool {
    &&& 0 <= id < t.nodes.len()
    &&& t.nodes[id].span == (Extent { a: k.x, b: k.y })
    &&& t.nodes[id].shape is Leaf
    &&& !t.nodes[id].delimited
    &&& t.nodes[id].kind is Literal
}

/// Whether node `id` is what differs: the scalar, or the flow collection that it
/// stands in.
pub open spec fn leaf_at(k: Cut, t: Tree, id: int) -> bool {
    if k.flow() {
        &&& 0 <= id < t.nodes.len()
        &&& t.nodes[id].span == (Extent { a: k.a, b: k.b })
        &&& t.nodes[id].delimited
        &&& t.nodes[id].kind is Literal
        &&& k.l < id && scalar_at(k, t, k.l)
    } else {
        scalar_at(k, t, id) && k.y == k.b && k.l == id
    }
}

/// Whether no key among the entries covers `p`.
pub open spec fn keys_apart(p: int, es: Seq<EntryView>) -> bool {
    forall|j: int| 0 <= j < es.len() ==> !((#[trigger] es[j]).key.a <= p < es[j].key.b)
}

/// Whether a node that covers `p` has no anchor, and none of its keys covers `p`.
pub open spec fn node_free(p: int, x: NodeView) -> bool {
    &&& x.span.a <= p < x.span.b ==> x.anchor is None
    &&& x.shape is Entries ==> keys_apart(p, x.shape->Entries_0)
}

/// Whether node `x`, if it is a quoted scalar that begins after what differs on its
/// line, ends on that line or is read alike in both sources.
pub open spec fn node_quiet(k: Cut, x: NodeView) -> bool {
    x.shape is Leaf && k.b <= x.span.a < x.span.b && !k.later(x.span.a) && (k.s[x.span.a] == DQUOTE || k.s[x.span.a]
        == SQUOTE) ==> one_line(k.s, x.span.a, x.span.b) || reads_alike(k.s, x.span.a, k.t, k.to(x.span.a))
}

pub open spec fn node_apart(k: Cut, x: NodeView) -> bool {
    &&& node_free(k.a, x)
    &&& node_free(k.x, x)
    &&& x.span.a <= k.a < x.span.b && x.delimited ==> k.flow() && x.span == (Extent { a: k.a, b: k.b })
    &&& k.flow() ==> node_quiet(k.inner(), x)
}

/// Whether among the nodes from `n` on neither a node with an anchor nor a key
/// covers what differs, and no other flow collection does.
#[verifier::opaque]
pub open spec fn apart(k: Cut, t: Tree, n: int) -> bool {
    forall|i: int| 0 <= n <= i < t.nodes.len() ==> node_apart(k, #[trigger] t.nodes[i])
}

/// Whether the scalar is among the nodes that are new in `t1`.
pub open spec fn mid(id: int, t0: Tree, t1: Tree) -> bool {
    t0.nodes.len() <= id < t1.nodes.len()
}

/// What is read from `st` to `st1` lies before the scalar, after it on later
/// lines, or around it.
pub open spec fn placed(k: Cut, id: int, st: St, st1: St) -> bool {
    &&& id >= st1.t.nodes.len() ==> st1.p <= k.a
    &&& id < st.t.nodes.len() ==> k.later(st.p) || st.p == k.s.len()
    &&& mid(id, st.t, st1.t) ==> leaf_at(k, st1.t, id)
    &&& apart(k, st1.t, st.t.nodes.len() as int)
}

/// Whether the next line with content is the same from `p` in one source and `q`
/// in the other.
pub open spec fn near(k: Cut, p: int, q: int) -> bool {
    k.after(p) && k.c <= q <= k.t.len() && past_filler(k.t, q) == k.to(past_filler(k.s, p))
}

pub open spec fn beside(k: Cut, st1: St, st2: St) -> bool {
    st2.t == moved_tree(k, st1.t) && st2.a == st1.a && near(k, st1.p, st2.p)
}

/// What was read of one source, `r`, and of the other, `r2`, is the same up to the
/// scalar that differs.
pub open spec fn same(k: Cut, id: int, st: St, r: Result<(Val, St), Fail>, r2: Result<(Val, St), Fail>) -> bool {
    match (r, r2) {
        (Ok((v, st1)), Ok((w, st2))) => if mid(id, st.t, st1.t) {
            beside(k, st1, st2) && turned(k, st1.t, v, w)
        } else {
            w == v && st2 == moved_st(k, st1)
        },
        _ => false,
    }
}

pub(crate) proof fn lemma_later_on(k: Cut, x: int, y: int)
    requires
        k.later(x),
        x <= y <= k.s.len(),
    ensures
        k.later(y),
{
    let i = choose|i: int| k.b <= i < x && is_break(#[trigger] k.s[i]);
    assert(k.b <= i < y && is_break(k.s[i]));
}

/// The scalar begins no earlier and ends no later than what it was read in.
pub(crate) proof fn lemma_mid(k: Cut, id: int, s: Seq<u8>, st: St, st1: St)
    requires
        mid(id, st.t, st1.t),
        leaf_at(k, st1.t, id),
        kept(st.t, st1.t, st.p),
        sound(st1.t, s, st1.p),
    ensures
        st.p <= k.a,
        k.b <= st1.p,
{
    reveal(kept);
    reveal(sound);
    assert(st1.t.nodes[id].span.a >= st.p);
    assert(sound_node(st1.t.nodes[id], id, s, st1.p));
}

/// What is apart in the end is apart before.
pub(crate) proof fn lemma_apart_down(k: Cut, t: Tree, t1: Tree, from: int, n: int, n1: int)
    requires
        apart(k, t1, n1),
        kept(t, t1, from),
        0 <= n1 <= n,
    ensures
        apart(k, t, n),
{
    reveal(apart);
    reveal(kept);
    assert forall|i: int| 0 <= n <= i < t.nodes.len() implies node_apart(k, #[trigger] t.nodes[i]) by {
        assert(t1.nodes[i] == t.nodes[i]);
        assert(node_apart(k, t1.nodes[i]));
    }
}

pub(crate) proof fn lemma_leaf_down(k: Cut, t: Tree, t1: Tree, from: int, id: int)
    requires
        leaf_at(k, t1, id),
        kept(t, t1, from),
        id < t.nodes.len(),
    ensures
        leaf_at(k, t, id),
{
    reveal(kept);
    assert(t1.nodes[id] == t.nodes[id]);
    if k.flow() {
        assert(t1.nodes[k.l] == t.nodes[k.l]);
    }
}

/// A node that covers what differs has no anchor.
pub(crate) proof fn lemma_covered(k: Cut, id: int, t0: Tree, t1: Tree)
    requires
        mid(id, t0, t1),
        leaf_at(k, t1, id),
        covers(t0, t1),
        apart(k, t1, t0.nodes.len() as int),
        t0.nodes.len() <= t1.last->0,
        k.a < k.b,
    ensures
        t1.nodes[t1.last->0].anchor is None,
{
    reveal(covers);
    reveal(apart);
    let x = t1.nodes[t1.last->0];
    assert(x.span.a <= t1.nodes[id].span.a && t1.nodes[id].span.b <= x.span.b);
    assert(node_apart(k, x));
}

/// The same position is near.
pub(crate) proof fn lemma_near(k: Cut, p: int)
    requires
        k.ok(),
        k.after(p),
        k.b <= p,
    ensures
        near(k, p, k.to(p)),
{
    lemma_filler(k, p);
    crate::text::lemma_run(k.s, k.b, crate::text::Class::Blank);
}

/// The node that a leaf becomes.
pub(crate) proof fn lemma_leaf_new(t: Tree, p: int, q: int, s: Seq<u8>)
    ensures
        t.open(p, false).close(q, s).nodes == t.nodes.push(
            NodeView {
                span: Extent {
                    a: p,
                    b: if trimmed(s, p, q) < p {
                        p
                    } else {
                        trimmed(s, p, q)
                    },
                },
                kind: KindView::Literal,
                anchor: None,
                shape: ShapeView::Leaf,
                delimited: false,
                tags: Seq::empty(),
            },
        ),
{
    reveal(Tree::open);
    reveal(Tree::close);
    assert(t.open(p, false).stack.drop_last() =~= t.stack);
}

pub(crate) proof fn lemma_alias_new(t: Tree, p: int, q: int, s: Seq<u8>, name: Seq<u8>)
    ensures
        ({
            let u = t.open(p, false).kind_open(KindView::AliasRef(name)).close(q, s);
            &&& u.nodes.len() == t.nodes.len() + 1
            &&& u.nodes.last().kind is AliasRef
        }),
{
    reveal(Tree::open);
    reveal(Tree::kind_open);
    reveal(Tree::close);
}

pub(crate) proof fn lemma_empty_new(t: Tree, p: int)
    ensures
        t.empty(p).nodes.len() == t.nodes.len() + 1,
        t.empty(p).nodes.last().span == (Extent { a: p, b: p }),
{
    reveal(Tree::empty);
}

/// A node without bytes is not the scalar.
pub(crate) proof fn lemma_not_empty(k: Cut, id: int, t: Tree, p: int)
    requires
        k.a < k.b && k.x < k.y,
        mid(id, t, t.empty(p)) ==> leaf_at(k, t.empty(p), id),
    ensures
        !mid(id, t, t.empty(p)),
{
    lemma_empty_new(t, p);
}

} // verus!
