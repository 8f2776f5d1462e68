//! Where the scalar stands among the parts of a block collection.
use vstd::prelude::*;
use super::cut::Cut;
use super::growth::{covers, good, kept};
use super::place::{
    apart, beside, keys_apart, leaf_at, lemma_apart_down, lemma_later_on, lemma_leaf_down, lemma_near, mid,
    node_apart, placed,
};
use super::shift::moved_st;
use crate::edit::sink::{grew, inside, waits, EntryView, Extent, Tree};
use crate::parser::grammar::St;
use crate::parser::layout::moves;

verus! {

broadcast use moves;

/// The entries of the innermost open node.
pub open spec fn entries_of(t: Tree) -> Seq<EntryView> {
    t.stack.last().entries
}

/// Whether the innermost open node has only gained entries.
#[verifier::opaque]
pub open spec fn more_entries(t: Tree, t1: Tree) -> bool {
    &&& entries_of(t).len() <= entries_of(t1).len()
    &&& forall|j: int| 0 <= j < entries_of(t).len() ==> #[trigger] entries_of(t1)[j] == entries_of(t)[j]
}

pub(crate) proof fn lemma_more_same(t: Tree)
    ensures
        more_entries(t, t),
{
    reveal(more_entries);
}

pub(crate) proof fn lemma_more_trans(t: Tree, t1: Tree, t2: Tree)
    requires
        more_entries(t, t1),
        more_entries(t1, t2),
    ensures
        more_entries(t, t2),
{
    reveal(more_entries);
    assert forall|j: int| 0 <= j < entries_of(t).len() implies #[trigger] entries_of(t2)[j] == entries_of(t)[j] by {
        assert(entries_of(t1)[j] == entries_of(t)[j]);
    }
}

pub(crate) proof fn lemma_more_grew(t: Tree, t1: Tree, from: int)
    requires
        grew(t, t1, from),
        t.stack.len() > 0,
    ensures
        more_entries(t, t1),
{
    reveal(more_entries);
    reveal(grew);
}

pub(crate) proof fn lemma_more_key(t: Tree, x: Extent, text: Option<Seq<u8>>)
    ensures
        more_entries(t, t.key(x, text)),
        more_entries(t, t.promote(text)),
{
    reveal(more_entries);
    reveal(Tree::key);
    reveal(Tree::promote);
}

pub(crate) proof fn lemma_more_apart(k: Cut, t: Tree, t1: Tree)
    requires
        more_entries(t, t1),
        keys_apart(k.a, entries_of(t1)),
    ensures
        keys_apart(k.a, entries_of(t)),
{
    reveal(more_entries);
    assert forall|j: int| 0 <= j < entries_of(t).len() implies !((#[trigger] entries_of(t)[j]).key.a <= k.a
        < entries_of(t)[j].key.b) by {
        assert(entries_of(t1)[j] == entries_of(t)[j]);
    }
}

/// A key that was read as a node of its own does not cover the scalar.
pub(crate) proof fn lemma_key_apart(k: Cut, id: int, t0: Tree, t1: Tree, t2: Tree, t3: Tree, from: int, after: int, text: Option<Seq<u8>>)
    requires
        t0.stack.len() > 0,
        !waits(t0),
        grew(t0, t1, from),
        covers(t0, t1),
        t2 == t1.promote(text),
        grew(t2, t3, after),
        keys_apart(k.a, entries_of(t3)),
        k.a < k.b,
        leaf_at(k, t1, id),
    ensures
        !mid(id, t0, t1),
{
    reveal(grew);
    reveal(covers);
    reveal(waits);
    reveal(Tree::promote);
    if mid(id, t0, t1) {
        let x = t1.nodes[t1.last->0].span;
        assert(x.a <= t1.nodes[id].span.a && t1.nodes[id].span.b <= x.b);
        let f = t1.stack.last();
        assert(f.children.last() == t1.last->0);
        assert(t2.stack.last().pending == Some((x, text)));
        let es = entries_of(t3);
        assert(es.last().key == x);
        assert(es[es.len() - 1].key == x);
    }
}

/// What is left to read follows what was read in both sources.
pub open spec fn follows(k: Cut, id: int, st: St, st2: St) -> bool {
    if id < st.t.nodes.len() {
        beside(k, st, st2)
    } else {
        st2 == moved_st(k, st)
    }
}

/// The rest of a collection lies before the scalar, after it, or around it.
pub open spec fn rest_placed(k: Cut, id: int, st: St, end: St) -> bool {
    &&& id >= end.t.nodes.len() ==> end.p <= k.a
    &&& mid(id, st.t, end.t) ==> leaf_at(k, end.t, id)
    &&& apart(k, end.t, st.t.nodes.len() as int)
    &&& keys_apart(k.a, entries_of(end.t))
}

/// What a part of something adds is placed as the whole is.
pub(crate) proof fn lemma_part(k: Cut, id: int, st: St, sta: St, stb: St, end: St)
    requires
        placed(k, id, st, end),
        st.t.nodes.len() <= sta.t.nodes.len() <= stb.t.nodes.len(),
        kept(stb.t, end.t, stb.p),
        stb.p <= end.p,
        st.p <= sta.p <= k.s.len(),
        st.t.nodes.len() <= id < sta.t.nodes.len() ==> k.later(sta.p) || sta.p == k.s.len(),
    ensures
        placed(k, id, sta, stb),
{
    if id >= stb.t.nodes.len() && id < end.t.nodes.len() {
        reveal(kept);
        assert(end.t.nodes[id].span.a >= stb.p);
    }
    if id < st.t.nodes.len() {
        if k.later(st.p) {
            lemma_later_on(k, st.p, sta.p);
        }
    }
    if mid(id, sta.t, stb.t) {
        lemma_kept_len(stb.t, end.t, stb.p);
        lemma_leaf_down(k, stb.t, end.t, stb.p, id);
    }
    lemma_apart_down(k, stb.t, end.t, stb.p, sta.t.nodes.len() as int, st.t.nodes.len() as int);
}

pub(crate) proof fn lemma_kept_len(t: Tree, t1: Tree, from: int)
    requires
        kept(t, t1, from),
    ensures
        t.nodes.len() <= t1.nodes.len(),
{
    reveal(kept);
}

pub(crate) proof fn lemma_close_len(t: Tree, p: int, s: Seq<u8>)
    ensures
        t.nodes.len() <= t.close(p, s).nodes.len(),
{
    reveal(Tree::close);
}

/// The parts of a collection that does not begin where the scalar does.
pub(crate) proof fn lemma_before_close(k: Cut, id: int, st: St, st1: St)
    requires
        k.ok(),
        good(k.s, st1),
        st.p <= st1.p,
        st.p != k.a,
        inside(st.t, st1.t, st.p),
        placed(k, id, st, st1.with(st1.t.close(st1.p, k.s))),
    ensures
        placed(k, id, st, st1),
        keys_apart(k.a, entries_of(st1.t)),
{
    let t = st1.t.close(st1.p, k.s);
    let n = st1.t.nodes.len() as int;
    assert(t.nodes.len() == n + 1 && t.nodes[n].span.a == st.p && (t.nodes[n].shape is Entries ==> t.nodes[n].shape->Entries_0
        == entries_of(st1.t)) && (entries_of(st1.t).len() > 0 ==> t.nodes[n].shape is Entries)) by {
        reveal(Tree::close);
        reveal(inside);
    }
    assert(kept(st1.t, t, st.p)) by {
        reveal(kept);
        reveal(Tree::close);
    }
    assert(st.t.nodes.len() <= n) by {
        reveal(inside);
    }
    assert(!(id == n && leaf_at(k, t, id)));
    lemma_apart_down(k, st1.t, t, st.p, st.t.nodes.len() as int, st.t.nodes.len() as int);
    if mid(id, st.t, st1.t) {
        lemma_leaf_down(k, st1.t, t, st.p, id);
    }
    assert(keys_apart(k.a, entries_of(st1.t))) by {
        reveal(apart);
        assert(node_apart(k, t.nodes[n]));
    }
}

/// A position on the same side of the scalar comes later in both sources.
pub(crate) proof fn lemma_strict(k: Cut, x: int, y: int)
    requires
        k.ok(),
        x < y,
        k.on(x),
        k.on(y),
    ensures
        k.to(x) < k.to(y),
{
}

/// What was read before leaves what comes next in the same place.
pub(crate) proof fn lemma_follows(k: Cut, id: int, st: St, st1: St, st2: St)
    requires
        k.ok(),
        placed(k, id, st, st1),
        st.p <= st1.p <= k.s.len(),
        if mid(id, st.t, st1.t) {
            beside(k, st1, st2)
        } else {
            st2 == moved_st(k, st1)
        },
    ensures
        follows(k, id, st1, st2),
{
    if id < st.t.nodes.len() && id < st1.t.nodes.len() {
        if k.later(st.p) {
            lemma_later_on(k, st.p, st1.p);
        }
        lemma_near(k, st1.p);
    }
}

} // verus!
