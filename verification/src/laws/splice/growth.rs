//! What reading adds to the span tree.
use vstd::prelude::*;
use super::nest::{
    end_by, framed, n_anchor, n_close, n_dissolve, n_empty, n_key, n_leaf, n_open, n_part, n_promote, n_tag,
    one_nested,
};
use crate::edit::sink::{
    sound_frame, grew, inside, lemma_close, lemma_dissolve, lemma_empty, lemma_inside_grew, lemma_key, lemma_open,
    lemma_promote, lemma_set_anchor, lemma_set_tag, lemma_sound_on, sound, sound_extent, sound_node, trimmed, waits,
    width, Extent, Tree,
};
use crate::parser::grammar::St;
use crate::text::{back, bd, is_blank, is_break, is_text, Class};

verus! {

/// A state in which the parser can go on.
pub open spec fn good(s: Seq<u8>, st: St) -> bool {
    0 <= st.p <= s.len() && is_text(s) && bd(s, st.p) && sound(st.t, s, st.p)
}

/// What was there stays, and what is new begins at or after `from`.
#[verifier::opaque]
pub open spec fn kept(t0: Tree, t1: Tree, from: int) -> bool {
    &&& t0.nodes.len() <= t1.nodes.len()
    &&& forall|i: int| 0 <= i < t0.nodes.len() ==> #[trigger] t1.nodes[i] == t0.nodes[i]
    &&& forall|i: int| t0.nodes.len() <= i < t1.nodes.len() ==> (#[trigger] t1.nodes[i]).span.a >= from
}

/// The node finished last covers all that is new.
#[verifier::opaque]
pub open spec fn covers(t0: Tree, t1: Tree) -> bool {
    &&& t1.last is Some
    &&& 0 <= t1.last->0 < t1.nodes.len()
    &&& forall|i: int|
        t0.nodes.len() <= i < t1.nodes.len() ==> t1.nodes[t1.last->0].span.a <= (#[trigger] t1.nodes[i]).span.a
            && t1.nodes[i].span.b <= t1.nodes[t1.last->0].span.b
}

/// One node was read.
pub open spec fn read_one(s: Seq<u8>, st: St, st1: St) -> bool {
    &&& good(s, st1)
    &&& st.p <= st1.p
    &&& grew(st.t, st1.t, st.p)
    &&& kept(st.t, st1.t, st.p)
    &&& covers(st.t, st1.t)
    &&& one_nested(st.t, st1.t)
}

/// How the innermost open node is made so far: whether it is delimited, and
/// whether it has entries.
#[verifier::opaque]
pub open spec fn frame_is(t: Tree, delimited: bool, entries: bool) -> bool {
    &&& t.stack.len() > 0
    &&& t.stack.last().delimited == delimited
    &&& (t.stack.last().entries.len() > 0) == entries
}

/// The last part of the innermost open node ends where all that is new since `t0`
/// has ended.
#[verifier::opaque]
pub open spec fn tail_ends(t0: Tree, t: Tree) -> bool {
    let f = t.stack.last();
    &&& t.stack.len() > 0
    &&& f.entries.len() > 0 || f.children.len() > 0
    &&& forall|i: int|
        t0.nodes.len() <= i < t.nodes.len() ==> (#[trigger] t.nodes[i]).span.b <= (if f.entries.len() > 0 {
            f.entries.last().span.b
        } else {
            t.nodes[f.children.last()].span.b
        })
}

pub(crate) proof fn lemma_kept_same(t: Tree, from: int)
    ensures
        kept(t, t, from),
{
    reveal(kept);
}

pub(crate) proof fn lemma_kept_trans(t0: Tree, t1: Tree, t2: Tree, from: int, mid: int)
    requires
        kept(t0, t1, from),
        kept(t1, t2, mid),
        from <= mid,
    ensures
        kept(t0, t2, from),
{
    reveal(kept);
    assert forall|i: int| 0 <= i < t0.nodes.len() implies #[trigger] t2.nodes[i] == t0.nodes[i] by {
        assert(t1.nodes[i] == t0.nodes[i]);
    }
    assert forall|i: int| t0.nodes.len() <= i < t2.nodes.len() implies (#[trigger] t2.nodes[i]).span.a >= from by {
        if i < t1.nodes.len() {
            assert(t1.nodes[i].span.a >= from);
        }
    }
}

pub(crate) proof fn lemma_kept_from(t0: Tree, t1: Tree, from: int, earlier: int)
    requires
        kept(t0, t1, from),
        earlier <= from,
    ensures
        kept(t0, t1, earlier),
{
    reveal(kept);
}

/// Every node has ended, and a key that waits too.
pub(crate) proof fn lemma_ended(s: Seq<u8>, t: Tree, p: int)
    requires
        sound(t, s, p),
    ensures
        end_by(t, 0, t.nodes.len() as int, p),
        t.stack.len() > 0 && t.stack.last().pending is Some ==> (t.stack.last().pending->0).0.b <= p,
{
    reveal(sound);
    assert forall|i: int| 0 <= i < t.nodes.len() implies (#[trigger] t.nodes[i]).span.b <= p by {
        assert(sound_node(t.nodes[i], i, s, p));
    }
    if t.stack.len() > 0 {
        assert(sound_frame(t.stack[t.stack.len() - 1], t.nodes.len() as int, s, p));
    }
}

/// A node without any bytes.
pub(crate) proof fn lemma_grow_empty(s: Seq<u8>, st: St, p: int)
    requires
        good(s, st),
        st.p <= p <= s.len(),
        bd(s, p),
    ensures
        read_one(s, st, St { p, t: st.t.empty(st.p), ..st }),
{
    lemma_empty(st.t, s, st.p);
    lemma_sound_on(st.t.empty(st.p), s, st.p, p);
    n_empty(st.t, st.p);
    reveal(Tree::empty);
    reveal(kept);
    reveal(covers);
}

/// A node is opened.
pub(crate) proof fn lemma_grow_open(s: Seq<u8>, st: St, delimited: bool)
    requires
        good(s, st),
    ensures
        ({
            let t = st.t.open(st.p, delimited);
            &&& good(s, st.with(t))
            &&& inside(st.t, t, st.p)
            &&& !waits(t)
            &&& width(t) == 0
            &&& kept(st.t, t, st.p)
            &&& frame_is(t, delimited, false)
            &&& framed(st.t, t)
        }),
{
    lemma_open(st.t, s, st.p, delimited);
    n_open(st.t, st.p, delimited);
    reveal(Tree::open);
    reveal(kept);
    reveal(frame_is);
}

/// A leaf is closed.
pub(crate) proof fn lemma_grow_leaf(s: Seq<u8>, st: St, t: Tree, p: int)
    requires
        good(s, st),
        sound(t, s, st.p),
        inside(st.t, t, st.p),
        kept(st.t, t, st.p),
        framed(st.t, t),
        t.nodes.len() == st.t.nodes.len(),
        st.p <= p <= s.len(),
        bd(s, p),
    ensures
        read_one(s, st, St { p, t: t.close(p, s), ..st }),
{
    lemma_sound_on(t, s, st.p, p);
    lemma_close(st.t, t, s, p, st.p);
    n_leaf(st.t, t, p, s);
    reveal(Tree::close);
    reveal(kept);
    reveal(covers);
    reveal(inside);
}

/// A part of an open node was read.
pub(crate) proof fn lemma_grow_part(s: Seq<u8>, t0: Tree, start: int, st1: St, st2: St, delimited: bool, entries: bool)
    requires
        good(s, st1),
        start <= st1.p,
        inside(t0, st1.t, start),
        kept(t0, st1.t, start),
        frame_is(st1.t, delimited, entries),
        framed(t0, st1.t),
        read_one(s, st1, st2),
    ensures
        inside(t0, st2.t, start),
        kept(t0, st2.t, start),
        !waits(st2.t),
        width(st2.t) == (if waits(st1.t) {
            width(st1.t)
        } else {
            width(st1.t) + 1
        }),
        frame_is(st2.t, delimited, entries || waits(st1.t)),
        waits(st1.t) || !entries ==> tail_ends(t0, st2.t),
        framed(t0, st2.t),
{
    lemma_inside_grew(t0, st1.t, st2.t, start, st1.p);
    lemma_kept_trans(t0, st1.t, st2.t, start, st1.p);
    assert(framed(t0, st2.t)) by {
        lemma_ended(s, st1.t, st1.p);
        assert(t0.nodes.len() <= st1.t.nodes.len()) by {
            reveal(kept);
        }
        assert(st1.t.stack.len() > 0) by {
            reveal(inside);
        }
        n_part(t0, st1.t, st2.t, st1.p);
    }
    reveal(grew);
    reveal(kept);
    reveal(covers);
    reveal(frame_is);
    reveal(waits);
    reveal(tail_ends);
    reveal(inside);
    if waits(st1.t) || !entries {
        let id = st2.t.last->0;
        let f = st2.t.stack.last();
        let e = st2.t.nodes[id].span.b;
        assert(f.entries.len() > 0 ==> f.entries.last().span.b == e);
        assert(!(f.entries.len() > 0) ==> f.children.last() == id);
        assert forall|i: int| t0.nodes.len() <= i < st2.t.nodes.len() implies (#[trigger] st2.t.nodes[i]).span.b <= e by {
            if i < st1.t.nodes.len() {
                reveal(sound);
                assert(sound_node(st1.t.nodes[i], i, s, st1.p));
                assert(sound_node(st2.t.nodes[id], id, s, st2.p));
                assert(st2.t.nodes[i] == st1.t.nodes[i]);
            }
        }
    }
}

/// A key of an open node was read.
pub(crate) proof fn lemma_grow_key(s: Seq<u8>, t0: Tree, start: int, st: St, x: Extent, text: Option<Seq<u8>>, delimited: bool, entries: bool)
    requires
        good(s, st),
        inside(t0, st.t, start),
        kept(t0, st.t, start),
        frame_is(st.t, delimited, entries),
        sound_extent(x, s, st.p),
        framed(t0, st.t),
        !waits(st.t),
        width(st.t) == 0,
        sound(st.t, s, x.a),
        start <= x.a,
    ensures
        ({
            let t = st.t.key(x, text);
            &&& good(s, st.with(t))
            &&& inside(t0, t, start)
            &&& kept(t0, t, start)
            &&& waits(t)
            &&& width(t) == width(st.t)
            &&& frame_is(t, delimited, entries)
            &&& framed(t0, t)
        }),
{
    assert(st.t.stack.last().start <= x.a) by {
        reveal(inside);
    }
    lemma_ended(s, st.t, x.a);
    n_key(t0, st.t, x, text);
    lemma_key(t0, st.t, s, st.p, start, x, text);
    reveal(Tree::key);
    reveal(kept);
    reveal(frame_is);
    reveal(inside);
}

/// The last part of an open node is a key.
pub(crate) proof fn lemma_grow_promote(s: Seq<u8>, t0: Tree, start: int, st: St, text: Option<Seq<u8>>, delimited: bool, entries: bool)
    requires
        good(s, st),
        inside(t0, st.t, start),
        kept(t0, st.t, start),
        frame_is(st.t, delimited, entries),
        width(st.t) == 1,
        framed(t0, st.t),
        !waits(st.t),
    ensures
        ({
            let t = st.t.promote(text);
            &&& good(s, st.with(t))
            &&& inside(t0, t, start)
            &&& kept(t0, t, start)
            &&& waits(t)
            &&& width(t) == width(st.t) - 1
            &&& frame_is(t, delimited, entries)
            &&& framed(t0, t)
        }),
{
    assert(st.t.stack.last().start == start) by {
        reveal(inside);
    }
    n_promote(t0, st.t, text);
    lemma_promote(t0, st.t, s, st.p, start, text);
    reveal(Tree::promote);
    reveal(kept);
    reveal(frame_is);
    reveal(inside);
}

/// A block collection is closed.
pub(crate) proof fn lemma_grow_close(s: Seq<u8>, st: St, st1: St)
    requires
        good(s, st),
        good(s, st1),
        st.p <= st1.p,
        inside(st.t, st1.t, st.p),
        kept(st.t, st1.t, st.p),
        frame_is(st1.t, false, false) || (frame_is(st1.t, false, true) && width(st1.t) == 0),
        framed(st.t, st1.t),
        !waits(st1.t),
        tail_ends(st.t, st1.t) || st1.t.nodes.len() == st.t.nodes.len(),
    ensures
        read_one(s, st, st1.with(st1.t.close(st1.p, s))),
{
    lemma_close(st.t, st1.t, s, st1.p, st.p);
    reveal(Tree::close);
    reveal(kept);
    reveal(covers);
    reveal(frame_is);
    reveal(tail_ends);
    reveal(inside);
    let t2 = st1.t.close(st1.p, s);
    let id = t2.last->0;
    let f = st1.t.stack.last();
    assert(id == st1.t.nodes.len());
    assert(t2.nodes[id].span.a == st.p);
    assert forall|i: int| 0 <= i < st1.t.nodes.len() implies #[trigger] t2.nodes[i] == st1.t.nodes[i] by {}
    assert forall|i: int| st.t.nodes.len() <= i < t2.nodes.len() implies t2.nodes[id].span.a <= (
    #[trigger] t2.nodes[i]).span.a && t2.nodes[i].span.b <= t2.nodes[id].span.b by {
        if i < st1.t.nodes.len() {
            assert(t2.nodes[i] == st1.t.nodes[i]);
        }
    }
    n_close(st.t, st1.t, st1.p, s);
}

/// A flow collection is closed after its bracket.
pub(crate) proof fn lemma_grow_close_flow(s: Seq<u8>, st: St, st1: St, entries: bool)
    requires
        good(s, st),
        good(s, st1),
        st.p < st1.p,
        !is_blank(s[st1.p - 1]) && !is_break(s[st1.p - 1]),
        inside(st.t, st1.t, st.p),
        kept(st.t, st1.t, st.p),
        frame_is(st1.t, true, entries),
        entries ==> width(st1.t) == 0,
        framed(st.t, st1.t),
        !waits(st1.t),
    ensures
        read_one(s, st, st1.with(st1.t.close(st1.p, s))),
        ({
            let t = st1.t.close(st1.p, s);
            &&& t.nodes[t.last->0].delimited
            &&& t.nodes[t.last->0].span.a == st.p
            &&& t.nodes[t.last->0].span.b == st1.p
        }),
{
    lemma_close(st.t, st1.t, s, st1.p, st.p);
    reveal(Tree::close);
    reveal(kept);
    reveal(covers);
    reveal(frame_is);
    reveal(inside);
    let t2 = st1.t.close(st1.p, s);
    let id = t2.last->0;
    assert(id == st1.t.nodes.len());
    assert(trimmed(s, st.p, st1.p) == st1.p) by {
        assert(back(s, st.p, st1.p, Class::Breaks) == st1.p);
        assert(back(s, st.p, st1.p, Class::Blank) == st1.p);
    }
    assert(t2.nodes[id].span.b == st1.p);
    assert forall|i: int| st.t.nodes.len() <= i < t2.nodes.len() implies t2.nodes[id].span.a <= (
    #[trigger] t2.nodes[i]).span.a && t2.nodes[i].span.b <= t2.nodes[id].span.b by {
        if i < st1.t.nodes.len() {
            assert(t2.nodes[i] == st1.t.nodes[i]);
            reveal(sound);
            assert(sound_node(st1.t.nodes[i], i, s, st1.p));
        }
    }
    n_close(st.t, st1.t, st1.p, s);
}

/// An open node turned out to be its only part.
pub(crate) proof fn lemma_grow_dissolve(s: Seq<u8>, st: St, t1: Tree, st2: St)
    requires
        good(s, st),
        good(s, st2),
        st.p <= st2.p,
        inside(st.t, t1, st.p),
        !waits(t1),
        kept(st.t, t1, st.p),
        t1.nodes.len() == st.t.nodes.len(),
        grew(t1, st2.t, st.p),
        kept(t1, st2.t, st.p),
        covers(t1, st2.t),
        one_nested(t1, st2.t),
    ensures
        read_one(s, st, st2.with(st2.t.dissolve())),
{
    lemma_dissolve(st.t, t1, st2.t, s, st2.p, st.p);
    lemma_kept_trans(st.t, t1, st2.t, st.p, st.p);
    assert(t1.stack.len() > 0) by {
        reveal(inside);
    }
    n_dissolve(st.t, t1, st2.t, st.p);
    reveal(Tree::dissolve);
    reveal(grew);
    reveal(kept);
    reveal(covers);
    reveal(inside);
    reveal(waits);
}

/// An anchor on the node read last.
pub(crate) proof fn lemma_grow_anchor(s: Seq<u8>, st: St, st1: St, name: Seq<u8>, token: Extent, a: Seq<(Seq<u8>, crate::value::Val)>)
    requires
        read_one(s, st, st1),
    ensures
        read_one(s, st, St { a, t: st1.t.set_anchor(name, token), ..st1 }),
{
    lemma_set_anchor(st.t, st1.t, s, st1.p, st.p, name, token);
    n_anchor(st.t, st1.t, name, token);
    reveal(Tree::set_anchor);
    reveal(grew);
    reveal(kept);
    reveal(covers);
    let u = st1.t.set_anchor(name, token);
    assert forall|i: int| 0 <= i < st.t.nodes.len() implies #[trigger] u.nodes[i] == st.t.nodes[i] by {
        assert(st1.t.nodes[i] == st.t.nodes[i]);
    }
    assert forall|i: int| 0 <= i < u.nodes.len() implies (#[trigger] u.nodes[i]).span == st1.t.nodes[i].span by {}
}

/// A tag on the node read last.
pub(crate) proof fn lemma_grow_tag(s: Seq<u8>, st: St, st1: St, tag: Seq<u8>)
    requires
        read_one(s, st, st1),
    ensures
        read_one(s, st, st1.with(st1.t.set_tag(tag))),
{
    lemma_set_tag(st.t, st1.t, s, st1.p, st.p, tag);
    n_tag(st.t, st1.t, tag);
    reveal(Tree::set_tag);
    reveal(grew);
    reveal(kept);
    reveal(covers);
    let u = st1.t.set_tag(tag);
    assert forall|i: int| 0 <= i < st.t.nodes.len() implies #[trigger] u.nodes[i] == st.t.nodes[i] by {
        assert(st1.t.nodes[i] == st.t.nodes[i]);
    }
    assert forall|i: int| 0 <= i < u.nodes.len() implies (#[trigger] u.nodes[i]).span == st1.t.nodes[i].span by {}
}

/// A node read from a later position on.
pub(crate) proof fn lemma_read_from(s: Seq<u8>, st: St, p: int, st1: St)
    requires
        good(s, st),
        st.p <= p,
        read_one(s, st.to(p), st1),
    ensures
        read_one(s, st, st1),
{
    crate::edit::sink::lemma_grew_from(st.t, st1.t, p, st.p);
    lemma_kept_from(st.t, st1.t, p, st.p);
}

} // verus!
