//! How the nodes of a tree lie in one another.
use vstd::prelude::*;
use super::growth::{covers, kept};
use crate::edit::sink::{grew, sound, sound_node, waits, width, EntryView, Extent, ShapeView, Tree};

verus! {

/// Whether node `i` lies in the extent `x`.
pub open spec fn lies_in(t: Tree, i: int, x: Extent) -> bool {
    x.a <= t.nodes[i].span.a && t.nodes[i].span.b <= x.b
}

/// Whether the nodes from `lo` up to `hi` lie in `x`.
pub open spec fn lie_in(t: Tree, lo: int, hi: int, x: Extent) -> bool {
    forall|i: int| lo <= i < hi ==> #[trigger] lies_in(t, i, x)
}

/// Whether the nodes from `lo` up to `hi` have ended at `p`.
pub open spec fn end_by(t: Tree, lo: int, hi: int, p: int) -> bool {
    forall|i: int| lo <= i < hi ==> (#[trigger] t.nodes[i]).span.b <= p
}

/// The number after the last item.
pub open spec fn items_end(lo: int, c: Seq<int>) -> int {
    if c.len() == 0 {
        lo
    } else {
        c.last() + 1
    }
}

/// The number after the last value.
pub open spec fn entries_end(lo: int, es: Seq<EntryView>) -> int {
    if es.len() == 0 {
        lo
    } else {
        es.last().value + 1
    }
}

/// Whether every key lies in `x`.
pub open spec fn keys_in(es: Seq<EntryView>, x: Extent) -> bool {
    forall|j: int| 0 <= j < es.len() ==> x.a <= (#[trigger] es[j]).key.a && es[j].key.b <= x.b
}

/// Whether the keys of node `i` lie in it.
pub open spec fn own_keys(t: Tree, i: int) -> bool {
    t.nodes[i].shape is Entries ==> keys_in(t.nodes[i].shape->Entries_0, t.nodes[i].span)
}

/// Whether the keys of every node from `a` up to `b` lie in it.
pub open spec fn all_own(t: Tree, a: int, b: int) -> bool {
    forall|i: int| a <= i < b ==> #[trigger] own_keys(t, i)
}

/// Whether node `d` is made of the nodes from `lo[d]` up to itself: its parts and
/// what they are made of, each after the one before, and what its keys are made of.
pub open spec fn nested(t: Tree, lo: Seq<int>, d: int) -> bool
    decreases d, 1int, 0nat,
{
    &&& 0 <= lo[d] <= d < t.nodes.len()
    &&& lie_in(t, lo[d], d + 1, t.nodes[d].span)
    &&& match t.nodes[d].shape {
        ShapeView::Leaf => lo[d] == d,
        ShapeView::Items(c) => items_nested(t, lo, lo[d], lo[d], c, d) && items_end(lo[d], c) == d,
        ShapeView::Entries(es) => entries_nested(t, lo, lo[d], es, d) && entries_end(lo[d], es) == d,
    }
}

/// Whether the items `c` are made of the nodes from `first` on, one after another,
/// and begin where those from `base` on have ended.
pub open spec fn items_nested(t: Tree, lo: Seq<int>, base: int, first: int, c: Seq<int>, bound: int) -> bool
    decreases bound, 0int, c.len(),
{
    c.len() == 0 || {
        let prev = items_end(first, c.drop_last());
        &&& items_nested(t, lo, base, first, c.drop_last(), bound)
        &&& 0 <= base <= prev <= c.last() < bound
        &&& lo[c.last()] == prev
        &&& nested(t, lo, c.last())
        &&& end_by(t, base, prev, t.nodes[c.last()].span.a)
    }
}

/// Whether the entries `es` are made of the nodes from `base` on, one after another,
/// each first of what its key is made of.
pub open spec fn entries_nested(t: Tree, lo: Seq<int>, base: int, es: Seq<EntryView>, bound: int) -> bool
    decreases bound, 0int, es.len(),
{
    es.len() == 0 || {
        let prev = entries_end(base, es.drop_last());
        let e = es.last();
        &&& entries_nested(t, lo, base, es.drop_last(), bound)
        &&& 0 <= base <= prev <= lo[e.value] <= e.value < bound
        &&& lie_in(t, prev, lo[e.value], e.key)
        &&& nested(t, lo, e.value)
        &&& end_by(t, base, prev, e.key.a)
        &&& e.key.b <= t.nodes[e.value].span.a
    }
}

/// Whether two trees have the same nodes from `base` up to `n`, but for their
/// anchors, and the same numbers for them.
pub open spec fn same_nodes(t: Tree, lo: Seq<int>, t1: Tree, lo1: Seq<int>, base: int, n: int) -> bool {
    &&& 0 <= base
    &&& n <= t.nodes.len() && n <= t1.nodes.len()
    &&& forall|i: int| base <= i < n ==> (#[trigger] t1.nodes[i]).span == t.nodes[i].span && t1.nodes[i].shape
        == t.nodes[i].shape
    &&& forall|i: int| base <= i < n ==> #[trigger] lo1[i] == lo[i]
}

proof fn n_lie(t: Tree, t1: Tree, lo: Seq<int>, lo1: Seq<int>, base: int, n: int, a: int, b: int, x: Extent)
    requires
        same_nodes(t, lo, t1, lo1, base, n),
        base <= a,
        b <= n,
        lie_in(t, a, b, x),
    ensures
        lie_in(t1, a, b, x),
{
    assert forall|i: int| a <= i < b implies #[trigger] lies_in(t1, i, x) by {
        assert(lies_in(t, i, x));
        assert(t1.nodes[i].span == t.nodes[i].span);
    }
}

proof fn n_own(t: Tree, t1: Tree, lo: Seq<int>, lo1: Seq<int>, base: int, n: int, a: int)
    requires
        same_nodes(t, lo, t1, lo1, base, n),
        base <= a,
        all_own(t, a, n),
    ensures
        all_own(t1, a, n),
{
    assert forall|i: int| a <= i < n implies #[trigger] own_keys(t1, i) by {
        assert(own_keys(t, i));
        assert(t1.nodes[i].span == t.nodes[i].span);
    }
}

proof fn n_end(t: Tree, t1: Tree, lo: Seq<int>, lo1: Seq<int>, base: int, n: int, b: int, p: int)
    requires
        same_nodes(t, lo, t1, lo1, base, n),
        b <= n,
        end_by(t, base, b, p),
    ensures
        end_by(t1, base, b, p),
{
    assert forall|i: int| base <= i < b implies (#[trigger] t1.nodes[i]).span.b <= p by {
        assert(t.nodes[i].span.b <= p);
    }
}

pub(crate) proof fn n_nested(t: Tree, lo: Seq<int>, t1: Tree, lo1: Seq<int>, base: int, n: int, d: int)
    requires
        same_nodes(t, lo, t1, lo1, base, n),
        base <= lo[d] <= d < n,
        nested(t, lo, d),
    ensures
        nested(t1, lo1, d),
    decreases d, 1int, 0nat,
{
    assert(t1.nodes[d].span == t.nodes[d].span && t1.nodes[d].shape == t.nodes[d].shape);
    n_lie(t, t1, lo, lo1, base, n, lo[d], d + 1, t.nodes[d].span);
    match t.nodes[d].shape {
        ShapeView::Leaf => {},
        ShapeView::Items(c) => {
            n_items(t, lo, t1, lo1, base, n, lo[d], lo[d], c, d);
        },
        ShapeView::Entries(es) => {
            n_entries(t, lo, t1, lo1, base, n, lo[d], es, d);
        },
    }
}

pub(crate) proof fn n_items(
    t: Tree,
    lo: Seq<int>,
    t1: Tree,
    lo1: Seq<int>,
    base: int,
    n: int,
    from: int,
    first: int,
    c: Seq<int>,
    bound: int,
)
    requires
        same_nodes(t, lo, t1, lo1, base, n),
        base <= from,
        bound <= n,
        items_nested(t, lo, from, first, c, bound),
    ensures
        items_nested(t1, lo1, from, first, c, bound),
    decreases bound, 0int, c.len(),
{
    if c.len() > 0 {
        let prev = items_end(first, c.drop_last());
        n_items(t, lo, t1, lo1, base, n, from, first, c.drop_last(), bound);
        n_nested(t, lo, t1, lo1, base, n, c.last());
        n_end(t, t1, lo, lo1, from, n, prev, t.nodes[c.last()].span.a);
        assert(t1.nodes[c.last()].span == t.nodes[c.last()].span);
    }
}

pub(crate) proof fn n_entries(
    t: Tree,
    lo: Seq<int>,
    t1: Tree,
    lo1: Seq<int>,
    base: int,
    n: int,
    from: int,
    es: Seq<EntryView>,
    bound: int,
)
    requires
        same_nodes(t, lo, t1, lo1, base, n),
        base <= from,
        bound <= n,
        entries_nested(t, lo, from, es, bound),
    ensures
        entries_nested(t1, lo1, from, es, bound),
    decreases bound, 0int, es.len(),
{
    if es.len() > 0 {
        let prev = entries_end(from, es.drop_last());
        let e = es.last();
        n_entries(t, lo, t1, lo1, base, n, from, es.drop_last(), bound);
        n_nested(t, lo, t1, lo1, base, n, e.value);
        n_lie(t, t1, lo, lo1, base, n, prev, lo[e.value], e.key);
        n_end(t, t1, lo, lo1, from, n, prev, e.key.a);
        assert(t1.nodes[e.value].span == t.nodes[e.value].span);
    }
}

/// Whether the bound on the items may be raised.
pub(crate) proof fn n_items_bound(t: Tree, lo: Seq<int>, from: int, first: int, c: Seq<int>, bound: int, more: int)
    requires
        items_nested(t, lo, from, first, c, bound),
        bound <= more,
    ensures
        items_nested(t, lo, from, first, c, more),
    decreases c.len(),
{
    if c.len() > 0 {
        n_items_bound(t, lo, from, first, c.drop_last(), bound, more);
    }
}

pub(crate) proof fn n_entries_bound(t: Tree, lo: Seq<int>, from: int, es: Seq<EntryView>, bound: int, more: int)
    requires
        entries_nested(t, lo, from, es, bound),
        bound <= more,
    ensures
        entries_nested(t, lo, from, es, more),
    decreases es.len(),
{
    if es.len() > 0 {
        n_entries_bound(t, lo, from, es.drop_last(), bound, more);
    }
}

/// Whether what is new since `t0` is one node and what it is made of.
pub open spec fn one_by(t0: Tree, t1: Tree, lo: Seq<int>) -> bool {
    let d = t1.last->0;
    &&& lo.len() == t1.nodes.len()
    &&& t1.last is Some
    &&& d + 1 == t1.nodes.len()
    &&& 0 <= d
    &&& lo[d] == t0.nodes.len()
    &&& nested(t1, lo, d)
    &&& all_own(t1, t0.nodes.len() as int, d + 1)
}

#[verifier::opaque]
pub open spec fn one_nested(t0: Tree, t1: Tree) -> bool {
    exists|lo: Seq<int>| #[trigger] one_by(t0, t1, lo)
}

/// Whether what is new since `t0` is what the innermost open node is made of so far.
pub open spec fn framed_by(t0: Tree, t: Tree, lo: Seq<int>) -> bool {
    let f = t.stack.last();
    let n0 = t0.nodes.len() as int;
    let n = t.nodes.len() as int;
    let e = entries_end(n0, f.entries);
    &&& lo.len() == n
    &&& t.stack.len() > 0
    &&& entries_nested(t, lo, n0, f.entries, n)
    &&& n0 <= e <= n
    &&& all_own(t, n0, n)
    &&& forall|j: int| 0 <= j < f.entries.len() ==> f.start <= (#[trigger] f.entries[j]).key.a
    &&& match f.pending {
        None => items_nested(t, lo, n0, e, f.children, n) && items_end(e, f.children) == n,
        Some((x, _)) => {
            &&& f.children.len() == 0
            &&& lie_in(t, e, n, x)
            &&& end_by(t, n0, e, x.a)
            &&& f.start <= x.a
        },
    }
}

#[verifier::opaque]
pub open spec fn framed(t0: Tree, t: Tree) -> bool {
    exists|lo: Seq<int>| #[trigger] framed_by(t0, t, lo)
}

/// Every node counted as made of itself.
spec fn alone(n: int) -> Seq<int> {
    Seq::new(n as nat, |i: int| i)
}

pub(crate) proof fn n_empty(t: Tree, p: int)
    ensures
        one_nested(t, t.empty(p)),
{
    reveal(Tree::empty);
    reveal(one_nested);
    let lo = alone(t.nodes.len() as int + 1);
    assert(nested(t.empty(p), lo, t.nodes.len() as int));
    assert(one_by(t, t.empty(p), lo));
}

pub(crate) proof fn n_open(t: Tree, p: int, delimited: bool)
    ensures
        framed(t, t.open(p, delimited)),
{
    reveal(Tree::open);
    reveal(framed);
    assert(framed_by(t, t.open(p, delimited), alone(t.nodes.len() as int)));
}

pub(crate) proof fn n_kind_open(t0: Tree, t: Tree, kind: crate::edit::KindView)
    requires
        framed(t0, t),
    ensures
        framed(t0, t.kind_open(kind)),
{
    reveal(Tree::kind_open);
    reveal(framed);
    let lo = choose|lo: Seq<int>| #[trigger] framed_by(t0, t, lo);
    let u = t.kind_open(kind);
    let n = t.nodes.len() as int;
    let f = t.stack.last();
    let e = entries_end(t0.nodes.len() as int, f.entries);
    n_entries(t, lo, u, lo, 0, n, t0.nodes.len() as int, f.entries, n);
    if f.pending is None {
        n_items(t, lo, u, lo, 0, n, t0.nodes.len() as int, e, f.children, n);
    } else {
        let x = (f.pending->0).0;
        n_lie(t, u, lo, lo, 0, n, e, n, x);
        n_end(t, u, lo, lo, t0.nodes.len() as int, n, e, x.a);
    }
    n_own(t, u, lo, lo, 0, n, t0.nodes.len() as int);
    assert(framed_by(t0, u, lo));
}

pub(crate) proof fn n_leaf(t0: Tree, t: Tree, p: int, s: Seq<u8>)
    requires
        framed(t0, t),
        t.nodes.len() == t0.nodes.len(),
    ensures
        one_nested(t0, t.close(p, s)),
{
    reveal(framed);
    reveal(one_nested);
    reveal(Tree::close);
    let lo = choose|lo: Seq<int>| #[trigger] framed_by(t0, t, lo);
    let f = t.stack.last();
    assert(f.entries.len() == 0);
    assert(f.children.len() == 0);
    let u = t.close(p, s);
    let all = alone(t.nodes.len() as int + 1);
    assert(nested(u, all, t.nodes.len() as int));
    assert(one_by(t0, u, all));
}

/// A part of an open node was read.
pub(crate) proof fn n_part(t0: Tree, t1: Tree, t2: Tree, from: int)
    requires
        framed(t0, t1),
        t0.nodes.len() <= t1.nodes.len(),
        grew(t1, t2, from),
        kept(t1, t2, from),
        one_nested(t1, t2),
        end_by(t1, 0, t1.nodes.len() as int, from),
        t1.stack.last().pending is Some ==> (t1.stack.last().pending->0).0.b <= from,
    ensures
        framed(t0, t2),
{
    reveal(framed);
    reveal(one_nested);
    reveal(grew);
    reveal(kept);
    let lo1 = choose|lo: Seq<int>| #[trigger] framed_by(t0, t1, lo);
    let lo2 = choose|lo: Seq<int>| #[trigger] one_by(t1, t2, lo);
    let n0 = t0.nodes.len() as int;
    let n1 = t1.nodes.len() as int;
    let n2 = t2.nodes.len() as int;
    let d = t2.last->0;
    let lo = Seq::new(
        n2 as nat,
        |i: int|
            if i < n1 {
                lo1[i]
            } else {
                lo2[i]
            },
    );
    let f = t1.stack.last();
    let g = t2.stack.last();
    let e = entries_end(n0, f.entries);
    assert(same_nodes(t1, lo1, t2, lo, 0, n1));
    assert(same_nodes(t2, lo2, t2, lo, n1, n2));
    n_entries(t1, lo1, t2, lo, 0, n1, n0, f.entries, n1);
    n_entries_bound(t2, lo, n0, f.entries, n1, n2);
    n_nested(t2, lo2, t2, lo, n1, n2, d);
    assert(end_by(t2, n0, n1, t2.nodes[d].span.a)) by {
        assert forall|i: int| n0 <= i < n1 implies (#[trigger] t2.nodes[i]).span.b <= t2.nodes[d].span.a by {
            assert(t2.nodes[i] == t1.nodes[i]);
            assert(t1.nodes[i].span.b <= from);
        }
    }
    n_own(t1, t2, lo1, lo, 0, n1, n0);
    assert(all_own(t2, n0, n2)) by {
        assert forall|i: int| n0 <= i < n2 implies #[trigger] own_keys(t2, i) by {}
    }
    match f.pending {
        None => {
            n_items(t1, lo1, t2, lo, 0, n1, n0, e, f.children, n1);
            n_items_bound(t2, lo, n0, e, f.children, n1, n2);
            assert(g.children.drop_last() =~= f.children);
            assert(items_nested(t2, lo, n0, e, g.children, n2));
        },
        Some((x, _)) => {
            n_lie(t1, t2, lo1, lo, 0, n1, e, n1, x);
            n_end(t1, t2, lo1, lo, n0, n1, e, x.a);
            assert(g.entries.drop_last() =~= f.entries);
            assert(entries_nested(t2, lo, n0, g.entries, n2));
            assert forall|j: int| 0 <= j < g.entries.len() implies g.start <= (#[trigger] g.entries[j]).key.a by {
                if j < f.entries.len() {
                    assert(g.entries[j] == f.entries[j]);
                }
            }
        },
    }
    assert(framed_by(t0, t2, lo));
}

/// A key of an open node was read.
pub(crate) proof fn n_key(t0: Tree, t: Tree, x: Extent, text: Option<Seq<u8>>)
    requires
        framed(t0, t),
        !waits(t),
        width(t) == 0,
        end_by(t, 0, t.nodes.len() as int, x.a),
        t.stack.last().start <= x.a,
    ensures
        framed(t0, t.key(x, text)),
{
    reveal(framed);
    reveal(waits);
    reveal(width);
    reveal(Tree::key);
    let lo = choose|lo: Seq<int>| #[trigger] framed_by(t0, t, lo);
    let u = t.key(x, text);
    let n = t.nodes.len() as int;
    let n0 = t0.nodes.len() as int;
    n_entries(t, lo, u, lo, 0, n, n0, t.stack.last().entries, n);
    assert(end_by(u, n0, entries_end(n0, t.stack.last().entries), x.a)) by {
        assert forall|i: int| n0 <= i < n implies (#[trigger] u.nodes[i]).span.b <= x.a by {
            assert(t.nodes[i].span.b <= x.a);
        }
    }
    n_own(t, u, lo, lo, 0, n, n0);
    assert(framed_by(t0, u, lo));
}

/// The only part of an open node since its last entry is a key.
pub(crate) proof fn n_promote(t0: Tree, t: Tree, text: Option<Seq<u8>>)
    requires
        framed(t0, t),
        !waits(t),
        width(t) == 1,
        kept(t0, t, t.stack.last().start),
    ensures
        framed(t0, t.promote(text)),
{
    reveal(framed);
    reveal(waits);
    reveal(width);
    reveal(kept);
    reveal(Tree::promote);
    let lo = choose|lo: Seq<int>| #[trigger] framed_by(t0, t, lo);
    let u = t.promote(text);
    let n = t.nodes.len() as int;
    let n0 = t0.nodes.len() as int;
    let f = t.stack.last();
    let e = entries_end(n0, f.entries);
    let c = f.children.last();
    n_entries(t, lo, u, lo, 0, n, n0, f.entries, n);
    assert(f.children.drop_last().len() == 0);
    assert(lo[c] == e && nested(t, lo, c));
    let x = t.nodes[c].span;
    n_lie(t, u, lo, lo, 0, n, e, n, x);
    n_end(t, u, lo, lo, n0, n, e, x.a);
    assert(t.nodes[c].span.a >= f.start);
    n_own(t, u, lo, lo, 0, n, n0);
    assert(framed_by(t0, u, lo));
}

/// The values of entries, and where their keys end.
proof fn n_entry(t: Tree, lo: Seq<int>, base: int, es: Seq<EntryView>, bound: int, j: int)
    requires
        entries_nested(t, lo, base, es, bound),
        0 <= j < es.len(),
    ensures
        base <= es[j].value < bound,
        es[j].key.b <= t.nodes[es[j].value].span.a,
    decreases es.len(),
{
    if j < es.len() - 1 {
        assert(es.drop_last()[j] == es[j]);
        n_entry(t, lo, base, es.drop_last(), bound, j);
    }
}

/// An open node is closed.
pub(crate) proof fn n_close(t0: Tree, t: Tree, p: int, s: Seq<u8>)
    requires
        framed(t0, t),
        !waits(t),
        t.stack.last().entries.len() > 0 ==> width(t) == 0,
        covers(t0, t.close(p, s)),
        sound(t, s, p),
    ensures
        one_nested(t0, t.close(p, s)),
{
    reveal(framed);
    reveal(one_nested);
    reveal(waits);
    reveal(width);
    reveal(covers);
    reveal(Tree::close);
    let lo0 = choose|lo: Seq<int>| #[trigger] framed_by(t0, t, lo);
    let u = t.close(p, s);
    let n = t.nodes.len() as int;
    let n0 = t0.nodes.len() as int;
    let f = t.stack.last();
    let e = entries_end(n0, f.entries);
    let lo = lo0.push(n0);
    assert(u.nodes.len() == n + 1 && u.last == Some(n));
    assert forall|i: int| 0 <= i < n implies #[trigger] u.nodes[i] == t.nodes[i] by {}
    assert(same_nodes(t, lo0, u, lo, 0, n));
    n_entries(t, lo0, u, lo, 0, n, n0, f.entries, n);
    n_items(t, lo0, u, lo, 0, n, n0, e, f.children, n);
    n_own(t, u, lo0, lo, 0, n, n0);
    let x = u.nodes[n].span;
    assert(lie_in(u, n0, n + 1, x)) by {
        assert forall|i: int| n0 <= i < n + 1 implies #[trigger] lies_in(u, i, x) by {
            assert(u.nodes[i].span.b <= u.nodes[n].span.b);
        }
    }
    if f.entries.len() > 0 {
        assert(keys_in(f.entries, x)) by {
            assert forall|j: int| 0 <= j < f.entries.len() implies x.a <= (#[trigger] f.entries[j]).key.a
                && f.entries[j].key.b <= x.b by {
                n_entry(t, lo0, n0, f.entries, n, j);
                let v = f.entries[j].value;
                assert(lies_in(u, v, x));
                reveal(sound);
                assert(sound_node(t.nodes[v], v, s, p));
            }
        }
    }
    assert(all_own(u, n0, n + 1)) by {
        assert forall|i: int| n0 <= i < n + 1 implies #[trigger] own_keys(u, i) by {}
    }
    assert(nested(u, lo, n));
    assert(one_by(t0, u, lo));
}

/// An open node turned out to be its only part.
pub(crate) proof fn n_dissolve(t0: Tree, t1: Tree, t2: Tree, from: int)
    requires
        t1.nodes.len() == t0.nodes.len(),
        t1.stack.len() > 0,
        !waits(t1),
        grew(t1, t2, from),
        one_nested(t1, t2),
    ensures
        one_nested(t0, t2.dissolve()),
{
    reveal(one_nested);
    reveal(waits);
    reveal(grew);
    reveal(Tree::dissolve);
    let lo = choose|lo: Seq<int>| #[trigger] one_by(t1, t2, lo);
    let u = t2.dissolve();
    let n = t2.nodes.len() as int;
    assert(u.nodes == t2.nodes && u.last == t2.last);
    n_nested(t2, lo, u, lo, 0, n, t2.last->0);
    n_own(t2, u, lo, lo, 0, n, t0.nodes.len() as int);
    assert(one_by(t0, u, lo));
}

/// An anchor on the node read last.
pub(crate) proof fn n_anchor(t0: Tree, t1: Tree, name: Seq<u8>, token: Extent)
    requires
        one_nested(t0, t1),
    ensures
        one_nested(t0, t1.set_anchor(name, token)),
{
    reveal(one_nested);
    reveal(Tree::set_anchor);
    let lo = choose|lo: Seq<int>| #[trigger] one_by(t0, t1, lo);
    let u = t1.set_anchor(name, token);
    n_nested(t1, lo, u, lo, 0, t1.nodes.len() as int, t1.last->0);
    n_own(t1, u, lo, lo, 0, t1.nodes.len() as int, t0.nodes.len() as int);
    assert(one_by(t0, u, lo));
}

/// A tag on the node read last.
pub(crate) proof fn n_tag(t0: Tree, t1: Tree, tag: Seq<u8>)
    requires
        one_nested(t0, t1),
    ensures
        one_nested(t0, t1.set_tag(tag)),
{
    reveal(one_nested);
    reveal(Tree::set_tag);
    let lo = choose|lo: Seq<int>| #[trigger] one_by(t0, t1, lo);
    let u = t1.set_tag(tag);
    n_nested(t1, lo, u, lo, 0, t1.nodes.len() as int, t1.last->0);
    n_own(t1, u, lo, lo, 0, t1.nodes.len() as int, t0.nodes.len() as int);
    assert(one_by(t0, u, lo));
}

/// Whether all nodes are what the roots are made of, one after another.
pub open spec fn forest_by(t: Tree, lo: Seq<int>) -> bool {
    let n = t.nodes.len() as int;
    &&& lo.len() == n
    &&& items_nested(t, lo, 0, 0, t.roots, n)
    &&& items_end(0, t.roots) == n
    &&& all_own(t, 0, n)
}

#[verifier::opaque]
pub open spec fn forest(t: Tree) -> bool {
    exists|lo: Seq<int>| #[trigger] forest_by(t, lo)
}

pub(crate) proof fn n_blank()
    ensures
        forest(Tree::blank()),
{
    reveal(forest);
    assert(forest_by(Tree::blank(), Seq::empty()));
}

/// A root was read.
pub(crate) proof fn n_root(t1: Tree, t2: Tree, from: int)
    requires
        forest(t1),
        t1.stack.len() == 0,
        grew(t1, t2, from),
        kept(t1, t2, from),
        one_nested(t1, t2),
        end_by(t1, 0, t1.nodes.len() as int, from),
    ensures
        forest(t2),
{
    reveal(forest);
    reveal(one_nested);
    reveal(grew);
    reveal(kept);
    let lo1 = choose|lo: Seq<int>| #[trigger] forest_by(t1, lo);
    let lo2 = choose|lo: Seq<int>| #[trigger] one_by(t1, t2, lo);
    let n1 = t1.nodes.len() as int;
    let n2 = t2.nodes.len() as int;
    let d = t2.last->0;
    let lo = Seq::new(
        n2 as nat,
        |i: int|
            if i < n1 {
                lo1[i]
            } else {
                lo2[i]
            },
    );
    assert(same_nodes(t1, lo1, t2, lo, 0, n1));
    assert(same_nodes(t2, lo2, t2, lo, n1, n2));
    n_nested(t2, lo2, t2, lo, n1, n2, d);
    n_items(t1, lo1, t2, lo, 0, n1, 0, 0, t1.roots, n1);
    n_items_bound(t2, lo, 0, 0, t1.roots, n1, n2);
    n_own(t1, t2, lo1, lo, 0, n1, 0);
    assert(end_by(t2, 0, n1, t2.nodes[d].span.a)) by {
        assert forall|i: int| 0 <= i < n1 implies (#[trigger] t2.nodes[i]).span.b <= t2.nodes[d].span.a by {
            assert(t2.nodes[i] == t1.nodes[i]);
            assert(t1.nodes[i].span.b <= from);
        }
    }
    assert(t2.roots.drop_last() =~= t1.roots);
    assert(all_own(t2, 0, n2)) by {
        assert forall|i: int| 0 <= i < n2 implies #[trigger] own_keys(t2, i) by {}
    }
    assert(forest_by(t2, lo));
}

} // verus!
