//! What holds the scalar that a path leads to.
use vstd::prelude::*;
use super::super::edits::lemma_entry_in;
use super::nest::{
    all_own, entries_end, entries_nested, forest, forest_by, items_end, items_nested, lie_in, lies_in, nested,
    own_keys,
};
use super::docs::under_root;
use super::place::{keys_apart, node_free};
use crate::edit::locate::{descend, entry_from, resolved_path};
use crate::edit::sink::{sound, sound_entries, sound_entry, sound_node, EntryView, Extent, NodeView, ShapeView, Tree};
use crate::edit::SegmentView;

verus! {

/// Whether nothing ends before it begins.
pub open spec fn tidy(t: Tree) -> bool {
    forall|i: int| 0 <= i < t.nodes.len() ==> #[trigger] tidy_node(t.nodes[i])
}

pub open spec fn tidy_node(x: NodeView) -> bool {
    &&& x.span.a <= x.span.b
    &&& x.shape is Entries ==> tidy_keys(x.shape->Entries_0)
}

pub open spec fn tidy_keys(es: Seq<EntryView>) -> bool {
    forall|j: int| 0 <= j < es.len() ==> (#[trigger] es[j]).key.a <= es[j].key.b
}

pub(crate) proof fn lemma_tidy(t: Tree, s: Seq<u8>, p: int)
    requires
        sound(t, s, p),
    ensures
        tidy(t),
{
    reveal(sound);
    assert forall|i: int| 0 <= i < t.nodes.len() implies #[trigger] tidy_node(t.nodes[i]) by {
        assert(sound_node(t.nodes[i], i, s, p));
        if let ShapeView::Entries(es) = t.nodes[i].shape {
            assert(sound_entries(es, i, s, p));
            assert forall|j: int| 0 <= j < es.len() implies (#[trigger] es[j]).key.a <= es[j].key.b by {
                assert(sound_entry(es[j], i, s, p));
            }
        }
    }
}

proof fn lemma_made(t: Tree, lo: Seq<int>, d: int)
    requires
        nested(t, lo, d),
    ensures
        lie_in(t, lo[d], d + 1, t.nodes[d].span),
{
}

/// What comes before an item has ended where it begins, and what comes after it
/// begins where it has ended.
proof fn lemma_items_apart(t: Tree, lo: Seq<int>, base: int, first: int, c: Seq<int>, bound: int, n: int)
    requires
        items_nested(t, lo, base, first, c, bound),
        0 <= n < c.len(),
        bound <= t.nodes.len(),
    ensures
        nested(t, lo, c[n]),
        0 <= base <= lo[c[n]] <= c[n] < items_end(first, c) <= bound,
        forall|i: int| base <= i < lo[c[n]] ==> (#[trigger] t.nodes[i]).span.b <= t.nodes[c[n]].span.a,
        forall|i: int| c[n] < i < items_end(first, c) ==> (#[trigger] t.nodes[i]).span.a >= t.nodes[c[n]].span.b,
    decreases c.len(),
{
    let prev = items_end(first, c.drop_last());
    let d = c.last();
    if n < c.len() - 1 {
        lemma_items_apart(t, lo, base, first, c.drop_last(), bound, n);
        assert(c.drop_last()[n] == c[n]);
        assert(t.nodes[c[n]].span.b <= t.nodes[d].span.a);
        lemma_made(t, lo, d);
        assert forall|i: int| c[n] < i < items_end(first, c) implies (#[trigger] t.nodes[i]).span.a
            >= t.nodes[c[n]].span.b by {
            if i >= prev {
                assert(lies_in(t, i, t.nodes[d].span));
            }
        }
    }
}

/// The same of the value of an entry, and of the keys.
proof fn lemma_entries_apart(t: Tree, lo: Seq<int>, base: int, es: Seq<EntryView>, bound: int, n: int)
    requires
        entries_nested(t, lo, base, es, bound),
        0 <= n < es.len(),
        bound <= t.nodes.len(),
        tidy(t),
        tidy_keys(es),
    ensures
        ({
            let v = es[n].value;
            &&& nested(t, lo, v)
            &&& 0 <= base <= lo[v] <= v < entries_end(base, es) <= bound
            &&& forall|i: int| base <= i < lo[v] ==> (#[trigger] t.nodes[i]).span.b <= t.nodes[v].span.a
            &&& forall|i: int| v < i < entries_end(base, es) ==> (#[trigger] t.nodes[i]).span.a >= t.nodes[v].span.b
            &&& forall|j: int| 0 <= j <= n ==> (#[trigger] es[j]).key.b <= t.nodes[v].span.a
            &&& forall|j: int| n < j < es.len() ==> (#[trigger] es[j]).key.a >= t.nodes[v].span.b
        }),
    decreases es.len(),
{
    let front = es.drop_last();
    let prev = entries_end(base, front);
    let e = es.last();
    let d = e.value;
    let v = es[n].value;
    assert(e == es[es.len() - 1]);
    assert(tidy_keys(front)) by {
        assert forall|j: int| 0 <= j < front.len() implies (#[trigger] front[j]).key.a <= front[j].key.b by {
            assert(front[j] == es[j]);
        }
    }
    if n < es.len() - 1 {
        lemma_entries_apart(t, lo, base, front, bound, n);
        assert(front[n] == es[n]);
        assert(t.nodes[v].span.b <= e.key.a);
        lemma_made(t, lo, d);
        assert forall|i: int| v < i < entries_end(base, es) implies (#[trigger] t.nodes[i]).span.a
            >= t.nodes[v].span.b by {
            if i >= lo[d] {
                assert(lies_in(t, i, t.nodes[d].span));
            } else if i >= prev {
                assert(lies_in(t, i, e.key));
            }
        }
        assert forall|j: int| n < j < es.len() implies (#[trigger] es[j]).key.a >= t.nodes[v].span.b by {
            if j < front.len() {
                assert(front[j] == es[j]);
            }
        }
        assert forall|j: int| 0 <= j <= n implies (#[trigger] es[j]).key.b <= t.nodes[v].span.a by {
            assert(front[j] == es[j]);
        }
    } else {
        assert forall|i: int| base <= i < lo[v] implies (#[trigger] t.nodes[i]).span.b <= t.nodes[v].span.a by {
            if i >= prev {
                assert(lies_in(t, i, e.key));
            } else {
                assert(t.nodes[i].span.b <= e.key.a);
            }
        }
        assert forall|j: int| 0 <= j <= n implies (#[trigger] es[j]).key.b <= t.nodes[v].span.a by {
            if j < front.len() {
                assert(front[j] == es[j]);
                lemma_entries_apart(t, lo, base, front, bound, j);
                let u = front[j].value;
                assert(tidy_node(t.nodes[u]));
                assert(t.nodes[u].span.b <= e.key.a);
            }
        }
    }
}

/// An anchor on the way is not lost.
proof fn lemma_enclosing(
    t: Tree,
    id: int,
    path: Seq<SegmentView>,
    enclosing: Option<(Seq<u8>, int)>,
    key: Option<Extent>,
)
    requires
        enclosing is Some,
        descend(t, id, path, false, enclosing, key) is Some,
    ensures
        (descend(t, id, path, false, enclosing, key)->0).enclosing is Some,
    decreases path.len(),
{
    if path.len() > 0 && !(t.nodes[id].kind is AliasRef) {
        let x = t.nodes[id];
        let within = match x.anchor {
            Some((name, _)) => Some((name, id)),
            None => enclosing,
        };
        match (path[0], x.shape) {
            (SegmentView::Index(n), ShapeView::Items(items)) => {
                if 0 <= n < items.len() {
                    lemma_enclosing(t, items[n], path.skip(1), within, None);
                }
            },
            (SegmentView::Key(k), ShapeView::Entries(es)) => {
                if let Some(i) = entry_from(es, k, 0) {
                    lemma_enclosing(t, es[i].value, path.skip(1), within, Some(es[i].key));
                }
            },
            _ => {},
        }
    }
}

/// A node that does not hold what stands at `p` has no key that does.
proof fn lemma_elsewhere(t: Tree, i: int, p: int)
    requires
        own_keys(t, i),
        !(t.nodes[i].span.a <= p < t.nodes[i].span.b),
    ensures
        node_free(p, t.nodes[i]),
{
    if let ShapeView::Entries(es) = t.nodes[i].shape {
        assert forall|j: int| 0 <= j < es.len() implies !((#[trigger] es[j]).key.a <= p < es[j].key.b) by {}
    }
}

/// Whether `f` is a scalar without an anchor, and none is on the way to it.
pub open spec fn plain_find(t: Tree, f: Option<crate::edit::locate::Found>) -> bool {
    &&& f is Some
    &&& (f->0).node is Some
    &&& (f->0).enclosing is None
    &&& (f->0).located.anchor is None
    &&& (f->0).located.kind is Literal
    &&& t.nodes[(f->0).node->0].shape is Leaf
    &&& t.nodes[(f->0).node->0].span.a != t.nodes[(f->0).node->0].span.b
}

/// Neither a node with an anchor nor a key holds the scalar that a path leads to.
proof fn lemma_descend_free(t: Tree, lo: Seq<int>, d: int, path: Seq<SegmentView>, key: Option<Extent>)
    requires
        nested(t, lo, d),
        tidy(t),
        all_own(t, 0, t.nodes.len() as int),
        plain_find(t, descend(t, d, path, false, None, key)),
    ensures
        ({
            let id = (descend(t, d, path, false, None, key)->0).node->0;
            let p = t.nodes[id].span.a;
            &&& lo[d] <= id <= d
            &&& t.nodes[d].span.a <= p < t.nodes[d].span.b
            &&& forall|i: int| lo[d] <= i <= d ==> node_free(p, #[trigger] t.nodes[i])
        }),
    decreases path.len(),
{
    let x = t.nodes[d];
    let f = descend(t, d, path, false, None, key)->0;
    let id = f.node->0;
    let p = t.nodes[id].span.a;
    assert(tidy_node(x));
    if path.len() > 0 && !(x.kind is AliasRef) {
        let within = match x.anchor {
            Some((name, _)) => Some((name, d)),
            None => None,
        };
        match (path[0], x.shape) {
            (SegmentView::Index(n), ShapeView::Items(c)) => {
                if within is Some {
                    lemma_enclosing(t, c[n], path.skip(1), within, None);
                }
                lemma_items_apart(t, lo, lo[d], lo[d], c, d, n);
                lemma_descend_free(t, lo, c[n], path.skip(1), None);
                assert(lies_in(t, c[n], x.span));
                assert forall|i: int| lo[d] <= i <= d implies node_free(p, #[trigger] t.nodes[i]) by {
                    if i < d && !(lo[c[n]] <= i <= c[n]) {
                        assert(own_keys(t, i));
                        lemma_elsewhere(t, i, p);
                    }
                }
            },
            (SegmentView::Key(k), ShapeView::Entries(es)) => {
                lemma_entry_in(es, k, 0);
                let n = entry_from(es, k, 0)->0;
                let v = es[n].value;
                if within is Some {
                    lemma_enclosing(t, v, path.skip(1), within, Some(es[n].key));
                }
                assert(tidy_node(x));
                lemma_entries_apart(t, lo, lo[d], es, d, n);
                lemma_descend_free(t, lo, v, path.skip(1), Some(es[n].key));
                assert(lies_in(t, v, x.span));
                assert(keys_apart(p, es)) by {
                    assert forall|j: int| 0 <= j < es.len() implies !((#[trigger] es[j]).key.a <= p < es[j].key.b) by {}
                }
                assert forall|i: int| lo[d] <= i <= d implies node_free(p, #[trigger] t.nodes[i]) by {
                    if i < d && !(lo[v] <= i <= v) {
                        assert(own_keys(t, i));
                        lemma_elsewhere(t, i, p);
                    }
                }
            },
            _ => {},
        }
    }
}

/// The number of the document that a path leads into.
pub open spec fn doc_number(path: Seq<SegmentView>) -> int {
    if path.len() > 0 && path[0] is Doc {
        path[0]->Doc_0
    } else {
        0
    }
}

/// Roots are numbered one after another.
proof fn lemma_roots_order(t: Tree, lo: Seq<int>, c: Seq<int>, bound: int, i: int, j: int)
    requires
        items_nested(t, lo, 0, 0, c, bound),
        0 <= i < j < c.len(),
    ensures
        c[i] < lo[c[j]],
    decreases c.len(),
{
    let front = c.drop_last();
    if j < c.len() - 1 {
        assert(front[i] == c[i] && front[j] == c[j]);
        lemma_roots_order(t, lo, front, bound, i, j);
    } else if i < front.len() - 1 {
        assert(front[i] == c[i] && front[front.len() - 1] == c[front.len() - 1]);
        lemma_roots_order(t, lo, front, bound, i, front.len() - 1);
        assert(front.last() == front[front.len() - 1]);
        lemma_last_made(t, lo, front, bound);
    } else {
        assert(front.last() == c[i]);
    }
}

proof fn lemma_last_made(t: Tree, lo: Seq<int>, c: Seq<int>, bound: int)
    requires
        items_nested(t, lo, 0, 0, c, bound),
        c.len() > 0,
    ensures
        lo[c.last()] <= c.last(),
{
}

/// Neither a node with an anchor nor a key holds the scalar that a path leads to.
pub(crate) proof fn lemma_path_free(t: Tree, s: Seq<u8>, q: int, path: Seq<SegmentView>)
    requires
        forest(t),
        sound(t, s, q),
        plain_find(t, resolved_path(t, path, false)),
    ensures
        ({
            let id = (resolved_path(t, path, false)->0).node->0;
            let p = t.nodes[id].span.a;
            &&& forall|i: int| 0 <= i < t.nodes.len() ==> node_free(p, #[trigger] t.nodes[i])
            &&& 0 <= id < t.nodes.len()
            &&& forall|i: int, j: int| #[trigger]
                under_root(t, i, j) && 0 <= i < t.nodes.len() && t.nodes[i].span.a <= p < t.nodes[i].span.b ==> j
                    == doc_number(path)
            &&& p < t.nodes[id].span.b
        }),
{
    reveal(forest);
    lemma_tidy(t, s, q);
    let lo = choose|lo: Seq<int>| #[trigger] forest_by(t, lo);
    let (doc, rest) = if path.len() > 0 && path[0] is Doc {
        (path[0]->Doc_0, path.skip(1))
    } else {
        (0, path)
    };
    let d = t.roots[doc];
    let p = t.nodes[(resolved_path(t, path, false)->0).node->0].span.a;
    let n = t.nodes.len() as int;
    lemma_items_apart(t, lo, 0, 0, t.roots, n, doc);
    lemma_descend_free(t, lo, d, rest, None);
    assert(tidy_node(t.nodes[(resolved_path(t, path, false)->0).node->0]));
    assert forall|i: int| 0 <= i < n implies node_free(p, #[trigger] t.nodes[i]) by {
        if !(lo[d] <= i <= d) {
            assert(own_keys(t, i));
            lemma_elsewhere(t, i, p);
        }
    }
    assert forall|i: int, j: int| #[trigger]
        under_root(t, i, j) && 0 <= i < n && t.nodes[i].span.a <= p < t.nodes[i].span.b implies j == doc_number(
        path,
    ) by {
        assert(lo[d] <= i <= d);
        if j < doc {
            lemma_roots_order(t, lo, t.roots, n, j, doc);
        } else if doc < j {
            if doc < j - 1 {
                lemma_items_apart(t, lo, 0, 0, t.roots, n, j - 1);
                lemma_roots_order(t, lo, t.roots, n, doc, j - 1);
            }
        }
    }
}

/// The key of an entry ends before its value begins.
proof fn lemma_descend_key(
    t: Tree,
    lo: Seq<int>,
    d: int,
    path: Seq<SegmentView>,
    enclosing: Option<(Seq<u8>, int)>,
    key: Option<Extent>,
)
    requires
        nested(t, lo, d),
        tidy(t),
        descend(t, d, path, false, enclosing, key) is Some,
        (descend(t, d, path, false, enclosing, key)->0).node is Some,
        key is Some ==> (key->0).b <= t.nodes[d].span.a,
    ensures
        ({
            let f = descend(t, d, path, false, enclosing, key)->0;
            f.key is Some ==> (f.key->0).b <= f.located.span.a
        }),
    decreases path.len(),
{
    let x = t.nodes[d];
    assert(tidy_node(x));
    if path.len() > 0 && !(x.kind is AliasRef) {
        let within = match x.anchor {
            Some((name, _)) => Some((name, d)),
            None => enclosing,
        };
        match (path[0], x.shape) {
            (SegmentView::Index(n), ShapeView::Items(c)) => {
                lemma_items_apart(t, lo, lo[d], lo[d], c, d, n);
                lemma_descend_key(t, lo, c[n], path.skip(1), within, None);
            },
            (SegmentView::Key(k), ShapeView::Entries(es)) => {
                lemma_entry_in(es, k, 0);
                if let Some(n) = entry_from(es, k, 0) {
                    lemma_entries_apart(t, lo, lo[d], es, d, n);
                    assert(es[n].key.b <= t.nodes[es[n].value].span.a);
                    lemma_descend_key(t, lo, es[n].value, path.skip(1), within, Some(es[n].key));
                }
            },
            _ => {},
        }
    }
}

pub(crate) proof fn lemma_path_key(t: Tree, s: Seq<u8>, q: int, path: Seq<SegmentView>)
    requires
        forest(t),
        sound(t, s, q),
        resolved_path(t, path, false) is Some,
        (resolved_path(t, path, false)->0).node is Some,
    ensures
        ({
            let f = resolved_path(t, path, false)->0;
            f.key is Some ==> (f.key->0).b <= f.located.span.a
        }),
{
    reveal(forest);
    lemma_tidy(t, s, q);
    let lo = choose|lo: Seq<int>| #[trigger] forest_by(t, lo);
    let (doc, rest) = if path.len() > 0 && path[0] is Doc {
        (path[0]->Doc_0, path.skip(1))
    } else {
        (0, path)
    };
    lemma_items_apart(t, lo, 0, 0, t.roots, t.nodes.len() as int, doc);
    lemma_descend_key(t, lo, t.roots[doc], rest, None, None);
}

} // verus!
