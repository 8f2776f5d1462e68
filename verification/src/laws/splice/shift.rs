//! The span tree of one source, moved to the other.
use vstd::prelude::*;
use super::cut::Cut;
use super::words::lemma_back_cut;
use crate::edit::sink::{
    sound, sound_frame, sound_items, trimmed, EntryView, Extent, FrameView, NodeView, ShapeView, Tree,
};
use crate::edit::KindView;
use crate::parser::grammar::St;
use crate::text::{back, is_blank, is_break, lemma_back_stop, Class};

verus! {

pub open spec fn moved_extent(k: Cut, x: Extent) -> Extent {
    Extent { a: k.to(x.a), b: k.to(x.b) }
}

pub open spec fn moved_entry(k: Cut, e: EntryView) -> EntryView {
    EntryView { key: moved_extent(k, e.key), text: e.text, value: e.value, span: moved_extent(k, e.span) }
}

pub open spec fn moved_entries(k: Cut, v: Seq<EntryView>) -> Seq<EntryView> {
    Seq::new(v.len(), |i: int| moved_entry(k, v[i]))
}

pub open spec fn moved_shape(k: Cut, x: ShapeView) -> ShapeView {
    match x {
        ShapeView::Entries(v) => ShapeView::Entries(moved_entries(k, v)),
        _ => x,
    }
}

pub open spec fn moved_node(k: Cut, x: NodeView) -> NodeView {
    NodeView {
        span: moved_extent(k, x.span),
        kind: x.kind,
        anchor: match x.anchor {
            Some((name, e)) => Some((name, moved_extent(k, e))),
            None => None,
        },
        shape: moved_shape(k, x.shape),
        delimited: x.delimited,
        tags: x.tags,
    }
}

pub open spec fn moved_frame(k: Cut, f: FrameView) -> FrameView {
    FrameView {
        start: k.to(f.start),
        kind: f.kind,
        children: f.children,
        entries: moved_entries(k, f.entries),
        pending: match f.pending {
            Some((x, text)) => Some((moved_extent(k, x), text)),
            None => None,
        },
        delimited: f.delimited,
    }
}

/// The tree `t` with every place moved to where it is in the other source.
#[verifier::opaque]
pub open spec fn moved_tree(k: Cut, t: Tree) -> Tree {
    Tree {
        nodes: Seq::new(t.nodes.len(), |i: int| moved_node(k, t.nodes[i])),
        stack: Seq::new(t.stack.len(), |i: int| moved_frame(k, t.stack[i])),
        roots: t.roots,
        last: t.last,
        anchors: t.anchors,
    }
}

pub open spec fn moved_st(k: Cut, st: St) -> St {
    St { p: k.to(st.p), a: st.a, t: moved_tree(k, st.t) }
}

/// Positions keep their order.
pub(crate) proof fn lemma_order(k: Cut, x: int, y: int)
    requires
        k.base(),
        x <= y,
    ensures
        k.to(x) <= k.to(y),
{
}

pub(crate) proof fn m_open(k: Cut, t: Tree, p: int, delimited: bool)
    ensures
        moved_tree(k, t.open(p, delimited)) == moved_tree(k, t).open(k.to(p), delimited),
{
    reveal(moved_tree);
    reveal(Tree::open);
    let u = moved_tree(k, t.open(p, delimited));
    let w = moved_tree(k, t).open(k.to(p), delimited);
    assert(moved_entries(k, Seq::empty()) =~= Seq::empty());
    assert(u.nodes =~= w.nodes);
    assert(u.stack =~= w.stack);
}

proof fn m_attach(k: Cut, t: Tree, x: NodeView)
    ensures
        moved_tree(k, t.attach(x)) == moved_tree(k, t).attach(moved_node(k, x)),
{
    reveal(moved_tree);
    let u = moved_tree(k, t.attach(x));
    let w = moved_tree(k, t).attach(moved_node(k, x));
    assert(u.nodes =~= w.nodes);
    if t.stack.len() == 0 {
        assert(u.stack =~= w.stack);
    } else {
        let f = t.stack.last();
        assert(moved_tree(k, t).stack.last() == moved_frame(k, f));
        match f.pending {
            Some((key, text)) => {
                let e = EntryView {
                    key,
                    text,
                    value: t.nodes.len() as int,
                    span: Extent { a: key.a, b: x.span.b },
                };
                assert(moved_entries(k, f.entries.push(e)) =~= moved_entries(k, f.entries).push(moved_entry(k, e)));
            },
            None => {},
        }
        assert(u.stack =~= w.stack);
    }
}

pub(crate) proof fn m_empty(k: Cut, t: Tree, p: int)
    ensures
        moved_tree(k, t.empty(p)) == moved_tree(k, t).empty(k.to(p)),
{
    reveal(Tree::empty);
    m_attach(
        k,
        t,
        NodeView {
            span: Extent { a: p, b: p },
            kind: KindView::Literal,
            anchor: None,
            shape: ShapeView::Leaf,
            delimited: false,
            tags: Seq::empty(),
        },
    );
}

pub(crate) proof fn m_key(k: Cut, t: Tree, x: Extent, text: Option<Seq<u8>>)
    ensures
        moved_tree(k, t.key(x, text)) == moved_tree(k, t).key(moved_extent(k, x), text),
{
    reveal(moved_tree);
    reveal(Tree::key);
    let u = moved_tree(k, t.key(x, text));
    let w = moved_tree(k, t).key(moved_extent(k, x), text);
    assert(u.nodes =~= w.nodes);
    assert(u.stack =~= w.stack);
}

pub(crate) proof fn m_kind_open(k: Cut, t: Tree, kind: KindView)
    ensures
        moved_tree(k, t.kind_open(kind)) == moved_tree(k, t).kind_open(kind),
{
    reveal(moved_tree);
    reveal(Tree::kind_open);
    let u = moved_tree(k, t.kind_open(kind));
    let w = moved_tree(k, t).kind_open(kind);
    assert(u.nodes =~= w.nodes);
    assert(u.stack =~= w.stack);
}

/// The parts of the innermost open node are nodes.
proof fn lemma_top_children(t: Tree, s: Seq<u8>, p: int)
    requires
        sound(t, s, p),
        t.stack.len() > 0,
    ensures
        sound_items(t.stack.last().children, t.nodes.len() as int),
        0 <= t.stack.last().start <= p,
        p <= s.len(),
{
    reveal(sound);
    assert(sound_frame(t.stack[t.stack.len() - 1], t.nodes.len() as int, s, p));
}

pub(crate) proof fn m_promote(k: Cut, t: Tree, s: Seq<u8>, p: int, text: Option<Seq<u8>>)
    requires
        sound(t, s, p),
    ensures
        moved_tree(k, t.promote(text)) == moved_tree(k, t).promote(text),
{
    reveal(moved_tree);
    reveal(Tree::promote);
    let u = moved_tree(k, t.promote(text));
    let w = moved_tree(k, t).promote(text);
    if t.stack.len() > 0 && t.stack.last().children.len() > 0 {
        lemma_top_children(t, s, p);
        let f = t.stack.last();
        let id = f.children[f.children.len() - 1];
        assert(moved_tree(k, t).nodes[id] == moved_node(k, t.nodes[id]));
    }
    assert(u.nodes =~= w.nodes);
    assert(u.stack =~= w.stack);
}

pub(crate) proof fn m_dissolve(k: Cut, t: Tree, s: Seq<u8>, p: int)
    requires
        sound(t, s, p),
    ensures
        moved_tree(k, t.dissolve()) == moved_tree(k, t).dissolve(),
{
    reveal(moved_tree);
    reveal(Tree::dissolve);
    let u = moved_tree(k, t.dissolve());
    let w = moved_tree(k, t).dissolve();
    if t.stack.len() > 0 && t.stack.last().children.len() > 0 {
        lemma_top_children(t, s, p);
        let id = t.stack.last().children[t.stack.last().children.len() - 1];
        assert(moved_tree(k, t).nodes[id] == moved_node(k, t.nodes[id]));
        let rest = t.stack.drop_last();
        if rest.len() > 0 {
            let f = rest.last();
            assert(moved_tree(k, t).stack.drop_last().last() == moved_frame(k, f));
            match f.pending {
                Some((key, text)) => {
                    let e = EntryView { key, text, value: id, span: Extent { a: key.a, b: t.nodes[id].span.b } };
                    assert(moved_entries(k, f.entries.push(e)) =~= moved_entries(k, f.entries).push(
                        moved_entry(k, e),
                    ));
                },
                None => {},
            }
        }
    }
    assert(u.nodes =~= w.nodes);
    assert(u.stack =~= w.stack);
}

pub(crate) proof fn m_set_tag(k: Cut, t: Tree, tag: Seq<u8>)
    requires
        t.last is Some ==> 0 <= t.last->0 < t.nodes.len(),
    ensures
        moved_tree(k, t.set_tag(tag)) == moved_tree(k, t).set_tag(tag),
{
    reveal(moved_tree);
    reveal(Tree::set_tag);
    let u = moved_tree(k, t.set_tag(tag));
    let w = moved_tree(k, t).set_tag(tag);
    assert(u.nodes =~= w.nodes);
    assert(u.stack =~= w.stack);
}

pub(crate) proof fn m_set_anchor(k: Cut, t: Tree, name: Seq<u8>, x: Extent)
    requires
        t.last is Some ==> 0 <= t.last->0 < t.nodes.len(),
    ensures
        moved_tree(k, t.set_anchor(name, x)) == moved_tree(k, t).set_anchor(name, moved_extent(k, x)),
{
    reveal(moved_tree);
    reveal(Tree::set_anchor);
    let u = moved_tree(k, t.set_anchor(name, x));
    let w = moved_tree(k, t).set_anchor(name, moved_extent(k, x));
    assert(u.nodes =~= w.nodes);
    assert(u.stack =~= w.stack);
}

/// A node outside the scalar that differs ends at the same place.
proof fn m_trimmed(k: Cut, start: int, hint: int)
    requires
        k.base(),
        0 <= start <= hint <= k.s.len(),
        hint <= k.a || k.b <= start,
    ensures
        trimmed(k.t, k.to(start), k.to(hint)) == k.to(trimmed(k.s, start, hint)),
{
    lemma_back_stop(k.s, start, hint, Class::Breaks);
    let q = back(k.s, start, hint, Class::Breaks);
    lemma_back_cut(k, start, hint, Class::Breaks);
    lemma_back_stop(k.s, start, q, Class::Blank);
    lemma_back_cut(k, start, q, Class::Blank);
}

/// Whether the innermost open node has parts and no bracket, so that it ends with
/// its last part.
pub open spec fn ends_with_part(t: Tree) -> bool {
    t.stack.len() > 0 && !t.stack.last().delimited && (t.stack.last().entries.len() > 0 || t.stack.last().children.len() > 0)
}

/// A node that ends at the same place in both sources is closed.
proof fn m_closed(k: Cut, t: Tree, p: int, q: int)
    requires
        t.stack.len() > 0,
        moved_tree(k, t).end_of(moved_frame(k, t.stack.last()), q, k.t) == k.to(t.end_of(t.stack.last(), p, k.s)),
    ensures
        moved_tree(k, t.close(p, k.s)) == moved_tree(k, t).close(q, k.t),
{
    reveal(Tree::close);
    let f = t.stack.last();
    let m = moved_tree(k, t);
    assert(m.stack.len() == t.stack.len() && m.stack.last() == moved_frame(k, f)) by {
        reveal(moved_tree);
    }
    let under = Tree { stack: t.stack.drop_last(), ..t };
    let x = NodeView {
        span: Extent { a: f.start, b: t.end_of(f, p, k.s) },
        kind: f.kind,
        anchor: None,
        shape: if f.entries.len() > 0 {
            ShapeView::Entries(f.entries)
        } else if f.children.len() > 0 {
            ShapeView::Items(f.children)
        } else {
            ShapeView::Leaf
        },
        delimited: f.delimited,
        tags: Seq::empty(),
    };
    m_attach(k, under, x);
    assert(moved_tree(k, under) == Tree { stack: m.stack.drop_last(), ..m }) by {
        reveal(moved_tree);
        assert(moved_tree(k, under).stack =~= m.stack.drop_last());
        assert(moved_tree(k, under).nodes =~= m.nodes);
    }
}

pub(crate) proof fn m_close(k: Cut, t: Tree, p: int)
    requires
        k.base(),
        sound(t, k.s, p),
        t.stack.len() > 0,
        ends_with_part(t) || p <= k.a || k.b <= t.stack.last().start,
    ensures
        moved_tree(k, t.close(p, k.s)) == moved_tree(k, t).close(k.to(p), k.t),
{
    lemma_top_children(t, k.s, p);
    let f = t.stack.last();
    let m = moved_tree(k, t);
    if !ends_with_part(t) {
        m_trimmed(k, f.start, p);
    }
    if f.children.len() > 0 {
        let id = f.children[f.children.len() - 1];
        assert(m.nodes[id] == moved_node(k, t.nodes[id])) by {
            reveal(moved_tree);
        }
    }
    m_closed(k, t, p, k.to(p));
}

/// The leaf that differs is closed.
pub(crate) proof fn m_close_leaf(k: Cut, t: Tree, p: int, q: int)
    requires
        k.base(),
        t.stack.len() > 0,
        t.stack.last().start == k.a,
        t.stack.last().entries.len() == 0,
        t.stack.last().children.len() == 0,
        trimmed(k.s, k.a, p) == k.b,
        trimmed(k.t, k.a, q) == k.c,
    ensures
        moved_tree(k, t.close(p, k.s)) == moved_tree(k, t).close(q, k.t),
{
    m_closed(k, t, p, q);
}

/// A flow collection around what differs is closed after its bracket.
pub(crate) proof fn m_close_flow(k: Cut, t: Tree, p: int)
    requires
        k.base(),
        t.stack.len() > 0,
        t.stack.last().delimited,
        0 <= t.stack.last().start <= k.a,
        k.b < p <= k.s.len(),
        !is_blank(k.s[p - 1]) && !is_break(k.s[p - 1]),
    ensures
        moved_tree(k, t.close(p, k.s)) == moved_tree(k, t).close(k.to(p), k.t),
{
    let f = t.stack.last();
    assert(k.s[p - 1] == k.t[k.to(p) - 1]);
    assert(back(k.s, f.start, p, Class::Breaks) == p);
    assert(back(k.s, f.start, p, Class::Blank) == p);
    assert(back(k.t, f.start, k.to(p), Class::Breaks) == k.to(p));
    assert(back(k.t, f.start, k.to(p), Class::Blank) == k.to(p));
    m_closed(k, t, p, k.to(p));
}

} // verus!
