//! The span tree that the parser records as it walks.
use vstd::prelude::*;
use vstd::utf8::*;
use std::borrow::Cow;
use super::{KindView, NodeKind};
use crate::text::{is_text, back, bd, lemma_back, scan_back, Class};

verus! {

/// A range of bytes.
pub struct Extent {
    pub a: int,
    pub b: int,
}

/// One entry of a mapping.
pub struct EntryView {
    pub key: Extent,
    /// The key's text; a collection as a key has none.
    pub text: Option<Seq<u8>>,
    pub value: int,
    pub span: Extent,
}

/// What a node is made of, by the numbers of its parts.
pub enum ShapeView {
    Leaf,
    Items(Seq<int>),
    Entries(Seq<EntryView>),
}

/// A node of the tree.
pub struct NodeView {
    pub span: Extent,
    pub kind: KindView,
    /// The anchor the node defines, and where its `&name` stands.
    pub anchor: Option<(Seq<u8>, Extent)>,
    pub shape: ShapeView,
    /// Whether the node ends in a bracket of its own.
    pub delimited: bool,
    /// The tags that stand before the node, from the nearest on.
    pub tags: Seq<Seq<u8>>,
}

/// A node that is still being read.
pub struct FrameView {
    pub start: int,
    pub kind: KindView,
    pub children: Seq<int>,
    pub entries: Seq<EntryView>,
    /// A key whose value has not been read yet.
    pub pending: Option<(Extent, Option<Seq<u8>>)>,
    /// Whether the node ends in a bracket of its own.
    pub delimited: bool,
}

/// The span tree: finished nodes, by number, and those still open.
pub struct Tree {
    pub nodes: Seq<NodeView>,
    pub stack: Seq<FrameView>,
    pub roots: Seq<int>,
    pub last: Option<int>,
    pub anchors: Seq<(Seq<u8>, int)>,
}

/// Where a node's bytes really end.
///
/// Plain scalars stop the cursor on the whitespace before a comment or line
/// break; block scalars consume past their terminating break. Neither belongs
/// to the value, so a splice replaces the value and nothing else.
pub open spec fn trimmed(s: Seq<u8>, start: int, hint: int) -> int {
    back(s, start, back(s, start, hint, Class::Breaks), Class::Blank)
}

impl Tree {
    /// The tree before anything is read.
    pub open spec fn blank() -> Tree {
        Tree {
            nodes: Seq::empty(),
            stack: Seq::empty(),
            roots: Seq::empty(),
            last: None,
            anchors: Seq::empty(),
        }
    }

    /// A node begins at `start`.
    #[verifier::opaque]
    pub open spec fn open(self, start: int, delimited: bool) -> Tree {
        Tree {
            stack: self.stack.push(
                FrameView {
                    start,
                    kind: KindView::Literal,
                    children: Seq::empty(),
                    entries: Seq::empty(),
                    pending: None,
                    delimited,
                },
            ),
            last: None,
            ..self
        }
    }

    /// A finished node takes its place under the innermost open one, as the
    /// value of the key that waits there or else as an item.
    pub open spec fn attach(self, node: NodeView) -> Tree {
        let id = self.nodes.len() as int;
        let t = Tree { nodes: self.nodes.push(node), last: Some(id), ..self };
        if self.stack.len() == 0 {
            Tree { roots: self.roots.push(id), ..t }
        } else {
            let f = self.stack.last();
            let g = match f.pending {
                Some((key, text)) => FrameView {
                    entries: f.entries.push(
                        EntryView { key, text, value: id, span: Extent { a: key.a, b: node.span.b } },
                    ),
                    pending: None,
                    ..f
                },
                None => FrameView { children: f.children.push(id), ..f },
            };
            Tree { stack: self.stack.drop_last().push(g), ..t }
        }
    }

    /// Where the innermost open node ends when the cursor stands at `hint`.
    ///
    /// Containers end at their last child: the cursor has already skipped past
    /// trailing blank and comment lines.
    pub open spec fn end_of(self, f: FrameView, hint: int, s: Seq<u8>) -> int {
        let end = if f.delimited {
            trimmed(s, f.start, hint)
        } else if f.entries.len() > 0 {
            f.entries.last().span.b
        } else if f.children.len() > 0 {
            self.nodes[f.children.last()].span.b
        } else {
            trimmed(s, f.start, hint)
        };
        if end < f.start {
            f.start
        } else {
            end
        }
    }

    /// The innermost open node is finished; the cursor stands at `hint`.
    #[verifier::opaque]
    pub open spec fn close(self, hint: int, s: Seq<u8>) -> Tree {
        if self.stack.len() == 0 {
            self
        } else {
            let f = self.stack.last();
            Tree { stack: self.stack.drop_last(), ..self }.attach(
                NodeView {
                    span: Extent { a: f.start, b: self.end_of(f, hint, s) },
                    kind: f.kind,
                    anchor: None,
                    shape: if f.entries.len() > 0 {
                        ShapeView::Entries(f.entries)
                    } else if f.children.len() > 0 {
                        ShapeView::Items(f.children)
                    } else {
                        ShapeView::Leaf
                    },
                    delimited: f.delimited,
                    tags: Seq::empty(),
                },
            )
        }
    }

    /// A node without any bytes.
    #[verifier::opaque]
    pub open spec fn empty(self, at: int) -> Tree {
        self.attach(
            NodeView {
                span: Extent { a: at, b: at },
                kind: KindView::Literal,
                anchor: None,
                shape: ShapeView::Leaf,
                delimited: false,
                tags: Seq::empty(),
            },
        )
    }

    /// A key of the innermost open node, whose value comes next.
    #[verifier::opaque]
    pub open spec fn key(self, span: Extent, text: Option<Seq<u8>>) -> Tree {
        if self.stack.len() == 0 {
            self
        } else {
            let f = FrameView { pending: Some((span, text)), ..self.stack.last() };
            Tree { stack: self.stack.drop_last().push(f), ..self }
        }
    }

    /// The last item of the innermost open node turns out to be a key.
    #[verifier::opaque]
    pub open spec fn promote(self, text: Option<Seq<u8>>) -> Tree {
        if self.stack.len() == 0 || self.stack.last().children.len() == 0 {
            self
        } else {
            let f = self.stack.last();
            let g = FrameView {
                children: f.children.drop_last(),
                pending: Some((self.nodes[f.children.last()].span, text)),
                ..f
            };
            Tree { stack: self.stack.drop_last().push(g), ..self }
        }
    }

    /// The innermost open node turns out to be its only item.
    #[verifier::opaque]
    pub open spec fn dissolve(self) -> Tree {
        if self.stack.len() == 0 || self.stack.last().children.len() == 0 {
            self
        } else {
            let id = self.stack.last().children.last();
            let rest = self.stack.drop_last();
            if rest.len() == 0 {
                Tree { stack: rest, roots: self.roots.push(id), last: Some(id), ..self }
            } else {
                let f = rest.last();
                let g = match f.pending {
                    Some((key, text)) => FrameView {
                        entries: f.entries.push(
                            EntryView { key, text, value: id, span: Extent { a: key.a, b: self.nodes[id].span.b } },
                        ),
                        pending: None,
                        ..f
                    },
                    None => FrameView { children: f.children.push(id), ..f },
                };
                Tree { stack: rest.drop_last().push(g), last: Some(id), ..self }
            }
        }
    }

    /// The node finished last carries an anchor.
    #[verifier::opaque]
    pub open spec fn set_anchor(self, name: Seq<u8>, token: Extent) -> Tree {
        match self.last {
            Some(id) => Tree {
                nodes: self.nodes.update(id, NodeView { anchor: Some((name, token)), ..self.nodes[id] }),
                anchors: self.anchors.push((name, id)),
                ..self
            },
            None => self,
        }
    }

    /// The node finished last carries a tag.
    #[verifier::opaque]
    pub open spec fn set_tag(self, tag: Seq<u8>) -> Tree {
        match self.last {
            Some(id) => Tree {
                nodes: self.nodes.update(id, NodeView { tags: self.nodes[id].tags.push(tag), ..self.nodes[id] }),
                ..self
            },
            None => self,
        }
    }

    /// The innermost open node is of this kind.
    #[verifier::opaque]
    pub open spec fn kind_open(self, kind: KindView) -> Tree {
        if self.stack.len() == 0 {
            self
        } else {
            let f = FrameView { kind, ..self.stack.last() };
            Tree { stack: self.stack.drop_last().push(f), ..self }
        }
    }
}

/// Whether `x` is a range of whole characters before `p`.
pub open spec fn sound_extent(x: Extent, s: Seq<u8>, p: int) -> bool {
    x.a <= x.b <= p && bd(s, x.a) && bd(s, x.b)
}

pub open spec fn sound_entry(e: EntryView, n: int, s: Seq<u8>, p: int) -> bool {
    sound_extent(e.key, s, p) && sound_extent(e.span, s, p) && 0 <= e.value < n
}

/// Whether the items are among the first `n` nodes.
pub open spec fn sound_items(v: Seq<int>, n: int) -> bool {
    forall|i: int| 0 <= i < v.len() ==> 0 <= #[trigger] v[i] < n
}

/// Whether the entries are sound and their values among the first `n` nodes.
pub open spec fn sound_entries(v: Seq<EntryView>, n: int, s: Seq<u8>, p: int) -> bool {
    forall|i: int| 0 <= i < v.len() ==> sound_entry(#[trigger] v[i], n, s, p)
}

/// Whether the parts of a shape are among the first `n` nodes.
pub open spec fn sound_shape(x: ShapeView, n: int, s: Seq<u8>, p: int) -> bool {
    match x {
        ShapeView::Leaf => true,
        ShapeView::Items(v) => sound_items(v, n),
        ShapeView::Entries(v) => sound_entries(v, n, s, p),
    }
}

pub open spec fn sound_node(x: NodeView, n: int, s: Seq<u8>, p: int) -> bool {
    sound_extent(x.span, s, p) && sound_shape(x.shape, n, s, p) && !(x.kind is MergeInherited)
}

pub open spec fn sound_frame(f: FrameView, n: int, s: Seq<u8>, p: int) -> bool {
    &&& 0 <= f.start <= p && bd(s, f.start)
    &&& sound_items(f.children, n)
    &&& sound_entries(f.entries, n, s, p)
    &&& !(f.kind is MergeInherited)
    &&& match f.pending {
        Some((x, _)) => sound_extent(x, s, p),
        None => true,
    }
}

/// Where the key that waits in `f` begins.
pub open spec fn key_start(f: FrameView) -> int {
    match f.pending {
        Some((x, _)) => x.a,
        None => 0,
    }
}

/// What holds of the tree while the cursor stands at `p`: every span lies on
/// character boundaries before the cursor, and every node is numbered after its
/// parts.
#[verifier::opaque]
pub open spec fn sound(t: Tree, s: Seq<u8>, p: int) -> bool {
    let n = t.nodes.len() as int;
    &&& 0 <= p <= s.len()
    &&& forall|i: int| 0 <= i < n ==> sound_node(#[trigger] t.nodes[i], i, s, p)
    &&& forall|i: int| 0 <= i < t.stack.len() ==> sound_frame(#[trigger] t.stack[i], n, s, p)
    &&& forall|i: int, j: int|
        0 <= i < j < t.stack.len() ==> key_start(#[trigger] t.stack[i]) <= (#[trigger] t.stack[j]).start
    &&& forall|i: int| 0 <= i < t.roots.len() ==> 0 <= #[trigger] t.roots[i] < n
    &&& forall|i: int| 0 <= i < t.anchors.len() ==> 0 <= (#[trigger] t.anchors[i]).1 < n
    &&& match t.last {
        Some(id) => 0 <= id < n,
        None => true,
    }
}

/// What reading one node adds: the node, at or after `from`, in its place under
/// the innermost open one, and nothing else there.
#[verifier::opaque]
pub open spec fn grew(t0: Tree, t1: Tree, from: int) -> bool {
    &&& t1.last is Some
    &&& t0.nodes.len() <= t1.last->0 < t1.nodes.len()
    &&& t1.nodes[t1.last->0].span.a >= from
    &&& if t0.stack.len() == 0 {
        t1.stack == t0.stack && t1.roots == t0.roots.push(t1.last->0)
    } else {
        let id = t1.last->0;
        let f = t0.stack.last();
        let g = match f.pending {
            None => FrameView { children: f.children.push(id), ..f },
            Some((key, text)) => FrameView {
                entries: f.entries.push(
                    EntryView { key, text, value: id, span: Extent { a: key.a, b: t1.nodes[id].span.b } },
                ),
                pending: None,
                ..f
            },
        };
        t1.roots == t0.roots && t1.stack == t0.stack.drop_last().push(g)
    }
}

/// The stack below the innermost open node is that of `t0`, which has no such
/// node; what was finished is kept.
#[verifier::opaque]
pub open spec fn inside(t0: Tree, t1: Tree, start: int) -> bool {
    &&& t1.stack.len() == t0.stack.len() + 1
    &&& t1.stack.drop_last() == t0.stack
    &&& t1.stack.last().start == start
    &&& t1.roots == t0.roots
    &&& t0.nodes.len() <= t1.nodes.len()
}

/// Whether a key waits in the innermost open node.
#[verifier::opaque]
pub open spec fn waits(t: Tree) -> bool {
    t.stack.len() > 0 && t.stack.last().pending is Some
}

/// How many items the innermost open node has.
#[verifier::opaque]
pub open spec fn width(t: Tree) -> int {
    if t.stack.len() > 0 {
        t.stack.last().children.len() as int
    } else {
        0
    }
}

pub proof fn lemma_width(t: Tree)
    ensures
        width(t) >= 0,
{
    reveal(width);
}

pub proof fn lemma_blank(s: Seq<u8>)
    ensures
        sound(Tree::blank(), s, 0),
{
    reveal(sound);
}

pub proof fn lemma_sound_on(t: Tree, s: Seq<u8>, p: int, q: int)
    requires
        sound(t, s, p),
        p <= q <= s.len(),
    ensures
        sound(t, s, q),
{
    reveal(sound);
    assert forall|i: int| 0 <= i < t.nodes.len() implies sound_node(#[trigger] t.nodes[i], i, s, q) by {
        assert(sound_node(t.nodes[i], i, s, p));
    }
    assert forall|i: int| 0 <= i < t.stack.len() implies sound_frame(
        #[trigger] t.stack[i],
        t.nodes.len() as int,
        s,
        q,
    ) by {
        assert(sound_frame(t.stack[i], t.nodes.len() as int, s, p));
    }
}

proof fn lemma_attach(t: Tree, node: NodeView, s: Seq<u8>, p: int)
    requires
        sound(t, s, p),
        sound_node(node, t.nodes.len() as int, s, p),
        t.stack.len() > 0 ==> key_start(t.stack.last()) <= node.span.a,
    ensures
        sound(t.attach(node), s, p),
        grew(t, t.attach(node), node.span.a),
{
    reveal(sound);
    reveal(grew);
    let u = t.attach(node);
    let n = t.nodes.len() as int;
    assert forall|i: int| 0 <= i < u.nodes.len() implies sound_node(#[trigger] u.nodes[i], i, s, p) by {
        if i < n {
            assert(sound_node(t.nodes[i], i, s, p));
        }
    }
    assert forall|i: int| 0 <= i < u.stack.len() implies sound_frame(#[trigger] u.stack[i], n + 1, s, p) by {
        assert(sound_frame(t.stack[i], n, s, p));
    }
    assert forall|i: int, j: int| 0 <= i < j < u.stack.len() implies key_start(#[trigger] u.stack[i]) <= (
    #[trigger] u.stack[j]).start by {
        assert(key_start(t.stack[i]) <= t.stack[j].start);
        assert(u.stack[i] == t.stack[i]);
    }
}

pub proof fn lemma_open(t: Tree, s: Seq<u8>, p: int, delimited: bool)
    requires
        sound(t, s, p),
        bd(s, p),
    ensures
        sound(t.open(p, delimited), s, p),
        inside(t, t.open(p, delimited), p),
        !waits(t.open(p, delimited)),
        width(t.open(p, delimited)) == 0,
{
    reveal(sound);
    reveal(inside);
    reveal(waits);
    reveal(width);
    reveal(Tree::open);
    let u = t.open(p, delimited);
    assert(u.stack.drop_last() =~= t.stack);
    assert forall|i: int| 0 <= i < u.stack.len() implies sound_frame(
        #[trigger] u.stack[i],
        t.nodes.len() as int,
        s,
        p,
    ) by {
        if i < t.stack.len() {
            assert(sound_frame(t.stack[i], t.nodes.len() as int, s, p));
        }
    }
    assert forall|i: int, j: int| 0 <= i < j < u.stack.len() implies key_start(#[trigger] u.stack[i]) <= (
    #[trigger] u.stack[j]).start by {
        assert(sound_frame(t.stack[i], t.nodes.len() as int, s, p));
        if j < t.stack.len() {
            assert(key_start(t.stack[i]) <= t.stack[j].start);
        }
    }
}

pub proof fn lemma_close(t0: Tree, t: Tree, s: Seq<u8>, p: int, start: int)
    requires
        is_text(s),
        sound(t, s, p),
        bd(s, p),
        inside(t0, t, start),
    ensures
        sound(t.close(p, s), s, p),
        grew(t0, t.close(p, s), start),
{
    reveal(sound);
    reveal(inside);
    reveal(grew);
    reveal(Tree::close);
    let f = t.stack.last();
    let n = t.nodes.len() as int;
    let u = Tree { stack: t.stack.drop_last(), ..t };
    assert(f == t.stack[t.stack.len() - 1]);
    assert(sound_frame(f, n, s, p));
    assert(sound_items(f.children, n));
    assert(sound_entries(f.entries, n, s, p));
    let end = t.end_of(f, p, s);
    lemma_back(s, f.start, p, Class::Breaks);
    lemma_back(s, f.start, back(s, f.start, p, Class::Breaks), Class::Blank);
    if f.entries.len() > 0 {
        assert(sound_entry(f.entries[f.entries.len() - 1], n, s, p));
    } else if f.children.len() > 0 {
        let c = f.children[f.children.len() - 1];
        assert(0 <= c < n);
        assert(sound_node(t.nodes[c], c, s, p));
    }
    let node = NodeView {
        span: Extent { a: f.start, b: end },
        kind: f.kind,
        anchor: None,
        shape: if f.entries.len() > 0 {
            ShapeView::Entries(f.entries)
        } else if f.children.len() > 0 {
            ShapeView::Items(f.children)
        } else {
            ShapeView::Leaf
        },
        delimited: f.delimited,
        tags: Seq::empty(),
    };
    assert forall|i: int| 0 <= i < u.stack.len() implies sound_frame(#[trigger] u.stack[i], n, s, p) by {
        assert(sound_frame(t.stack[i], n, s, p));
    }
    assert forall|i: int, j: int| 0 <= i < j < u.stack.len() implies key_start(#[trigger] u.stack[i]) <= (
    #[trigger] u.stack[j]).start by {
        assert(key_start(t.stack[i]) <= t.stack[j].start);
    }
    if u.stack.len() > 0 {
        assert(key_start(t.stack[u.stack.len() - 1]) <= t.stack[t.stack.len() - 1].start);
    }
    lemma_attach(u, node, s, p);
}

pub proof fn lemma_empty(t: Tree, s: Seq<u8>, p: int)
    requires
        sound(t, s, p),
        bd(s, p),
    ensures
        sound(t.empty(p), s, p),
        grew(t, t.empty(p), p),
{
    reveal(sound);
    reveal(Tree::empty);
    if t.stack.len() > 0 {
        assert(sound_frame(t.stack[t.stack.len() - 1], t.nodes.len() as int, s, p));
    }
    lemma_attach(
        t,
        NodeView {
            span: Extent { a: p, b: p },
            kind: KindView::Literal,
            anchor: None,
            shape: ShapeView::Leaf,
            delimited: false,
            tags: Seq::empty(),
        },
        s,
        p,
    );
}

pub proof fn lemma_key(t0: Tree, t: Tree, s: Seq<u8>, p: int, start: int, span: Extent, text: Option<Seq<u8>>)
    requires
        sound(t, s, p),
        inside(t0, t, start),
        sound_extent(span, s, p),
    ensures
        sound(t.key(span, text), s, p),
        inside(t0, t.key(span, text), start),
        waits(t.key(span, text)),
        width(t.key(span, text)) == width(t),
{
    reveal(sound);
    reveal(inside);
    reveal(waits);
    reveal(width);
    reveal(Tree::key);
    let u = t.key(span, text);
    let n = t.nodes.len() as int;
    assert(u.stack.drop_last() =~= t.stack.drop_last());
    assert forall|i: int| 0 <= i < u.stack.len() implies sound_frame(#[trigger] u.stack[i], n, s, p) by {
        assert(sound_frame(t.stack[i], n, s, p));
    }
    assert forall|i: int, j: int| 0 <= i < j < u.stack.len() implies key_start(#[trigger] u.stack[i]) <= (
    #[trigger] u.stack[j]).start by {
        assert(key_start(t.stack[i]) <= t.stack[j].start);
    }
}

pub proof fn lemma_promote(t0: Tree, t: Tree, s: Seq<u8>, p: int, start: int, text: Option<Seq<u8>>)
    requires
        sound(t, s, p),
        inside(t0, t, start),
        width(t) > 0,
    ensures
        sound(t.promote(text), s, p),
        inside(t0, t.promote(text), start),
        waits(t.promote(text)),
        width(t.promote(text)) == width(t) - 1,
{
    reveal(sound);
    reveal(inside);
    reveal(waits);
    reveal(width);
    reveal(Tree::promote);
    let u = t.promote(text);
    let n = t.nodes.len() as int;
    assert(u.stack.drop_last() =~= t.stack.drop_last());
    let f = t.stack[t.stack.len() - 1];
    assert(sound_frame(f, n, s, p));
    assert(sound_items(f.children, n));
    let c = f.children[f.children.len() - 1];
    assert(0 <= c < n);
    assert(sound_node(t.nodes[c], c, s, p));
    assert forall|i: int| 0 <= i < u.stack.len() implies sound_frame(#[trigger] u.stack[i], n, s, p) by {
        assert(sound_frame(t.stack[i], n, s, p));
    }
    assert forall|i: int, j: int| 0 <= i < j < u.stack.len() implies key_start(#[trigger] u.stack[i]) <= (
    #[trigger] u.stack[j]).start by {
        assert(key_start(t.stack[i]) <= t.stack[j].start);
    }
}

/// One more node inside an open one leaves the open ones below it alone.
pub proof fn lemma_inside_grew(t0: Tree, t1: Tree, t2: Tree, start: int, from: int)
    requires
        inside(t0, t1, start),
        grew(t1, t2, from),
    ensures
        inside(t0, t2, start),
        !waits(t2),
        width(t2) == (if waits(t1) {
            width(t1)
        } else {
            width(t1) + 1
        }),
{
    reveal(inside);
    reveal(grew);
    reveal(waits);
    reveal(width);
    assert(t2.stack.drop_last() =~= t1.stack.drop_last());
}

/// An open node that turned out to be its only item leaves that item behind.
pub proof fn lemma_dissolve(t0: Tree, t1: Tree, t2: Tree, s: Seq<u8>, p: int, start: int)
    requires
        sound(t0, s, start),
        sound(t2, s, p),
        start <= p,
        inside(t0, t1, start),
        !waits(t1),
        grew(t1, t2, start),
    ensures
        sound(t2.dissolve(), s, p),
        grew(t0, t2.dissolve(), start),
{
    reveal(sound);
    reveal(inside);
    reveal(grew);
    reveal(waits);
    reveal(Tree::dissolve);
    let u = t2.dissolve();
    let n = t2.nodes.len() as int;
    let id = t2.last->0;
    assert(t2.stack.drop_last() =~= t0.stack);
    assert(t2.stack.last().children.last() == id);
    assert(sound_node(t2.nodes[id], id, s, p));
    assert forall|i: int| 0 <= i < u.stack.len() implies sound_frame(#[trigger] u.stack[i], n, s, p) by {
        assert(sound_frame(t2.stack[i], n, s, p));
        assert(t2.stack[i] == t0.stack[i]);
        assert(sound_frame(t0.stack[i], t0.nodes.len() as int, s, start));
    }
    assert forall|i: int, j: int| 0 <= i < j < u.stack.len() implies key_start(#[trigger] u.stack[i]) <= (
    #[trigger] u.stack[j]).start by {
        assert(t2.stack[i] == t0.stack[i]);
        assert(t2.stack[j] == t0.stack[j]);
        assert(key_start(t2.stack[i]) <= t2.stack[j].start);
    }
}

pub proof fn lemma_kind_open(t0: Tree, t: Tree, s: Seq<u8>, p: int, start: int, kind: KindView)
    requires
        sound(t, s, p),
        inside(t0, t, start),
        !(kind is MergeInherited),
    ensures
        sound(t.kind_open(kind), s, p),
        inside(t0, t.kind_open(kind), start),
{
    reveal(sound);
    reveal(inside);
    reveal(Tree::kind_open);
    let u = t.kind_open(kind);
    let n = t.nodes.len() as int;
    assert(u.stack.drop_last() =~= t.stack.drop_last());
    assert forall|i: int| 0 <= i < u.stack.len() implies sound_frame(#[trigger] u.stack[i], n, s, p) by {
        assert(sound_frame(t.stack[i], n, s, p));
    }
    assert forall|i: int, j: int| 0 <= i < j < u.stack.len() implies key_start(#[trigger] u.stack[i]) <= (
    #[trigger] u.stack[j]).start by {
        assert(key_start(t.stack[i]) <= t.stack[j].start);
    }
}

pub proof fn lemma_set_anchor(t0: Tree, t: Tree, s: Seq<u8>, p: int, from: int, name: Seq<u8>, token: Extent)
    requires
        sound(t, s, p),
        grew(t0, t, from),
    ensures
        sound(t.set_anchor(name, token), s, p),
        grew(t0, t.set_anchor(name, token), from),
{
    reveal(sound);
    reveal(grew);
    reveal(Tree::set_anchor);
    let u = t.set_anchor(name, token);
    assert forall|i: int| 0 <= i < u.nodes.len() implies sound_node(#[trigger] u.nodes[i], i, s, p) by {
        assert(sound_node(t.nodes[i], i, s, p));
    }
}

pub proof fn lemma_set_tag(t0: Tree, t: Tree, s: Seq<u8>, p: int, from: int, tag: Seq<u8>)
    requires
        sound(t, s, p),
        grew(t0, t, from),
    ensures
        sound(t.set_tag(tag), s, p),
        grew(t0, t.set_tag(tag), from),
{
    reveal(sound);
    reveal(grew);
    reveal(Tree::set_tag);
    let u = t.set_tag(tag);
    assert forall|i: int| 0 <= i < u.nodes.len() implies sound_node(#[trigger] u.nodes[i], i, s, p) by {
        assert(sound_node(t.nodes[i], i, s, p));
    }
}

/// A node that was read from `from` on was read from anywhere before it on.
pub proof fn lemma_grew_from(t0: Tree, t1: Tree, from: int, earlier: int)
    requires
        grew(t0, t1, from),
        earlier <= from,
    ensures
        grew(t0, t1, earlier),
{
    reveal(grew);
}

/// The number of a node.
pub type SpanId = usize;

/// A range of bytes.
#[derive(Clone, Copy)]
pub struct Span {
    pub start: usize,
    pub end: usize,
}

impl Span {
    pub open spec fn v(self) -> Extent {
        Extent { a: self.start as int, b: self.end as int }
    }
}

/// The bytes of an optional text.
pub open spec fn text_view(c: Option<Cow<'_, str>>) -> Option<Seq<u8>> {
    match c {
        Some(c) => Some(encode_utf8(c@)),
        None => None,
    }
}

pub struct Entry<'a> {
    /// Key extent, used to place a value into an empty mapping entry
    pub key_span: Span,
    pub key_text: Option<Cow<'a, str>>,
    pub value: SpanId,
    pub span: Span,
}

impl<'a> Entry<'a> {
    pub open spec fn v(self) -> EntryView {
        EntryView {
            key: self.key_span.v(),
            text: text_view(self.key_text),
            value: self.value as int,
            span: self.span.v(),
        }
    }
}

pub enum Shape<'a> {
    Leaf,
    Sequence(Vec<SpanId>),
    Mapping(Vec<Entry<'a>>),
}

pub open spec fn ids_view(v: Seq<SpanId>) -> Seq<int> {
    Seq::new(v.len(), |i: int| v[i] as int)
}

pub open spec fn entries_view(v: Seq<Entry<'_>>) -> Seq<EntryView> {
    Seq::new(v.len(), |i: int| v[i].v())
}

impl<'a> Shape<'a> {
    pub open spec fn v(self) -> ShapeView {
        match self {
            Shape::Leaf => ShapeView::Leaf,
            Shape::Sequence(v) => ShapeView::Items(ids_view(v@)),
            Shape::Mapping(v) => ShapeView::Entries(entries_view(v@)),
        }
    }
}

/// An anchor definition on a node
#[derive(Clone, Copy)]
pub struct Anchor<'a> {
    pub name: &'a str,
    /// The `&name` token, for structural edits
    pub token: Span,
}

pub struct SpanNode<'a> {
    pub span: Span,
    /// Value type: literal/alias of literal
    pub kind: NodeKind<'a>,
    /// Set when the node carries `&name`, independently of `kind`
    pub anchor: Option<Anchor<'a>>,
    pub shape: Shape<'a>,
    /// Whether the node ends in a bracket of its own
    pub delimited: bool,
    /// The tags that stand before the node, from the nearest on
    pub tags: Vec<&'a str>,
}

/// The contents of a list of tags.
pub open spec fn tags_view(v: Seq<&str>) -> Seq<Seq<u8>> {
    Seq::new(v.len(), |i: int| encode_utf8(v[i]@))
}

impl<'a> SpanNode<'a> {
    pub open spec fn v(self) -> NodeView {
        NodeView {
            span: self.span.v(),
            kind: self.kind@,
            anchor: match self.anchor {
                Some(x) => Some((encode_utf8(x.name@), x.token.v())),
                None => None,
            },
            shape: self.shape.v(),
            delimited: self.delimited,
            tags: tags_view(self.tags@),
        }
    }
}

pub struct Frame<'a> {
    pub start: usize,
    pub kind: NodeKind<'a>,
    pub children: Vec<SpanId>,
    pub entries: Vec<Entry<'a>>,
    pub pending_key: Option<(Span, Option<Cow<'a, str>>)>,
    pub delimited: bool,
}

impl<'a> Frame<'a> {
    pub open spec fn v(self) -> FrameView {
        FrameView {
            start: self.start as int,
            kind: self.kind@,
            children: ids_view(self.children@),
            entries: entries_view(self.entries@),
            pending: match self.pending_key {
                Some((x, c)) => Some((x.v(), text_view(c))),
                None => None,
            },
            delimited: self.delimited,
        }
    }

    fn new(start: usize, delimited: bool) -> (r: Self)
        ensures
            r.v() == (FrameView {
                start: start as int,
                kind: KindView::Literal,
                children: Seq::empty(),
                entries: Seq::empty(),
                pending: None,
                delimited,
            }),
    {
        let r = Frame {
            start,
            kind: NodeKind::Literal,
            children: Vec::new(),
            entries: Vec::new(),
            pending_key: None,
            delimited,
        };
        assert(r.v().children =~= Seq::empty());
        assert(r.v().entries =~= Seq::empty());
        r
    }
}

/// Records the span of every node as the parser walks.
pub struct SpanSink<'a> {
    nodes: Vec<SpanNode<'a>>,
    stack: Vec<Frame<'a>>,
    roots: Vec<SpanId>,
    last_closed: Option<SpanId>,
    anchors: Vec<(&'a str, SpanId)>,
}

pub closed spec fn nodes_view(v: Seq<SpanNode<'_>>) -> Seq<NodeView> {
    Seq::new(v.len(), |i: int| v[i].v())
}

pub closed spec fn frames_view(v: Seq<Frame<'_>>) -> Seq<FrameView> {
    Seq::new(v.len(), |i: int| v[i].v())
}

pub closed spec fn anchors_view(v: Seq<(&str, SpanId)>) -> Seq<(Seq<u8>, int)> {
    Seq::new(v.len(), |i: int| (encode_utf8(v[i].0@), v[i].1 as int))
}

impl<'a> View for SpanSink<'a> {
    type V = Tree;

    closed spec fn view(&self) -> Tree {
        Tree {
            nodes: nodes_view(self.nodes@),
            stack: frames_view(self.stack@),
            roots: ids_view(self.roots@),
            last: match self.last_closed {
                Some(id) => Some(id as int),
                None => None,
            },
            anchors: anchors_view(self.anchors@),
        }
    }
}

impl<'a> SpanSink<'a> {
    pub fn new() -> (r: Self)
        ensures
            r@ == Tree::blank(),
    {
        let r = SpanSink {
            nodes: Vec::new(),
            stack: Vec::new(),
            roots: Vec::new(),
            last_closed: None,
            anchors: Vec::new(),
        };
        assert(r@.nodes =~= Seq::empty());
        assert(r@.stack =~= Seq::empty());
        assert(r@.roots =~= Seq::empty());
        assert(r@.anchors =~= Seq::empty());
        r
    }

    /// The node numbered `id`.
    pub fn node(&self, id: SpanId) -> (r: &SpanNode<'a>)
        requires
            0 <= id < self@.nodes.len(),
        ensures
            r.v() == self@.nodes[id as int],
    {
        &self.nodes[id]
    }

    /// The root of each document, in order.
    pub fn roots(&self) -> (r: &Vec<SpanId>)
        ensures
            ids_view(r@) == self@.roots,
    {
        &self.roots
    }

    /// The anchors in the order of their definition, each with its node.
    pub fn anchors(&self) -> (r: &Vec<(&'a str, SpanId)>)
        ensures
            r@.len() == self@.anchors.len(),
            forall|i: int|
                0 <= i < r@.len() ==> (encode_utf8((#[trigger] r@[i]).0@), r@[i].1 as int) == self@.anchors[i],
    {
        &self.anchors
    }

    /// How many nodes there are.
    pub fn node_count(&self) -> (n: usize)
        ensures
            n == self@.nodes.len(),
    {
        self.nodes.len()
    }

    /// A node begins at `start`.
    pub fn open(&mut self, start: usize, delimited: bool)
        ensures
            final(self)@ == old(self)@.open(start as int, delimited),
    {
        self.last_closed = None;
        self.stack.push(Frame::new(start, delimited));
        proof {
            reveal(Tree::open);
            assert(self@.stack =~= old(self)@.open(start as int, delimited).stack);
        }
    }

    /// A finished node takes its place.
    fn attach(&mut self, node: SpanNode<'a>)
        ensures
            final(self)@ == old(self)@.attach(node.v()),
    {
        let ghost nv = node.v();
        let id: usize = self.nodes.len();
        let end: usize = node.span.end;
        self.nodes.push(node);
        self.last_closed = Some(id);
        assert(self@.nodes =~= old(self)@.attach(nv).nodes);
        match self.stack.pop() {
            None => {
                self.roots.push(id);
                proof {
                    assert(self@.roots =~= old(self)@.attach(nv).roots);
                    assert(self@.stack =~= old(self)@.attach(nv).stack);
                }
            },
            Some(frame) => {
                let mut f = frame;
                let ghost f0 = f.v();
                assert(f0 == old(self)@.stack.last());
                match f.pending_key {
                    Some((key_span, key_text)) => {
                        f.pending_key = None;
                        let ghost e0 = f.entries@;
                        f.entries.push(
                            Entry { key_span, key_text, value: id, span: Span { start: key_span.start, end } },
                        );
                        proof {
                            assert(f.v().entries =~= f0.entries.push(
                                EntryView {
                                    key: key_span.v(),
                                    text: text_view(key_text),
                                    value: id as int,
                                    span: Extent { a: key_span.start as int, b: end as int },
                                },
                            ));
                        }
                    },
                    None => {
                        f.children.push(id);
                        proof {
                            assert(f.v().children =~= f0.children.push(id as int));
                        }
                    },
                }
                self.stack.push(f);
                proof {
                    assert(self@.stack =~= old(self)@.attach(nv).stack);
                }
            },
        }
    }

    /// The innermost open node is finished; the cursor stands at `pos_hint`.
    pub fn close(&mut self, pos_hint: usize, src: &str)
        requires
            sound(old(self)@, encode_utf8(src@), pos_hint as int),
        ensures
            final(self)@ == old(self)@.close(pos_hint as int, encode_utf8(src@)),
    {
        let ghost s = encode_utf8(src@);
        let ghost t = self@;
        proof {
            reveal(sound);
            reveal(Tree::close);
        }
        match self.stack.pop() {
            None => {},
            Some(frame) => {
                let ghost f = frame.v();
                proof {
                    assert(f == t.stack.last());
                    assert(f == t.stack[t.stack.len() - 1]);
                    assert(sound_frame(f, t.nodes.len() as int, s, pos_hint as int));
                    assert(sound_items(f.children, t.nodes.len() as int));
                    assert(self@.stack =~= t.stack.drop_last());
                }
                let b = src.as_bytes();
                let end: usize = if frame.delimited || (frame.entries.len() == 0 && frame.children.len() == 0) {
                    trimmed_end(b, frame.start, pos_hint)
                } else if frame.entries.len() > 0 {
                    assert(f.entries.last() == frame.entries@.last().v());
                    frame.entries[frame.entries.len() - 1].span.end
                } else {
                    let c: usize = frame.children[frame.children.len() - 1];
                    assert(f.children[f.children.len() - 1] == c);
                    assert(self@.nodes == t.nodes);
                    assert(t.nodes[c as int] == self.nodes@[c as int].v());
                    self.nodes[c].span.end
                };
                let end: usize = if end < frame.start {
                    frame.start
                } else {
                    end
                };
                assert(end == t.end_of(f, pos_hint as int, s));
                let span = Span { start: frame.start, end };
                let kind = frame.kind;
                let delimited = frame.delimited;
                let shape = if frame.entries.len() > 0 {
                    Shape::Mapping(frame.entries)
                } else if frame.children.len() > 0 {
                    Shape::Sequence(frame.children)
                } else {
                    Shape::Leaf
                };
                let tags = Vec::new();
                assert(tags_view(tags@) =~= Seq::empty());
                self.attach(SpanNode { span, kind, anchor: None, shape, delimited, tags });
            },
        }
    }

    /// A node without any bytes.
    pub fn empty(&mut self, at: usize)
        ensures
            final(self)@ == old(self)@.empty(at as int),
    {
        proof {
            reveal(Tree::empty);
        }
        let tags = Vec::new();
        assert(tags_view(tags@) =~= Seq::empty());
        self.attach(
            SpanNode {
                span: Span { start: at, end: at },
                kind: NodeKind::Literal,
                anchor: None,
                shape: Shape::Leaf,
                delimited: false,
                tags,
            },
        );
    }

    /// A key of the innermost open node, whose value comes next.
    pub fn key(&mut self, span: Span, text: Option<Cow<'a, str>>)
        ensures
            final(self)@ == old(self)@.key(span.v(), text_view(text)),
    {
        let ghost t = self@;
        proof {
            reveal(Tree::key);
        }
        match self.stack.pop() {
            None => {},
            Some(frame) => {
                let mut f = frame;
                assert(f.v() == t.stack.last());
                f.pending_key = Some((span, text));
                self.stack.push(f);
                assert(self@.stack =~= t.key(span.v(), text_view(text)).stack);
            },
        }
    }

    /// The last item of the innermost open node turns out to be a key.
    pub fn promote_last_child_to_key(&mut self, text: Option<Cow<'a, str>>)
        requires
            old(self)@.stack.len() > 0 ==> sound_items(
                old(self)@.stack.last().children,
                old(self)@.nodes.len() as int,
            ),
        ensures
            final(self)@ == old(self)@.promote(text_view(text)),
    {
        let ghost t = self@;
        proof {
            reveal(Tree::promote);
        }
        match self.stack.pop() {
            None => {},
            Some(frame) => {
                let mut f = frame;
                let ghost f0 = f.v();
                assert(f0 == t.stack.last());
                match f.children.pop() {
                    None => {
                        assert(f.v().children =~= f0.children);
                    },
                    Some(id) => {
                        assert(f0.children[f0.children.len() - 1] == id);
                        assert(self@.nodes == t.nodes);
                        assert(t.nodes[id as int] == self.nodes@[id as int].v());
                        let span = self.nodes[id].span;
                        f.pending_key = Some((span, text));
                        assert(f.v().children =~= f0.children.drop_last());
                    },
                }
                self.stack.push(f);
                assert(self@.stack =~= t.promote(text_view(text)).stack);
            },
        }
    }

    /// The innermost open node turns out to be its only item.
    pub fn dissolve(&mut self)
        requires
            old(self)@.stack.len() > 0 ==> sound_items(
                old(self)@.stack.last().children,
                old(self)@.nodes.len() as int,
            ),
        ensures
            final(self)@ == old(self)@.dissolve(),
    {
        let ghost t = self@;
        proof {
            reveal(Tree::dissolve);
        }
        match self.stack.pop() {
            None => {},
            Some(frame) => {
                let ghost f0 = frame.v();
                assert(f0 == t.stack.last());
                if frame.children.len() == 0 {
                    self.stack.push(frame);
                    assert(self@.stack =~= t.stack);
                    return;
                }
                let id: usize = frame.children[frame.children.len() - 1];
                assert(f0.children[f0.children.len() - 1] == id);
                assert(self@.nodes == t.nodes);
                assert(t.nodes[id as int] == self.nodes@[id as int].v());
                let end: usize = self.nodes[id].span.end;
                self.last_closed = Some(id);
                assert(self@.stack =~= t.stack.drop_last());
                match self.stack.pop() {
                    None => {
                        self.roots.push(id);
                        proof {
                            assert(self@.roots =~= t.dissolve().roots);
                            assert(self@.stack =~= t.dissolve().stack);
                        }
                    },
                    Some(below) => {
                        let mut f = below;
                        let ghost f1 = f.v();
                        assert(f1 == t.stack.drop_last().last());
                        match f.pending_key {
                            Some((key_span, key_text)) => {
                                f.pending_key = None;
                                f.entries.push(
                                    Entry {
                                        key_span,
                                        key_text,
                                        value: id,
                                        span: Span { start: key_span.start, end },
                                    },
                                );
                                proof {
                                    assert(f.v().entries =~= f1.entries.push(
                                        EntryView {
                                            key: key_span.v(),
                                            text: text_view(key_text),
                                            value: id as int,
                                            span: Extent { a: key_span.start as int, b: end as int },
                                        },
                                    ));
                                }
                            },
                            None => {
                                f.children.push(id);
                                proof {
                                    assert(f.v().children =~= f1.children.push(id as int));
                                }
                            },
                        }
                        self.stack.push(f);
                        proof {
                            assert(self@.stack =~= t.dissolve().stack);
                        }
                    },
                }
            },
        }
    }

    /// The node finished last carries an anchor.
    pub fn set_anchor(&mut self, name: &'a str, token: Span)
        requires
            match old(self)@.last {
                Some(id) => 0 <= id < old(self)@.nodes.len(),
                None => true,
            },
        ensures
            final(self)@ == old(self)@.set_anchor(encode_utf8(name@), token.v()),
    {
        let ghost t = self@;
        proof {
            reveal(Tree::set_anchor);
        }
        match self.last_closed {
            Some(id) => {
                self.nodes[id].anchor = Some(Anchor { name, token });
                self.anchors.push((name, id));
                proof {
                    assert(self@.nodes =~= t.set_anchor(encode_utf8(name@), token.v()).nodes);
                    assert(self@.anchors =~= t.set_anchor(encode_utf8(name@), token.v()).anchors);
                }
            },
            None => {},
        }
    }

    /// The node finished last carries a tag.
    pub fn set_tag(&mut self, tag: &'a str)
        requires
            match old(self)@.last {
                Some(id) => 0 <= id < old(self)@.nodes.len(),
                None => true,
            },
        ensures
            final(self)@ == old(self)@.set_tag(encode_utf8(tag@)),
    {
        let ghost t = self@;
        proof {
            reveal(Tree::set_tag);
        }
        match self.last_closed {
            Some(id) => {
                self.nodes[id].tags.push(tag);
                proof {
                    assert(tags_view(self.nodes@[id as int].tags@) =~= t.nodes[id as int].tags.push(
                        encode_utf8(tag@),
                    ));
                    assert(self@.nodes =~= t.set_tag(encode_utf8(tag@)).nodes);
                }
            },
            None => {},
        }
    }

    /// The innermost open node is of this kind.
    pub fn kind_open(&mut self, kind: NodeKind<'a>)
        ensures
            final(self)@ == old(self)@.kind_open(kind@),
    {
        let ghost t = self@;
        proof {
            reveal(Tree::kind_open);
        }
        match self.stack.pop() {
            None => {},
            Some(frame) => {
                let mut f = frame;
                assert(f.v() == t.stack.last());
                f.kind = kind;
                self.stack.push(f);
                assert(self@.stack =~= t.kind_open(kind@).stack);
            },
        }
    }

    /// Whether every node that was opened has been closed.
    pub fn finish(&self) -> (r: bool)
        ensures
            r == (self@.stack.len() == 0),
    {
        self.stack.len() == 0
    }
}

/// Where a node's bytes really end.
fn trimmed_end(b: &[u8], start: usize, hint: usize) -> (r: usize)
    requires
        start <= hint <= b@.len(),
    ensures
        r == trimmed(b@, start as int, hint as int),
{
    let n: usize = scan_back(b, start, hint, Class::Breaks);
    scan_back(b, start, n, Class::Blank)
}

} // verus!
