//! Paths to spans.
use vstd::prelude::*;
use vstd::utf8::*;
use super::sink::{
    entries_view, ids_view, sound, sound_entries, sound_entry, sound_items, sound_extent, sound_node, Entry,
    EntryView, Extent, NodeView, Shape, ShapeView, Span, SpanId, SpanNode, SpanSink, Tree,
};
use super::{path_view, KindView, LocatedView, NodeKind, Segment, SegmentView};
use crate::error::Error;
use crate::parser::grammar::stream;
use crate::parser::layout::Fail;
use crate::parser::{bom_len, bom_of, past_bom, report, Parser};
use crate::text::{is_text, same};
use crate::value::{cow_str, lit};

verus! {

pub open spec fn values_below(v: Seq<EntryView>, n: int) -> bool {
    forall|j: int| 0 <= j < v.len() ==> 0 <= (#[trigger] v[j]).value < n
}

/// Whether the parts of a shape are among the first `n` nodes.
pub open spec fn parts_below(x: ShapeView, n: int) -> bool {
    match x {
        ShapeView::Leaf => true,
        ShapeView::Items(v) => sound_items(v, n),
        ShapeView::Entries(v) => values_below(v, n),
    }
}

/// Whether every node is numbered after its parts, and roots and anchors are
/// nodes.
#[verifier::opaque]
pub open spec fn linked(t: Tree) -> bool {
    let n = t.nodes.len() as int;
    &&& forall|i: int| 0 <= i < n ==> parts_below((#[trigger] t.nodes[i]).shape, i)
    &&& forall|i: int| 0 <= i < t.roots.len() ==> 0 <= #[trigger] t.roots[i] < n
    &&& forall|i: int| 0 <= i < t.anchors.len() ==> 0 <= (#[trigger] t.anchors[i]).1 < n
}

pub proof fn lemma_linked(t: Tree, s: Seq<u8>, p: int)
    requires
        sound(t, s, p),
    ensures
        linked(t),
{
    reveal(sound);
    reveal(linked);
    assert forall|i: int| 0 <= i < t.nodes.len() implies parts_below((#[trigger] t.nodes[i]).shape, i) by {
        assert(sound_node(t.nodes[i], i, s, p));
        match t.nodes[i].shape {
            ShapeView::Leaf => {},
            ShapeView::Items(v) => {
                assert(sound_items(v, i));
            },
            ShapeView::Entries(v) => {
                assert(sound_entries(v, i, s, p));
                assert forall|j: int| 0 <= j < v.len() implies 0 <= (#[trigger] v[j]).value < i by {
                    assert(sound_entry(v[j], i, s, p));
                }
                assert(values_below(v, i));
            },
        }
    }
}

/// The node that the anchor `name` stood for when node `before` was read: the
/// last one given that name among the nodes before it.
///
/// Nodes are numbered as they end. So in `b: &x [*x]` the alias stands for an `x`
/// before that entry, whose value it reads, and not for the node it lies in.
pub open spec fn anchor_before(anchors: Seq<(Seq<u8>, int)>, name: Seq<u8>, before: int) -> Option<int>
    decreases anchors.len(),
{
    if anchors.len() == 0 {
        None
    } else if anchors.last().0 == name && anchors.last().1 < before {
        Some(anchors.last().1)
    } else {
        anchor_before(anchors.drop_last(), name, before)
    }
}

pub proof fn lemma_anchor_before(t: Tree, k: int, name: Seq<u8>, before: int)
    requires
        linked(t),
        0 <= k <= t.anchors.len(),
    ensures
        match anchor_before(t.anchors.take(k), name, before) {
            Some(id) => 0 <= id < before && id < t.nodes.len(),
            None => true,
        },
    decreases k,
{
    reveal(linked);
    if k > 0 {
        assert(t.anchors.take(k).last() == t.anchors[k - 1]);
        assert(t.anchors.take(k).drop_last() =~= t.anchors.take(k - 1));
        lemma_anchor_before(t, k - 1, name, before);
    }
}

/// The node that the alias `id` stands for.
pub open spec fn alias_target(t: Tree, id: int) -> Option<int> {
    match t.nodes[id].kind {
        KindView::AliasRef(name) => anchor_before(t.anchors, name, id),
        _ => None,
    }
}

/// The node that `id` stands for in the end, through aliases of aliases.
///
/// Each hop lands on a node read earlier, so it always ends.
pub open spec fn followed(t: Tree, id: int) -> Option<int>
    decreases id,
{
    if t.nodes[id].kind is AliasRef {
        match alias_target(t, id) {
            Some(def) => if 0 <= def < id {
                followed(t, def)
            } else {
                None
            },
            None => None,
        }
    } else {
        Some(id)
    }
}

/// The first entry from `i` on whose key has the text `key`.
pub open spec fn entry_from(es: Seq<EntryView>, key: Seq<u8>, i: int) -> Option<int>
    decreases es.len() - i,
{
    if !(0 <= i < es.len()) {
        None
    } else if es[i].text == Some(key) {
        Some(i)
    } else {
        entry_from(es, key, i + 1)
    }
}

/// What the items are, or stand for if they are aliases.
pub open spec fn all_followed(t: Tree, items: Seq<int>) -> Seq<int>
    decreases items.len(),
{
    if items.len() == 0 {
        Seq::empty()
    } else {
        let before = all_followed(t, items.drop_last());
        match followed(t, items.last()) {
            Some(def) => before.push(def),
            None => before,
        }
    }
}

/// The nodes that the value of a merge key brings in: the value or what it stands for,
/// or the items of that if it is a list.
pub open spec fn merge_sources(t: Tree, id: int) -> Seq<int> {
    match followed(t, id) {
        Some(def) => match t.nodes[def].shape {
            ShapeView::Items(items) => all_followed(t, items),
            _ => seq![def],
        },
        None => Seq::empty(),
    }
}

/// The value of `key` in the mapping `id`, its own or merged in.
pub open spec fn find_key(t: Tree, id: int, key: Seq<u8>) -> Option<int>
    decreases id, 2int, 0int,
{
    match t.nodes[id].shape {
        ShapeView::Entries(es) => match entry_from(es, key, 0) {
            Some(i) => Some(es[i].value),
            None => match find_merged(t, es, 0, key, id) {
                Some((_, v)) => Some(v),
                None => None,
            },
        },
        _ => None,
    }
}

/// The first merge among the entries from `i` on that brings in `key`, and the
/// value it brings. The entries belong to a node before `bound`.
pub open spec fn find_merged(t: Tree, es: Seq<EntryView>, i: int, key: Seq<u8>, bound: int) -> Option<(int, int)>
    decreases bound, 1int, es.len() - i,
{
    if !(0 <= i < es.len()) {
        None
    } else {
        let found = if es[i].text == Some(lit("<<")) {
            find_in(t, merge_sources(t, es[i].value), 0, key, bound)
        } else {
            None
        };
        match found {
            Some(v) => Some((i, v)),
            None => find_merged(t, es, i + 1, key, bound),
        }
    }
}

/// The value of `key` in the first of the mappings from `j` on that has it.
pub open spec fn find_in(t: Tree, sources: Seq<int>, j: int, key: Seq<u8>, bound: int) -> Option<int>
    decreases bound, 0int, sources.len() - j,
{
    if !(0 <= j < sources.len()) {
        None
    } else {
        let found = if 0 <= sources[j] < bound {
            find_key(t, sources[j], key)
        } else {
            None
        };
        match found {
            Some(v) => Some(v),
            None => find_in(t, sources, j + 1, key, bound),
        }
    }
}

/// The key of the first entry from `i` on whose value is node `v`.
pub open spec fn key_among(es: Seq<EntryView>, v: int, i: int) -> Option<Extent>
    decreases es.len() - i,
{
    if !(0 <= i < es.len()) {
        None
    } else if es[i].value == v {
        Some(es[i].key)
    } else {
        key_among(es, v, i + 1)
    }
}

/// The key of the entry that owns node `v`, among the nodes from `d` on.
pub open spec fn owner_key(t: Tree, v: int, d: int) -> Option<Extent>
    decreases t.nodes.len() - d,
{
    if !(0 <= d < t.nodes.len()) {
        None
    } else {
        let here = match t.nodes[d].shape {
            ShapeView::Entries(es) => key_among(es, v, 0),
            _ => None,
        };
        match here {
            Some(x) => Some(x),
            None => owner_key(t, v, d + 1),
        }
    }
}

/// Whether what lies at `x` is inside a flow collection.
pub open spec fn in_flow(t: Tree, x: Extent) -> bool {
    exists|i: int|
        0 <= i < t.nodes.len() && (#[trigger] t.nodes[i]).delimited && t.nodes[i].span.a < x.a && x.b
            < t.nodes[i].span.b
}

/// Where a path leads.
pub struct Found {
    pub located: LocatedView,
    pub node: Option<int>,
    /// An anchor passed on the way down. Editing anything beneath it reaches that
    /// anchor's aliases too.
    pub enclosing: Option<(Seq<u8>, int)>,
    /// The key of the entry that owns the value, if there is one.
    pub key: Option<Extent>,
    /// Whether the descent stopped at an alias with path left over.
    pub truncated: bool,
    /// For an inherited key, the node it resolves to.
    pub inherited: Option<int>,
}

/// The name of the anchor that a node defines.
pub open spec fn anchor_name(x: NodeView) -> Option<Seq<u8>> {
    match x.anchor {
        Some((name, _)) => Some(name),
        None => None,
    }
}

/// A path that leads to the node `id`.
pub open spec fn found_node(
    t: Tree,
    id: int,
    enclosing: Option<(Seq<u8>, int)>,
    key: Option<Extent>,
    truncated: bool,
) -> Found {
    let x = t.nodes[id];
    Found {
        located: LocatedView { span: x.span, kind: x.kind, anchor: anchor_name(x) },
        node: Some(id),
        enclosing,
        key,
        truncated,
        inherited: None,
    }
}

/// Where `path` leads from the node `id` on.
///
/// An alias on the way ends the descent, unless aliases are to be followed.
pub open spec fn descend(
    t: Tree,
    id: int,
    path: Seq<SegmentView>,
    follow: bool,
    enclosing: Option<(Seq<u8>, int)>,
    key: Option<Extent>,
) -> Option<Found>
    decreases path.len(),
{
    if path.len() == 0 {
        if follow {
            match followed(t, id) {
                Some(def) => Some(
                    found_node(
                        t,
                        def,
                        enclosing,
                        if def == id {
                            key
                        } else {
                            owner_key(t, def, 0)
                        },
                        false,
                    ),
                ),
                None => None,
            }
        } else {
            Some(found_node(t, id, enclosing, key, false))
        }
    } else if t.nodes[id].kind is AliasRef && !follow {
        Some(found_node(t, id, enclosing, key, true))
    } else {
        match followed(t, id) {
            None => None,
            Some(def) => {
                let x = t.nodes[def];
                let within = match x.anchor {
                    Some((name, _)) => Some((name, def)),
                    None => enclosing,
                };
                match (path[0], x.shape) {
                    (SegmentView::Index(n), ShapeView::Items(items)) => if 0 <= n < items.len() {
                        descend(t, items[n], path.skip(1), follow, within, None)
                    } else {
                        None
                    },
                    (SegmentView::Key(k), ShapeView::Entries(es)) => match entry_from(es, k, 0) {
                        Some(i) => descend(t, es[i].value, path.skip(1), follow, within, Some(es[i].key)),
                        None => match find_merged(t, es, 0, k, def) {
                            Some((i, v)) => Some(
                                Found {
                                    located: LocatedView {
                                        span: es[i].span,
                                        kind: KindView::MergeInherited,
                                        anchor: None,
                                    },
                                    node: None,
                                    enclosing: within,
                                    key: None,
                                    truncated: path.len() > 1,
                                    inherited: Some(v),
                                },
                            ),
                            None => None,
                        },
                    },
                    _ => None,
                }
            },
        }
    }
}

/// Where `path` leads in the stream; a leading document number selects the
/// document, which is the first one otherwise.
pub open spec fn resolved_path(t: Tree, path: Seq<SegmentView>, follow: bool) -> Option<Found> {
    let (doc, rest) = if path.len() > 0 && path[0] is Doc {
        (path[0]->Doc_0, path.skip(1))
    } else {
        (0, path)
    };
    if 0 <= doc < t.roots.len() {
        descend(t, t.roots[doc], rest, follow, None, None)
    } else {
        None
    }
}

/// Whether node `d` is a mapping with an entry `i`.
pub open spec fn has_entry(t: Tree, d: int, i: int) -> bool {
    &&& 0 <= d < t.nodes.len()
    &&& t.nodes[d].shape is Entries
    &&& 0 <= i < t.nodes[d].shape->Entries_0.len()
}

/// Entry `i` of node `d`.
pub open spec fn entry_at(t: Tree, d: int, i: int) -> EntryView {
    t.nodes[d].shape->Entries_0[i]
}

/// Whether what was found lies in the tree: its span is that of its node, or of
/// an entry if it is inherited, and its key is that of an entry.
pub open spec fn in_tree(t: Tree, f: Found) -> bool {
    &&& match f.node {
        Some(id) => 0 <= id < t.nodes.len() && f.located.span == t.nodes[id].span && f.located.kind
            == t.nodes[id].kind,
        None => f.located.kind is MergeInherited && exists|d: int, i: int|
            #[trigger] has_entry(t, d, i) && f.located.span == entry_at(t, d, i).span,
    }
    &&& f.key is Some ==> exists|d: int, i: int| #[trigger] has_entry(t, d, i) && f.key->0 == entry_at(t, d, i).key
    &&& f.inherited is Some ==> 0 <= f.inherited->0 < t.nodes.len()
    &&& f.enclosing is Some ==> 0 <= (f.enclosing->0).1 < t.nodes.len()
}

/// What was found lies on character boundaries of the text.
pub proof fn lemma_in_tree(t: Tree, f: Found, s: Seq<u8>, p: int)
    requires
        sound(t, s, p),
        in_tree(t, f),
    ensures
        sound_extent(f.located.span, s, p),
        f.key is Some ==> sound_extent(f.key->0, s, p),
        f.inherited is Some ==> sound_extent(t.nodes[f.inherited->0].span, s, p),
        f.located.kind is MergeInherited <==> f.node is None,
{
    reveal(sound);
    if f.node is Some {
        assert(sound_node(t.nodes[f.node->0], f.node->0, s, p));
    } else {
        let (d, i) = choose|d: int, i: int|
            #[trigger] has_entry(t, d, i) && f.located.span == entry_at(t, d, i).span;
        assert(sound_node(t.nodes[d], d, s, p));
        assert(sound_entries(t.nodes[d].shape->Entries_0, d, s, p));
        assert(sound_entry(t.nodes[d].shape->Entries_0[i], d, s, p));
    }
    if f.key is Some {
        let (d, i) = choose|d: int, i: int| #[trigger] has_entry(t, d, i) && f.key->0 == entry_at(t, d, i).key;
        assert(sound_node(t.nodes[d], d, s, p));
        assert(sound_entries(t.nodes[d].shape->Entries_0, d, s, p));
        assert(sound_entry(t.nodes[d].shape->Entries_0[i], d, s, p));
    }
    if f.inherited is Some {
        assert(sound_node(t.nodes[f.inherited->0], f.inherited->0, s, p));
    }
}

pub struct Resolved<'a> {
    pub span: Span,
    pub kind: NodeKind<'a>,
    pub anchor: Option<&'a str>,
    pub node: Option<SpanId>,
    /// An anchor definition passed through on the way down. Editing anything beneath it reaches
    /// that anchor's aliases too.
    pub enclosing_anchor: Option<(&'a str, SpanId)>,
    /// Key extent of the entry that owns this value, when it has one.
    pub key_span: Option<Span>,
    /// Descent stopped at an alias or an inherited key with path left over
    pub truncated: bool,
    /// For a `MergeInherited` result, the node the key resolves to in the merge source. Its text is
    /// the model for an override.
    pub inherited: Option<SpanId>,
}

pub open spec fn name_view(x: Option<&str>) -> Option<Seq<u8>> {
    match x {
        Some(n) => Some(encode_utf8(n@)),
        None => None,
    }
}

pub open spec fn within_view(x: Option<(&str, SpanId)>) -> Option<(Seq<u8>, int)> {
    match x {
        Some((n, id)) => Some((encode_utf8(n@), id as int)),
        None => None,
    }
}

pub open spec fn id_view(x: Option<SpanId>) -> Option<int> {
    match x {
        Some(id) => Some(id as int),
        None => None,
    }
}

pub open spec fn span_view(x: Option<Span>) -> Option<Extent> {
    match x {
        Some(e) => Some(e.v()),
        None => None,
    }
}

impl<'a> Resolved<'a> {
    pub open spec fn v(self) -> Found {
        Found {
            located: LocatedView { span: self.span.v(), kind: self.kind@, anchor: name_view(self.anchor) },
            node: id_view(self.node),
            enclosing: within_view(self.enclosing_anchor),
            key: span_view(self.key_span),
            truncated: self.truncated,
            inherited: id_view(self.inherited),
        }
    }
}

impl<'a> SpanSink<'a> {
    /// The node that the anchor `name` stood for when node `before` was read.
    pub(crate) fn anchor_before(&self, name: &str, before: SpanId) -> (r: Option<SpanId>)
        requires
            linked(self@),
        ensures
            id_view(r) == anchor_before(self@.anchors, encode_utf8(name@), before as int),
            r is Some ==> r->0 < before && r->0 < self@.nodes.len(),
    {
        let list = self.anchors();
        let ghost a = self@.anchors;
        let ghost nm = encode_utf8(name@);
        let mut i: usize = list.len();
        assert(a.take(i as int) =~= a);
        proof {
            lemma_anchor_before(self@, i as int, nm, before as int);
        }
        while i > 0
            invariant
                a == self@.anchors,
                nm == encode_utf8(name@),
                i <= list@.len(),
                list@.len() == a.len(),
                forall|j: int| 0 <= j < list@.len() ==> (encode_utf8((#[trigger] list@[j]).0@), list@[j].1 as int) == a[j],
                anchor_before(a, nm, before as int) == anchor_before(a.take(i as int), nm, before as int),
                anchor_before(a, nm, before as int) is Some ==> anchor_before(a, nm, before as int)->0 < before
                    && anchor_before(a, nm, before as int)->0 < self@.nodes.len(),
            decreases i,
        {
            i = i - 1;
            proof {
                assert(a.take(i + 1).last() == a[i as int]);
                assert(a.take(i + 1).drop_last() =~= a.take(i as int));
                assert((encode_utf8(list@[i as int].0@), list@[i as int].1 as int) == a[i as int]);
            }
            if same(list[i].0, name) && list[i].1 < before {
                return Some(list[i].1);
            }
        }
        None
    }

    /// The node that the alias `id` stands for.
    pub(crate) fn target_of(&self, id: SpanId) -> (r: Option<SpanId>)
        requires
            linked(self@),
            id < self@.nodes.len(),
        ensures
            id_view(r) == alias_target(self@, id as int),
            r is Some ==> r->0 < id,
    {
        match self.node(id).kind {
            NodeKind::AliasRef(name) => self.anchor_before(name, id),
            _ => None,
        }
    }
}

/// Resolve alias chain to the node it actually names
///
/// Each hop lands on an anchor defined earlier in the source, so it always terminates
pub(crate) fn follow_alias(sink: &SpanSink<'_>, start: SpanId) -> (r: Option<SpanId>)
    requires
        linked(sink@),
        start < sink@.nodes.len(),
    ensures
        id_view(r) == followed(sink@, start as int),
        r is Some ==> r->0 <= start,
        r is Some ==> !(sink@.nodes[r->0 as int].kind is AliasRef),
{
    let mut id: usize = start;
    loop
        invariant
            linked(sink@),
            id <= start,
            start < sink@.nodes.len(),
            followed(sink@, start as int) == followed(sink@, id as int),
        decreases id,
    {
        match sink.node(id).kind {
            NodeKind::AliasRef(_) => match sink.target_of(id) {
                Some(def) => {
                    id = def;
                },
                None => {
                    return None;
                },
            },
            _ => {
                return Some(id);
            },
        }
    }
}

/// Whether the key of `e` has the text `key`.
fn has_text(e: &Entry<'_>, key: &str) -> (r: bool)
    ensures
        r == (e.v().text == Some(encode_utf8(key@))),
{
    match &e.key_text {
        Some(c) => same(cow_str(c), key),
        None => false,
    }
}

/// The first entry whose key has the text `key`.
fn entry(es: &Vec<Entry<'_>>, key: &str) -> (r: Option<usize>)
    ensures
        id_view(r) == entry_from(entries_view(es@), encode_utf8(key@), 0),
        r is Some ==> r->0 < es@.len(),
{
    let mut i: usize = 0;
    while i < es.len()
        invariant
            i <= es@.len(),
            entry_from(entries_view(es@), encode_utf8(key@), 0) == entry_from(
                entries_view(es@),
                encode_utf8(key@),
                i as int,
            ),
        decreases es@.len() - i,
    {
        assert(entries_view(es@)[i as int] == es@[i as int].v());
        if has_text(&es[i], key) {
            return Some(i);
        }
        i = i + 1;
    }
    None
}

/// The nodes that the value of a merge key brings in.
fn sources_of(sink: &SpanSink<'_>, value: SpanId) -> (r: Vec<SpanId>)
    requires
        linked(sink@),
        value < sink@.nodes.len(),
    ensures
        ids_view(r@) == merge_sources(sink@, value as int),
        forall|j: int| 0 <= j < r@.len() ==> #[trigger] r@[j] <= value,
{
    let mut out: Vec<SpanId> = Vec::new();
    assert(ids_view(out@) =~= Seq::empty());
    let def: usize = match follow_alias(sink, value) {
        Some(d) => d,
        None => {
            return out;
        },
    };
    match &sink.node(def).shape {
        Shape::Sequence(items) => {
            let ghost all = ids_view(items@);
            let mut i: usize = 0;
            assert(all.take(0) =~= Seq::<int>::empty());
            proof {
                reveal(linked);
                assert(sink@.nodes[def as int].shape == ShapeView::Items(all));
                assert(parts_below(sink@.nodes[def as int].shape, def as int));
                assert(sound_items(all, def as int));
            }
            while i < items.len()
                invariant
                    linked(sink@),
                    def <= value < sink@.nodes.len(),
                    i <= items@.len(),
                    all == ids_view(items@),
                    forall|j: int| 0 <= j < all.len() ==> 0 <= #[trigger] all[j] < def,
                    ids_view(out@) == all_followed(sink@, all.take(i as int)),
                    forall|j: int| 0 <= j < out@.len() ==> #[trigger] out@[j] <= value,
                decreases items@.len() - i,
            {
                assert(all[i as int] == items@[i as int]);
                assert(all.take(i + 1).drop_last() =~= all.take(i as int));
                assert(all.take(i + 1).last() == all[i as int]);
                let ghost before = out@;
                if let Some(d) = follow_alias(sink, items[i]) {
                    out.push(d);
                    assert(ids_view(out@) =~= ids_view(before).push(d as int));
                }
                i = i + 1;
            }
            assert(all.take(i as int) =~= all);
        },
        _ => {
            out.push(def);
            assert(ids_view(out@) =~= seq![def as int]);
        },
    }
    out
}

/// The value of `key` in the mapping `id`, its own or merged in.
fn lookup(sink: &SpanSink<'_>, id: SpanId, key: &str) -> (r: Option<SpanId>)
    requires
        linked(sink@),
        id < sink@.nodes.len(),
    ensures
        id_view(r) == find_key(sink@, id as int, encode_utf8(key@)),
        r is Some ==> r->0 < id,
    decreases id, 2int,
{
    match &sink.node(id).shape {
        Shape::Mapping(es) => {
            proof {
                reveal(linked);
                assert(sink@.nodes[id as int].shape == ShapeView::Entries(entries_view(es@)));
            }
            match entry(es, key) {
                Some(i) => {
                    assert(entries_view(es@)[i as int] == es@[i as int].v());
                    Some(es[i].value)
                },
                None => match merge_lookup(sink, es, key, id) {
                    Some((_, v)) => Some(v),
                    None => None,
                },
            }
        },
        _ => None,
    }
}

/// The first merge among the entries of `id` that brings in `key`, and the value
/// it brings.
fn merge_lookup(sink: &SpanSink<'_>, es: &Vec<Entry<'_>>, key: &str, id: SpanId) -> (r: Option<(usize, SpanId)>)
    requires
        linked(sink@),
        id < sink@.nodes.len(),
        sink@.nodes[id as int].shape == ShapeView::Entries(entries_view(es@)),
    ensures
        match r {
            Some((i, v)) => find_merged(sink@, entries_view(es@), 0, encode_utf8(key@), id as int) == Some(
                (i as int, v as int),
            ) && i < es@.len() && v < id,
            None => find_merged(sink@, entries_view(es@), 0, encode_utf8(key@), id as int) is None,
        },
    decreases id, 1int,
{
    let ghost t = sink@;
    let ghost all = entries_view(es@);
    let ghost k = encode_utf8(key@);
    let mut i: usize = 0;
    while i < es.len()
        invariant
            t == sink@,
            linked(t),
            id < t.nodes.len(),
            t.nodes[id as int].shape == ShapeView::Entries(all),
            all == entries_view(es@),
            k == encode_utf8(key@),
            i <= es@.len(),
            find_merged(t, all, 0, k, id as int) == find_merged(t, all, i as int, k, id as int),
        decreases es@.len() - i,
    {
        proof {
            assert(all[i as int] == es@[i as int].v());
            reveal(linked);
            assert(parts_below(t.nodes[id as int].shape, id as int));
            assert(values_below(all, id as int));
            assert(0 <= all[i as int].value < id);
        }
        if has_text(&es[i], "<<") {
            let sources = sources_of(sink, es[i].value);
            let ghost srcs = ids_view(sources@);
            let mut j: usize = 0;
            while j < sources.len()
                invariant
                    t == sink@,
                    linked(t),
                    id < t.nodes.len(),
                    k == encode_utf8(key@),
                    srcs == ids_view(sources@),
                    j <= sources@.len(),
                    forall|m: int| 0 <= m < sources@.len() ==> #[trigger] sources@[m] < id,
                    find_in(t, srcs, 0, k, id as int) == find_in(t, srcs, j as int, k, id as int),
                    i < es@.len(),
                    all == entries_view(es@),
                    all[i as int].text == Some(lit("<<")),
                    srcs == merge_sources(t, all[i as int].value),
                    find_merged(t, all, 0, k, id as int) == find_merged(t, all, i as int, k, id as int),
                decreases sources@.len() - j,
            {
                assert(srcs[j as int] == sources@[j as int]);
                if let Some(v) = lookup(sink, sources[j], key) {
                    return Some((i, v));
                }
                j = j + 1;
            }
        }
        i = i + 1;
    }
    None
}

/// What a node's anchor is called.
fn anchor_of<'a>(node: &SpanNode<'a>) -> (r: Option<&'a str>)
    ensures
        name_view(r) == anchor_name(node.v()),
{
    match node.anchor {
        Some(a) => Some(a.name),
        None => None,
    }
}

fn reached<'a>(
    sink: &SpanSink<'a>,
    id: SpanId,
    enclosing_anchor: Option<(&'a str, SpanId)>,
    key_span: Option<Span>,
    truncated: bool,
) -> (r: Resolved<'a>)
    requires
        id < sink@.nodes.len(),
    ensures
        r.v() == found_node(
            sink@,
            id as int,
            within_view(enclosing_anchor),
            span_view(key_span),
            truncated,
        ),
{
    let node = sink.node(id);
    Resolved {
        span: node.span,
        kind: node.kind,
        anchor: anchor_of(node),
        node: Some(id),
        enclosing_anchor,
        key_span,
        truncated,
        inherited: None,
    }
}

/// The key of the entry that owns node `v`.
fn key_owner(sink: &SpanSink<'_>, v: SpanId) -> (r: Option<Span>)
    ensures
        span_view(r) == owner_key(sink@, v as int, 0),
        r is Some ==> exists|d: int, i: int|
            #[trigger] has_entry(sink@, d, i) && (r->0).v() == entry_at(sink@, d, i).key,
{
    let n: usize = sink.node_count();
    let mut d: usize = 0;
    while d < n
        invariant
            n == sink@.nodes.len(),
            d <= n,
            owner_key(sink@, v as int, 0) == owner_key(sink@, v as int, d as int),
        decreases n - d,
    {
        if let Shape::Mapping(es) = &sink.node(d).shape {
            let ghost all = entries_view(es@);
            assert(sink@.nodes[d as int].shape == ShapeView::Entries(all));
            let mut i: usize = 0;
            while i < es.len()
                invariant
                    d < sink@.nodes.len(),
                    all == entries_view(es@),
                    sink@.nodes[d as int].shape == ShapeView::Entries(all),
                    i <= es@.len(),
                    key_among(all, v as int, 0) == key_among(all, v as int, i as int),
                    owner_key(sink@, v as int, 0) == owner_key(sink@, v as int, d as int),
                decreases es@.len() - i,
            {
                assert(all[i as int] == es@[i as int].v());
                if es[i].value == v {
                    assert(has_entry(sink@, d as int, i as int));
                    return Some(es[i].key_span);
                }
                i = i + 1;
            }
        }
        d = d + 1;
    }
    None
}

/// Whether what lies at `x` is inside a flow collection.
pub(crate) fn lies_in_flow(sink: &SpanSink<'_>, x: Span) -> (r: bool)
    ensures
        r == in_flow(sink@, x.v()),
{
    let n: usize = sink.node_count();
    let mut i: usize = 0;
    while i < n
        invariant
            n == sink@.nodes.len(),
            i <= n,
            forall|j: int|
                0 <= j < i ==> !((#[trigger] sink@.nodes[j]).delimited && sink@.nodes[j].span.a < x.v().a && x.v().b
                    < sink@.nodes[j].span.b),
        decreases n - i,
    {
        let node = sink.node(i);
        if node.delimited && node.span.start < x.start && x.end < node.span.end {
            return true;
        }
        i = i + 1;
    }
    false
}

/// Where a path leads in the stream.
pub(crate) fn resolve<'a>(sink: &SpanSink<'a>, path: &[Segment<'_>], follow: bool) -> (r: Option<Resolved<'a>>)
    requires
        linked(sink@),
    ensures
        match (r, resolved_path(sink@, path_view(path@), follow)) {
            (Some(x), Some(f)) => x.v() == f,
            (None, None) => true,
            _ => false,
        },
        r is Some ==> in_tree(sink@, r->0.v()),
{
    let ghost t = sink@;
    let ghost full = path_view(path@);
    let mut at: usize = 0;
    let mut doc: usize = 0;
    if path.len() > 0 {
        assert(full[0] == path@[0]@);
        if let Segment::Doc(n) = path[0] {
            doc = n;
            at = 1;
        }
    }
    let roots = sink.roots();
    assert(t.roots =~= ids_view(roots@));
    if doc >= roots.len() {
        return None;
    }
    let mut id: usize = roots[doc];
    proof {
        reveal(linked);
        assert(t.roots[doc as int] == id);
    }
    let mut enclosing: Option<(&'a str, SpanId)> = None;
    let mut key: Option<Span> = None;
    assert(full.skip(0) =~= full);
    while at < path.len()
        invariant
            t == sink@,
            linked(t),
            full == path_view(path@),
            at <= path@.len(),
            id < t.nodes.len(),
            enclosing is Some ==> (enclosing->0).1 < t.nodes.len(),
            key is Some ==> exists|d: int, i: int|
                #[trigger] has_entry(t, d, i) && (key->0).v() == entry_at(t, d, i).key,
            resolved_path(t, full, follow) == descend(
                t,
                id as int,
                full.skip(at as int),
                follow,
                within_view(enclosing),
                span_view(key),
            ),
        decreases path@.len() - at,
    {
        let ghost rest = full.skip(at as int);
        proof {
            assert(rest[0] == path@[at as int]@);
            assert(rest.skip(1) =~= full.skip(at + 1));
        }
        if let NodeKind::AliasRef(_) = sink.node(id).kind {
            if !follow {
                return Some(reached(sink, id, enclosing, key, true));
            }
        }
        let def: usize = match follow_alias(sink, id) {
            Some(d) => d,
            None => {
                return None;
            },
        };
        let node = sink.node(def);
        // Anything below an anchor definition reaches that anchor's aliases
        if let Some(a) = node.anchor {
            enclosing = Some((a.name, def));
        }
        match (path[at], &node.shape) {
            (Segment::Index(n), Shape::Sequence(items)) => {
                if n >= items.len() {
                    return None;
                }
                proof {
                    reveal(linked);
                    assert(t.nodes[def as int].shape == ShapeView::Items(ids_view(items@)));
                    assert(ids_view(items@)[n as int] == items@[n as int]);
                }
                id = items[n];
                key = None;
            },
            (Segment::Key(k), Shape::Mapping(es)) => {
                proof {
                    assert(t.nodes[def as int].shape == ShapeView::Entries(entries_view(es@)));
                }
                match entry(es, k) {
                    Some(i) => {
                        proof {
                            reveal(linked);
                            assert(entries_view(es@)[i as int] == es@[i as int].v());
                        }
                        key = Some(es[i].key_span);
                        id = es[i].value;
                        assert(has_entry(t, def as int, i as int));
                    },
                    None => {
                        return match merge_lookup(sink, es, k, def) {
                            Some((i, v)) => {
                                assert(entries_view(es@)[i as int] == es@[i as int].v());
                                assert(has_entry(t, def as int, i as int));
                                Some(
                                    Resolved {
                                        span: es[i].span,
                                        kind: NodeKind::MergeInherited,
                                        anchor: None,
                                        node: None,
                                        enclosing_anchor: enclosing,
                                        key_span: None,
                                        truncated: at + 1 < path.len(),
                                        inherited: Some(v),
                                    },
                                )
                            },
                            None => None,
                        };
                    },
                }
            },
            _ => {
                return None;
            },
        }
        at = at + 1;
    }
    assert(full.skip(at as int) =~= Seq::empty());
    if follow {
        match follow_alias(sink, id) {
            Some(def) => {
                if def != id {
                    key = key_owner(sink, def);
                }
                Some(reached(sink, def, enclosing, key, false))
            },
            None => None,
        }
    } else {
        Some(reached(sink, id, enclosing, key, false))
    }
}

/// The span tree of `src`, and the length of its byte order mark.
pub(crate) fn spans(src: &str) -> (r: Result<(Box<SpanSink<'_>>, usize), Error>)
    ensures
        match (r, stream(past_bom(encode_utf8(src@)))) {
            (Ok((sink, bom)), Ok((_, st))) => sink@ == st.t && bom == bom_len(encode_utf8(src@)) && sound(
                st.t,
                past_bom(encode_utf8(src@)),
                st.p,
            ) && st.p <= past_bom(encode_utf8(src@)).len() && is_text(past_bom(encode_utf8(src@))) && st.t.roots.len()
                == (stream(past_bom(encode_utf8(src@)))->Ok_0).0.len(),
            (Err(e), Err(f)) => e@ == report(past_bom(encode_utf8(src@)), f),
            _ => false,
        },
{
    let mut parser = Parser::with_spans(src);
    match parser.parse_all() {
        Ok(_) => Ok((parser.take_sink(), bom_of(src))),
        Err(e) => Err(e),
    }
}

/// `x` moved on by `by` bytes.
pub open spec fn moved(x: Extent, by: int) -> Extent {
    Extent { a: x.a + by, b: x.b + by }
}

/// What was located, as it lies in the text with its byte order mark.
pub open spec fn shifted(x: LocatedView, bom: int) -> LocatedView {
    LocatedView { span: moved(x.span, bom), ..x }
}

/// Where `path` leads in the stream `s`: an error if it cannot be read.
pub open spec fn location(s: Seq<u8>, path: Seq<SegmentView>) -> Result<Option<LocatedView>, Fail> {
    match stream(past_bom(s)) {
        Err(f) => Err(f),
        Ok((_, st)) => match resolved_path(st.t, path, false) {
            Some(f) => Ok(Some(shifted(f.located, bom_len(s)))),
            None => Ok(None),
        },
    }
}

} // verus!
