//! What is read at a path.
use vstd::prelude::*;
use super::places::found;
use super::splice::docs::b_next;
use super::splice::growth::{good, kept};
use super::splice::mirror::{
    anchors_on, has_tags, lemma_bare_upto, lemma_known_none, lemma_mirrors_kept, m_node, mirrors, mirrors_bare,
    mirrors_upto,
};
use super::splice::reach::doc_number;
use super::splice::cut::Cut;
use super::splice::shift::{moved_entries, moved_node, moved_tree};
use super::streams::{lemma_entry_moved, lemma_start};
use super::edits::law_following_ends;
use crate::edit::locate::{alias_target, descend, entry_from, followed, linked, parts_below, resolved_path};
use crate::edit::sink::{grew, Extent, ShapeView, Tree};
use crate::edit::types::tagged;
use crate::edit::SegmentView;
use crate::parser::grammar::{at_start, documents, next_document, node, past_directives, stream, St};
use crate::parser::layout::{doc_marker, past_filler, past_marker};
use crate::text::{is_text, DASH};
use crate::value::{lit, merged, Val};

verus! {

/// What the next document of a stream is read as, its merges not yet resolved.
pub open spec fn raw_document(s: Seq<u8>, st: St) -> Val {
    let p = past_directives(s, past_filler(s, st.p));
    let q = if doc_marker(s, p, DASH) {
        past_marker(s, p)
    } else {
        p
    };
    (node(s, St { p: q, a: Seq::empty(), ..st }, 0)->Ok_0).0
}

/// The documents that follow `rs` in a stream, their merges not yet resolved.
pub open spec fn raw_documents(s: Seq<u8>, st: St, rs: Seq<Val>, bare: bool) -> Seq<Val>
    decreases s.len() - st.p, (if bare { 1int } else { 0 }),
        when 0 <= st.p <= s.len()
{
    match next_document(s, st, bare) {
        Ok((Some((_, ended)), st1)) => if st.p <= st1.p <= s.len() && (st.p < st1.p || (bare && !ended)) {
            raw_documents(s, st1, rs.push(raw_document(s, st)), ended)
        } else {
            rs
        },
        _ => rs,
    }
}

/// The documents of the stream `s`, their merges not yet resolved.
pub open spec fn raws(s: Seq<u8>) -> Seq<Val> {
    raw_documents(s, at_start(), Seq::empty(), true)
}

/// Whether the documents `vs` are `rs` with their merges resolved, and those were read
/// from the roots of the tree.
spec fn roots_mirror(s: Seq<u8>, t: Tree, vs: Seq<Val>, rs: Seq<Val>) -> bool {
    &&& vs.len() == rs.len() == t.roots.len()
    &&& forall|i: int| 0 <= i < rs.len() ==> #[trigger] vs[i] == merged(rs[i])
    &&& forall|i: int|
        0 <= i < rs.len() ==> 0 <= #[trigger] t.roots[i] < t.nodes.len() && mirrors(s, t, t.roots[i], rs[i])
}

proof fn lemma_raws(s: Seq<u8>, st: St, vs: Seq<Val>, rs: Seq<Val>, bare: bool)
    requires
        good(s, st),
        st.t.stack.len() == 0,
        documents(s, st, vs, bare) is Ok,
        roots_mirror(s, st.t, vs, rs),
    ensures
        roots_mirror(
            s,
            (documents(s, st, vs, bare)->Ok_0).1.t,
            (documents(s, st, vs, bare)->Ok_0).0,
            raw_documents(s, st, rs, bare),
        ),
    decreases s.len() - st.p, (if bare { 1int } else { 0 }),
{
    b_next(s, st, bare);
    let (o, st1) = next_document(s, st, bare)->Ok_0;
    if let Some((v, ended)) = o {
        reveal(next_document);
        let p = past_directives(s, past_filler(s, st.p));
        let q = if doc_marker(s, p, DASH) {
            past_marker(s, p)
        } else {
            p
        };
        let st0 = St { p: q, a: Seq::empty(), ..st };
        assert(anchors_on(st.t, st0.t));
        lemma_known_none(s, st0.t, st0.p);
        m_node(s, st0, 0);
        let r = raw_document(s, st);
        assert(v == merged(r));
        assert(st1.t.roots == st.t.roots.push(st1.t.last->0)) by {
            reveal(grew);
        }
        assert(st.t.nodes.len() <= st1.t.nodes.len()) by {
            reveal(kept);
        }
        let ws = vs.push(v);
        let us = rs.push(r);
        assert forall|i: int| 0 <= i < us.len() implies 0 <= #[trigger] st1.t.roots[i] < st1.t.nodes.len() && mirrors(
            s,
            st1.t,
            st1.t.roots[i],
            us[i],
        ) by {
            if i < rs.len() {
                assert(st1.t.roots[i] == st.t.roots[i]);
                lemma_mirrors_kept(s, st.t, st1.t, p, st.t.roots[i], rs[i]);
            }
        }
        lemma_raws(s, st1, ws, us, ended);
    }
}

/// The span tree has the shape of the documents: each root is what a document was read
/// from before its merges were resolved, item by item, entry by entry and tag by tag,
/// down to the bytes of its scalars.
pub proof fn law_tree_mirrors(s: Seq<u8>)
    requires
        is_text(s),
        stream(s) is Ok,
    ensures
        ({
            let (docs, st) = stream(s)->Ok_0;
            &&& raws(s).len() == docs.len() == st.t.roots.len()
            &&& forall|i: int| 0 <= i < docs.len() ==> #[trigger] docs[i] == merged(raws(s)[i])
            &&& forall|i: int| 0 <= i < docs.len() ==> mirrors(s, st.t, #[trigger] st.t.roots[i], raws(s)[i])
        }),
{
    lemma_start(s);
    lemma_raws(s, at_start(), Seq::empty(), Seq::empty(), true);
}

/// The place that `path` names in a value read from node `id`, through aliases.
pub open spec fn place(t: Tree, id: int, path: Seq<SegmentView>) -> Seq<int>
    decreases path.len(),
{
    if path.len() == 0 {
        Seq::empty()
    } else {
        match (path[0], t.nodes[target(t, id)].shape) {
            (SegmentView::Index(n), ShapeView::Items(c)) => seq![n] + place(t, c[n], path.skip(1)),
            (SegmentView::Key(k), ShapeView::Entries(es)) => match entry_from(es, k, 0) {
                Some(i) => seq![i] + place(t, es[i].value, path.skip(1)),
                None => Seq::empty(),
            },
            _ => Seq::empty(),
        }
    }
}

/// The node that `id` is, or stands for if it is an alias.
pub open spec fn target(t: Tree, id: int) -> int {
    match followed(t, id) {
        Some(def) => def,
        None => id,
    }
}

/// Whether neither node `id` nor what it stands for is tagged as null.
pub open spec fn visible(t: Tree, id: int) -> bool
    decreases id,
{
    &&& !t.nodes[id].tags.contains(lit("!!null"))
    &&& match alias_target(t, id) {
        Some(def) => 0 <= def < id ==> visible(t, def),
        None => true,
    }
}

/// Whether no collection on the way is tagged as null, which then stands in its place.
pub open spec fn in_sight(t: Tree, id: int, path: Seq<SegmentView>) -> bool
    decreases path.len(),
{
    path.len() == 0 || {
        &&& visible(t, id)
        &&& match (path[0], t.nodes[target(t, id)].shape) {
            (SegmentView::Index(n), ShapeView::Items(c)) => in_sight(t, c[n], path.skip(1)),
            (SegmentView::Key(k), ShapeView::Entries(es)) => match entry_from(es, k, 0) {
                Some(i) => in_sight(t, es[i].value, path.skip(1)),
                None => true,
            },
            _ => true,
        }
    }
}

/// The path inside its document.
pub open spec fn inner_path(path: Seq<SegmentView>) -> Seq<SegmentView> {
    if path.len() > 0 && path[0] is Doc {
        path.skip(1)
    } else {
        path
    }
}

/// What the parser reads at a path, before merges are resolved.
pub open spec fn read_at(s: Seq<u8>, path: Seq<SegmentView>) -> Option<Val> {
    let t = (stream(s)->Ok_0).1.t;
    found(raws(s)[doc_number(path)], place(t, t.roots[doc_number(path)], inner_path(path)))
}

/// Whether what the path names shows in its document.
pub open spec fn shown(t: Tree, path: Seq<SegmentView>) -> bool {
    in_sight(t, t.roots[doc_number(path)], inner_path(path))
}

/// Tags do not hide the parts of a collection, unless they make it null.
proof fn lemma_found_tagged(tags: Seq<Seq<u8>>, u: Val, ps: Seq<int>)
    requires
        u is List || u is Dict || u is Tagged,
        ps.len() > 0,
        !tags.contains(lit("!!null")),
    ensures
        found(tagged(tags, u), ps) == found(u, ps),
        tagged(tags, u) is List || tagged(tags, u) is Dict || tagged(tags, u) is Tagged,
    decreases tags.len(),
{
    if tags.len() > 0 {
        let rest = tags.drop_last();
        assert(!rest.contains(lit("!!null"))) by {
            if rest.contains(lit("!!null")) {
                let i = choose|i: int| 0 <= i < rest.len() && rest[i] == lit("!!null");
                assert(tags[i] == lit("!!null"));
            }
        }
        lemma_found_tagged(rest, u, ps);
        assert(tags[tags.len() - 1] == tags.last());
    }
}

/// The parts of a value are those of what its node stands for.
proof fn lemma_through(s: Seq<u8>, t: Tree, id: int, n: int, v: Val, ps: Seq<int>) -> (u: Val)
    requires
        mirrors_upto(s, t, id, n, v),
        0 <= n <= t.nodes[id].tags.len(),
        visible(t, id),
        followed(t, id) is Some,
        !(t.nodes[followed(t, id)->0].shape is Leaf),
        ps.len() > 0,
        0 <= id < t.nodes.len(),
    ensures
        mirrors_bare(s, t, followed(t, id)->0, u),
        found(v, ps) == found(u, ps),
        v is List || v is Dict || v is Tagged,
    decreases id,
{
    let w = lemma_bare_upto(s, t, id, n, v);
    let tags = t.nodes[id].tags.take(n);
    assert(!tags.contains(lit("!!null"))) by {
        if tags.contains(lit("!!null")) {
            let i = choose|i: int| 0 <= i < tags.len() && tags[i] == lit("!!null");
            assert(t.nodes[id].tags[i] == lit("!!null"));
        }
    }
    if t.nodes[id].kind is AliasRef {
        let def = alias_target(t, id)->0;
        let m = choose|m: int| #[trigger] has_tags(t, def, m) && mirrors_upto(s, t, def, m, w);
        let u = lemma_through(s, t, def, m, w, ps);
        lemma_found_tagged(tags, w, ps);
        u
    } else {
        lemma_found_tagged(tags, w, ps);
        w
    }
}

/// Whether `v` was read from node `id`, with tags.
pub open spec fn read_from(s: Seq<u8>, t: Tree, id: int, v: Val) -> bool {
    exists|tags: Seq<Seq<u8>>, u: Val| v == #[trigger] tagged(tags, u) && mirrors_bare(s, t, id, u)
}

proof fn lemma_joined(a: Seq<Seq<u8>>, b: Seq<Seq<u8>>, u: Val)
    ensures
        tagged(b, tagged(a, u)) == tagged(a + b, u),
    decreases b.len(),
{
    if b.len() > 0 {
        lemma_joined(a, b.drop_last(), u);
        assert((a + b).drop_last() =~= a + b.drop_last());
    } else {
        assert(a + b =~= a);
    }
}

/// A value was read from what its node stands for.
proof fn lemma_read_from(s: Seq<u8>, t: Tree, id: int, n: int, v: Val)
    requires
        mirrors_upto(s, t, id, n, v),
        followed(t, id) is Some,
        0 <= id < t.nodes.len(),
    ensures
        read_from(s, t, followed(t, id)->0, v),
    decreases id,
{
    let w = lemma_bare_upto(s, t, id, n, v);
    let tags = t.nodes[id].tags.take(n);
    if t.nodes[id].kind is AliasRef {
        let def = alias_target(t, id)->0;
        let m = choose|m: int| #[trigger] has_tags(t, def, m) && mirrors_upto(s, t, def, m, w);
        lemma_read_from(s, t, def, m, w);
        let d = followed(t, id)->0;
        let (a, u) = choose|a: Seq<Seq<u8>>, u: Val| w == #[trigger] tagged(a, u) && mirrors_bare(s, t, d, u);
        lemma_joined(a, tags, u);
        assert(v == tagged(a + tags, u));
    }
}

proof fn lemma_at_place(
    s: Seq<u8>,
    t: Tree,
    id: int,
    path: Seq<SegmentView>,
    v: Val,
    follow: bool,
    enclosing: Option<(Seq<u8>, int)>,
    key: Option<Extent>,
)
    requires
        mirrors(s, t, id, v),
        linked(t),
        0 <= id < t.nodes.len(),
        in_sight(t, id, path),
        descend(t, id, path, follow, enclosing, key) is Some,
        (descend(t, id, path, follow, enclosing, key)->0).node is Some,
        !(descend(t, id, path, follow, enclosing, key)->0).truncated,
    ensures
        found(v, place(t, id, path)) is Some,
        ({
            let n = (descend(t, id, path, follow, enclosing, key)->0).node->0;
            let w = found(v, place(t, id, path))->0;
            if follow {
                read_from(s, t, n, w)
            } else {
                mirrors(s, t, n, w)
            }
        }),
    decreases path.len(),
{
    if path.len() == 0 {
        if follow {
            lemma_read_from(s, t, id, t.nodes[id].tags.len() as int, v);
        }
    } else {
        let def = followed(t, id)->0;
        let x = t.nodes[def];
        let within = match x.anchor {
            Some((name, _)) => Some((name, def)),
            None => enclosing,
        };
        law_following_ends(t, id);
        let ps = place(t, id, path);
        match (path[0], x.shape) {
            (SegmentView::Index(n), ShapeView::Items(c)) => {
                let u = lemma_through(s, t, id, t.nodes[id].tags.len() as int, v, ps);
                let vs = u->List_0;
                assert(0 <= c[n] < def);
                lemma_at_place(s, t, c[n], path.skip(1), vs[n], follow, within, None);
                assert(ps.skip(1) =~= place(t, c[n], path.skip(1)));
            },
            (SegmentView::Key(k), ShapeView::Entries(es)) => {
                if let Some(i) = entry_from(es, k, 0) {
                    lemma_entry(es, k, 0);
                    let u = lemma_through(s, t, id, t.nodes[id].tags.len() as int, v, ps);
                    let kvs = u->Dict_0;
                    assert(0 <= es[i].value < def);
                    lemma_at_place(s, t, es[i].value, path.skip(1), kvs[i].1, follow, within, Some(es[i].key));
                    assert(ps.skip(1) =~= place(t, es[i].value, path.skip(1)));
                }
            },
            _ => {},
        }
    }
}

pub(crate) proof fn lemma_entry(es: Seq<crate::edit::sink::EntryView>, key: Seq<u8>, i: int)
    requires
        0 <= i,
    ensures
        match entry_from(es, key, i) {
            Some(j) => i <= j < es.len(),
            None => true,
        },
    decreases es.len() - i,
{
    if i < es.len() && es[i].text != Some(key) {
        lemma_entry(es, key, i + 1);
    }
}

/// A path names the same place in a tree that was moved.
pub(crate) proof fn lemma_place_moved(
    k: Cut,
    t: Tree,
    id: int,
    path: Seq<SegmentView>,
    enclosing: Option<(Seq<u8>, int)>,
    key: Option<Extent>,
)
    requires
        linked(t),
        0 <= id < t.nodes.len(),
        descend(t, id, path, false, enclosing, key) is Some,
        (descend(t, id, path, false, enclosing, key)->0).node is Some,
        !(descend(t, id, path, false, enclosing, key)->0).truncated,
    ensures
        in_sight(moved_tree(k, t), id, path) == in_sight(t, id, path),
        place(moved_tree(k, t), id, path) == place(t, id, path),
    decreases path.len(),
{
    reveal(moved_tree);
    let m = moved_tree(k, t);
    let x = t.nodes[id];
    assert(m.nodes[id] == moved_node(k, x));
    if path.len() > 0 {
        assert(followed(t, id) == Some(id));
        let within = match x.anchor {
            Some((name, _)) => Some((name, id)),
            None => enclosing,
        };
        assert(parts_below(x.shape, id)) by {
            reveal(linked);
        }
        match (path[0], x.shape) {
            (SegmentView::Index(n), ShapeView::Items(c)) => {
                assert(0 <= c[n] < id);
                lemma_place_moved(k, t, c[n], path.skip(1), within, None);
            },
            (SegmentView::Key(c), ShapeView::Entries(es)) => {
                lemma_entry_moved(k, es, c, 0);
                let i = entry_from(es, c, 0)->0;
                assert(0 <= es[i].value < id);
                assert(moved_entries(k, es)[i].value == es[i].value);
                lemma_place_moved(k, t, es[i].value, path.skip(1), within, Some(es[i].key));
            },
            _ => {},
        }
    }
}

/// A path that leads to a node leads to the value that was read from it.
pub proof fn law_path_reads_its_node(s: Seq<u8>, path: Seq<SegmentView>)
    requires
        is_text(s),
        stream(s) is Ok,
        ({
            let t = (stream(s)->Ok_0).1.t;
            let f = resolved_path(t, path, false);
            &&& f is Some && (f->0).node is Some && !(f->0).truncated
            &&& shown(t, path)
        }),
    ensures
        ({
            let t = (stream(s)->Ok_0).1.t;
            let id = (resolved_path(t, path, false)->0).node->0;
            &&& read_at(s, path) is Some
            &&& mirrors(s, t, id, read_at(s, path)->0)
        }),
{
    lemma_path_reads(s, path, false);
}

/// A path that is followed through aliases leads to the node that the value at the path
/// was read from: where an alias is met, to a part of what the alias stands for, which
/// the parser reads in its place.
pub proof fn law_following_reads_its_node(s: Seq<u8>, path: Seq<SegmentView>)
    requires
        is_text(s),
        stream(s) is Ok,
        ({
            let t = (stream(s)->Ok_0).1.t;
            let f = resolved_path(t, path, true);
            &&& f is Some && (f->0).node is Some
            &&& shown(t, path)
        }),
    ensures
        ({
            let t = (stream(s)->Ok_0).1.t;
            let id = (resolved_path(t, path, true)->0).node->0;
            &&& read_at(s, path) is Some
            &&& read_from(s, t, id, read_at(s, path)->0)
        }),
{
    let t = (stream(s)->Ok_0).1.t;
    lemma_never_truncated(t, t.roots[doc_number(path)], inner_path(path), None, None);
    lemma_path_reads(s, path, true);
}

proof fn lemma_never_truncated(
    t: Tree,
    id: int,
    path: Seq<SegmentView>,
    enclosing: Option<(Seq<u8>, int)>,
    key: Option<Extent>,
)
    ensures
        match descend(t, id, path, true, enclosing, key) {
            Some(f) => f.node is Some ==> !f.truncated,
            None => true,
        },
    decreases path.len(),
{
    if path.len() > 0 {
        if let Some(def) = followed(t, id) {
            let x = t.nodes[def];
            let within = match x.anchor {
                Some((name, _)) => Some((name, def)),
                None => enclosing,
            };
            match (path[0], x.shape) {
                (SegmentView::Index(n), ShapeView::Items(c)) => {
                    if 0 <= n < c.len() {
                        lemma_never_truncated(t, c[n], path.skip(1), within, None);
                    }
                },
                (SegmentView::Key(k), ShapeView::Entries(es)) => {
                    if let Some(i) = entry_from(es, k, 0) {
                        lemma_never_truncated(t, es[i].value, path.skip(1), within, Some(es[i].key));
                    }
                },
                _ => {},
            }
        }
    }
}

proof fn lemma_path_reads(s: Seq<u8>, path: Seq<SegmentView>, follow: bool)
    requires
        is_text(s),
        stream(s) is Ok,
        ({
            let t = (stream(s)->Ok_0).1.t;
            let f = resolved_path(t, path, follow);
            &&& f is Some && (f->0).node is Some && !(f->0).truncated
            &&& shown(t, path)
        }),
    ensures
        ({
            let t = (stream(s)->Ok_0).1.t;
            let id = (resolved_path(t, path, follow)->0).node->0;
            &&& read_at(s, path) is Some
            &&& if follow {
                read_from(s, t, id, read_at(s, path)->0)
            } else {
                mirrors(s, t, id, read_at(s, path)->0)
            }
        }),
{
    let (docs, st) = stream(s)->Ok_0;
    law_tree_mirrors(s);
    super::streams::law_stream_tree(s);
    crate::edit::locate::lemma_linked(st.t, s, st.p);
    let d = doc_number(path);
    assert(0 <= st.t.roots[d] < st.t.nodes.len()) by {
        reveal(linked);
    }
    lemma_at_place(s, st.t, st.t.roots[d], inner_path(path), raws(s)[d], follow, None, None);
}

} // verus!
