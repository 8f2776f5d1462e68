//! What a path names in the value that is read.
use vstd::prelude::*;
use super::edits::{law_following_ends, lemma_path_node};
use super::splice::mirror::{has_tags, key_says, lemma_bare_upto, mirrors, mirrors_bare, mirrors_upto};
use super::splice::reach::doc_number;
use super::streams::law_stream_tree;
use super::values::{
    in_sight, inner_path, law_path_reads_its_node, law_tree_mirrors, lemma_entry, place, raws, read_at, shown,
    visible,
};
use crate::edit::locate::{
    all_followed, find_in, find_key, find_merged, merge_sources, alias_target, descend, entry_from, followed,
    lemma_linked, linked, resolved_path,
};
use crate::edit::sink::{EntryView, Extent, ShapeView, Tree};
use crate::edit::types::{tagged, untagged};
use crate::edit::SegmentView;
use crate::parser::grammar::stream;
use crate::text::is_text;
use crate::value::{lit, Val};

verus! {

/// Whether `ps` is a place in `v` that `path` names: an index names the item of that
/// number, a key names an entry whose key says it. With `first`, no entry before that
/// one has the key as its text.
pub open spec fn names(v: Val, path: Seq<SegmentView>, ps: Seq<int>, first: bool) -> bool
    decreases path.len(),
{
    if path.len() == 0 {
        ps.len() == 0
    } else {
        ps.len() > 0 && match (path[0], untagged(v)) {
            (SegmentView::Index(n), Val::List(vs)) => {
                &&& ps[0] == n && 0 <= n < vs.len()
                &&& names(vs[n], path.skip(1), ps.skip(1), first)
            },
            (SegmentView::Key(k), Val::Dict(kvs)) => {
                &&& 0 <= ps[0] < kvs.len()
                &&& key_says(Some(k), kvs[ps[0]].0)
                &&& first ==> forall|j: int| 0 <= j < ps[0] ==> (#[trigger] kvs[j]).0 != Val::Str(k)
                &&& names(kvs[ps[0]].1, path.skip(1), ps.skip(1), first)
            },
            _ => false,
        }
    }
}

/// Whether every entry of the node, if it is a mapping, has a text to find it by.
pub open spec fn texts_in(x: ShapeView) -> bool {
    match x {
        ShapeView::Entries(es) => forall|i: int| 0 <= i < es.len() ==> (#[trigger] es[i]).text is Some,
        _ => true,
    }
}

/// Whether every key is an ordinary scalar, by whose text its entry is found.
pub open spec fn plain_keys(t: Tree) -> bool {
    forall|i: int| 0 <= i < t.nodes.len() ==> texts_in((#[trigger] t.nodes[i]).shape)
}

/// Tags do not hide a collection, unless they make it null.
proof fn lemma_untagged(tags: Seq<Seq<u8>>, u: Val)
    requires
        u is List || u is Dict || u is Tagged,
        !tags.contains(lit("!!null")),
    ensures
        untagged(tagged(tags, u)) == untagged(u),
        tagged(tags, u) is List || tagged(tags, u) is Dict || tagged(tags, u) is Tagged,
    decreases tags.len(),
{
    if tags.len() > 0 {
        let rest = tags.drop_last();
        assert(!rest.contains(lit("!!null"))) by {
            if rest.contains(lit("!!null")) {
                let i = choose|i: int| 0 <= i < rest.len() && rest[i] == lit("!!null");
                assert(tags[i] == lit("!!null"));
            }
        }
        lemma_untagged(rest, u);
        assert(tags[tags.len() - 1] == tags.last());
    }
}

/// A collection is what its node stands for, under its tags.
proof fn lemma_under(s: Seq<u8>, t: Tree, id: int, n: int, v: Val)
    requires
        mirrors_upto(s, t, id, n, v),
        0 <= n <= t.nodes[id].tags.len(),
        visible(t, id),
        followed(t, id) is Some,
        !(t.nodes[followed(t, id)->0].shape is Leaf),
        0 <= id < t.nodes.len(),
    ensures
        mirrors_bare(s, t, followed(t, id)->0, untagged(v)),
        v is List || v is Dict || v is Tagged,
    decreases id,
{
    let w = lemma_bare_upto(s, t, id, n, v);
    let tags = t.nodes[id].tags.take(n);
    assert(!tags.contains(lit("!!null"))) by {
        if tags.contains(lit("!!null")) {
            let i = choose|i: int| 0 <= i < tags.len() && tags[i] == lit("!!null");
            assert(t.nodes[id].tags[i] == lit("!!null"));
        }
    }
    if t.nodes[id].kind is AliasRef {
        let def = alias_target(t, id)->0;
        let m = choose|m: int| #[trigger] has_tags(t, def, m) && mirrors_upto(s, t, def, m, w);
        lemma_under(s, t, def, m, w);
        lemma_untagged(tags, w);
    } else {
        lemma_untagged(tags, w);
    }
}

/// No entry before the one that is found has the text.
pub(crate) proof fn lemma_none_before(es: Seq<EntryView>, k: Seq<u8>, i: int)
    requires
        0 <= i,
    ensures
        match entry_from(es, k, i) {
            Some(j) => es[j].text == Some(k) && forall|m: int| i <= m < j ==> (#[trigger] es[m]).text != Some(k),
            None => forall|m: int| i <= m < es.len() ==> (#[trigger] es[m]).text != Some(k),
        },
    decreases es.len() - i,
{
    if i < es.len() && es[i].text != Some(k) {
        lemma_none_before(es, k, i + 1);
    }
}

/// A text that is read as a string is read as itself.
proof fn lemma_says_str(c: Seq<u8>, k: Seq<u8>)
    requires
        key_says(Some(c), Val::Str(k)),
    ensures
        c == k,
{
}

proof fn lemma_names(
    s: Seq<u8>,
    t: Tree,
    id: int,
    path: Seq<SegmentView>,
    v: Val,
    follow: bool,
    enclosing: Option<(Seq<u8>, int)>,
    key: Option<Extent>,
)
    requires
        mirrors(s, t, id, v),
        linked(t),
        0 <= id < t.nodes.len(),
        in_sight(t, id, path),
        descend(t, id, path, follow, enclosing, key) is Some,
        (descend(t, id, path, follow, enclosing, key)->0).node is Some,
        !(descend(t, id, path, follow, enclosing, key)->0).truncated,
    ensures
        names(v, path, place(t, id, path), plain_keys(t)),
    decreases path.len(),
{
    if path.len() > 0 {
        let def = followed(t, id)->0;
        let x = t.nodes[def];
        let within = match x.anchor {
            Some((name, _)) => Some((name, def)),
            None => enclosing,
        };
        law_following_ends(t, id);
        let ps = place(t, id, path);
        let first = plain_keys(t);
        match (path[0], x.shape) {
            (SegmentView::Index(n), ShapeView::Items(c)) => {
                lemma_under(s, t, id, t.nodes[id].tags.len() as int, v);
                let vs = untagged(v)->List_0;
                assert(0 <= c[n] < def);
                lemma_names(s, t, c[n], path.skip(1), vs[n], follow, within, None);
                assert(ps.skip(1) =~= place(t, c[n], path.skip(1)));
            },
            (SegmentView::Key(k), ShapeView::Entries(es)) => {
                if let Some(i) = entry_from(es, k, 0) {
                    lemma_entry(es, k, 0);
                    lemma_none_before(es, k, 0);
                    lemma_under(s, t, id, t.nodes[id].tags.len() as int, v);
                    let kvs = untagged(v)->Dict_0;
                    assert(0 <= es[i].value < def);
                    assert(key_says(es[i].text, kvs[i].0));
                    if first {
                        assert forall|j: int| 0 <= j < i implies (#[trigger] kvs[j]).0 != Val::Str(k) by {
                            assert(0 <= es[j].value);
                            assert(key_says(es[j].text, kvs[j].0));
                            assert(texts_in(t.nodes[def].shape));
                            if kvs[j].0 == Val::Str(k) {
                                lemma_says_str(es[j].text->0, k);
                            }
                        }
                    }
                    lemma_names(s, t, es[i].value, path.skip(1), kvs[i].1, follow, within, Some(es[i].key));
                    assert(ps.skip(1) =~= place(t, es[i].value, path.skip(1)));
                    assert(ps[0] == i);
                }
            },
            _ => {},
        }
    }
}

/// What a path leads to is what it names in the value that is read: the item of that
/// number at an index, and at a key the first entry with that key.
pub proof fn law_path_names_its_place(s: Seq<u8>, path: Seq<SegmentView>, follow: bool)
    requires
        is_text(s),
        stream(s) is Ok,
        ({
            let t = (stream(s)->Ok_0).1.t;
            let f = resolved_path(t, path, follow);
            &&& f is Some && (f->0).node is Some && !(f->0).truncated
            &&& shown(t, path)
        }),
    ensures
        ({
            let t = (stream(s)->Ok_0).1.t;
            let d = doc_number(path);
            names(raws(s)[d], inner_path(path), place(t, t.roots[d], inner_path(path)), plain_keys(t))
        }),
{
    let (docs, st) = stream(s)->Ok_0;
    law_tree_mirrors(s);
    law_stream_tree(s);
    lemma_linked(st.t, s, st.p);
    let d = doc_number(path);
    assert(0 <= st.t.roots[d] < st.t.nodes.len()) by {
        reveal(linked);
    }
    lemma_names(s, st.t, st.t.roots[d], inner_path(path), raws(s)[d], follow, None, None);
}

/// No tag makes a collection of something else.
proof fn lemma_tags_keep(tags: Seq<Seq<u8>>, u: Val)
    requires
        untagged(tagged(tags, u)) is List || untagged(tagged(tags, u)) is Dict,
    ensures
        untagged(tagged(tags, u)) == untagged(u),
    decreases tags.len(),
{
    if tags.len() > 0 {
        lemma_tags_keep(tags.drop_last(), u);
    }
}

/// Whether the node has the part that a path goes on to, or is an alias at which it ends.
spec fn goes_on(t: Tree, id: int, step: SegmentView) -> bool {
    t.nodes[id].kind is AliasRef || match (step, t.nodes[id].shape) {
        (SegmentView::Index(n), ShapeView::Items(c)) => 0 <= n < c.len(),
        (SegmentView::Key(k), ShapeView::Entries(es)) => entry_from(es, k, 0) is Some,
        _ => false,
    }
}

proof fn lemma_goes_on(
    t: Tree,
    id: int,
    path: Seq<SegmentView>,
    step: SegmentView,
    enclosing: Option<(Seq<u8>, int)>,
    key: Option<Extent>,
)
    requires
        descend(t, id, path, false, enclosing, key) is Some,
        (descend(t, id, path, false, enclosing, key)->0).node is Some,
        !(descend(t, id, path, false, enclosing, key)->0).truncated,
        goes_on(t, (descend(t, id, path, false, enclosing, key)->0).node->0, step),
    ensures
        descend(t, id, path.push(step), false, enclosing, key) is Some,
        (descend(t, id, path.push(step), false, enclosing, key)->0).node is Some,
    decreases path.len(),
{
    let longer = path.push(step);
    if !(t.nodes[id].kind is AliasRef) {
        let x = t.nodes[id];
        let within = match x.anchor {
            Some((name, _)) => Some((name, id)),
            None => enclosing,
        };
        assert(followed(t, id) == Some(id));
        assert(path.len() > 0 ==> longer[0] == path[0]);
        assert(path.len() > 0 ==> longer.skip(1) =~= path.skip(1).push(step));
        assert(path.len() == 0 ==> longer.skip(1) =~= Seq::empty());
        match (longer[0], x.shape) {
            (SegmentView::Index(n), ShapeView::Items(c)) => {
                if path.len() > 0 {
                    lemma_goes_on(t, c[n], path.skip(1), step, within, None);
                } else {
                    assert(descend(t, c[n], longer.skip(1), false, within, None) is Some);
                }
            },
            (SegmentView::Key(k), ShapeView::Entries(es)) => {
                if let Some(i) = entry_from(es, k, 0) {
                    if path.len() > 0 {
                        lemma_goes_on(t, es[i].value, path.skip(1), step, within, Some(es[i].key));
                    } else {
                        assert(descend(t, es[i].value, longer.skip(1), false, within, Some(es[i].key)) is Some);
                    }
                }
            },
            _ => {},
        }
    }
}

/// Whether a value has the part that a step names: an item of that number, or an entry
/// with that string as its key.
pub open spec fn has_part(v: Val, step: SegmentView) -> bool {
    match (step, untagged(v)) {
        (SegmentView::Index(n), Val::List(vs)) => 0 <= n < vs.len(),
        (SegmentView::Key(k), Val::Dict(kvs)) => exists|i: int| 0 <= i < kvs.len() && (#[trigger] kvs[i]).0 == Val::Str(k),
        _ => false,
    }
}

/// A path that leads to a value leads on to every part of it: to each item by its
/// number and to each entry by its key.
pub proof fn law_path_leads_to_every_part(s: Seq<u8>, path: Seq<SegmentView>, step: SegmentView)
    requires
        is_text(s),
        stream(s) is Ok,
        ({
            let t = (stream(s)->Ok_0).1.t;
            let f = resolved_path(t, path, false);
            &&& f is Some && (f->0).node is Some && !(f->0).truncated
            &&& shown(t, path)
            &&& plain_keys(t)
        }),
        has_part(read_at(s, path)->0, step),
    ensures
        ({
            let f = resolved_path((stream(s)->Ok_0).1.t, path.push(step), false);
            f is Some && (f->0).node is Some
        }),
{
    let (docs, st) = stream(s)->Ok_0;
    let t = st.t;
    law_path_reads_its_node(s, path);
    law_stream_tree(s);
    lemma_linked(t, s, st.p);
    let d = doc_number(path);
    let root = t.roots[d];
    let inner = inner_path(path);
    let id = (resolved_path(t, path, false)->0).node->0;
    let w = read_at(s, path)->0;
    let more = path.push(step);
    assert(inner_path(more) =~= inner.push(step)) by {
        if path.len() > 0 && path[0] is Doc {
            assert(more.skip(1) =~= path.skip(1).push(step));
        } else if path.len() == 0 {
            assert(more[0] == step);
        }
    }
    assert(path.len() > 0 ==> more[0] == path[0]);
    let u = lemma_bare_upto(s, t, id, t.nodes[id].tags.len() as int, w);
    lemma_tags_keep(t.nodes[id].tags.take(t.nodes[id].tags.len() as int), u);
    if !(t.nodes[id].kind is AliasRef) {
        match (step, t.nodes[id].shape) {
            (SegmentView::Key(k), ShapeView::Entries(es)) => {
                let kvs = untagged(w)->Dict_0;
                let i = choose|i: int| 0 <= i < kvs.len() && (#[trigger] kvs[i]).0 == Val::Str(k);
                assert(0 <= es[i].value);
                assert(key_says(es[i].text, kvs[i].0));
                lemma_path_node(t, path, false);
                assert(texts_in(t.nodes[id].shape));
                lemma_says_str(es[i].text->0, k);
                lemma_none_before(es, k, 0);
            },
            _ => {},
        }
    }
    lemma_goes_on(t, root, inner, step, None, None);
}

/// Whether the mapping `id`, a node before `bound`, has `key` with the value `v`, its own
/// or merged in.
pub open spec fn source_has(t: Tree, id: int, bound: int, key: Seq<u8>, v: int) -> bool {
    0 <= id < bound && find_key(t, id, key) == Some(v)
}

/// Whether entry `i` is a merge whose source `j` has `key` with the value `v`.
pub open spec fn brings(t: Tree, es: Seq<EntryView>, i: int, j: int, bound: int, key: Seq<u8>, v: int) -> bool {
    let sources = merge_sources(t, es[i].value);
    &&& 0 <= i < es.len()
    &&& es[i].text == Some(lit("<<"))
    &&& 0 <= j < sources.len()
    &&& source_has(t, sources[j], bound, key, v)
}

/// Whether none of the entries from `lo` up to `hi` brings in `key`.
pub open spec fn brought_by_none(t: Tree, es: Seq<EntryView>, lo: int, hi: int, bound: int, key: Seq<u8>) -> bool {
    forall|a: int, m: int, w: int| lo <= a < hi ==> !#[trigger] brings(t, es, a, m, bound, key, w)
}

/// Whether source `j` of entry `i` is the first of that entry's to bring in `key`.
pub open spec fn brings_first(t: Tree, es: Seq<EntryView>, i: int, j: int, bound: int, key: Seq<u8>, v: int) -> bool {
    &&& brings(t, es, i, j, bound, key, v)
    &&& forall|m: int, w: int| m < j ==> !#[trigger] brings(t, es, i, m, bound, key, w)
}

/// The first of the sources that has the key.
proof fn lemma_first_source(t: Tree, sources: Seq<int>, j: int, key: Seq<u8>, bound: int)
    requires
        0 <= j,
    ensures
        match find_in(t, sources, j, key, bound) {
            Some(v) => exists|n: int|
                j <= n < sources.len() && #[trigger] source_has(t, sources[n], bound, key, v) && forall|m: int, w: int|
                    j <= m < n ==> !#[trigger] source_has(t, sources[m], bound, key, w),
            None => forall|m: int, w: int|
                j <= m < sources.len() ==> !#[trigger] source_has(t, sources[m], bound, key, w),
        },
    decreases sources.len() - j,
{
    if j < sources.len() {
        if 0 <= sources[j] < bound && find_key(t, sources[j], key) is Some {
            assert(source_has(t, sources[j], bound, key, find_key(t, sources[j], key)->0));
        } else {
            lemma_first_source(t, sources, j + 1, key, bound);
        }
    }
}

proof fn lemma_first_merge(t: Tree, es: Seq<EntryView>, i: int, key: Seq<u8>, bound: int)
    requires
        0 <= i,
    ensures
        match find_merged(t, es, i, key, bound) {
            Some((n, v)) => {
                &&& i <= n < es.len()
                &&& exists|j: int| #[trigger] brings_first(t, es, n, j, bound, key, v)
                &&& brought_by_none(t, es, i, n, bound, key)
            },
            None => brought_by_none(t, es, i, es.len() as int, bound, key),
        },
    decreases es.len() - i,
{
    if i < es.len() {
        let sources = merge_sources(t, es[i].value);
        lemma_first_source(t, sources, 0, key, bound);
        let found = if es[i].text == Some(lit("<<")) {
            find_in(t, sources, 0, key, bound)
        } else {
            None
        };
        reveal_with_fuel(find_merged, 2);
        assert(find_merged(t, es, i, key, bound) == match found {
            Some(v) => Some((i, v)),
            None => find_merged(t, es, i + 1, key, bound),
        });
        match found {
            Some(v) => {
                let j = choose|j: int|
                    0 <= j < sources.len() && #[trigger] source_has(t, sources[j], bound, key, v) && forall|m: int, w: int|
                        0 <= m < j ==> !#[trigger] source_has(t, sources[m], bound, key, w);
                assert(brings(t, es, i, j, bound, key, v));
                assert forall|m: int, w: int| m < j implies !#[trigger] brings(t, es, i, m, bound, key, w) by {
                    if 0 <= m {
                        assert(!source_has(t, sources[m], bound, key, w));
                    }
                }
                assert(brings_first(t, es, i, j, bound, key, v));
            },
            None => {
                lemma_first_merge(t, es, i + 1, key, bound);
                assert forall|m: int, w: int| !#[trigger] brings(t, es, i, m, bound, key, w) by {
                    if 0 <= m < sources.len() && es[i].text == Some(lit("<<")) {
                        assert(!source_has(t, sources[m], bound, key, w));
                    }
                }
                let hi = match find_merged(t, es, i + 1, key, bound) {
                    Some((n, _)) => n,
                    None => es.len() as int,
                };
                assert forall|a: int, m: int, w: int| i <= a < hi implies !#[trigger] brings(
                    t,
                    es,
                    a,
                    m,
                    bound,
                    key,
                    w,
                ) by {
                    if a > i {
                        assert(brought_by_none(t, es, i + 1, hi, bound, key));
                    }
                }
                assert(brought_by_none(t, es, i, hi, bound, key));
            },
        }
        match find_merged(t, es, i, key, bound) {
            Some((n, v)) => {
                assert(i <= n < es.len());
                assert(brought_by_none(t, es, i, n, bound, key));
                assert(exists|j: int| #[trigger] brings_first(t, es, n, j, bound, key, v));
            },
            None => {
                assert(brought_by_none(t, es, i, es.len() as int, bound, key));
            },
        }
    } else {
        assert(find_merged(t, es, i, key, bound) is None);
        assert(brought_by_none(t, es, i, es.len() as int, bound, key));
    }
}

/// A key that a mapping does not have itself is inherited from the first source of its
/// merges that has it: of the first merge that brings it in, and of the first of that
/// merge's mappings. It is not found exactly if no source has it.
pub proof fn law_first_source_wins(t: Tree, id: int, key: Seq<u8>)
    requires
        t.nodes[id].shape is Entries,
    ensures
        ({
            let es = t.nodes[id].shape->Entries_0;
            match find_key(t, id, key) {
                Some(v) => owns(es, key, v) || (own_none(es, key) && inherits(t, es, id, key, v)),
                None => own_none(es, key) && brought_by_none(t, es, 0, es.len() as int, id, key),
            }
        }),
{
    let es = t.nodes[id].shape->Entries_0;
    lemma_none_before(es, key, 0);
    lemma_entry(es, key, 0);
    lemma_first_merge(t, es, 0, key, id);
    reveal_with_fuel(find_key, 2);
    assert(find_key(t, id, key) == match entry_from(es, key, 0) {
        Some(i) => Some(es[i].value),
        None => match find_merged(t, es, 0, key, id) {
            Some((_, v)) => Some(v),
            None => None,
        },
    });
    if let Some(i) = entry_from(es, key, 0) {
        assert(own_first(es, i, key));
        assert(owns(es, key, es[i].value));
    } else {
        assert(own_none(es, key));
        if let Some((i, v)) = find_merged(t, es, 0, key, id) {
            let j = choose|j: int| #[trigger] brings_first(t, es, i, j, id, key, v);
            assert(brings_first(t, es, i, j, id, key, v) && brought_by_none(t, es, 0, i, id, key));
            assert(inherits(t, es, id, key, v));
        }
    }
}

/// Whether the first entry with `key` as its text has the value `v`.
pub open spec fn owns(es: Seq<EntryView>, key: Seq<u8>, v: int) -> bool {
    exists|i: int| #[trigger] own_first(es, i, key) && es[i].value == v
}

/// Whether the first source that brings in `key` has it with the value `v`.
pub open spec fn inherits(t: Tree, es: Seq<EntryView>, bound: int, key: Seq<u8>, v: int) -> bool {
    exists|i: int, j: int| #[trigger]
        brings_first(t, es, i, j, bound, key, v) && brought_by_none(t, es, 0, i, bound, key)
}

/// Whether entry `i` is the first with `key` as its text.
pub open spec fn own_first(es: Seq<EntryView>, i: int, key: Seq<u8>) -> bool {
    &&& 0 <= i < es.len()
    &&& es[i].text == Some(key)
    &&& forall|m: int| 0 <= m < i ==> (#[trigger] es[m]).text != Some(key)
}

/// Whether no entry has `key` as its text.
pub open spec fn own_none(es: Seq<EntryView>, key: Seq<u8>) -> bool {
    forall|m: int| 0 <= m < es.len() ==> (#[trigger] es[m]).text != Some(key)
}

/// The items that are read as something are the sources, in their order.
proof fn lemma_all_followed(t: Tree, items: Seq<int>)
    ensures
        all_followed(t, items) == items.filter(|i: int| followed(t, i) is Some).map_values(
            |i: int| followed(t, i)->0,
        ),
    decreases items.len(),
{
    reveal(Seq::filter);
    if items.len() > 0 {
        lemma_all_followed(t, items.drop_last());
        let less = items.drop_last().filter(|i: int| followed(t, i) is Some);
        if followed(t, items.last()) is Some {
            assert(less.push(items.last()).map_values(|i: int| followed(t, i)->0) =~= less.map_values(
                |i: int| followed(t, i)->0,
            ).push(followed(t, items.last())->0));
        }
    }
}

/// A merge brings in the mapping that its value is or stands for, or each of the
/// mappings in a list of such values, in the order of the list.
pub proof fn law_merge_sources(t: Tree, id: int)
    ensures
        merge_sources(t, id) == (match followed(t, id) {
            Some(def) => match t.nodes[def].shape {
                ShapeView::Items(items) => items.filter(|i: int| followed(t, i) is Some).map_values(
                    |i: int| followed(t, i)->0,
                ),
                _ => seq![def],
            },
            None => Seq::empty(),
        }),
{
    if let Some(def) = followed(t, id) {
        if let ShapeView::Items(items) = t.nodes[def].shape {
            lemma_all_followed(t, items);
        }
    }
}

} // verus!
