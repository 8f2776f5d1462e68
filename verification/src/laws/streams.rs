//! What holds of whole streams, before an edit and after it.
use vstd::prelude::*;
use vstd::utf8::*;
use super::edits::lemma_path_node;
use super::emit::lemma_plain_start;
use super::places::{is_leaf, one_changed};
use super::scalars::{
    flow_ends, holds, law_double_quoted_reads_back, law_flow_plain_reads_back, law_set_value_reads_back,
    lemma_holds_at, lemma_quoted_text, plain_ends,
};
use super::splice::cut::{closes, rest_is_filler, stands_alone, word, Cut};
use super::splice::docs::{alike, b_documents, doc_of, lemma_doc_of, s_documents, under_root};
use super::splice::growth::good;
use super::splice::inner::flow_written;
use super::splice::leaf::{lemma_inner_moves, written};
use super::splice::low::one_line;
use super::splice::place::{apart, leaf_at, node_apart, node_free, node_quiet, scalar_at};
use super::splice::mirror::{lemma_bare, mirrors};
use super::values::{inner_path, law_path_reads_its_node, lemma_place_moved, read_at, shown};
use super::splice::nest::{forest, n_blank};
use super::splice::reach::{doc_number, lemma_path_free, plain_find};
use super::splice::turn::{new_leaf, old_leaf, turned_doc, was};
use super::splice::shift::{moved_entries, moved_node, moved_st, moved_tree};
use crate::edit::around::{disturbs, fenced, leans_on, stays_read};
use crate::edit::locate::{
    descend, entry_from, followed, in_flow, lemma_linked, linked, moved, parts_below, resolved_path, Found,
};
use crate::edit::set::{
    colon_at, edited, filled, joins_after, joins_before, keeps_type, kept_at, line_close, line_start, new_text,
    overridden, rendered, space_if, spliced, strict_opts, value_place, writes_quotes, OutcomeView,
};
use crate::edit::types::{flat, has_quotes, raw_value, same_type, tagged, text_at, unmoved, written_value};
use crate::edit::sink::{lemma_blank, sound, sound_node, EntryView, Extent, NodeView, ShapeView, Tree};
use crate::edit::SegmentView;
use crate::error::ErrorView;
use crate::parser::grammar::{at_start, stream};
use crate::parser::layout::{indicator_at, line_ends, past_flow_gap, past_flow_gap_in, Fail};
use crate::parser::tokens::{plain_end, plain_text, quoted, token};
use crate::parser::{bom_len, lemma_past_bom_text, past_bom};
use crate::patterns::{unfit, unfit_plain};
use crate::text::{
    at, bd, is_blank, is_break, is_flow_mark, is_text, lemma_back_stop, lemma_run, run, Class, COLON, SPACE, AMP,
    BANG, DQUOTE, HASH, LBRACE, LBRACKET, SQUOTE, STAR,
};
use crate::value::{lit, Val};

verus! {

/// Whatever a stream holds, its span tree is complete: one root for each document,
/// nothing left open, every span in place, and all nodes are what the roots are
/// made of, each after the one before.
pub proof fn law_stream_tree(s: Seq<u8>)
    requires
        is_text(s),
        stream(s) is Ok,
    ensures
        ({
            let (docs, st) = stream(s)->Ok_0;
            &&& st.t.roots.len() == docs.len()
            &&& st.t.stack.len() == 0
            &&& sound(st.t, s, st.p)
            &&& forest(st.t)
        }),
{
    n_blank();
    lemma_start(s);
    b_documents(s, at_start(), Seq::empty(), true);
}

pub(crate) proof fn lemma_start(s: Seq<u8>)
    requires
        is_text(s),
    ensures
        good(s, at_start()),
{
    lemma_blank(s);
    crate::text::lemma_bd_ends(s);
}

/// A path leads to the same node of a tree that was moved.
proof fn lemma_descend(
    k: Cut,
    t: Tree,
    id: int,
    path: Seq<SegmentView>,
    enclosing: Option<(Seq<u8>, int)>,
    key: Option<Extent>,
    key2: Option<Extent>,
)
    requires
        linked(t),
        0 <= id < t.nodes.len(),
        descend(t, id, path, false, enclosing, key) is Some,
        (descend(t, id, path, false, enclosing, key)->0).node is Some,
    ensures
        ({
            let f = descend(t, id, path, false, enclosing, key)->0;
            let g = descend(moved_tree(k, t), id, path, false, enclosing, key2)->0;
            &&& descend(moved_tree(k, t), id, path, false, enclosing, key2) is Some
            &&& g.node == f.node
            &&& 0 <= f.node->0 < t.nodes.len()
            &&& g.located.span == moved_node(k, t.nodes[f.node->0]).span
            &&& g.located.kind == f.located.kind
            &&& g.located.anchor == f.located.anchor
            &&& g.enclosing == f.enclosing
        }),
    decreases path.len(),
{
    reveal(moved_tree);
    let m = moved_tree(k, t);
    let x = t.nodes[id];
    assert(m.nodes[id] == moved_node(k, x));
    if path.len() > 0 && !(x.kind is AliasRef) {
        assert(followed(t, id) == Some(id));
        assert(followed(m, id) == Some(id));
        let within = match x.anchor {
            Some((name, _)) => Some((name, id)),
            None => enclosing,
        };
        assert(parts_below(x.shape, id)) by {
            reveal(linked);
        }
        match (path[0], x.shape) {
            (SegmentView::Index(n), ShapeView::Items(items)) => {
                if 0 <= n < items.len() {
                    assert(0 <= items[n] < id);
                    lemma_descend(k, t, items[n], path.skip(1), within, None, None);
                }
            },
            (SegmentView::Key(c), ShapeView::Entries(es)) => {
                lemma_entry_moved(k, es, c, 0);
                if let Some(i) = entry_from(es, c, 0) {
                    assert(0 <= es[i].value < id);
                    lemma_descend(
                        k,
                        t,
                        es[i].value,
                        path.skip(1),
                        within,
                        Some(es[i].key),
                        Some(moved_entries(k, es)[i].key),
                    );
                }
            },
            _ => {},
        }
    }
}

pub(crate) proof fn lemma_entry_moved(k: Cut, es: Seq<EntryView>, key: Seq<u8>, i: int)
    requires
        0 <= i,
    ensures
        entry_from(moved_entries(k, es), key, i) == entry_from(es, key, i),
        match entry_from(es, key, i) {
            Some(j) => i <= j < es.len(),
            None => true,
        },
    decreases es.len() - i,
{
    if i < es.len() && es[i].text != Some(key) {
        lemma_entry_moved(k, es, key, i + 1);
    }
}

/// Whether no flow collection holds what stands at `p`.
pub open spec fn outside_flow(t: Tree, p: int) -> bool {
    forall|i: int|
        0 <= i < t.nodes.len() ==> !((#[trigger] t.nodes[i]).delimited && t.nodes[i].span.a <= p < t.nodes[i].span.b)
}

/// White space goes on alike in texts with the same end.
proof fn lemma_run_tail(s: Seq<u8>, t: Seq<u8>, p: int, d: int, c: Class)
    requires
        0 <= p <= s.len(),
        t.len() == s.len() + d,
        0 <= p + d,
        forall|i: int| p <= i < s.len() ==> #[trigger] s[i] == t[i + d],
    ensures
        run(t, p + d, c) == run(s, p, c) + d,
    decreases s.len() - p,
{
    if p < s.len() {
        assert(s[p] == t[p + d]);
        if c.holds(s[p]) {
            lemma_run_tail(s, t, p + 1, d, c);
        }
    }
}

/// Whether text is written in quotes if the model is, and plain only where that is
/// read back.
pub open spec fn style_fits(model: Seq<u8>, value: Seq<u8>, flow: bool, quotes: bool) -> bool {
    &&& has_quotes(model) ==> quotes
    &&& !quotes ==> !unfit(value, flow)
}

/// Whether a default edit of what was found writes `value` in quotes.
pub open spec fn default_quotes(s: Seq<u8>, t: Tree, f: Found, value: Seq<u8>) -> bool {
    writes_quotes(
        text_at(s, f.located.span),
        value,
        in_flow(t, f.located.span),
        fenced(past_bom(s), f.located.span),
        kept_at(s, t, f.node->0, strict_opts()),
    )
}

/// The new scalar stands in the place of the old one, and is read as one token.
proof fn lemma_cut(k: Cut, value: Seq<u8>, quotes: bool)
    requires
        style_fits(k.s.subrange(k.a, k.b), value, false, quotes),
        stands_alone(k.s, k.a, k.b),
        k.s[k.a] != LBRACKET && k.s[k.a] != LBRACE,
        k.x == k.a && k.y == k.b,
        k.n == written_value(value, quotes),
        k.t == spliced(k.s, Extent { a: k.a, b: k.b }, rendered(k.s.subrange(k.a, k.b), value, quotes)),
        k.c == k.a + rendered(k.s.subrange(k.a, k.b), value, quotes).len(),
        quotes || !fenced(k.s, Extent { a: k.a, b: k.b }),
    ensures
        k.ok(),
        written(k),
        token(k.t, k.a) is Ok,
        token(k.t, k.a)->Ok_0.text == value,
        token(k.t, k.a)->Ok_0.end == k.c,
        token(k.t, k.a)->Ok_0.quoted == quotes,
{
    let model = k.s.subrange(k.a, k.b);
    let text = rendered(model, value, quotes);
    let d = k.c - k.b;
    assert(k.t.len() == k.s.len() + d);
    assert forall|i: int| 0 <= i < k.a implies #[trigger] k.s[i] == k.t[i] by {}
    assert forall|i: int| k.b <= i < k.s.len() implies #[trigger] k.s[i] == k.t[i + d] by {}
    assert(k.t.subrange(k.a, k.c) =~= text);
    assert(holds(k.t, k.a, text));
    lemma_run_tail(k.s, k.t, k.b, d, Class::Blank);
    let p = run(k.s, k.b, Class::Blank);
    lemma_run(k.s, k.b, Class::Blank);
    if p < k.s.len() {
        assert(k.s[p] == k.t[p + d]);
    }
    assert(k.t[k.a] == text[0]) by {
        assert(text.len() > 0);
        lemma_holds_at(k.t, k.a, text, 0);
    }
    if has_quotes(model) {
        assert(text[0] == DQUOTE || text[0] == SQUOTE);
    }
    assert(model[0] == k.s[k.a]);
    assert(at(k.t, k.c) == at(k.s, k.b));
    assert(rest_is_filler(k.t, k.c, closes(k.t, k.a)));
    assert(quotes || plain_ends(k.t, k.c));
    law_set_value_reads_back(k.t, k.a, model, value, quotes);
    assert(model[0] == k.s[k.a]);
    assert(text.len() > 0 && word(k.t, k.a) && !is_break(k.t[k.c - 1]) && !is_blank(k.t[k.c - 1])) by {
        lemma_rendered_ends(k.t, k.a, model, value, quotes);
    }
    if k.a > 0 {
        assert(k.s[k.a - 1] == k.t[k.a - 1]);
    }
}

/// A scalar that was written begins and ends with bytes of its own.
proof fn lemma_rendered_ends(s: Seq<u8>, p: int, model: Seq<u8>, value: Seq<u8>, quotes: bool)
    requires
        style_fits(model, value, false, quotes),
        holds(s, p, rendered(model, value, quotes)),
        quotes || plain_ends(s, p + rendered(model, value, quotes).len()),
    ensures
        ({
            let e = p + rendered(model, value, quotes).len();
            &&& p < e
            &&& super::emit::scalar_start(s, p)
            &&& !is_break(s[e - 1]) && !is_blank(s[e - 1])
        }),
{
    let r = rendered(model, value, quotes);
    if quotes {
        assert(r.len() >= 2 && (r[0] == DQUOTE || r[0] == SQUOTE) && (r.last() == DQUOTE || r.last() == SQUOTE));
        lemma_holds_at(s, p, r, 0);
        lemma_holds_at(s, p, r, r.len() - 1);
    } else {
        lemma_plain_start(s, p, value);
        lemma_holds_at(s, p, value, value.len() - 1);
        assert(value.contains(value[value.len() - 1]));
        assert(!crate::patterns::is_ctrl(value[value.len() - 1]));
    }
}

/// What a default edit writes.
proof fn lemma_default_edit(s: Seq<u8>, path: Seq<SegmentView>, value: Seq<u8>)
    requires
        edited(s, path, value, strict_opts()) is Ok,
    ensures
        ({
            let src = past_bom(s);
            let t = (stream(src)->Ok_0).1.t;
            let f = resolved_path(t, path, false)->0;
            let x = moved(f.located.span, bom_len(s));
            let out = (edited(s, path, value, strict_opts())->Ok_0).0;
            &&& stream(src) is Ok
            &&& resolved_path(t, path, false) is Some
            &&& leads_to_scalar(t, path)
            &&& out == spliced(
                s,
                x,
                rendered(text_at(s, f.located.span), value, default_quotes(s, t, f, value)),
            )
            &&& keeps_type(kept_at(s, t, f.node->0, strict_opts()), value, default_quotes(s, t, f, value))
            &&& !disturbs(s, t, x, out)
        }),
{
    lemma_path_node((stream(past_bom(s))->Ok_0).1.t, path, false);
}

/// A path leads to the same node of a tree that was moved.
proof fn lemma_path_moved(k: Cut, t: Tree, path: Seq<SegmentView>)
    requires
        linked(t),
        resolved_path(t, path, false) is Some,
        (resolved_path(t, path, false)->0).node is Some,
    ensures
        ({
            let f = resolved_path(t, path, false)->0;
            let g = resolved_path(moved_tree(k, t), path, false)->0;
            &&& resolved_path(moved_tree(k, t), path, false) is Some
            &&& g.node == f.node
            &&& 0 <= f.node->0 < t.nodes.len()
            &&& g.located.span == moved_node(k, t.nodes[f.node->0]).span
            &&& g.located.kind == f.located.kind
            &&& g.located.anchor == f.located.anchor
        }),
{
    let (doc, rest) = if path.len() > 0 && path[0] is Doc {
        (path[0]->Doc_0, path.skip(1))
    } else {
        (0, path)
    };
    assert(0 <= t.roots[doc] < t.nodes.len()) by {
        reveal(linked);
    }
    assert(moved_tree(k, t).roots == t.roots) by {
        reveal(moved_tree);
    }
    lemma_descend(k, t, t.roots[doc], rest, None, None, None);
}

/// Two streams that differ in one scalar have the same tree, moved.
proof fn lemma_streams(k: Cut, id: int)
    requires
        k.ok(),
        written(k),
        is_text(k.s),
        stream(k.s) is Ok,
        leaf_at(k, (stream(k.s)->Ok_0).1.t, id),
        apart(k, (stream(k.s)->Ok_0).1.t, 0),
        is_leaf(k.n),
    ensures
        stream(k.t) is Ok,
        (stream(k.t)->Ok_0).0.len() == (stream(k.s)->Ok_0).0.len(),
        exists|d: int| #[trigger]
            under_root((stream(k.s)->Ok_0).1.t, id, d) && alike((stream(k.s)->Ok_0).0, (stream(k.t)->Ok_0).0, 0, d)
                && 0 <= d < (stream(k.s)->Ok_0).0.len() && turned_doc(
                k,
                (stream(k.s)->Ok_0).1.t,
                (stream(k.s)->Ok_0).0[d],
                (stream(k.t)->Ok_0).0[d],
            ),
        (stream(k.t)->Ok_0).1 == moved_st(k, (stream(k.s)->Ok_0).1),
{
    lemma_start(k.s);
    assert(moved_st(k, at_start()) == at_start()) by {
        reveal(moved_tree);
        assert(moved_tree(k, Tree::blank()).nodes =~= Tree::blank().nodes);
        assert(moved_tree(k, Tree::blank()).stack =~= Tree::blank().stack);
    }
    s_documents(k, id, at_start(), Seq::empty(), Seq::empty(), true);
    let d = doc_of(k.s, id, at_start(), 0, true);
    lemma_doc_of(k.s, id, at_start(), Seq::empty(), true);
    assert(under_root((stream(k.s)->Ok_0).1.t, id, d));
    assert(alike((stream(k.s)->Ok_0).0, (stream(k.t)->Ok_0).0, 0, d));
}

/// Whether `w` is `v` with at most one leaf replaced: `new` stands for one of its type.
pub open spec fn leaf_replaced(v: Val, w: Val, new: Val) -> bool {
    exists|old: Val| #[trigger] same_type(old, new) && one_changed(v, w, old, new)
}

/// Whether `new` is read at the path in `out`, and a value of its type in `s`.
pub open spec fn leaf_read(s: Seq<u8>, out: Seq<u8>, path: Seq<SegmentView>, new: Val) -> bool {
    &&& read_at(out, path) == Some(new)
    &&& read_at(s, path) is Some
    &&& same_type(read_at(s, path)->0, new)
}

/// What is left as it was when the bytes of `x` are replaced, and those up to `c`
/// stand there instead, which read `new`.
///
/// There are as many documents, and only the one that the path leads into has another
/// value: with its tags, `new` stands in it where a value of the same type stood, and
/// all else is the same. Where the document shows what the path names, `new` is read
/// there. Every other node stays in its place around the new text, and the path leads to
/// exactly that.
pub open spec fn kept_around(s: Seq<u8>, out: Seq<u8>, path: Seq<SegmentView>, x: Extent, c: int, new: Val) -> bool {
    let (docs, st) = stream(s)->Ok_0;
    let (docs2, st2) = stream(out)->Ok_0;
    let id = (resolved_path(st.t, path, false)->0).node->0;
    let k = Cut { s, t: out, a: x.a, b: x.b, c, x: x.a, y: x.b, l: id, n: new };
    let y = (resolved_path(st2.t, path, false)->0).located;
    let d = doc_number(path);
    &&& stream(out) is Ok
    &&& docs2.len() == docs.len()
    &&& alike(docs, docs2, 0, d)
    &&& 0 <= d < docs.len() && leaf_replaced(docs[d], docs2[d], tagged(st.t.nodes[id].tags, new))
    &&& shown(st.t, path) ==> leaf_read(s, out, path, tagged(st.t.nodes[id].tags, new))
    &&& st2 == moved_st(k, st)
    &&& resolved_path(st2.t, path, false) is Some
    &&& y.span == (Extent { a: x.a, b: c })
    &&& y.kind is Literal && y.anchor is None
}

/// Whether a scalar with these bytes and tags is of the type of `new` with the tags.
pub open spec fn type_kept(raw: Seq<u8>, tags: Seq<Seq<u8>>, new: Val) -> bool {
    &&& unmoved(tags) || flat(raw)
    &&& same_type(tagged(tags, raw_value(raw)), tagged(tags, new))
}

/// Whether two values are of one type, tag by tag.
spec fn of_a_kind(a: Val, b: Val) -> bool
    decreases a,
{
    match (a, b) {
        (Val::Tagged(_, x), Val::Tagged(_, y)) => of_a_kind(*x, *y),
        (Val::Tagged(_, _), _) => false,
        (_, Val::Tagged(_, _)) => false,
        _ => same_type(a, b),
    }
}

proof fn lemma_of_a_kind(a: Val, b: Val)
    requires
        of_a_kind(a, b),
    ensures
        same_type(a, b),
    decreases a,
{
    if let (Val::Tagged(_, x), Val::Tagged(_, y)) = (a, b) {
        lemma_of_a_kind(*x, *y);
    }
}

/// Tags that do not go by what a string says keep values of one type so.
proof fn lemma_tags_keep(tags: Seq<Seq<u8>>, a: Val, b: Val)
    requires
        unmoved(tags),
        of_a_kind(a, b),
        is_leaf(a),
        is_leaf(b),
    ensures
        of_a_kind(tagged(tags, a), tagged(tags, b)),
        is_leaf(tagged(tags, a)),
        is_leaf(tagged(tags, b)),
    decreases tags.len(),
{
    if tags.len() > 0 {
        assert forall|i: int| 0 <= i < tags.drop_last().len() implies !crate::edit::types::converts(
            #[trigger] tags.drop_last()[i],
        ) by {
            assert(!crate::edit::types::converts(tags[i]));
        }
        lemma_tags_keep(tags.drop_last(), a, b);
        assert(!crate::edit::types::converts(tags[tags.len() - 1]));
    }
}

/// What was read is of the type that the bytes show.
proof fn lemma_old_type(k: Cut, tags: Seq<Seq<u8>>, o: Val)
    requires
        was(k, o),
        type_kept(k.s.subrange(k.x, k.y), tags, k.n),
    ensures
        same_type(tagged(tags, o), tagged(tags, k.n)),
{
    let raw = k.s.subrange(k.x, k.y);
    if !flat(raw) {
        lemma_tags_keep(tags, o, raw_value(raw));
        lemma_of_a_kind(tagged(tags, o), tagged(tags, raw_value(raw)));
    }
}

/// Whether `path` leads to a scalar that no anchor holds.
pub open spec fn leads_to_scalar(t: Tree, path: Seq<SegmentView>) -> bool {
    let f = resolved_path(t, path, false)->0;
    let x = t.nodes[f.node->0];
    &&& plain_find(t, resolved_path(t, path, false))
    &&& f.located.span == x.span
    &&& x.kind is Literal
}

/// Whether a scalar in block context can be replaced: it stands alone on its line, and
/// neither holds it a flow collection nor is it one.
pub open spec fn replaceable(s: Seq<u8>, t: Tree, x: Extent) -> bool {
    &&& stands_alone(s, x.a, x.b)
    &&& outside_flow(t, x.a)
    &&& s[x.a] != LBRACKET && s[x.a] != LBRACE
}

/// Whether the bytes of the new scalar read `k.n`.
spec fn reads_new(k: Cut) -> bool {
    if k.t[k.a] == DQUOTE || k.t[k.a] == SQUOTE {
        token(k.t, k.a) is Ok && k.n == Val::Str(token(k.t, k.a)->Ok_0.text)
    } else {
        flat(k.t.subrange(k.a, k.c)) && k.n == raw_value(k.t.subrange(k.a, k.c))
    }
}

/// A text that is fit for a plain scalar says what it is read as.
proof fn lemma_plain_flat(value: Seq<u8>)
    requires
        !unfit_plain(value),
    ensures
        flat(value),
        raw_value(value) == written_value(value, false),
        value[0] != DQUOTE && value[0] != SQUOTE,
{
    assert forall|i: int| 0 <= i < value.len() implies !is_break(#[trigger] value[i]) by {
        assert(value.contains(value[i]));
        if is_break(value[i]) {
            assert(crate::patterns::is_ctrl(value[i]) || value[i] == crate::text::LF);
        }
    }
}

/// What is read at the path.
proof fn lemma_leaf_read(k: Cut, path: Seq<SegmentView>)
    requires
        is_text(k.s),
        is_text(k.t),
        k.x == k.a && k.y == k.b && 0 <= k.a < k.b <= k.s.len(),
        k.a < k.c <= k.t.len(),
        !is_break(k.s[k.a]) && !is_break(k.t[k.a]),
        reads_new(k),
        stream(k.s) is Ok,
        stream(k.t) is Ok,
        linked((stream(k.s)->Ok_0).1.t),
        leads_to_scalar((stream(k.s)->Ok_0).1.t, path),
        (resolved_path((stream(k.s)->Ok_0).1.t, path, false)->0).located.span == (Extent { a: k.a, b: k.b }),
        (stream(k.t)->Ok_0).1 == moved_st(k, (stream(k.s)->Ok_0).1),
        k.l == (resolved_path((stream(k.s)->Ok_0).1.t, path, false)->0).node->0,
        !(stream(k.s)->Ok_0).1.t.nodes[k.l].delimited,
        type_kept(k.s.subrange(k.x, k.y), (stream(k.s)->Ok_0).1.t.nodes[k.l].tags, k.n),
        shown((stream(k.s)->Ok_0).1.t, path),
    ensures
        leaf_read(k.s, k.t, path, tagged((stream(k.s)->Ok_0).1.t.nodes[k.l].tags, k.n)),
{
    let t = (stream(k.s)->Ok_0).1.t;
    let t2 = (stream(k.t)->Ok_0).1.t;
    lemma_scalar_moved(k, t, path);
    law_path_reads_its_node(k.s, path);
    lemma_old_node(k, t, read_at(k.s, path)->0);
    law_path_reads_its_node(k.t, path);
    lemma_new_node(k, t2, read_at(k.t, path)->0);
}

/// A path that leads to a scalar leads to it in a tree that was moved.
proof fn lemma_scalar_moved(k: Cut, t: Tree, path: Seq<SegmentView>)
    requires
        linked(t),
        leads_to_scalar(t, path),
        k.l == (resolved_path(t, path, false)->0).node->0,
        k.x == k.a && k.y == k.b && k.a < k.b,
        (resolved_path(t, path, false)->0).located.span == (Extent { a: k.a, b: k.b }),
    ensures
        ({
            let m = moved_tree(k, t);
            let f = resolved_path(t, path, false)->0;
            let g = resolved_path(m, path, false)->0;
            &&& 0 <= k.l < t.nodes.len()
            &&& t.nodes[k.l].span == (Extent { a: k.a, b: k.b })
            &&& m.nodes.len() == t.nodes.len()
            &&& m.nodes[k.l] == moved_node(k, t.nodes[k.l])
            &&& resolved_path(m, path, false) is Some
            &&& g.node == Some(k.l)
            &&& f.node == Some(k.l)
            &&& !g.truncated
            &&& !f.truncated
            &&& shown(m, path) == shown(t, path)
        }),
{
    let m = moved_tree(k, t);
    lemma_path_node(t, path, false);
    lemma_path_moved(k, t, path);
    lemma_whole(t, path);
    lemma_whole(m, path);
    assert(m.roots == t.roots && m.nodes.len() == t.nodes.len() && m.nodes[k.l] == moved_node(k, t.nodes[k.l])) by {
        reveal(moved_tree);
    }
    let root = t.roots[doc_number(path)];
    assert(0 <= root < t.nodes.len()) by {
        reveal(linked);
    }
    lemma_place_moved(k, t, root, inner_path(path), None, None);
}

/// What was read from the old scalar.
proof fn lemma_old_node(k: Cut, t: Tree, o: Val)
    requires
        mirrors(k.s, t, k.l, o),
        k.x == k.a && k.y == k.b && 0 <= k.a < k.b <= k.s.len(),
        !is_break(k.s[k.a]),
        scalar_at(k, t, k.l),
        type_kept(k.s.subrange(k.x, k.y), t.nodes[k.l].tags, k.n),
    ensures
        same_type(o, tagged(t.nodes[k.l].tags, k.n)),
{
    let u = lemma_bare(k.s, t, k.l, o);
    assert(was(k, u));
    lemma_old_type(k, t.nodes[k.l].tags, u);
}

/// What was read from the new scalar.
proof fn lemma_new_node(k: Cut, t: Tree, w: Val)
    requires
        mirrors(k.t, t, k.l, w),
        0 <= k.a < k.c <= k.t.len(),
        !is_break(k.t[k.a]),
        reads_new(k),
        0 <= k.l < t.nodes.len(),
        t.nodes[k.l].span == (Extent { a: k.a, b: k.c }),
        t.nodes[k.l].shape is Leaf,
        !t.nodes[k.l].delimited,
        t.nodes[k.l].kind is Literal,
    ensures
        w == tagged(t.nodes[k.l].tags, k.n),
{
    let v = lemma_bare(k.t, t, k.l, w);
    assert(v == k.n);
}

/// A path that leads to a scalar is used up there.
proof fn lemma_whole(t: Tree, path: Seq<SegmentView>)
    requires
        resolved_path(t, path, false) is Some,
        (resolved_path(t, path, false)->0).node is Some,
        (resolved_path(t, path, false)->0).located.kind is Literal,
    ensures
        !(resolved_path(t, path, false)->0).truncated,
{
    lemma_untruncated(t, t.roots[doc_number(path)], inner_path(path), None, None);
}

proof fn lemma_untruncated(
    t: Tree,
    id: int,
    path: Seq<SegmentView>,
    enclosing: Option<(Seq<u8>, int)>,
    key: Option<Extent>,
)
    requires
        descend(t, id, path, false, enclosing, key) is Some,
        (descend(t, id, path, false, enclosing, key)->0).node is Some,
        (descend(t, id, path, false, enclosing, key)->0).located.kind is Literal,
    ensures
        !(descend(t, id, path, false, enclosing, key)->0).truncated,
    decreases path.len(),
{
    if path.len() > 0 && !(t.nodes[id].kind is AliasRef) {
        let x = t.nodes[id];
        assert(followed(t, id) == Some(id));
        let within = match x.anchor {
            Some((name, _)) => Some((name, id)),
            None => enclosing,
        };
        match (path[0], x.shape) {
            (SegmentView::Index(n), ShapeView::Items(c)) => {
                lemma_untruncated(t, c[n], path.skip(1), within, None);
            },
            (SegmentView::Key(k), ShapeView::Entries(es)) => {
                if let Some(i) = entry_from(es, k, 0) {
                    lemma_untruncated(t, es[i].value, path.skip(1), within, Some(es[i].key));
                }
            },
            _ => {},
        }
    }
}

/// What is left as it was follows from the trees.
proof fn lemma_assemble(k: Cut, path: Seq<SegmentView>)
    requires
        is_text(k.s),
        is_text(k.t),
        0 <= k.a < k.b <= k.s.len(),
        k.a < k.c <= k.t.len(),
        !is_break(k.s[k.a]) && !is_break(k.t[k.a]),
        reads_new(k),
        !(stream(k.s)->Ok_0).1.t.nodes[k.l].delimited,
        k.x == k.a && k.y == k.b && k.a < k.b,
        stream(k.s) is Ok,
        stream(k.t) is Ok,
        linked((stream(k.s)->Ok_0).1.t),
        leads_to_scalar((stream(k.s)->Ok_0).1.t, path),
        (resolved_path((stream(k.s)->Ok_0).1.t, path, false)->0).located.span == (Extent { a: k.a, b: k.b }),
        (stream(k.t)->Ok_0).0.len() == (stream(k.s)->Ok_0).0.len(),
        alike((stream(k.s)->Ok_0).0, (stream(k.t)->Ok_0).0, 0, doc_number(path)),
        (stream(k.t)->Ok_0).1 == moved_st(k, (stream(k.s)->Ok_0).1),
        k.l == (resolved_path((stream(k.s)->Ok_0).1.t, path, false)->0).node->0,
        type_kept(k.s.subrange(k.x, k.y), (stream(k.s)->Ok_0).1.t.nodes[k.l].tags, k.n),
        ({
            let d = doc_number(path);
            let docs = (stream(k.s)->Ok_0).0;
            0 <= d < docs.len() && turned_doc(k, (stream(k.s)->Ok_0).1.t, docs[d], (stream(k.t)->Ok_0).0[d])
        }),
    ensures
        kept_around(k.s, k.t, path, Extent { a: k.a, b: k.b }, k.c, k.n),
{
    let (docs, st) = stream(k.s)->Ok_0;
    let docs2 = (stream(k.t)->Ok_0).0;
    let d = doc_number(path);
    lemma_path_moved(k, st.t, path);
    reveal(turned_doc);
    let o = choose|o: Val| #[trigger]
        was(k, o) && one_changed(docs[d], docs2[d], old_leaf(k, st.t, o), new_leaf(k, st.t));
    lemma_old_type(k, st.t.nodes[k.l].tags, o);
    if shown(st.t, path) {
        lemma_leaf_read(k, path);
    }
    assert(same_type(old_leaf(k, st.t, o), new_leaf(k, st.t)));
}

proof fn lemma_reread(s: Seq<u8>, out: Seq<u8>, path: Seq<SegmentView>, value: Seq<u8>, quotes: bool)
    requires
        is_text(s),
        is_text(out),
        stream(s) is Ok,
        ({
            let t = (stream(s)->Ok_0).1.t;
            let x = (resolved_path(t, path, false)->0).located.span;
            &&& leads_to_scalar(t, path)
            &&& replaceable(s, t, x)
            &&& quotes || !fenced(s, x)
            &&& style_fits(s.subrange(x.a, x.b), value, false, quotes)
            &&& type_kept(
                s.subrange(x.a, x.b),
                t.nodes[(resolved_path(t, path, false)->0).node->0].tags,
                written_value(value, quotes),
            )
            &&& out == spliced(s, x, rendered(s.subrange(x.a, x.b), value, quotes))
        }),
    ensures
        ({
            let x = (resolved_path((stream(s)->Ok_0).1.t, path, false)->0).located.span;
            let c = x.a + rendered(s.subrange(x.a, x.b), value, quotes).len();
            let new = token(out, x.a)->Ok_0;
            &&& kept_around(s, out, path, x, c, written_value(value, quotes))
            &&& token(out, x.a) is Ok
            &&& new.text == value
            &&& new.end == c
            &&& new.quoted == quotes
        }),
{
    let st = (stream(s)->Ok_0).1;
    let f = resolved_path(st.t, path, false)->0;
    let x = f.located.span;
    law_stream_tree(s);
    lemma_linked(st.t, s, st.p);
    let c = x.a + rendered(s.subrange(x.a, x.b), value, quotes).len();
    let new = written_value(value, quotes);
    let k = Cut { s, t: out, a: x.a, b: x.b, c, x: x.a, y: x.b, l: f.node->0, n: new };
    lemma_cut(k, value, quotes);
    lemma_path_node(st.t, path, false);
    lemma_path_free(st.t, s, st.p, path);
    assert(!st.t.nodes[f.node->0].delimited);
    assert(apart(k, st.t, 0)) by {
        reveal(apart);
        assert forall|i: int| 0 <= i < st.t.nodes.len() implies node_apart(k, #[trigger] st.t.nodes[i]) by {
            assert(node_free(x.a, st.t.nodes[i]));
        }
    }
    lemma_streams(k, f.node->0);
    assert(k.t.subrange(k.a, k.c) =~= rendered(s.subrange(x.a, x.b), value, quotes));
    if !quotes {
        lemma_plain_flat(value);
        assert(k.t[k.a] == k.t.subrange(k.a, k.c)[0]);
    }
    lemma_assemble(k, path);
}

/// The scalar that a path leads to lies in the source.
proof fn lemma_scalar_in(s: Seq<u8>, path: Seq<SegmentView>)
    requires
        is_text(s),
        stream(s) is Ok,
        leads_to_scalar((stream(s)->Ok_0).1.t, path),
    ensures
        ({
            let x = (resolved_path((stream(s)->Ok_0).1.t, path, false)->0).located.span;
            0 <= x.a <= x.b <= s.len() && bd(s, x.a)
        }),
{
    let st = (stream(s)->Ok_0).1;
    law_stream_tree(s);
    lemma_linked(st.t, s, st.p);
    lemma_path_node(st.t, path, false);
    let id = (resolved_path(st.t, path, false)->0).node->0;
    reveal(sound);
    assert(sound_node(st.t.nodes[id], id, s, st.p));
}

/// An edit does not make or take away a byte order mark.
proof fn lemma_mark_stays(s: Seq<u8>, x: Extent, model: Seq<u8>, value: Seq<u8>, quotes: bool, out: Seq<u8>)
    requires
        is_text(s),
        is_text(value),
        0 <= x.a <= x.b <= past_bom(s).len(),
        bd(past_bom(s), x.a),
        !quotes ==> !unfit(value, false),
        has_quotes(model) ==> quotes,
        out == spliced(s, moved(x, bom_len(s)), rendered(model, value, quotes)),
    ensures
        bom_len(out) == bom_len(s),
{
    let text = rendered(model, value, quotes);
    if bom_len(s) == 0 && bom_len(out) == 3 {
        assert(past_bom(s) =~= s);
        if x.a == 0 {
            assert(out[0] == text[0]);
            if !quotes {
                lemma_lead(value);
                assert(out[1] == text[1] && out[2] == text[2]);
            }
        } else {
            assert(out[0] == s[0]);
            lemma_lead(s);
            assert(out[1] == s[1] && out[2] == s[2]);
        }
    }
}

/// Where a text begins with the first byte of a byte order mark, its first character
/// has three bytes.
proof fn lemma_lead(s: Seq<u8>)
    requires
        is_text(s),
        s.len() > 0,
        s[0] == 0xef,
    ensures
        s.len() >= 3,
        !bd(s, 1) && !bd(s, 2),
{
    reveal(is_text);
    reveal(crate::text::on_char);
    reveal_with_fuel(is_char_boundary, 3);
    reveal_with_fuel(valid_utf8, 2);
    assert(0xefu8 & 0xf0u8 == 0xe0u8) by (bit_vector);
    assert(length_of_first_scalar(s) == 3);
}

/// A splice after the byte order mark.
proof fn lemma_bom_splice(s: Seq<u8>, x: Extent, text: Seq<u8>, out: Seq<u8>)
    requires
        out == spliced(s, moved(x, bom_len(s)), text),
        bom_len(out) == bom_len(s),
        0 <= x.a <= x.b <= past_bom(s).len(),
    ensures
        past_bom(out) == spliced(past_bom(s), x, text),
        text_at(s, x) == past_bom(s).subrange(x.a, x.b),
{
    assert(text_at(s, x) =~= past_bom(s).subrange(x.a, x.b));
    assert(past_bom(out) =~= spliced(past_bom(s), x, text));
}

/// What a default edit writes, without the byte order mark.
proof fn lemma_default_src(s: Seq<u8>, path: Seq<SegmentView>, value: Seq<u8>, out: Seq<u8>)
    requires
        is_text(s),
        is_text(value),
        edited(s, path, value, strict_opts()) == Ok::<_, ErrorView>((out, OutcomeView::Spliced)),
    ensures
        bom_len(out) == bom_len(s),
        is_text(past_bom(s)),
        stream(past_bom(s)) is Ok,
        ({
            let src = past_bom(s);
            let t = (stream(src)->Ok_0).1.t;
            let x = (resolved_path(t, path, false)->0).located.span;
            let f = resolved_path(t, path, false)->0;
            let quotes = default_quotes(s, t, f, value);
            &&& leads_to_scalar(t, path)
            &&& src.subrange(x.a, x.b) == text_at(s, x)
            &&& past_bom(out) == spliced(src, x, rendered(src.subrange(x.a, x.b), value, quotes))
            &&& style_fits(src.subrange(x.a, x.b), value, in_flow(t, x), quotes)
            &&& type_kept(src.subrange(x.a, x.b), t.nodes[f.node->0].tags, written_value(value, quotes))
            &&& quotes || !fenced(src, x)
            &&& !disturbs(s, t, moved(x, bom_len(s)), out)
        }),
{
    let src = past_bom(s);
    let t = (stream(src)->Ok_0).1.t;
    lemma_default_edit(s, path, value);
    lemma_past_bom_text(s);
    lemma_scalar_in(src, path);
    let f = resolved_path(t, path, false)->0;
    let quotes = default_quotes(s, t, f, value);
    lemma_mark_stays(s, f.located.span, text_at(s, f.located.span), value, quotes, out);
    lemma_bom_splice(s, f.located.span, rendered(text_at(s, f.located.span), value, quotes), out);
    lemma_path_node(t, path, false);
}

/// An edit that is allowed by default is read back: of a scalar that stands alone
/// on its line, outside flow collections.
///
/// What was written can be read, and has the documents and the structure that it
/// had before: every other node stays, in its place around the new text, and every
/// other value is the same. The path leads to exactly the bytes that were written, and
/// what is read there is the text that was set, of the type that was there.
pub proof fn law_set_then_locate(s: Seq<u8>, path: Seq<SegmentView>, value: Seq<u8>, out: Seq<u8>)
    requires
        is_text(s),
        is_text(value),
        is_text(out),
        edited(s, path, value, strict_opts()) == Ok::<_, ErrorView>((out, OutcomeView::Spliced)),
        ({
            let src = past_bom(s);
            let t = (stream(src)->Ok_0).1.t;
            let f = resolved_path(t, path, false)->0;
            replaceable(src, t, f.located.span)
        }),
    ensures
        ({
            let src = past_bom(s);
            let t = (stream(src)->Ok_0).1.t;
            let f = resolved_path(t, path, false)->0;
            let x = f.located.span;
            let quotes = default_quotes(s, t, f, value);
            let c = x.a + rendered(src.subrange(x.a, x.b), value, quotes).len();
            let new = token(past_bom(out), x.a)->Ok_0;
            &&& kept_around(src, past_bom(out), path, x, c, written_value(value, quotes))
            &&& token(past_bom(out), x.a) is Ok
            &&& new.text == value
            &&& new.end == c
            &&& new.quoted == quotes
        }),
{
    lemma_default_src(s, path, value, out);
    lemma_past_bom_text(out);
    let t = (stream(past_bom(s))->Ok_0).1.t;
    let f = resolved_path(t, path, false)->0;
    lemma_reread(past_bom(s), past_bom(out), path, value, default_quotes(s, t, f, value));
}

/// Whether a node that holds the start of the flow collection `g` has no anchor, no
/// key of it does, and it is no other flow collection.
pub open spec fn around_flow(x: NodeView, g: Extent) -> bool {
    &&& node_free(g.a, x)
    &&& x.span.a <= g.a < x.span.b && x.delimited ==> x.span == g
}

/// Whether the scalar `x` of a flow collection `g` that stands alone on its lines
/// can be replaced.
pub open spec fn flow_place(s: Seq<u8>, x: Extent, g: Extent) -> bool {
    &&& g.a < x.a < x.b < g.b
    &&& stands_alone(s, g.a, g.b)
    &&& s[g.a] == LBRACKET || s[g.a] == LBRACE
    &&& Class::Name.holds(s[x.a]) && s[x.a] != HASH
    &&& flow_ends(s, x.b)
}

/// Whether the scalar `id` in the outermost flow collection `r` can be replaced:
/// neither an anchor nor a key holds the collection.
pub open spec fn replaceable_in(s: Seq<u8>, t: Tree, id: int, r: int) -> bool {
    let x = t.nodes[id].span;
    let g = t.nodes[r].span;
    &&& 0 <= id < r < t.nodes.len()
    &&& t.nodes[r].delimited && t.nodes[r].kind is Literal
    &&& !t.nodes[id].delimited
    &&& flow_place(s, x, g)
    &&& forall|i: int| 0 <= i < t.nodes.len() ==> around_flow(#[trigger] t.nodes[i], g)
}

/// The new scalar stands in the place of the old one in a flow collection.
pub open spec fn flow_replaced(k: Cut, value: Seq<u8>, quotes: bool) -> bool {
    let text = rendered(k.s.subrange(k.x, k.y), value, quotes);
    &&& flow_place(k.s, Extent { a: k.x, b: k.y }, Extent { a: k.a, b: k.b })
    &&& style_fits(k.s.subrange(k.x, k.y), value, true, quotes)
    &&& k.t == spliced(k.s, Extent { a: k.x, b: k.y }, text)
    &&& k.c - k.b == text.len() - (k.y - k.x)
    &&& k.n == written_value(value, quotes)
}

/// Both sources are the same around the scalar.
pub open spec fn same_around(k: Cut) -> bool {
    let d = k.c - k.b;
    &&& k.t.len() == k.s.len() + d
    &&& k.x <= k.y + d
    &&& forall|i: int| 0 <= i < k.x ==> #[trigger] k.s[i] == k.t[i]
    &&& forall|i: int| k.y <= i < k.s.len() ==> #[trigger] k.s[i] == k.t[i + d]
}

proof fn lemma_flow_around(k: Cut, value: Seq<u8>, quotes: bool)
    requires
        flow_replaced(k, value, quotes),
    ensures
        same_around(k),
        holds(k.t, k.x, rendered(k.s.subrange(k.x, k.y), value, quotes)),
{
    let text = rendered(k.s.subrange(k.x, k.y), value, quotes);
    let d = k.c - k.b;
    assert forall|i: int| 0 <= i < k.x implies #[trigger] k.s[i] == k.t[i] by {}
    assert forall|i: int| k.y <= i < k.s.len() implies #[trigger] k.s[i] == k.t[i + d] by {}
    assert(k.t.subrange(k.x, k.y + d) =~= text);
}

/// The collection stands alone in the second source too.
proof fn lemma_flow_alone(k: Cut)
    requires
        same_around(k),
        stands_alone(k.s, k.a, k.b),
        k.a < k.x < k.y < k.b,
        k.s[k.a] == LBRACKET || k.s[k.a] == LBRACE,
    ensures
        stands_alone(k.t, k.a, k.c),
        k.t[k.a] == k.s[k.a],
{
    let d = k.c - k.b;
    assert(k.s[k.a] == k.t[k.a]);
    assert(k.s[k.b - 1] == k.t[k.c - 1]);
    if k.a > 0 {
        assert(k.s[k.a - 1] == k.t[k.a - 1]);
    }
    lemma_run_tail(k.s, k.t, k.b, d, Class::Blank);
    lemma_run(k.s, k.b, Class::Blank);
    let q = run(k.s, k.b, Class::Blank);
    if q < k.s.len() {
        assert(k.s[q] == k.t[q + d]);
    }
}

/// A flow scalar ends in the second source where it ends in the first.
proof fn lemma_flow_ends(k: Cut)
    requires
        same_around(k),
        0 <= k.y <= k.s.len(),
        0 <= k.x,
        flow_ends(k.s, k.y),
    ensures
        flow_ends(k.t, k.y + (k.c - k.b)),
{
    let d = k.c - k.b;
    lemma_run_tail(k.s, k.t, k.y, d, Class::Blank);
    lemma_run(k.s, k.y, Class::Blank);
    let p = run(k.s, k.y, Class::Blank);
    if p < k.s.len() {
        assert(k.s[p] == k.t[p + d]);
    }
}

/// The new scalar is read as one.
#[verifier::rlimit(60)]
proof fn lemma_flow_cut(k: Cut, value: Seq<u8>, quotes: bool)
    requires
        flow_replaced(k, value, quotes),
    ensures
        k.ok(),
        k.flow(),
        written(k),
        flow_reads(k.t, k.x, k.inner().c, value, quotes),
{
    let model = k.s.subrange(k.x, k.y);
    lemma_flow_around(k, value, quotes);
    lemma_flow_alone(k);
    lemma_flow_ends(k);
    assert(model[0] == k.s[k.x]);
    lemma_flow_new(k.t, k.x, model, value, quotes);
    assert(k.base());
    let i = k.inner();
    assert(i.base());
    assert(flow_written(i));
}

/// Whether what stands from `p` to `e` in a flow collection is read as `value`.
pub open spec fn flow_reads(s: Seq<u8>, p: int, e: int, value: Seq<u8>, quotes: bool) -> bool {
    if quotes {
        (s[p] == DQUOTE || s[p] == SQUOTE) && quoted(s, p, s[p] == DQUOTE) == Ok::<_, Fail>((value, e))
    } else {
        s[p] != DQUOTE && s[p] != SQUOTE && plain_text(s, p, true) == value && plain_end(s, p, true) == e
    }
}

/// What is written in a flow collection is read back.
proof fn lemma_flow_new(s: Seq<u8>, p: int, model: Seq<u8>, value: Seq<u8>, quotes: bool)
    requires
        holds(s, p, rendered(model, value, quotes)),
        flow_ends(s, p + rendered(model, value, quotes).len()),
        style_fits(model, value, true, quotes),
    ensures
        ({
            let e = p + rendered(model, value, quotes).len();
            &&& p < e
            &&& flow_reads(s, p, e, value, quotes)
            &&& Class::Name.holds(s[p])
            &&& s[p] != STAR && s[p] != BANG && s[p] != AMP && s[p] != HASH
        }),
{
    let r = rendered(model, value, quotes);
    let e = p + r.len();
    lemma_run(s, e, Class::Blank);
    assert(at(s, e) != Some(SQUOTE)) by {
        if e < run(s, e, Class::Blank) {
            assert(Class::Blank.holds(s[e]));
        }
    }
    if at(model, 0) == Some(DQUOTE) {
        law_double_quoted_reads_back(s, p, value);
    } else if quotes {
        lemma_quoted_text(s, p, value);
        assert(r.len() >= 2 && (r[0] == DQUOTE || r[0] == SQUOTE));
        lemma_holds_at(s, p, r, 0);
    } else {
        lemma_holds_at(s, p, value, 0);
        assert(value.contains(value[0]));
        assert(!crate::patterns::is_ctrl(value[0]));
        law_flow_plain_reads_back(s, p, value);
    }
}

/// The flow collection and the scalar in it are nodes that can be told apart.
proof fn lemma_flow_around_tree(k: Cut, t: Tree, id: int, r: int)
    requires
        k.flow(),
        replaceable_in(k.s, t, id, r),
        t.nodes[id].span == (Extent { a: k.x, b: k.y }),
        t.nodes[id].shape is Leaf,
        t.nodes[id].kind is Literal,
        k.l == id,
        t.nodes[r].span == (Extent { a: k.a, b: k.b }),
        forall|i: int| 0 <= i < t.nodes.len() ==> node_free(k.x, #[trigger] t.nodes[i]),
        all_quiet(k.inner(), t),
    ensures
        leaf_at(k, t, r),
        apart(k, t, 0),
{
    assert(scalar_at(k, t, id));
    reveal(apart);
    assert forall|i: int| 0 <= i < t.nodes.len() implies node_apart(k, #[trigger] t.nodes[i]) by {
        assert(around_flow(t.nodes[i], t.nodes[r].span));
        assert(node_free(k.x, t.nodes[i]));
        assert(node_quiet(k.inner(), t.nodes[i]));
    }
}

/// Whether quoted scalars after the one that differs are read alike.
spec fn all_quiet(k: Cut, t: Tree) -> bool {
    forall|i: int| 0 <= i < t.nodes.len() ==> node_quiet(k, #[trigger] t.nodes[i])
}

/// An edit that moves no line leaves them so.
proof fn lemma_all_quiet(k: Cut, s: Seq<u8>, out: Seq<u8>, t: Tree)
    requires
        k.s == past_bom(s),
        k.t == past_bom(out),
        k.t.len() == k.s.len() + (k.c - k.b),
        0 <= k.a < k.b <= k.s.len(),
        k.x == k.a && k.y == k.b,
        forall|i: int| 0 <= i < t.nodes.len() ==> 0 <= (#[trigger] t.nodes[i]).span.b <= k.s.len(),
        !disturbs(s, t, moved(Extent { a: k.a, b: k.b }, bom_len(s)), out),
    ensures
        all_quiet(k, t),
{
    let n = bom_len(s);
    assert forall|i: int| 0 <= i < t.nodes.len() implies node_quiet(k, #[trigger] t.nodes[i]) by {
        let x = t.nodes[i];
        if x.shape is Leaf && k.b <= x.span.a < x.span.b && !k.later(x.span.a) && (k.s[x.span.a] == DQUOTE
            || k.s[x.span.a] == SQUOTE) && !one_line(k.s, x.span.a, x.span.b) {
            assert(s[x.span.a + n] == k.s[x.span.a]);
            assert(run(s, k.b + n, Class::Line) >= x.span.a + n) by {
                lemma_run(s, k.b + n, Class::Line);
                let e = run(s, k.b + n, Class::Line);
                if e < x.span.a + n {
                    assert(k.s[e - n] == s[e]);
                    assert(k.later(x.span.a));
                }
            }
            assert(run(s, x.span.a + n, Class::Line) < x.span.b + n) by {
                lemma_run(s, x.span.a + n, Class::Line);
                let j = choose|j: int| x.span.a <= j < x.span.b && is_break(#[trigger] k.s[j]);
                assert(s[j + n] == k.s[j]);
                if run(s, x.span.a + n, Class::Line) > j + n {
                    assert(Class::Line.holds(s[j + n]));
                }
            }
            assert(leans_on(s, t, moved(Extent { a: k.a, b: k.b }, n), i));
            assert(stays_read(s, t, i, out));
        }
    }
}

proof fn lemma_flow_tree(k: Cut, path: Seq<SegmentView>, r: int)
    requires
        is_text(k.s),
        k.flow(),
        stream(k.s) is Ok,
        ({
            let t = (stream(k.s)->Ok_0).1.t;
            let f = resolved_path(t, path, false)->0;
            &&& leads_to_scalar(t, path)
            &&& replaceable_in(k.s, t, f.node->0, r)
            &&& k.l == f.node->0
            &&& f.located.span == (Extent { a: k.x, b: k.y })
            &&& t.nodes[r].span == (Extent { a: k.a, b: k.b })
            &&& all_quiet(k.inner(), t)
        }),
    ensures
        linked((stream(k.s)->Ok_0).1.t),
        leaf_at(k, (stream(k.s)->Ok_0).1.t, r),
        apart(k, (stream(k.s)->Ok_0).1.t, 0),
        forall|j: int| #[trigger] under_root((stream(k.s)->Ok_0).1.t, r, j) ==> j == doc_number(path),
{
    let st = (stream(k.s)->Ok_0).1;
    law_stream_tree(k.s);
    lemma_linked(st.t, k.s, st.p);
    lemma_path_free(st.t, k.s, st.p, path);
    lemma_flow_around_tree(k, st.t, (resolved_path(st.t, path, false)->0).node->0, r);
}

/// The streams before and after have the same tree, moved.
#[verifier::rlimit(60)]
proof fn lemma_flow_streams(k: Cut, path: Seq<SegmentView>, r: int, value: Seq<u8>, quotes: bool)
    requires
        is_text(k.s),
        flow_replaced(k, value, quotes),
        stream(k.s) is Ok,
        ({
            let t = (stream(k.s)->Ok_0).1.t;
            let f = resolved_path(t, path, false)->0;
            &&& leads_to_scalar(t, path)
            &&& replaceable_in(k.s, t, f.node->0, r)
            &&& k.l == f.node->0
            &&& f.located.span == (Extent { a: k.x, b: k.y })
            &&& t.nodes[r].span == (Extent { a: k.a, b: k.b })
            &&& all_quiet(k.inner(), t)
        }),
    ensures
        linked((stream(k.s)->Ok_0).1.t),
        stream(k.t) is Ok,
        (stream(k.t)->Ok_0).0.len() == (stream(k.s)->Ok_0).0.len(),
        alike((stream(k.s)->Ok_0).0, (stream(k.t)->Ok_0).0, 0, doc_number(path)),
        (stream(k.t)->Ok_0).1 == moved_st(k, (stream(k.s)->Ok_0).1),
        ({
            let d = doc_number(path);
            let docs = (stream(k.s)->Ok_0).0;
            0 <= d < docs.len() && turned_doc(k, (stream(k.s)->Ok_0).1.t, docs[d], (stream(k.t)->Ok_0).0[d])
        }),
        flow_reads(k.t, k.x, k.inner().c, value, quotes),
{
    lemma_flow_cut(k, value, quotes);
    lemma_flow_tree(k, path, r);
    lemma_streams(k, r);
}

/// It does not depend on what stands around the scalar.
proof fn lemma_doc_inner(k: Cut, t: Tree, v: Val, w: Val)
    requires
        turned_doc(k, t, v, w),
    ensures
        turned_doc(k.inner(), t, v, w),
{
    reveal(turned_doc);
    let j = k.inner();
    let o = choose|o: Val| #[trigger] was(k, o) && one_changed(v, w, old_leaf(k, t, o), new_leaf(k, t));
    assert(was(j, o) && old_leaf(j, t, o) == old_leaf(k, t, o) && new_leaf(j, t) == new_leaf(k, t));
}

#[verifier::rlimit(60)]
proof fn lemma_flow_reread(s: Seq<u8>, out: Seq<u8>, path: Seq<SegmentView>, value: Seq<u8>, quotes: bool, r: int)
    requires
        is_text(s),
        is_text(out),
        stream(s) is Ok,
        ({
            let t = (stream(s)->Ok_0).1.t;
            let f = resolved_path(t, path, false)->0;
            let x = f.located.span;
            &&& leads_to_scalar(t, path)
            &&& replaceable_in(s, t, f.node->0, r)
            &&& style_fits(s.subrange(x.a, x.b), value, true, quotes)
            &&& all_quiet(
                Cut {
                    s,
                    t: out,
                    a: x.a,
                    b: x.b,
                    c: x.a + rendered(s.subrange(x.a, x.b), value, quotes).len(),
                    x: x.a,
                    y: x.b,
                    l: f.node->0,
                    n: written_value(value, quotes),
                },
                t,
            )
            &&& type_kept(s.subrange(x.a, x.b), t.nodes[f.node->0].tags, written_value(value, quotes))
            &&& out == spliced(s, x, rendered(s.subrange(x.a, x.b), value, quotes))
        }),
    ensures
        ({
            let x = (resolved_path((stream(s)->Ok_0).1.t, path, false)->0).located.span;
            let c = x.a + rendered(s.subrange(x.a, x.b), value, quotes).len();
            &&& kept_around(s, out, path, x, c, written_value(value, quotes))
            &&& flow_reads(out, x.a, c, value, quotes)
        }),
{
    let t = (stream(s)->Ok_0).1.t;
    let f = resolved_path(t, path, false)->0;
    let x = f.located.span;
    let g = t.nodes[r].span;
    let d = rendered(s.subrange(x.a, x.b), value, quotes).len() - (x.b - x.a);
    let n = written_value(value, quotes);
    let k = Cut { s, t: out, a: g.a, b: g.b, c: g.b + d, x: x.a, y: x.b, l: f.node->0, n };
    lemma_flow_streams(k, path, r, value, quotes);
    lemma_inner_moves(k, t);
    lemma_doc_inner(k, t, (stream(s)->Ok_0).0[doc_number(path)], (stream(out)->Ok_0).0[doc_number(path)]);
    let j = k.inner();
    assert(j.t.subrange(j.a, j.c) =~= rendered(s.subrange(x.a, x.b), value, quotes));
    if !quotes {
        lemma_plain_flat(value);
        assert(j.t[j.a] == j.t.subrange(j.a, j.c)[0]);
    }
    lemma_assemble(j, path);
}

/// An edit that is allowed by default is read back in a flow collection too, whatever
/// the value, and is of the type that was there.
///
/// The collection stands alone on its lines, and neither an anchor nor a key holds it.
pub proof fn law_set_in_flow_then_locate(s: Seq<u8>, path: Seq<SegmentView>, value: Seq<u8>, out: Seq<u8>, r: int)
    requires
        is_text(s),
        is_text(value),
        is_text(out),
        edited(s, path, value, strict_opts()) == Ok::<_, ErrorView>((out, OutcomeView::Spliced)),
        ({
            let src = past_bom(s);
            let t = (stream(src)->Ok_0).1.t;
            replaceable_in(src, t, (resolved_path(t, path, false)->0).node->0, r)
        }),
    ensures
        ({
            let src = past_bom(s);
            let t = (stream(src)->Ok_0).1.t;
            let f = resolved_path(t, path, false)->0;
            let x = f.located.span;
            let quotes = default_quotes(s, t, f, value);
            let c = x.a + rendered(src.subrange(x.a, x.b), value, quotes).len();
            &&& kept_around(src, past_bom(out), path, x, c, written_value(value, quotes))
            &&& flow_reads(past_bom(out), x.a, c, value, quotes)
        }),
{
    lemma_default_src(s, path, value, out);
    lemma_past_bom_text(out);
    let t = (stream(past_bom(s))->Ok_0).1.t;
    let f = resolved_path(t, path, false)->0;
    assert(t.nodes[r].delimited && t.nodes[r].span.a < f.located.span.a && f.located.span.b < t.nodes[r].span.b);
    let src = past_bom(s);
    let x = f.located.span;
    let quotes = default_quotes(s, t, f, value);
    let c = x.a + rendered(src.subrange(x.a, x.b), value, quotes).len();
    let k = Cut {
        s: src,
        t: past_bom(out),
        a: x.a,
        b: x.b,
        c,
        x: x.a,
        y: x.b,
        l: f.node->0,
        n: written_value(value, quotes),
    };
    law_stream_tree(src);
    assert forall|i: int| 0 <= i < t.nodes.len() implies 0 <= (#[trigger] t.nodes[i]).span.b <= src.len() by {
        reveal(sound);
        assert(sound_node(t.nodes[i], i, src, (stream(src)->Ok_0).1.p));
    }
    lemma_all_quiet(k, s, out, t);
    lemma_flow_reread(src, past_bom(out), path, value, quotes, r);
}

/// Whether nothing stands at `x` that a value written there would be read with: in flow
/// context the end of a line, a comment, a colon or a flow mark, and otherwise the end of
/// a line or a comment, each after any blanks.
pub open spec fn open_after(s: Seq<u8>, x: int, flow: bool) -> bool {
    let q = run(s, x, Class::Blank);
    line_ends(s, q) || at(s, q) == Some(HASH) || (flow && (at(s, q) == Some(COLON) || is_flow_mark(s[q])))
}

/// Text that was written between others.
proof fn lemma_put_in(s: Seq<u8>, x: int, w: Seq<u8>, text: Seq<u8>, z: Seq<u8>, out: Seq<u8>)
    requires
        0 <= x <= s.len(),
        out == s.take(x) + w + text + z + s.skip(x),
    ensures
        holds(out, x + w.len(), text),
        out.len() == s.len() + w.len() + text.len() + z.len(),
        forall|i: int| x <= i < s.len() ==> #[trigger] s[i] == out[i + w.len() + text.len() + z.len()],
        forall|i: int| 0 <= i < z.len() ==> out[x + w.len() + text.len() + i] == #[trigger] z[i],
{
    assert(out.subrange(x + w.len(), x + w.len() + text.len()) =~= text);
}

/// What follows text that was written, with a space where it needs one.
proof fn lemma_after(s: Seq<u8>, x: int, out: Seq<u8>, e: int, flow: bool)
    requires
        0 <= x <= s.len(),
        0 <= e,
        open_after(s, x, flow),
        ({
            let n = space_if(joins_after(s, x, flow)).len();
            let d = e + n - x;
            &&& out.len() == s.len() + d
            &&& n > 0 ==> out[e] == SPACE
            &&& forall|i: int| x <= i < s.len() ==> #[trigger] s[i] == out[i + d]
        }),
    ensures
        at(out, e) != Some(SQUOTE),
        flow ==> flow_ends(out, e),
        !flow ==> plain_ends(out, e),
{
    let n = space_if(joins_after(s, x, flow)).len();
    let d = e + n - x;
    lemma_run_tail(s, out, x, d, Class::Blank);
    let q = run(s, x, Class::Blank);
    lemma_run(s, x, Class::Blank);
    if q < s.len() {
        assert(s[q] == out[q + d]);
    }
    if x < s.len() {
        assert(s[x] == out[x + d]);
    }
    if n > 0 {
        assert(run(out, e, Class::Blank) == run(out, e + 1, Class::Blank));
    }
}

/// What is filled in for an empty value is read back as one scalar.
pub proof fn law_filling_reads_back(s: Seq<u8>, key: Extent, p: int, flow: bool, value: Seq<u8>)
    requires
        0 <= key.b <= s.len(),
        0 <= p <= s.len(),
        colon_at(s, past_flow_gap(s, key.b), flow),
        open_after(s, value_place(s, past_flow_gap(s, key.b), p), flow),
    ensures
        ({
            let x = value_place(s, past_flow_gap(s, key.b), p);
            let out = filled(s, key, p, flow, value)->0;
            let a = x + space_if(joins_before(s, x)).len();
            let e = a + new_text(value, flow).len();
            let new = token(out, a)->Ok_0;
            &&& filled(s, key, p, flow, value) is Some
            &&& flow ==> flow_reads(out, a, e, value, unfit(value, flow))
            &&& !flow ==> token(out, a) is Ok && new.text == value && new.end == e && new.quoted == unfit(value, flow)
        }),
{
    let c = past_flow_gap(s, key.b);
    past_flow_gap_in(s, key.b);
    let x = value_place(s, c, p);
    lemma_run(s, c + 1, Class::Spaces);
    let out = filled(s, key, p, flow, value)->0;
    let text = new_text(value, flow);
    let none = Seq::<u8>::empty();
    let w = space_if(joins_before(s, x));
    let z = space_if(joins_after(s, x, flow));
    let a = x + w.len();
    let e = a + text.len();
    assert(text == rendered(none, value, unfit(value, flow)));
    lemma_put_in(s, x, w, text, z, out);
    if z.len() > 0 {
        assert(out[e + 0] == z[0]);
    }
    lemma_after(s, x, out, e, flow);
    if flow {
        lemma_flow_new(out, a, none, value, unfit(value, flow));
    } else {
        law_set_value_reads_back(out, a, none, value, unfit(value, flow));
    }
}

/// An entry that overrides an inherited key is read back: its key, a colon, and its
/// value.
pub proof fn law_overriding_reads_back(
    s: Seq<u8>,
    x: Extent,
    key: Seq<u8>,
    model: Seq<u8>,
    value: Seq<u8>,
    quotes: bool,
)
    requires
        0 <= x.a <= x.b <= s.len(),
        bom_len(s) <= x.a,
        style_fits(model, value, false, quotes),
    ensures
        ({
            let text = rendered(model, value, quotes);
            let out = overridden(s, x, key, text);
            let a = line_close(s, x.b) + 1 + (x.a - line_start(s, x.a));
            let c = a + new_text(key, false).len();
            let k = token(out, a)->Ok_0;
            let v = token(out, c + 2)->Ok_0;
            &&& token(out, a) is Ok && k.text == key && k.end == c
            &&& indicator_at(out, c, COLON)
            &&& token(out, c + 2) is Ok && v.text == value && v.end == c + 2 + text.len() && v.quoted == quotes
        }),
{
    let text = rendered(model, value, quotes);
    let out = overridden(s, x, key, text);
    let end = line_close(s, x.b);
    lemma_run(s, x.b, Class::Line);
    lemma_back_stop(s, bom_len(s), x.a, Class::Line);
    let indent = x.a - line_start(s, x.a);
    let a = end + 1 + indent;
    let name = new_text(key, false);
    let c = a + name.len();
    let e = c + 2 + text.len();
    reveal_strlit(": ");
    super::scalars::lemma_ascii(": "@);
    assert(lit(": ") =~= seq![COLON, SPACE]);
    assert(out.subrange(a, c) =~= name);
    assert(out[c] == COLON && out[c + 1] == SPACE);
    assert(out.subrange(c + 2, e) =~= text);
    assert(out.len() == s.len() + (e - end));
    if end < s.len() {
        assert(out[e] == s[end]);
        assert(is_break(s[end])) by {
            assert(!Class::Line.holds(s[run(s, x.b, Class::Line)]));
        }
    }
    assert(run(out, e, Class::Blank) == e);
    assert(run(out, c, Class::Blank) == c);
    let none = Seq::<u8>::empty();
    assert(name == rendered(none, key, unfit(key, false)));
    law_set_value_reads_back(out, a, none, key, unfit(key, false));
    law_set_value_reads_back(out, c + 2, model, value, quotes);
}

} // verus!
