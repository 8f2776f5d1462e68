//! What edits keep and what they refuse.
use vstd::prelude::*;
use super::splice::reach::lemma_path_key;
use super::scalars::{law_set_keeps_the_type, law_set_value_is_written};
use super::streams::law_stream_tree;
use crate::edit::apply::{applied, diff, ChangeView};
use crate::edit::doc::{removed, without_lines};
use crate::edit::around::{disturbs, fenced};
use crate::edit::locate::{
    alias_target, anchor_before, descend, entry_at, entry_from, followed, has_entry, in_flow, in_tree, lemma_in_tree,
    lemma_linked, linked, location, moved, parts_below, resolved_path, Found,
};
use crate::edit::plan::{planned, reach, refs_among, refs_to};
use crate::edit::set::{
    changed, colon_at, edited, filled, indented, joins_after, joins_before, kept_at, line_close, line_start,
    new_text, overridden, rendered, restyled, space_if, spliced, steps_in, strict_opts, value_place, writes_quotes,
    OptsView, OutcomeView,
};
use crate::edit::sink::{sound, sound_node, EntryView, Extent, ShapeView, Tree};
use crate::edit::types::{has_quotes, node_value, raw_value, same_type, tagged, text_at};
use crate::edit::{KindView, SegmentView};
use crate::error::ErrorView;
use crate::parser::grammar::stream;
use crate::parser::layout::{col_at, line_at, next_line, past_flow_gap, past_flow_gap_in};
use crate::parser::{bom_len, lemma_past_bom_text, past_bom};
use crate::text::{is_break, is_text, lemma_back_stop, lemma_run, run, Class, CR, DQUOTE, LF, SPACE, SQUOTE, STAR};
use crate::patterns::{ctrl_in, is_ctrl, resolved};
use crate::value::{lit, Val};

verus! {

/// An entry that is found is one of those looked through.
pub(crate) proof fn lemma_entry_in(es: Seq<EntryView>, key: Seq<u8>, i: int)
    requires
        0 <= i,
    ensures
        match entry_from(es, key, i) {
            Some(j) => i <= j < es.len(),
            None => true,
        },
    decreases es.len() - i,
{
    if i < es.len() && es[i].text != Some(key) {
        lemma_entry_in(es, key, i + 1);
    }
}

/// The parts of a node are nodes.
proof fn lemma_parts(t: Tree, id: int)
    requires
        linked(t),
        0 <= id < t.nodes.len(),
    ensures
        parts_below(t.nodes[id].shape, id),
{
    reveal(linked);
}

/// What a path leads to is a node, unless it is inherited.
proof fn lemma_descend_node(
    t: Tree,
    id: int,
    path: Seq<SegmentView>,
    follow: bool,
    enclosing: Option<(Seq<u8>, int)>,
    key: Option<Extent>,
)
    ensures
        match descend(t, id, path, follow, enclosing, key) {
            Some(f) => if f.node is None {
                f.located.kind is MergeInherited && f.located.anchor is None
            } else {
                &&& f.located.span == t.nodes[f.node->0].span
                &&& f.located.kind == t.nodes[f.node->0].kind
                &&& linked(t) && 0 <= id < t.nodes.len() ==> 0 <= f.node->0 < t.nodes.len()
            },
            None => true,
        },
    decreases path.len(),
{
    law_following_ends(t, id);
    if path.len() > 0 && !(t.nodes[id].kind is AliasRef && !follow) {
        match followed(t, id) {
            None => {},
            Some(def) => {
                let x = t.nodes[def];
                let within = match x.anchor {
                    Some((name, _)) => Some((name, def)),
                    None => enclosing,
                };
                if linked(t) && 0 <= id < t.nodes.len() {
                    lemma_parts(t, def);
                }
                match (path[0], x.shape) {
                    (SegmentView::Index(n), ShapeView::Items(items)) => {
                        if 0 <= n < items.len() {
                            lemma_descend_node(t, items[n], path.skip(1), follow, within, None);
                        }
                    },
                    (SegmentView::Key(k), ShapeView::Entries(es)) => {
                        lemma_entry_in(es, k, 0);
                        if let Some(i) = entry_from(es, k, 0) {
                            lemma_descend_node(t, es[i].value, path.skip(1), follow, within, Some(es[i].key));
                        }
                    },
                    _ => {},
                }
            },
        }
    }
}

pub(crate) proof fn lemma_path_node(t: Tree, path: Seq<SegmentView>, follow: bool)
    ensures
        match resolved_path(t, path, follow) {
            Some(f) => if f.node is None {
                f.located.kind is MergeInherited && f.located.anchor is None
            } else {
                &&& f.located.span == t.nodes[f.node->0].span
                &&& f.located.kind == t.nodes[f.node->0].kind
                &&& linked(t) ==> 0 <= f.node->0 < t.nodes.len()
            },
            None => true,
        },
{
    let (doc, rest) = if path.len() > 0 && path[0] is Doc {
        (path[0]->Doc_0, path.skip(1))
    } else {
        (0, path)
    };
    if 0 <= doc < t.roots.len() {
        if linked(t) {
            reveal(linked);
            assert(0 <= t.roots[doc] < t.nodes.len());
        }
        lemma_descend_node(t, t.roots[doc], rest, follow, None, None);
    }
}

/// Whether an edit without options is wider than the bytes that were named: of an
/// alias, an inherited key, an anchored value or one inside such a value, a
/// collection, or an empty value.
pub open spec fn wider(t: Tree, f: Found) -> bool {
    ||| !(f.located.kind is Literal)
    ||| f.located.anchor is Some
    ||| f.enclosing is Some
    ||| f.located.span.a == f.located.span.b
    ||| !(t.nodes[f.node->0].shape is Leaf)
}

/// The text that a default edit of what was found writes, if any keeps the type.
pub open spec fn default_text(s: Seq<u8>, t: Tree, f: Found, value: Seq<u8>) -> Result<Seq<u8>, Seq<u8>> {
    restyled(
        text_at(s, f.located.span),
        value,
        in_flow(t, f.located.span),
        fenced(past_bom(s), f.located.span),
        kept_at(s, t, f.node->0, strict_opts()),
    )
}

/// By default an edit succeeds exactly on an ordinary scalar that no alias shares, if
/// its type can be kept and nothing else on its line would be read otherwise, and
/// refuses anything wider than the bytes the path names.
pub proof fn law_default_refuses_wider(s: Seq<u8>, path: Seq<SegmentView>, value: Seq<u8>)
    ensures
        edited(s, path, value, strict_opts()) is Ok <==> (stream(past_bom(s)) is Ok && ({
            let t = (stream(past_bom(s))->Ok_0).1.t;
            let f = resolved_path(t, path, false);
            let text = default_text(s, t, f->0, value);
            &&& f is Some && !wider(t, f->0) && text is Ok
            &&& !disturbs(
                s,
                t,
                moved((f->0).located.span, bom_len(s)),
                spliced(s, moved((f->0).located.span, bom_len(s)), text->Ok_0),
            )
        })),
{
    if let Ok((_, st)) = stream(past_bom(s)) {
        lemma_path_node(st.t, path, false);
    }
}

/// By default an edit touches only the bytes that the path names: everything
/// before them and everything after them stays, byte for byte, and what was
/// there is what `locate` finds.
pub proof fn law_default_is_surgical(s: Seq<u8>, path: Seq<SegmentView>, value: Seq<u8>)
    requires
        is_text(s),
        edited(s, path, value, strict_opts()) is Ok,
    ensures
        location(s, path) is Ok && location(s, path)->Ok_0 is Some,
        ({
            let x = (location(s, path)->Ok_0->0).span;
            let t = (stream(past_bom(s))->Ok_0).1.t;
            let text = default_text(s, t, resolved_path(t, path, false)->0, value)->Ok_0;
            let out = (edited(s, path, value, strict_opts())->Ok_0).0;
            &&& 0 <= x.a < x.b <= s.len()
            &&& (location(s, path)->Ok_0->0).kind is Literal
            &&& edited(s, path, value, strict_opts())->Ok_0 == (spliced(s, x, text), OutcomeView::Spliced)
            &&& out.take(x.a) == s.take(x.a)
            &&& out.skip(x.a + text.len()) == s.skip(x.b)
            &&& out.subrange(x.a, x.a + text.len()) == text
        }),
{
    let st = (stream(past_bom(s))->Ok_0).1;
    lemma_past_bom_text(s);
    law_stream_tree(past_bom(s));
    lemma_linked(st.t, past_bom(s), st.p);
    lemma_path_node(st.t, path, false);
    let f = resolved_path(st.t, path, false)->0;
    let id = f.node->0;
    assert(sound_node(st.t.nodes[id], id, past_bom(s), st.p)) by {
        reveal(sound);
    }
    let x = (location(s, path)->Ok_0->0).span;
    let text = default_text(s, st.t, f, value)->Ok_0;
    let out = (edited(s, path, value, strict_opts())->Ok_0).0;
    assert(out == spliced(s, x, text));
    assert(out.take(x.a) =~= s.take(x.a));
    assert(out.skip(x.a + text.len()) =~= s.skip(x.b));
    assert(out.subrange(x.a, x.a + text.len()) =~= text);
}

/// By default an edit changes no type: what is written has the type of the value that
/// was there.
pub proof fn law_default_keeps_the_type(s: Seq<u8>, path: Seq<SegmentView>, value: Seq<u8>)
    requires
        is_text(s),
        edited(s, path, value, strict_opts()) is Ok,
    ensures
        ({
            let t = (stream(past_bom(s))->Ok_0).1.t;
            let f = resolved_path(t, path, false)->0;
            let text = default_text(s, t, f, value)->Ok_0;
            &&& node_value(s, t, f.node->0) is Some
            &&& same_type(node_value(s, t, f.node->0)->0, tagged(t.nodes[f.node->0].tags, raw_value(text)))
        }),
{
    let t = (stream(past_bom(s))->Ok_0).1.t;
    let f = resolved_path(t, path, false)->0;
    lemma_path_node(t, path, false);
    law_set_keeps_the_type(
        text_at(s, f.located.span),
        value,
        in_flow(t, f.located.span),
        fenced(past_bom(s), f.located.span),
        kept_at(s, t, f.node->0, strict_opts())->0,
    );
}

/// Whether `more` allows all that `less` allows, and treats types and references
/// alike.
pub open spec fn allows_more(less: OptsView, more: OptsView) -> bool {
    &&& less.replace_nodes ==> more.replace_nodes
    &&& less.edit_anchors ==> more.edit_anchors
    &&& less.edit_refs ==> more.edit_refs
    &&& less.insert_empty ==> more.insert_empty
    &&& less.override_inherited ==> more.override_inherited
    &&& less.allow_type_change == more.allow_type_change
    &&& less.follow_refs == more.follow_refs
}

/// An option lifts a restriction and does nothing else: an edit that is allowed
/// without it comes out the same with it.
pub proof fn law_options_only_permit(
    s: Seq<u8>,
    path: Seq<SegmentView>,
    value: Seq<u8>,
    less: OptsView,
    more: OptsView,
)
    requires
        allows_more(less, more),
        edited(s, path, value, less) is Ok,
    ensures
        edited(s, path, value, more) == edited(s, path, value, less),
{
}

/// An edit that reaches an anchor is reported as such, whatever else it is, with
/// the number of aliases that read the new value.
pub proof fn law_anchor_outcome_is_widest(t: Tree, f: Found, opts: OptsView)
    requires
        planned(t, f, opts) is Ok,
        reach(f) is Some,
    ensures
        (planned(t, f, opts)->Ok_0).1 == (OutcomeView::PropagatedAnchor {
            name: (reach(f)->0).0,
            refs: refs_to(t, (reach(f)->0).1),
        }),
{
}

/// Whether the options allow an edit of what was found: no anchor is reached without
/// `edit_anchors`, no alias is severed without `edit_refs`, no collection is replaced
/// without `replace_nodes`, and the path neither ends at an inherited key nor goes on
/// past an alias.
pub open spec fn permitted(t: Tree, f: Found, opts: OptsView) -> bool {
    &&& f.located.anchor is Some && f.node is Some || f.enclosing is Some ==> opts.edit_anchors
    &&& !(f.located.kind is MergeInherited)
    &&& f.located.kind is AliasRef ==> !f.truncated && opts.edit_refs && followed(t, f.node->0) is Some && (
    opts.replace_nodes || t.nodes[followed(t, f.node->0)->0].shape is Leaf)
    &&& f.located.kind is Literal ==> opts.replace_nodes || t.nodes[f.node->0].shape is Leaf
}

/// An edit of a value that is there is planned exactly if the options allow it, and says
/// what it does: the anchor whose aliases read the new value, the alias that is severed,
/// the collection that is replaced, or else that bytes were spliced.
pub proof fn law_edit_says_what_it_does(t: Tree, f: Found, opts: OptsView)
    ensures
        planned(t, f, opts) is Ok <==> permitted(t, f, opts),
        planned(t, f, opts) is Ok ==> match (planned(t, f, opts)->Ok_0).1 {
            OutcomeView::PropagatedAnchor { name, refs } => reach(f) is Some && name == (reach(f)->0).0 && refs
                == refs_to(t, (reach(f)->0).1),
            OutcomeView::ReplacedAlias { name } => reach(f) is None && f.located.kind == KindView::AliasRef(name),
            OutcomeView::ReplacedNode => reach(f) is None && f.located.kind is Literal && !(t.nodes[f.node->0].shape is Leaf),
            OutcomeView::Spliced => reach(f) is None && f.located.kind is Literal && t.nodes[f.node->0].shape is Leaf,
            _ => false,
        },
{
}

/// An edit keeps the quotes of what was there: double quotes stay, and single quotes stay
/// unless the value needs escapes. Without quotes the value is written as it is.
pub proof fn law_quotes_are_kept(model: Seq<u8>, value: Seq<u8>, quotes: bool)
    ensures
        model.len() > 0 && model[0] == DQUOTE ==> {
            let r = rendered(model, value, quotes);
            r.len() > 1 && r[0] == DQUOTE && r.last() == DQUOTE
        },
        model.len() > 0 && model[0] == SQUOTE && quotes && !(exists|i: int|
            0 <= i < value.len() && (is_ctrl(#[trigger] value[i]) || value[i] == LF)) ==> {
            let r = rendered(model, value, quotes);
            r.len() > 1 && r[0] == SQUOTE && r.last() == SQUOTE
        },
        !quotes && !(model.len() > 0 && model[0] == DQUOTE) ==> rendered(model, value, quotes) == value,
{
    let r = rendered(model, value, quotes);
    if quotes && !(model.len() > 0 && model[0] == DQUOTE) {
        if ctrl_in(value) {
            let i = choose|i: int| 0 <= i < value.len() && is_ctrl(#[trigger] value[i]);
        } else if value.contains(LF) {
            let i = choose|i: int| 0 <= i < value.len() && value[i] == LF;
            assert(value[i] == LF);
        }
    }
}

/// The line of an error is one more than the line feeds before it, and its column one
/// more than the bytes between it and the last of them.
pub proof fn law_error_position(s: Seq<u8>, p: int)
    requires
        0 <= p <= s.len(),
        !s.contains(CR),
    ensures
        line_at(s, p) == s.take(p).filter(|b: u8| b == LF).len(),
        0 <= col_at(s, p) <= p,
        col_at(s, p) < p ==> s[p - col_at(s, p) - 1] == LF,
        forall|i: int| p - col_at(s, p) <= i < p ==> #[trigger] s[i] != LF,
    decreases p,
{
    reveal(Seq::filter);
    if p > 0 {
        law_error_position(s, p - 1);
        assert(s.take(p).drop_last() =~= s.take(p - 1));
        assert(s.take(p).last() == s[p - 1]);
        assert(s.contains(s[p - 1]));
    } else {
        assert(s.take(0).filter(|b: u8| b == LF).len() == 0);
    }
}

/// An anchor is found among the nodes read before the alias.
proof fn lemma_anchor_is_before(anchors: Seq<(Seq<u8>, int)>, name: Seq<u8>, before: int)
    ensures
        match anchor_before(anchors, name, before) {
            Some(id) => id < before,
            None => true,
        },
    decreases anchors.len(),
{
    if anchors.len() > 0 {
        lemma_anchor_is_before(anchors.drop_last(), name, before);
    }
}

/// Following aliases ends at a node that is no alias, read no later than the
/// first one.
pub proof fn law_following_ends(t: Tree, id: int)
    ensures
        match followed(t, id) {
            Some(def) => def <= id && (0 <= id ==> 0 <= def) && !(t.nodes[def].kind is AliasRef),
            None => true,
        },
    decreases id,
{
    if t.nodes[id].kind is AliasRef {
        if let Some(def) = alias_target(t, id) {
            if 0 <= def < id {
                law_following_ends(t, def);
            }
        }
    }
}

/// `s` with `text` written at `x`.
pub open spec fn inserted(s: Seq<u8>, x: int, text: Seq<u8>) -> Seq<u8> {
    s.take(x) + text + s.skip(x)
}

/// Filling in an empty value only inserts: every byte that was there stays.
pub proof fn law_filling_only_inserts(s: Seq<u8>, key: Extent, p: int, flow: bool, value: Seq<u8>)
    requires
        0 <= key.b <= s.len(),
        0 <= p <= s.len(),
    ensures
        match filled(s, key, p, flow, value) {
            Some(out) => exists|x: int, text: Seq<u8>| 0 <= x <= s.len() && out == #[trigger] inserted(s, x, text),
            None => true,
        },
{
    if let Some(out) = filled(s, key, p, flow, value) {
        let e = past_flow_gap(s, key.b);
        past_flow_gap_in(s, key.b);
        if colon_at(s, e, flow) {
            let x = value_place(s, e, p);
            lemma_run(s, e + 1, Class::Spaces);
            let text = space_if(joins_before(s, x)) + new_text(value, flow) + space_if(joins_after(s, x, flow));
            assert(out =~= inserted(s, x, text));
        } else {
            let named = key.a == key.b || s[key.a] == STAR;
            let text = space_if(named) + lit(": ") + new_text(value, flow);
            assert(out =~= inserted(s, key.b, text));
        }
    }
}

/// Overriding an inherited key only adds a line, after that of the merge key.
pub proof fn law_overriding_only_inserts(s: Seq<u8>, x: Extent, key: Seq<u8>, text: Seq<u8>)
    requires
        0 <= x.b <= s.len(),
    ensures
        ({
            let end = line_close(s, x.b);
            let line = s.subrange(line_start(s, x.a), x.a) + new_text(key, false) + lit(": ") + text;
            &&& overridden(s, x, key, text) == inserted(s, end, seq![LF] + line)
            &&& x.b <= end <= s.len()
            &&& end == s.len() || s[end] == LF || (s[end] == CR && !(end + 1 < s.len() && s[end + 1] == LF))
            &&& forall|i: int| x.b <= i < end ==> #[trigger] s[i] != LF
        }),
{
    let end = line_close(s, x.b);
    lemma_run(s, x.b, Class::Line);
    let line = s.subrange(line_start(s, x.a), x.a) + new_text(key, false) + lit(": ") + text;
    assert(overridden(s, x, key, text) =~= inserted(s, end, seq![LF] + line));
    assert forall|i: int| x.b <= i < end implies #[trigger] s[i] != LF by {
        if i < run(s, x.b, Class::Line) {
            assert(Class::Line.holds(s[i]));
        }
    }
}

/// Removing an entry removes whole lines: what stays is the text up to the start
/// of one line, with the byte order mark, and the text from the start of another, or
/// nothing.
pub proof fn law_remove_takes_whole_lines(s: Seq<u8>, key: int, end: int)
    requires
        bom_len(s) <= key <= s.len(),
        0 <= end <= s.len(),
    ensures
        ({
            let a = line_start(s, key);
            let b = next_line(s, end);
            &&& without_lines(s, key, end) == s.take(a) + s.skip(b)
            &&& bom_len(s) <= a <= key
            &&& a == bom_len(s) || is_break(s[a - 1])
            &&& forall|i: int| a <= i < key ==> !is_break(#[trigger] s[i])
            &&& end <= b <= s.len()
            &&& b == s.len() || is_break(s[b - 1])
        }),
{
    lemma_back_stop(s, bom_len(s), key, Class::Line);
    lemma_run(s, end, Class::Line);
    assert forall|i: int| line_start(s, key) <= i < key implies !is_break(#[trigger] s[i]) by {
        assert(Class::Line.holds(s[i]));
    }
}

/// A difference that only puts the items of a sequence in another order is refused,
/// whatever the options.
pub proof fn law_reordering_is_refused(s: Seq<u8>, before: Seq<Val>, after: Seq<Val>, opts: OptsView)
    requires
        before != after,
        before.to_multiset() == after.to_multiset(),
    ensures
        applied(s, Val::List(before), Val::List(after), opts) is Err,
{
    assert(diff(Val::List(before), Val::List(after), Seq::empty()).problems.len() == 1);
}

/// Applying the difference between a value and itself changes nothing.
pub proof fn law_apply_without_difference(s: Seq<u8>, v: Val, opts: OptsView)
    ensures
        applied(s, v, v, opts) == Ok::<(Seq<u8>, Seq<ChangeView>), ErrorView>((s, Seq::empty())),
{
}

/// Whether a path from node `id` on meets an alias, or ends at one.
pub open spec fn meets_alias(t: Tree, id: int, path: Seq<SegmentView>) -> bool
    decreases path.len(),
{
    t.nodes[id].kind is AliasRef || (path.len() > 0 && match (path[0], t.nodes[id].shape) {
        (SegmentView::Index(n), ShapeView::Items(c)) => 0 <= n < c.len() && meets_alias(t, c[n], path.skip(1)),
        (SegmentView::Key(k), ShapeView::Entries(es)) => match entry_from(es, k, 0) {
            Some(i) => meets_alias(t, es[i].value, path.skip(1)),
            None => false,
        },
        _ => false,
    })
}

proof fn lemma_no_alias(
    t: Tree,
    id: int,
    path: Seq<SegmentView>,
    enclosing: Option<(Seq<u8>, int)>,
    key: Option<Extent>,
)
    requires
        !meets_alias(t, id, path),
    ensures
        descend(t, id, path, true, enclosing, key) == descend(t, id, path, false, enclosing, key),
    decreases path.len(),
{
    assert(followed(t, id) == Some(id));
    if path.len() > 0 {
        let x = t.nodes[id];
        let within = match x.anchor {
            Some((name, _)) => Some((name, id)),
            None => enclosing,
        };
        match (path[0], x.shape) {
            (SegmentView::Index(n), ShapeView::Items(c)) => {
                if 0 <= n < c.len() {
                    lemma_no_alias(t, c[n], path.skip(1), within, None);
                }
            },
            (SegmentView::Key(k), ShapeView::Entries(es)) => {
                if let Some(i) = entry_from(es, k, 0) {
                    lemma_no_alias(t, es[i].value, path.skip(1), within, Some(es[i].key));
                }
            },
            _ => {},
        }
    }
}

/// Where a path meets no alias, an edit that follows aliases comes out the same as one
/// that does not.
pub proof fn law_following_without_aliases(s: Seq<u8>, path: Seq<SegmentView>, value: Seq<u8>, opts: OptsView)
    requires
        stream(past_bom(s)) is Ok ==> ({
            let t = (stream(past_bom(s))->Ok_0).1.t;
            let d = if path.len() > 0 && path[0] is Doc {
                path[0]->Doc_0
            } else {
                0
            };
            let rest = if path.len() > 0 && path[0] is Doc {
                path.skip(1)
            } else {
                path
            };
            0 <= d < t.roots.len() ==> !meets_alias(t, t.roots[d], rest)
        }),
    ensures
        edited(s, path, value, OptsView { follow_refs: true, ..opts }) == edited(
            s,
            path,
            value,
            OptsView { follow_refs: false, ..opts },
        ),
{
    if let Ok((_, st)) = stream(past_bom(s)) {
        let t = st.t;
        let (d, rest) = if path.len() > 0 && path[0] is Doc {
            (path[0]->Doc_0, path.skip(1))
        } else {
            (0, path)
        };
        if 0 <= d < t.roots.len() {
            lemma_no_alias(t, t.roots[d], rest, None, None);
        }
        let f = resolved_path(t, path, false);
        assert(resolved_path(t, path, true) == f);
        if f is Some {
            let (a, b) = (OptsView { follow_refs: true, ..opts }, OptsView { follow_refs: false, ..opts });
            assert(planned(t, f->0, a) == planned(t, f->0, b));
            assert(changed(s, t, f->0, path, value, a) == changed(s, t, f->0, path, value, b));
        }
    }
}

/// A path goes on from the node that its first part leads to.
proof fn lemma_descend_on(
    t: Tree,
    id: int,
    path: Seq<SegmentView>,
    more: Seq<SegmentView>,
    enclosing: Option<(Seq<u8>, int)>,
    key: Option<Extent>,
)
    requires
        descend(t, id, path, false, enclosing, key) is Some,
        (descend(t, id, path, false, enclosing, key)->0).node is Some,
        !(descend(t, id, path, false, enclosing, key)->0).truncated,
        more.len() > 0,
        ({
            let n = (descend(t, id, path, false, enclosing, key)->0).node->0;
            followed(t, n) is Some && t.nodes[followed(t, n)->0].anchor is Some
        }),
    ensures
        ({
            let n = (descend(t, id, path, false, enclosing, key)->0).node->0;
            descend(t, id, path + more, true, enclosing, key) == descend(t, followed(t, n)->0, more, true, None, None)
        }),
    decreases path.len(),
{
    let n = (descend(t, id, path, false, enclosing, key)->0).node->0;
    if path.len() == 0 {
        assert(path + more =~= more);
        law_following_ends(t, id);
        assert(followed(t, followed(t, id)->0) == followed(t, id));
    } else {
        assert(followed(t, id) == Some(id));
        let x = t.nodes[id];
        let within = match x.anchor {
            Some((name, _)) => Some((name, id)),
            None => enclosing,
        };
        assert((path + more)[0] == path[0]);
        assert((path + more).skip(1) =~= path.skip(1) + more);
        match (path[0], x.shape) {
            (SegmentView::Index(i), ShapeView::Items(c)) => {
                lemma_descend_on(t, c[i], path.skip(1), more, within, None);
            },
            (SegmentView::Key(k), ShapeView::Entries(es)) => {
                if let Some(i) = entry_from(es, k, 0) {
                    lemma_descend_on(t, es[i].value, path.skip(1), more, within, Some(es[i].key));
                }
            },
            _ => {},
        }
    }
}

/// Whether a path in document `d` leads to an alias of the node that another path leads
/// to, which has an anchor.
pub open spec fn stands_for(t: Tree, d: int, alias: Seq<SegmentView>, def: Seq<SegmentView>) -> bool {
    let a = descend(t, t.roots[d], alias, false, None, None);
    let b = descend(t, t.roots[d], def, false, None, None);
    &&& 0 <= d < t.roots.len()
    &&& a is Some && (a->0).node is Some && !(a->0).truncated
    &&& b is Some && (b->0).node is Some && !(b->0).truncated
    &&& followed(t, (a->0).node->0) == Some((b->0).node->0)
    &&& t.nodes[(b->0).node->0].anchor is Some
}

/// A path through an alias is the path through what it stands for: an edit that follows
/// aliases comes out the same on both.
pub proof fn law_following_goes_through(
    s: Seq<u8>,
    d: int,
    alias: Seq<SegmentView>,
    def: Seq<SegmentView>,
    more: Seq<SegmentView>,
    value: Seq<u8>,
    opts: OptsView,
)
    requires
        stream(past_bom(s)) is Ok,
        stands_for((stream(past_bom(s))->Ok_0).1.t, d, alias, def),
        more.len() > 0,
        opts.follow_refs,
    ensures
        edited(s, seq![SegmentView::Doc(d)] + (alias + more), value, opts) == edited(
            s,
            seq![SegmentView::Doc(d)] + (def + more),
            value,
            opts,
        ),
{
    let t = (stream(past_bom(s))->Ok_0).1.t;
    let a = seq![SegmentView::Doc(d)] + (alias + more);
    let b = seq![SegmentView::Doc(d)] + (def + more);
    lemma_descend_on(t, t.roots[d], alias, more, None, None);
    let n = (descend(t, t.roots[d], alias, false, None, None)->0).node->0;
    law_following_ends(t, n);
    lemma_descend_on(t, t.roots[d], def, more, None, None);
    assert(a.skip(1) =~= alias + more);
    assert(b.skip(1) =~= def + more);
    assert(resolved_path(t, a, true) == resolved_path(t, b, true));
    assert(a.last() == more.last() && b.last() == more.last());
}

/// A run of spaces.
pub open spec fn blanks(n: nat) -> Seq<u8> {
    Seq::new(n, |i: int| SPACE)
}

/// Whatever the options, an edit of a value that is there replaces the bytes of the node
/// that the path leads to, and nothing else. What it writes is one scalar that says
/// `value`, with spaces before it only if it takes the place of a collection.
pub proof fn law_every_edit_is_surgical(
    s: Seq<u8>,
    path: Seq<SegmentView>,
    value: Seq<u8>,
    opts: OptsView,
    out: Seq<u8>,
    outcome: OutcomeView,
)
    requires
        is_text(s),
        edited(s, path, value, opts) == Ok::<_, ErrorView>((out, outcome)),
        ({
            let f = resolved_path((stream(past_bom(s))->Ok_0).1.t, path, opts.follow_refs)->0;
            f.node is Some && f.located.span.a < f.located.span.b
        }),
    ensures
        ({
            let t = (stream(past_bom(s))->Ok_0).1.t;
            let id = (resolved_path(t, path, opts.follow_refs)->0).node->0;
            let a = t.nodes[id].span.a + bom_len(s);
            let b = t.nodes[id].span.b + bom_len(s);
            &&& 0 <= id < t.nodes.len()
            &&& 0 <= a < b <= s.len()
            &&& exists|n: nat, text: Seq<u8>, quotes: bool| #[trigger]
                says_value(text, value, quotes) && out == s.take(a) + (#[trigger] blanks(n) + text) + s.skip(b) && (n > 0
                    ==> !(t.nodes[id].shape is Leaf))
        }),
{
    let st = (stream(past_bom(s))->Ok_0).1;
    let t = st.t;
    lemma_past_bom_text(s);
    law_stream_tree(past_bom(s));
    lemma_linked(t, past_bom(s), st.p);
    lemma_path_node(t, path, opts.follow_refs);
    let f = resolved_path(t, path, opts.follow_refs)->0;
    let id = f.node->0;
    assert(sound_node(t.nodes[id], id, past_bom(s), st.p)) by {
        reveal(sound);
    }
    let (model, _) = planned(t, f, opts)->Ok_0;
    let raw = text_at(s, t.nodes[model].span);
    let flow = in_flow(t, f.located.span);
    let asked = fenced(past_bom(s), f.located.span);
    let keep = kept_at(s, t, id, opts);
    let quotes = writes_quotes(raw, value, flow, asked, keep);
    let text = rendered(raw, value, quotes);
    law_set_value_is_written(raw, value, quotes);
    assert(says_value(text, value, quotes));
    let k = steps_in(s, t, f);
    let n: nat = if k <= 0 {
        0
    } else {
        k as nat
    };
    assert(indented(k, text) =~= blanks(n) + text);
}

/// Whether `text` is one scalar that says `value`, in quotes or without them.
pub open spec fn says_value(text: Seq<u8>, value: Seq<u8>, quotes: bool) -> bool {
    &&& text.len() > 0
    &&& quotes == has_quotes(text)
    &&& raw_value(text) == if quotes {
        Val::Str(value)
    } else {
        resolved(value)
    }
}

/// Whether the lines from `a` up to `b` are whole, end with the line of `e`, and nothing
/// but spaces stands before `p` on the first of them.
pub open spec fn whole_lines(s: Seq<u8>, a: int, p: int, e: int, b: int) -> bool {
    &&& bom_len(s) <= a <= p <= e <= b <= s.len()
    &&& a == bom_len(s) || is_break(s[a - 1])
    &&& forall|i: int| a <= i < p ==> #[trigger] s[i] == SPACE
    &&& b < s.len() ==> is_break(s[b - 1]) && !(s[b - 1] == CR && s[b] == LF)
    &&& forall|i: int|
        e <= i < b && is_break(#[trigger] s[i]) ==> i == b - 1 || (i == b - 2 && s[i] == CR && s[i + 1] == LF)
}

/// Removing an entry takes out the lines that its key and its value lie on, whole, and
/// no other line: from the line of the key, on which nothing but spaces stands before
/// it, to the line on which the value that `locate` finds ends.
pub proof fn law_remove_is_exact(s: Seq<u8>, path: Seq<SegmentView>, out: Seq<u8>)
    requires
        is_text(s),
        removed(s, path) == Ok::<_, ErrorView>(out),
    ensures
        ({
            let f = resolved_path((stream(past_bom(s))->Ok_0).1.t, path, false)->0;
            let key = moved(f.key->0, bom_len(s));
            let value = (location(s, path)->Ok_0->0).span;
            &&& f.key is Some
            &&& location(s, path) is Ok && location(s, path)->Ok_0 is Some
            &&& 0 <= key.a <= key.b <= value.a <= value.b <= s.len()
            &&& exists|a: int, b: int| #[trigger]
                whole_lines(s, a, key.a, value.b, b) && out == s.take(a) + s.skip(b)
        }),
{
    let st = (stream(past_bom(s))->Ok_0).1;
    lemma_past_bom_text(s);
    law_stream_tree(past_bom(s));
    lemma_linked(st.t, past_bom(s), st.p);
    let f = resolved_path(st.t, path, false)->0;
    lemma_path_node(st.t, path, false);
    lemma_found_in(st.t, path);
    lemma_path_key(st.t, past_bom(s), st.p, path);
    lemma_in_tree(st.t, f, past_bom(s), st.p);
    let key = moved(f.key->0, bom_len(s));
    let value = moved(f.located.span, bom_len(s));
    let a = line_start(s, key.a);
    let b = next_line(s, value.b);
    lemma_back_stop(s, bom_len(s), key.a, Class::Line);
    lemma_run(s, value.b, Class::Line);
    lemma_run(s, a, Class::Spaces);
    assert(whole_lines(s, a, key.a, value.b, b)) by {
        assert forall|i: int| a <= i < key.a implies #[trigger] s[i] == SPACE by {
            assert(Class::Spaces.holds(s[i]));
        }
        assert forall|i: int| value.b <= i < b && is_break(#[trigger] s[i]) implies i == b - 1 || (i == b - 2 && s[i]
            == CR && s[i + 1] == LF) by {
            if i < run(s, value.b, Class::Line) {
                assert(Class::Line.holds(s[i]));
            }
        }
    }
}

/// Whether nothing but spaces stands before `p` on its line.
pub open spec fn leads_its_line(s: Seq<u8>, p: int) -> bool {
    exists|a: int|
        bom_len(s) <= a <= p && (a == bom_len(s) || is_break(#[trigger] s[a - 1])) && forall|i: int|
            a <= i < p ==> #[trigger] s[i] == SPACE
}

/// An entry is removed exactly where the path leads to the value of an entry of a block
/// mapping, on a line that begins with its key, and no anchor is lost with it.
#[verifier::spinoff_prover]
pub proof fn law_remove_refuses_nothing_else(s: Seq<u8>, path: Seq<SegmentView>)
    requires
        is_text(s),
    ensures
        removed(s, path) is Ok <==> (stream(past_bom(s)) is Ok && ({
            let t = (stream(past_bom(s))->Ok_0).1.t;
            let f = resolved_path(t, path, false);
            &&& f is Some && (f->0).node is Some && !(f->0).truncated
            &&& (f->0).located.anchor is None && (f->0).enclosing is None
            &&& (f->0).key is Some && !in_flow(t, (f->0).key->0)
            &&& leads_its_line(s, ((f->0).key->0).a + bom_len(s))
        })),
{
    if let Ok((_, st)) = stream(past_bom(s)) {
        lemma_past_bom_text(s);
        law_stream_tree(past_bom(s));
        lemma_linked(st.t, past_bom(s), st.p);
        lemma_path_node(st.t, path, false);
        if let Some(f) = resolved_path(st.t, path, false) {
            if f.node is Some && f.enclosing is None && f.key is Some && !f.truncated {
                lemma_found_in(st.t, path);
                lemma_path_key(st.t, past_bom(s), st.p, path);
                lemma_in_tree(st.t, f, past_bom(s), st.p);
                assert(moved(f.key->0, bom_len(s)).a == (f.key->0).a + bom_len(s));
                lemma_line_lead(s, (f.key->0).a + bom_len(s));
            }
        }
    }
}

/// Where only spaces stand before `p`, the run of them from the start of its line reaches
/// it.
proof fn lemma_line_lead(s: Seq<u8>, p: int)
    requires
        bom_len(s) <= p <= s.len(),
    ensures
        leads_its_line(s, p) <==> run(s, line_start(s, p), Class::Spaces) >= p,
{
    let a = line_start(s, p);
    lemma_back_stop(s, bom_len(s), p, Class::Line);
    lemma_run(s, a, Class::Spaces);
    if run(s, a, Class::Spaces) >= p {
        assert forall|i: int| a <= i < p implies #[trigger] s[i] == SPACE by {
            assert(Class::Spaces.holds(s[i]));
        }
        let before = s[a - 1];
        assert(a == bom_len(s) || is_break(s[a - 1]));
        assert(leads_its_line(s, p));
    } else if leads_its_line(s, p) {
        let b = choose|b: int|
            bom_len(s) <= b <= p && (b == bom_len(s) || is_break(#[trigger] s[b - 1])) && forall|i: int|
                b <= i < p ==> #[trigger] s[i] == SPACE;
        let q = run(s, a, Class::Spaces);
        assert(!Class::Spaces.holds(s[q]));
        if b <= q {
            assert(s[q] == SPACE);
        }
        assert(a <= b - 1 < p);
        assert(Class::Line.holds(s[b - 1]));
    }
}

/// Aliases of `def` are counted one by one.
proof fn lemma_refs_counted(t: Tree, n: int, def: int) -> (which: Set<int>)
    requires
        0 <= n,
    ensures
        which.finite(),
        which.len() == refs_among(t, n, def),
        forall|i: int| #[trigger] which.contains(i) <==> 0 <= i < n && alias_target(t, i) == Some(def),
    decreases n,
{
    if n == 0 {
        Set::empty()
    } else {
        let less = lemma_refs_counted(t, n - 1, def);
        if alias_target(t, n - 1) == Some(def) {
            less.insert(n - 1)
        } else {
            less
        }
    }
}

/// The number of aliases that an edit of an anchor reports is the number of nodes that
/// are aliases of that anchor.
pub proof fn law_refs_are_the_aliases(t: Tree, def: int) -> (which: Set<int>)
    ensures
        which.finite(),
        which.len() == refs_to(t, def),
        forall|i: int| #[trigger] which.contains(i) <==> 0 <= i < t.nodes.len() && alias_target(t, i) == Some(def),
{
    lemma_refs_counted(t, t.nodes.len() as int, def)
}

/// What a path leads to lies in the tree.
proof fn lemma_found_in(t: Tree, path: Seq<SegmentView>)
    requires
        linked(t),
        resolved_path(t, path, false) is Some,
        (resolved_path(t, path, false)->0).node is Some,
        (resolved_path(t, path, false)->0).enclosing is None,
    ensures
        in_tree(t, resolved_path(t, path, false)->0),
{
    let (doc, rest) = if path.len() > 0 && path[0] is Doc {
        (path[0]->Doc_0, path.skip(1))
    } else {
        (0, path)
    };
    reveal(linked);
    lemma_descend_in(t, t.roots[doc], rest, None, None);
}

proof fn lemma_descend_in(
    t: Tree,
    id: int,
    path: Seq<SegmentView>,
    enclosing: Option<(Seq<u8>, int)>,
    key: Option<Extent>,
)
    requires
        linked(t),
        0 <= id < t.nodes.len(),
        key is Some ==> exists|d: int, i: int| #[trigger] has_entry(t, d, i) && key->0 == entry_at(t, d, i).key,
        enclosing is Some ==> 0 <= (enclosing->0).1 < t.nodes.len(),
        descend(t, id, path, false, enclosing, key) is Some,
        (descend(t, id, path, false, enclosing, key)->0).node is Some,
    ensures
        in_tree(t, descend(t, id, path, false, enclosing, key)->0),
    decreases path.len(),
{
    if path.len() > 0 && !(t.nodes[id].kind is AliasRef) {
        let x = t.nodes[id];
        assert(followed(t, id) == Some(id));
        let within = match x.anchor {
            Some((name, _)) => Some((name, id)),
            None => enclosing,
        };
        lemma_parts(t, id);
        match (path[0], x.shape) {
            (SegmentView::Index(n), ShapeView::Items(c)) => {
                lemma_descend_in(t, c[n], path.skip(1), within, None);
            },
            (SegmentView::Key(k), ShapeView::Entries(es)) => {
                lemma_entry_in(es, k, 0);
                if let Some(i) = entry_from(es, k, 0) {
                    assert(has_entry(t, id, i));
                    assert(entry_at(t, id, i) == es[i]);
                    lemma_descend_in(t, es[i].value, path.skip(1), within, Some(es[i].key));
                }
            },
            _ => {},
        }
    }
}

} // verus!
