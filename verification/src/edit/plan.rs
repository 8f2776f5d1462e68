//! What an edit at a path would do, and whether it may.
use vstd::prelude::*;
use vstd::utf8::*;
use std::borrow::Cow;
use super::locate::{alias_target, follow_alias, followed, in_tree, linked, within_view, Found, Resolved};
use super::set::{refused, refused_name, OptsView, OutcomeView, SetOpts, SetOutcome};
use super::sink::{Shape, SpanId, SpanSink, Tree};
use super::{KindView, NodeKind};
use crate::error::{plain_error, Error};
use crate::value::lit;

verus! {

/// How many of the first `n` nodes are aliases of `def`.
pub open spec fn refs_among(t: Tree, n: int, def: int) -> int
    decreases n,
{
    if n <= 0 {
        0
    } else {
        refs_among(t, n - 1, def) + (if alias_target(t, n - 1) == Some(def) {
            1int
        } else {
            0
        })
    }
}

/// How many aliases stand for the node `def`.
pub open spec fn refs_to(t: Tree, def: int) -> int {
    refs_among(t, t.nodes.len() as int, def)
}

/// The anchor whose aliases an edit reaches: that of the node itself, or one it
/// lies in.
pub open spec fn reach(f: Found) -> Option<(Seq<u8>, int)> {
    match (f.located.anchor, f.node) {
        (Some(name), Some(id)) => Some((name, id)),
        _ => f.enclosing,
    }
}

/// The outcome of an edit that reaches `anchor`, or else `other`.
pub open spec fn outcome_of(t: Tree, anchor: Option<(Seq<u8>, int)>, other: OutcomeView) -> OutcomeView {
    match anchor {
        Some((name, def)) => OutcomeView::PropagatedAnchor { name, refs: refs_to(t, def) },
        None => other,
    }
}

/// What replacing the value that was found does: the node to take the style from
/// and the outcome, or why it is refused.
pub open spec fn planned(t: Tree, f: Found, opts: OptsView) -> Result<(int, OutcomeView), Seq<u8>> {
    let anchor = reach(f);
    if anchor is Some && !opts.edit_anchors {
        Err(lit("this edit reaches the anchor '&") + (anchor->0).0 + lit("', SetOpts::edit_anchors allows it"))
    } else {
        match f.located.kind {
            KindView::MergeInherited => Err(
                lit(
                    "key is inherited through '<<', SetOpts::override_inherited writes an explicit key that overrides it",
                ),
            ),
            KindView::AliasRef(name) => {
                let def = followed(t, f.node->0);
                if f.truncated {
                    Err(lit("path continues past the alias '*") + name + lit("', expansion is unsupported"))
                } else if !opts.edit_refs {
                    Err(
                        lit("'*") + name + lit(
                            "' is an alias. SetOpts::edit_refs allows severing the link here.",
                        ),
                    )
                } else if def is None {
                    Err(lit("unknown anchor '") + name + lit("'"))
                } else if !(t.nodes[def->0].shape is Leaf) && !opts.replace_nodes {
                    Err(lit("alias points to a collection, SetOpts::replace_nodes allows replacing it"))
                } else {
                    Ok((def->0, outcome_of(t, anchor, OutcomeView::ReplacedAlias { name })))
                }
            },
            KindView::Literal => {
                let collection = !(t.nodes[f.node->0].shape is Leaf);
                if collection && !opts.replace_nodes {
                    Err(lit("path addresses a collection, SetOpts::replace_nodes allows replacing it"))
                } else {
                    Ok(
                        (
                            f.node->0,
                            outcome_of(
                                t,
                                anchor,
                                if collection {
                                    OutcomeView::ReplacedNode
                                } else {
                                    OutcomeView::Spliced
                                },
                            ),
                        ),
                    )
                }
            },
        }
    }
}

/// How many aliases stand for the node `def`.
pub(crate) fn count_refs(sink: &SpanSink<'_>, def: SpanId) -> (r: usize)
    requires
        linked(sink@),
    ensures
        r == refs_to(sink@, def as int),
{
    let n: usize = sink.node_count();
    let mut i: usize = 0;
    let mut k: usize = 0;
    while i < n
        invariant
            linked(sink@),
            n == sink@.nodes.len(),
            k <= i <= n,
            k == refs_among(sink@, i as int, def as int),
        decreases n - i,
    {
        if let Some(d) = sink.target_of(i) {
            if d == def {
                k = k + 1;
            }
        }
        i = i + 1;
    }
    k
}

/// The outcome of an edit that reaches `anchor`, or else `other`.
pub(crate) fn widest<'a>(
    sink: &SpanSink<'a>,
    anchor: Option<(&'a str, SpanId)>,
    other: SetOutcome<'a>,
) -> (r: SetOutcome<'a>)
    requires
        linked(sink@),
    ensures
        r@ == outcome_of(sink@, within_view(anchor), other@),
{
    match anchor {
        Some((name, def)) => SetOutcome::PropagatedAnchor { name: Cow::Borrowed(name), refs: count_refs(sink, def) },
        None => other,
    }
}

/// Whether the node has no parts.
pub(crate) fn is_leaf(sink: &SpanSink<'_>, id: SpanId) -> (r: bool)
    requires
        id < sink@.nodes.len(),
    ensures
        r == sink@.nodes[id as int].shape is Leaf,
{
    match sink.node(id).shape {
        Shape::Leaf => true,
        _ => false,
    }
}

pub(crate) struct Plan<'a> {
    /// The node to take the style from.
    pub model: SpanId,
    pub outcome: SetOutcome<'a>,
}

pub(crate) fn plan_edit<'a>(sink: &SpanSink<'a>, resolved: &Resolved<'a>, opts: &SetOpts) -> (r: Result<Plan<'a>, Error>)
    requires
        linked(sink@),
        in_tree(sink@, resolved.v()),
    ensures
        match (r, planned(sink@, resolved.v(), opts@)) {
            (Ok(plan), Ok((model, outcome))) => plan.model == model && plan.outcome@ == outcome && plan.model
                < sink@.nodes.len() && resolved.node is Some,
            (Err(e), Err(msg)) => e@ == plain_error(msg),
            _ => false,
        },
{
    let anchor = match (resolved.anchor, resolved.node) {
        (Some(name), Some(id)) => Some((name, id)),
        _ => resolved.enclosing_anchor,
    };
    assert(within_view(anchor) == reach(resolved.v()));
    if let Some((name, _)) = anchor {
        if !opts.edits_anchors() {
            return Err(
                refused_name("this edit reaches the anchor '&", name, "', SetOpts::edit_anchors allows it"),
            );
        }
    }
    match (resolved.kind, resolved.node) {
        (NodeKind::AliasRef(name), Some(id)) => {
            if resolved.truncated {
                return Err(refused_name("path continues past the alias '*", name, "', expansion is unsupported"));
            }
            if !opts.edits_refs() {
                return Err(
                    refused_name("'*", name, "' is an alias. SetOpts::edit_refs allows severing the link here."),
                );
            }
            match follow_alias(sink, id) {
                None => Err(refused_name("unknown anchor '", name, "'")),
                Some(def) => {
                    if !is_leaf(sink, def) && !opts.replaces_nodes() {
                        return Err(
                            refused("alias points to a collection, SetOpts::replace_nodes allows replacing it"),
                        );
                    }
                    // Widest effect applies
                    // Severing the link is also an anchor edit when this node carries one.
                    let outcome = widest(sink, anchor, SetOutcome::ReplacedAlias { name: Cow::Borrowed(name) });
                    Ok(Plan { model: def, outcome })
                },
            }
        },
        (NodeKind::Literal, Some(id)) => {
            let collection = !is_leaf(sink, id);
            if collection && !opts.replaces_nodes() {
                return Err(refused("path addresses a collection, SetOpts::replace_nodes allows replacing it"));
            }
            let other = if collection {
                SetOutcome::ReplacedNode
            } else {
                SetOutcome::Spliced
            };
            Ok(Plan { model: id, outcome: widest(sink, anchor, other) })
        },
        _ => Err(
            refused(
                "key is inherited through '<<', SetOpts::override_inherited writes an explicit key that overrides it",
            ),
        ),
    }
}

} // verus!
