//! Replacing one value in the source text.
use vstd::prelude::*;
use vstd::string::*;
use vstd::utf8::*;
use std::borrow::Cow;
use super::around::{disturbs, fenced, is_fenced, moves_lines};
use super::locate::{
    follow_alias, followed, in_flow, lemma_in_tree, lemma_linked, lies_in_flow, linked, moved, resolve,
    resolved_path, spans, within_view, Found, Resolved,
};
use super::plan::{is_leaf, outcome_of, plan_edit, planned, reach, widest};
use super::sink::{sound, sound_extent, sound_node, tags_view, Extent, Span, SpanId, SpanSink, Tree};
use super::types::{
    apply_tags, has_quotes, is_said, is_same_type, node_value, same_type, says, tagged, text_at, value_of_node,
    written_value,
};
use super::{path_view, NodeKind, Segment, SegmentView};
use crate::emitter::{double_quoted, emit_double_quoted, emit_single_quoted, single_quoted};
use crate::error::{plain_error, Error, ErrorView};
use crate::parser::grammar::stream;
use crate::parser::cursor::gap_end;
use crate::parser::layout::{bounds, indicator_at, moves, past_flow_gap};
use crate::parser::{bom_len, lemma_bom, lemma_past_bom, past_bom, report};
use crate::patterns::{ctrl_in, has_ctrl_chars, has_newline, needs_quotes_in, resolve_scalar, unfit};
use crate::text::{
    at, back, bd, is_blank, is_break, is_flow_mark, is_text, lemma_back_line, lemma_bd_ascii, lemma_bd_ends,
    lemma_text, put, put_byte, put_slice, run, scan, scan_back, slice, Class, COLON, COMMA, CR, DQUOTE, LBRACE,
    LBRACKET, LF, RBRACE, RBRACKET, SPACE, SQUOTE, STAR, TAB,
};
use crate::value::{cow_str, lit, BorrowedValue, Val};

verus! {

broadcast use {moves, bounds};

/// Relax [`set`]'s guarantees (allowed operations) by passing [`SetOpts`] to [`set_with`] instead.
///
/// By default an edit touches only the bytes the path names: it changes no
/// type, destroys no structure, and affects no other node. Each method below
/// lifts exactly one of those restrictions.
#[derive(Debug)]
pub struct SetOpts {
    /// Let a plain value change what it resolves to.
    ///
    /// Without this, replacing plain `hello` with `42` writes `'42'` so the
    /// field stays a string. Quoted values keep their quotes either way.
    /// Where no text keeps the type, as when `42` is to become `hello`, the
    /// edit is refused.
    pub(crate) allow_type_change: bool,
    /// Allow a collection to be written over by a scalar.
    ///
    /// The mapping or sequence at the path is replaced wholesale.
    pub(crate) replace_nodes: bool,
    /// Allow editing an anchor definition, or any value inside one.
    ///
    /// Every alias to that anchor reads the new value. The outcome reports
    /// how many.
    pub(crate) edit_anchors: bool,
    /// Allow editing at an alias site, severing the link there.
    ///
    /// The `*name` token is replaced by the new value. The anchor and every
    /// other alias to it are left alone.
    pub(crate) edit_refs: bool,
    /// Edit the anchor a reference points at, rather than the reference site.
    ///
    /// Implies [`SetOpts::edit_anchors`], since the bytes it changes belong to
    /// the anchor. The `*name` token stays where it is.
    pub(crate) follow_refs: bool,
    /// Allow writing a value into a mapping entry that has none.
    ///
    /// `key:` becomes `key: value`, after a tag or an anchor if there is one.
    /// A sequence item has no key to write after, so an empty one is still
    /// refused.
    pub(crate) insert_empty: bool,
    /// Write an explicit key that overrides one inherited through
    /// `<<`.
    pub(crate) override_inherited: bool,
}

/// What the options allow.
pub struct OptsView {
    pub allow_type_change: bool,
    pub replace_nodes: bool,
    pub edit_anchors: bool,
    pub edit_refs: bool,
    pub follow_refs: bool,
    pub insert_empty: bool,
    pub override_inherited: bool,
}

/// Options that give nothing up.
pub open spec fn strict_opts() -> OptsView {
    OptsView {
        allow_type_change: false,
        replace_nodes: false,
        edit_anchors: false,
        edit_refs: false,
        follow_refs: false,
        insert_empty: false,
        override_inherited: false,
    }
}

impl View for SetOpts {
    type V = OptsView;

    closed spec fn view(&self) -> OptsView {
        OptsView {
            allow_type_change: self.allow_type_change,
            replace_nodes: self.replace_nodes,
            edit_anchors: self.edit_anchors,
            edit_refs: self.edit_refs,
            follow_refs: self.follow_refs,
            insert_empty: self.insert_empty,
            override_inherited: self.override_inherited,
        }
    }
}

impl Default for SetOpts {
    fn default() -> (r: Self)
        ensures
            r@ == strict_opts(),
    {
        SetOpts {
            allow_type_change: false,
            replace_nodes: false,
            edit_anchors: false,
            edit_refs: false,
            follow_refs: false,
            insert_empty: false,
            override_inherited: false,
        }
    }
}

impl Clone for SetOpts {
    fn clone(&self) -> (r: Self)
        ensures
            r@ == self@,
    {
        SetOpts {
            allow_type_change: self.allow_type_change,
            replace_nodes: self.replace_nodes,
            edit_anchors: self.edit_anchors,
            edit_refs: self.edit_refs,
            follow_refs: self.follow_refs,
            insert_empty: self.insert_empty,
            override_inherited: self.override_inherited,
        }
    }
}

impl SetOpts {
    /// Options that give nothing up.
    pub fn new() -> (r: Self)
        ensures
            r@ == strict_opts(),
    {
        SetOpts::default()
    }

    /// Let a plain value change what it resolves to.
    ///
    /// Without this, replacing plain `hello` with `42` writes `'42'` so the
    /// field stays a string. Quoted values keep their quotes either way.
    /// Where no text keeps the type, as when `42` is to become `hello`, the
    /// edit is refused.
    pub fn allow_type_change(self) -> (r: Self)
        ensures
            r@ == (OptsView { allow_type_change: true, ..self@ }),
    {
        let mut o = self;
        o.allow_type_change = true;
        o
    }

    /// Allow a collection to be written over by a scalar.
    ///
    /// The mapping or sequence at the path is replaced wholesale.
    pub fn replace_nodes(self) -> (r: Self)
        ensures
            r@ == (OptsView { replace_nodes: true, ..self@ }),
    {
        let mut o = self;
        o.replace_nodes = true;
        o
    }

    /// Allow editing an anchor definition, or any value inside one.
    ///
    /// Every alias to that anchor reads the new value. The outcome reports
    /// how many.
    pub fn edit_anchors(self) -> (r: Self)
        ensures
            r@ == (OptsView { edit_anchors: true, ..self@ }),
    {
        let mut o = self;
        o.edit_anchors = true;
        o
    }

    /// Allow editing at an alias site, severing the link there.
    ///
    /// The `*name` token is replaced by the new value. The anchor and every
    /// other alias to it are left alone.
    pub fn edit_refs(self) -> (r: Self)
        ensures
            r@ == (OptsView { edit_refs: true, ..self@ }),
    {
        let mut o = self;
        o.edit_refs = true;
        o
    }

    /// Edit the anchor a reference points at, rather than the reference site.
    ///
    /// Implies [`SetOpts::edit_anchors`], since the bytes it changes belong to
    /// the anchor. The `*name` token stays where it is.
    pub fn follow_refs(self) -> (r: Self)
        ensures
            r@ == (OptsView { edit_anchors: true, follow_refs: true, ..self@ }),
    {
        let mut o = self;
        o.edit_anchors = true;
        o.follow_refs = true;
        o
    }

    /// Allow writing a value into a mapping entry that has none.
    ///
    /// `key:` becomes `key: value`, after a tag or an anchor if there is one.
    /// A sequence item has no key to write after, so an empty one is still
    /// refused.
    pub fn insert_empty(self) -> (r: Self)
        ensures
            r@ == (OptsView { insert_empty: true, ..self@ }),
    {
        let mut o = self;
        o.insert_empty = true;
        o
    }

    /// Write an explicit key that overrides one inherited through
    /// `<<`.
    pub fn override_inherited(self) -> (r: Self)
        ensures
            r@ == (OptsView { override_inherited: true, ..self@ }),
    {
        let mut o = self;
        o.override_inherited = true;
        o
    }

    pub(crate) fn replaces_nodes(&self) -> (r: bool)
        ensures
            r == self@.replace_nodes,
    {
        self.replace_nodes
    }

    pub(crate) fn edits_anchors(&self) -> (r: bool)
        ensures
            r == self@.edit_anchors,
    {
        self.edit_anchors
    }

    pub(crate) fn edits_refs(&self) -> (r: bool)
        ensures
            r == self@.edit_refs,
    {
        self.edit_refs
    }
}

/// Change result from a [`set`] or [`set_with`] operation
///
/// When more than one applies, the largest impact change's outcome is reported:
/// `PropagatedAnchor` > `ReplacedAlias` > `ReplacedNode` > `Inserted` > `Spliced`
#[derive(Debug, PartialEq, Eq)]
#[non_exhaustive]
pub enum SetOutcome<'a> {
    /// The addressed bytes were replaced, and nothing else.
    Spliced,
    /// An anchor definition changed, so `refs` alias sites now read the new
    /// value too.
    PropagatedAnchor { name: Cow<'a, str>, refs: usize },
    /// A mapping or sequence was overwritten by a scalar.
    ReplacedNode,
    /// An alias token was replaced with a value overwriting the reference
    ReplacedAlias { name: Cow<'a, str> },
    /// A new value was written into an entry without previous value present
    Inserted,
}

/// The contents of a [`SetOutcome`].
pub enum OutcomeView {
    Spliced,
    PropagatedAnchor { name: Seq<u8>, refs: int },
    ReplacedNode,
    ReplacedAlias { name: Seq<u8> },
    Inserted,
}

impl<'a> View for SetOutcome<'a> {
    type V = OutcomeView;

    open spec fn view(&self) -> OutcomeView {
        match self {
            SetOutcome::Spliced => OutcomeView::Spliced,
            SetOutcome::PropagatedAnchor { name, refs } => OutcomeView::PropagatedAnchor {
                name: encode_utf8(name@),
                refs: *refs as int,
            },
            SetOutcome::ReplacedNode => OutcomeView::ReplacedNode,
            SetOutcome::ReplacedAlias { name } => OutcomeView::ReplacedAlias { name: encode_utf8(name@) },
            SetOutcome::Inserted => OutcomeView::Inserted,
        }
    }
}

/// A text of its own.
fn own(c: &Cow<'_, str>) -> (r: String)
    ensures
        r@ == c@,
{
    cow_str(c).to_owned()
}

impl<'a> SetOutcome<'a> {
    pub fn into_owned(self) -> (r: SetOutcome<'static>)
        ensures
            r@ == self@,
    {
        match self {
            SetOutcome::Spliced => SetOutcome::Spliced,
            SetOutcome::PropagatedAnchor { name, refs } => SetOutcome::PropagatedAnchor {
                name: Cow::Owned(own(&name)),
                refs,
            },
            SetOutcome::ReplacedNode => SetOutcome::ReplacedNode,
            SetOutcome::ReplacedAlias { name } => SetOutcome::ReplacedAlias { name: Cow::Owned(own(&name)) },
            SetOutcome::Inserted => SetOutcome::Inserted,
        }
    }
}

impl<'a> Clone for SetOutcome<'a> {
    fn clone(&self) -> (r: Self)
        ensures
            r@ == self@,
    {
        match self {
            SetOutcome::Spliced => SetOutcome::Spliced,
            SetOutcome::PropagatedAnchor { name, refs } => SetOutcome::PropagatedAnchor {
                name: crate::value::cow_dup(name),
                refs: *refs,
            },
            SetOutcome::ReplacedNode => SetOutcome::ReplacedNode,
            SetOutcome::ReplacedAlias { name } => SetOutcome::ReplacedAlias { name: crate::value::cow_dup(name) },
            SetOutcome::Inserted => SetOutcome::Inserted,
        }
    }
}

/// A text in quotes: double ones where it needs escapes, single ones otherwise.
pub open spec fn quoted_text(value: Seq<u8>) -> Seq<u8> {
    if ctrl_in(value) || value.contains(LF) {
        double_quoted(value)
    } else {
        single_quoted(value)
    }
}

/// A text as a scalar: plain where that is read back, quoted otherwise.
pub open spec fn new_text(value: Seq<u8>, flow: bool) -> Seq<u8> {
    if unfit(value, flow) {
        quoted_text(value)
    } else {
        value
    }
}

/// What an edit must not change: the type of the value, and the tags that stay
/// before it.
pub struct Keep {
    /// A value of that type, if it shows.
    pub old: Option<Val>,
    pub tags: Seq<Seq<u8>>,
}

/// Whether `value`, in quotes or without them, is of the type that is to be kept, and
/// the very text if that is a string.
pub open spec fn keeps_type(keep: Option<Keep>, value: Seq<u8>, quotes: bool) -> bool {
    match keep {
        Some(k) => {
            let v = tagged(k.tags, written_value(value, quotes));
            k.old is Some && same_type(k.old->0, v) && says(v, value)
        },
        None => true,
    }
}

/// Whether a value that replaces `model` is written in quotes: if the model is, if it
/// would not be read back without them, if its type would not be kept, or if something
/// around it asks for them.
pub open spec fn writes_quotes(model: Seq<u8>, value: Seq<u8>, flow: bool, asked: bool, keep: Option<Keep>) -> bool {
    asked || has_quotes(model) || unfit(value, flow) || !keeps_type(keep, value, false)
}

/// A text as a scalar that replaces `model`.
pub open spec fn rendered(model: Seq<u8>, value: Seq<u8>, quotes: bool) -> Seq<u8> {
    if at(model, 0) == Some(DQUOTE) {
        double_quoted(value)
    } else if quotes {
        quoted_text(value)
    } else {
        value
    }
}

/// A text as a scalar that replaces `model`, or why it cannot: neither in quotes nor
/// without them is it of the type that is to be kept.
pub open spec fn restyled(model: Seq<u8>, value: Seq<u8>, flow: bool, asked: bool, keep: Option<Keep>) -> Result<
    Seq<u8>,
    Seq<u8>,
> {
    let quotes = writes_quotes(model, value, flow, asked, keep);
    if keeps_type(keep, value, quotes) {
        Ok(rendered(model, value, quotes))
    } else {
        Err(lit("this edit changes the type of the value, SetOpts::allow_type_change allows it"))
    }
}

fn emit_quoted(value: &str, out: &mut String)
    ensures
        encode_utf8(final(out)@) == encode_utf8(old(out)@) + quoted_text(encode_utf8(value@)),
{
    if has_ctrl_chars(value) || has_newline(value) {
        emit_double_quoted(value, out);
    } else {
        emit_single_quoted(value, out);
    }
}

pub(crate) fn render_new(value: &str, flow: bool, out: &mut String)
    ensures
        encode_utf8(final(out)@) == encode_utf8(old(out)@) + new_text(encode_utf8(value@), flow),
{
    if needs_quotes_in(value, flow) {
        emit_quoted(value, out);
    } else {
        put(out, value);
    }
}

fn render_scalar(model: &str, value: &str, quotes: bool, out: &mut String)
    ensures
        encode_utf8(final(out)@) == encode_utf8(old(out)@) + rendered(
            encode_utf8(model@),
            encode_utf8(value@),
            quotes,
        ),
{
    let b = model.as_bytes();
    if b.len() > 0 && b[0] == DQUOTE {
        emit_double_quoted(value, out);
    } else if quotes {
        emit_quoted(value, out);
    } else {
        put(out, value);
    }
}

/// What an edit must not change.
struct KeepRef<'b, 'a> {
    old: Option<BorrowedValue<'a>>,
    tags: &'b Vec<&'a str>,
}

spec fn keep_view(k: Option<KeepRef<'_, '_>>) -> Option<Keep> {
    match k {
        Some(x) => Some(
            Keep {
                old: match x.old {
                    Some(v) => Some(v.val()),
                    None => None,
                },
                tags: tags_view(x.tags@),
            },
        ),
        None => None,
    }
}

fn retains_type(keep: &Option<KeepRef<'_, '_>>, value: &str, quotes: bool) -> (r: bool)
    ensures
        r == keeps_type(keep_view(*keep), encode_utf8(value@), quotes),
{
    match keep {
        Some(k) => {
            let v = if quotes {
                BorrowedValue::String(Cow::Borrowed(value))
            } else {
                resolve_scalar(Cow::Borrowed(value))
            };
            let w = apply_tags(k.tags, v);
            match &k.old {
                Some(old) => is_same_type(old, &w) && is_said(&w, value),
                None => false,
            }
        },
        None => true,
    }
}

/// The text that replaces `model`.
fn restyle(model: &str, value: &str, flow: bool, asked: bool, keep: &Option<KeepRef<'_, '_>>) -> (r: Result<
    String,
    Error,
>)
    ensures
        match (r, restyled(encode_utf8(model@), encode_utf8(value@), flow, asked, keep_view(*keep))) {
            (Ok(out), Ok(text)) => encode_utf8(out@) == text,
            (Err(e), Err(msg)) => e@ == plain_error(msg),
            _ => false,
        },
{
    let b = model.as_bytes();
    let quoted = b.len() > 0 && (b[0] == DQUOTE || b[0] == SQUOTE);
    let quotes = asked || quoted || needs_quotes_in(value, flow) || !retains_type(keep, value, false);
    if !retains_type(keep, value, quotes) {
        return Err(refused("this edit changes the type of the value, SetOpts::allow_type_change allows it"));
    }
    let mut out = String::new();
    render_scalar(model, value, quotes, &mut out);
    proof {
        assert(encode_utf8(Seq::<char>::empty()) =~= Seq::<u8>::empty());
        assert(encode_utf8(out@) =~= rendered(encode_utf8(model@), encode_utf8(value@), quotes));
    }
    Ok(out)
}

/// A refusal without a place.
pub(crate) fn refused(msg: &str) -> (r: Error)
    ensures
        r@ == plain_error(encode_utf8(msg@)),
{
    Error { msg: msg.to_owned(), line: None, col: None }
}

/// A refusal whose message holds a name.
pub(crate) fn refused_name(a: &str, name: &str, b: &str) -> (r: Error)
    ensures
        r@ == plain_error(encode_utf8(a@) + encode_utf8(name@) + encode_utf8(b@)),
{
    let mut msg = String::new();
    put(&mut msg, a);
    put(&mut msg, name);
    put(&mut msg, b);
    proof {
        assert(encode_utf8(Seq::<char>::empty()) =~= Seq::<u8>::empty());
        assert(encode_utf8(msg@) =~= encode_utf8(a@) + encode_utf8(name@) + encode_utf8(b@));
    }
    Error { msg, line: None, col: None }
}

/// Whether the colon of an entry stands at `p`.
pub open spec fn colon_at(s: Seq<u8>, p: int, flow: bool) -> bool {
    if flow {
        at(s, p) == Some(COLON)
    } else {
        indicator_at(s, p, COLON)
    }
}

/// Whether text that is written at `p` needs a space before it.
pub open spec fn joins_before(s: Seq<u8>, p: int) -> bool {
    p > 0 && !is_blank(s[p - 1]) && !is_break(s[p - 1])
}

/// Whether text that is written at `p` needs a space after it.
pub open spec fn joins_after(s: Seq<u8>, p: int, flow: bool) -> bool {
    match at(s, p) {
        None => false,
        Some(b) => !(is_blank(b) || is_break(b) || (flow && is_flow_mark(b))),
    }
}

pub open spec fn space_if(b: bool) -> Seq<u8> {
    if b {
        seq![SPACE]
    } else {
        Seq::empty()
    }
}

/// Where the value of an entry is written whose colon stands at `e` and whose empty
/// value lies at `p`: after its tag and anchor if it has any, which then stand before
/// `p`, or else after the colon and its spaces.
pub open spec fn value_place(s: Seq<u8>, e: int, p: int) -> int {
    if past_flow_gap(s, e + 1) < p {
        p
    } else {
        run(s, e + 1, Class::Spaces)
    }
}

/// The source with `value` written into the entry whose key is `key` and whose value
/// is empty and lies at `p`: after its colon, or with a colon after a key in a flow
/// mapping that has none. An explicit key without a colon has no place for a value.
pub open spec fn filled(s: Seq<u8>, key: Extent, p: int, flow: bool, value: Seq<u8>) -> Option<Seq<u8>> {
    let e = past_flow_gap(s, key.b);
    if colon_at(s, e, flow) {
        let x = value_place(s, e, p);
        Some(
            s.take(x) + space_if(joins_before(s, x)) + new_text(value, flow) + space_if(joins_after(s, x, flow))
                + s.skip(x),
        )
    } else if flow {
        // A name goes on up to a blank.
        let named = key.a == key.b || s[key.a] == STAR;
        Some(s.take(key.b) + space_if(named) + lit(": ") + new_text(value, flow) + s.skip(key.b))
    } else {
        None
    }
}

/// What filling in an empty value does.
pub open spec fn fill(s: Seq<u8>, t: Tree, f: Found, value: Seq<u8>, opts: OptsView) -> Result<
    (Seq<u8>, OutcomeView),
    Seq<u8>,
> {
    let at = moved(f.located.span, bom_len(s)).a;
    if !opts.insert_empty {
        Err(lit("current value is empty, SetOpts::insert_empty allows creating it"))
    } else if f.key is None {
        Err(lit("only an empty mapping value can be filled in"))
    } else if reach(f) is Some && !opts.edit_anchors {
        Err(
            lit("this value is inside the anchor '&") + (reach(f)->0).0 + lit(
                "', SetOpts::edit_anchors allows editing it",
            ),
        )
    } else {
        match filled(s, moved(f.key->0, bom_len(s)), at, in_flow(t, f.located.span), value) {
            Some(out) => if disturbs(s, t, Extent { a: at, b: at }, out) {
                Err(lit("a quoted value that goes on over lines begins on this line, and would be read otherwise"))
            } else {
                Ok((out, outcome_of(t, reach(f), OutcomeView::Inserted)))
            },
            None => Err(lit("an explicit key without a colon has no place for a value")),
        }
    }
}

/// The start of the line that `p` stands on, after the byte order mark.
pub open spec fn line_start(s: Seq<u8>, p: int) -> int {
    back(s, bom_len(s), p, Class::Line)
}

/// Where a line is added after the one that `p` stands on: before its line feed, after
/// a carriage return that goes with it.
pub open spec fn line_close(s: Seq<u8>, p: int) -> int {
    let e = run(s, p, Class::Line);
    if at(s, e) == Some(CR) && at(s, e + 1) == Some(LF) {
        e + 1
    } else {
        e
    }
}

/// The source with an entry for `key` on a line of its own after the entry `x`.
pub open spec fn overridden(s: Seq<u8>, x: Extent, key: Seq<u8>, text: Seq<u8>) -> Seq<u8> {
    let end = line_close(s, x.b);
    s.take(end) + seq![LF] + s.subrange(line_start(s, x.a), x.a) + new_text(key, false) + lit(": ") + text + s.skip(end)
}

/// The node whose text another value is styled after.
pub open spec fn styled_after(t: Tree, id: int) -> int {
    match followed(t, id) {
        Some(def) => def,
        None => id,
    }
}

/// The text of an explicit value that overrides an inherited one.
pub open spec fn override_text(s: Seq<u8>, t: Tree, f: Found, value: Seq<u8>, opts: OptsView) -> Result<
    Seq<u8>,
    Seq<u8>,
> {
    match f.inherited {
        Some(id) => if !(t.nodes[styled_after(t, id)].shape is Leaf) && !opts.replace_nodes {
            Err(lit("inherited value is a collection, SetOpts::replace_nodes allows replacing it"))
        } else {
            restyled(
                text_at(s, t.nodes[styled_after(t, id)].span),
                value,
                false,
                false,
                if opts.allow_type_change {
                    None
                } else {
                    Some(Keep { old: node_value(s, t, id), tags: Seq::empty() })
                },
            )
        },
        None => Ok(new_text(value, false)),
    }
}

/// What overriding an inherited key does.
pub open spec fn override_key(
    s: Seq<u8>,
    t: Tree,
    f: Found,
    path: Seq<SegmentView>,
    value: Seq<u8>,
    opts: OptsView,
) -> Result<(Seq<u8>, OutcomeView), Seq<u8>> {
    let x = moved(f.located.span, bom_len(s));
    if !(path.len() > 0 && path.last() is Key) {
        Err(lit("only a key name can override an inherited one"))
    } else if f.truncated {
        Err(lit("path continues past the inherited key, and a key that is not there is not added"))
    } else if f.enclosing is Some && !opts.edit_anchors {
        Err(
            lit("this map is inside the anchor '&") + (f.enclosing->0).0 + lit(
                "', SetOpts::edit_anchors allows editing it",
            ),
        )
    } else if run(s, line_start(s, x.a), Class::Spaces) < x.a || in_flow(t, f.located.span) {
        Err(lit("cannot add an override inside a flow mapping"))
    } else {
        match override_text(s, t, f, value, opts) {
            Err(msg) => Err(msg),
            Ok(text) => Ok(
                (
                    overridden(s, x, path.last()->Key_0, text),
                    outcome_of(t, f.enclosing, OutcomeView::Inserted),
                ),
            ),
        }
    }
}

/// The source `s` with `text` in place of the bytes `x`.
pub open spec fn spliced(s: Seq<u8>, x: Extent, text: Seq<u8>) -> Seq<u8> {
    s.take(x.a) + text + s.skip(x.b)
}

/// How many bytes of its line stand before `p`.
pub open spec fn column(s: Seq<u8>, p: int) -> int {
    p - line_start(s, p)
}

/// How much further in a scalar has to stand than the block collection that it
/// replaces: the dashes of a sequence may stand below its key, a scalar may not.
pub open spec fn steps_in(s: Seq<u8>, t: Tree, f: Found) -> int {
    let x = column(s, moved(f.located.span, bom_len(s)).a);
    let k = column(s, moved(f.key->0, bom_len(s)).a);
    if f.key is Some && !(t.nodes[f.node->0].shape is Leaf) && x <= k {
        k - x + 1
    } else {
        0
    }
}

/// A text after `n` spaces.
pub open spec fn indented(n: int, text: Seq<u8>) -> Seq<u8> {
    if n <= 0 {
        text
    } else {
        Seq::new(n as nat, |i: int| SPACE) + text
    }
}

/// What replacing node `id` must not change.
pub open spec fn kept_at(s: Seq<u8>, t: Tree, id: int, opts: OptsView) -> Option<Keep> {
    if opts.allow_type_change {
        None
    } else {
        Some(Keep { old: node_value(s, t, id), tags: t.nodes[id].tags })
    }
}

/// What setting the value that was found does: the new source and the outcome,
/// or why it is refused.
pub open spec fn changed(
    s: Seq<u8>,
    t: Tree,
    f: Found,
    path: Seq<SegmentView>,
    value: Seq<u8>,
    opts: OptsView,
) -> Result<(Seq<u8>, OutcomeView), Seq<u8>> {
    if f.located.span.a == f.located.span.b {
        fill(s, t, f, value, opts)
    } else if f.located.kind is MergeInherited && opts.override_inherited {
        override_key(s, t, f, path, value, opts)
    } else {
        match planned(t, f, opts) {
            Err(msg) => Err(msg),
            Ok((model, outcome)) => match restyled(
                text_at(s, t.nodes[model].span),
                value,
                in_flow(t, f.located.span),
                fenced(past_bom(s), f.located.span),
                kept_at(s, t, f.node->0, opts),
            ) {
                Err(msg) => Err(msg),
                Ok(text) => {
                    let x = moved(f.located.span, bom_len(s));
                    let out = spliced(s, x, indented(steps_in(s, t, f), text));
                    if disturbs(s, t, x, out) {
                        Err(
                            lit("a quoted value that goes on over lines begins on this line, and would be read otherwise"),
                        )
                    } else {
                        Ok((out, outcome))
                    }
                },
            },
        }
    }
}

/// What setting `path` to `value` in the source `s` does: the new source and the
/// outcome, or the error.
pub open spec fn edited(s: Seq<u8>, path: Seq<SegmentView>, value: Seq<u8>, opts: OptsView) -> Result<
    (Seq<u8>, OutcomeView),
    ErrorView,
> {
    match stream(past_bom(s)) {
        Err(f) => Err(report(past_bom(s), f)),
        Ok((_, st)) => match resolved_path(st.t, path, opts.follow_refs) {
            None => Err(plain_error(lit("no node at that path"))),
            Some(f) => match changed(s, st.t, f, path, value, opts) {
                Err(msg) => Err(plain_error(msg)),
                Ok(r) => Ok(r),
            },
        },
    }
}

/// `x` as it lies in the text with its byte order mark.
pub(crate) fn shift_range(x: Span, bom: usize, Ghost(s): Ghost<Seq<u8>>, Ghost(p): Ghost<int>) -> (r: Span)
    requires
        is_text(s),
        is_text(past_bom(s)),
        s.len() <= usize::MAX,
        bom == bom_len(s),
        p <= past_bom(s).len(),
        sound_extent(x.v(), past_bom(s), p),
    ensures
        r.v() == moved(x.v(), bom as int),
        r.start <= r.end <= s.len(),
        bd(s, r.start as int),
        bd(s, r.end as int),
{
    proof {
        lemma_past_bom(s, x.start as int);
        lemma_past_bom(s, x.end as int);
    }
    Span { start: x.start + bom, end: x.end + bom }
}

/// Writes the source with `value` at `x`, and spaces around it where it needs them.
fn write_value(src: &str, x: usize, flow: bool, value: &str, out: &mut String)
    requires
        x <= encode_utf8(src@).len(),
        bd(encode_utf8(src@), x as int),
        encode_utf8(old(out)@).len() == 0,
    ensures
        ({
            let s = encode_utf8(src@);
            encode_utf8(final(out)@) == s.take(x as int) + space_if(joins_before(s, x as int)) + new_text(
                encode_utf8(value@),
                flow,
            ) + space_if(joins_after(s, x as int, flow)) + s.skip(x as int)
        }),
{
    let ghost s = encode_utf8(src@);
    let b = src.as_bytes();
    let n: usize = b.len();
    proof {
        lemma_text(src@);
        lemma_bd_ends(s);
    }
    put_slice(out, src, 0, x);
    let before = x > 0 && b[x - 1] != SPACE && b[x - 1] != TAB && b[x - 1] != LF && b[x - 1] != CR;
    if before {
        put_byte(out, SPACE);
    }
    render_new(value, flow, out);
    let after = x < n && b[x] != SPACE && b[x] != TAB && b[x] != LF && b[x] != CR && !(flow && (b[x] == COMMA || b[x]
        == LBRACKET || b[x] == RBRACKET || b[x] == LBRACE || b[x] == RBRACE));
    if after {
        put_byte(out, SPACE);
    }
    put_slice(out, src, x, n);
    proof {
        assert(before == joins_before(s, x as int));
        assert(after == joins_after(s, x as int, flow));
        assert(encode_utf8(out@) =~= s.take(x as int) + space_if(before) + new_text(encode_utf8(value@), flow)
            + space_if(after) + s.skip(x as int));
    }
}

/// The source with `value` written into an entry that has none.
fn insert_after_key(src: &str, key: Span, at: usize, flow: bool, value: &str) -> (r: Option<String>)
    requires
        key.start <= key.end <= encode_utf8(src@).len(),
        bd(encode_utf8(src@), key.end as int),
        at <= encode_utf8(src@).len(),
        bd(encode_utf8(src@), at as int),
    ensures
        match (r, filled(encode_utf8(src@), key.v(), at as int, flow, encode_utf8(value@))) {
            (Some(out), Some(text)) => encode_utf8(out@) == text,
            (None, None) => true,
            _ => false,
        },
{
    let ghost s = encode_utf8(src@);
    let b = src.as_bytes();
    let n: usize = b.len();
    proof {
        lemma_text(src@);
        lemma_bd_ends(s);
        assert(encode_utf8(Seq::<char>::empty()) =~= Seq::<u8>::empty());
    }
    let e: usize = gap_end(b, key.end);
    let colon = e < n && b[e] == COLON && (flow || e + 1 == n || b[e + 1] == SPACE || b[e + 1] == TAB || b[e + 1] == LF
        || b[e + 1] == CR);
    assert(colon == colon_at(s, e as int, flow));
    let mut out = String::new();
    if colon {
        proof {
            lemma_bd_ascii(s, e as int);
        }
        let q: usize = gap_end(b, e + 1);
        let x: usize = if q < at {
            at
        } else {
            scan(b, e + 1, Class::Spaces)
        };
        write_value(src, x, flow, value, &mut out);
        Some(out)
    } else if flow {
        let named = key.start == key.end || b[key.start] == STAR;
        put_slice(&mut out, src, 0, key.end);
        if named {
            put_byte(&mut out, SPACE);
        }
        put(&mut out, ": ");
        render_new(value, flow, &mut out);
        put_slice(&mut out, src, key.end, n);
        assert(encode_utf8(out@) =~= s.take(key.end as int) + space_if(named) + lit(": ") + new_text(
            encode_utf8(value@),
            flow,
        ) + s.skip(key.end as int));
        Some(out)
    } else {
        None
    }
}

fn insert_empty_value<'a>(
    sink: &SpanSink<'a>,
    src: &str,
    resolved: &Resolved<'a>,
    value: &str,
    bom: usize,
    opts: &SetOpts,
    Ghost(p): Ghost<int>,
) -> (r: Result<(String, SetOutcome<'a>), Error>)
    requires
        linked(sink@),
        sound(sink@, past_bom(encode_utf8(src@)), p),
        is_text(past_bom(encode_utf8(src@))),
        bom == bom_len(encode_utf8(src@)),
        p <= past_bom(encode_utf8(src@)).len(),
        sound_extent(resolved.span.v(), past_bom(encode_utf8(src@)), p),
        resolved.key_span is Some ==> sound_extent(
            resolved.key_span->0.v(),
            past_bom(encode_utf8(src@)),
            p,
        ),
    ensures
        match (r, fill(encode_utf8(src@), sink@, resolved.v(), encode_utf8(value@), opts@)) {
            (Ok((out, outcome)), Ok((text, want))) => encode_utf8(out@) == text && outcome@ == want,
            (Err(e), Err(msg)) => e@ == plain_error(msg),
            _ => false,
        },
{
    if !opts.insert_empty {
        return Err(refused("current value is empty, SetOpts::insert_empty allows creating it"));
    }
    let key_span = match resolved.key_span {
        Some(x) => x,
        None => {
            return Err(refused("only an empty mapping value can be filled in"));
        },
    };
    let anchor = match (resolved.anchor, resolved.node) {
        (Some(name), Some(id)) => Some((name, id)),
        _ => resolved.enclosing_anchor,
    };
    assert(within_view(anchor) == reach(resolved.v()));
    if let Some((name, _)) = anchor {
        if !opts.edit_anchors {
            return Err(
                refused_name(
                    "this value is inside the anchor '&",
                    name,
                    "', SetOpts::edit_anchors allows editing it",
                ),
            );
        }
    }
    let _len: usize = src.as_bytes().len();
    proof {
        lemma_text(src@);
    }
    let key = shift_range(key_span, bom, Ghost(encode_utf8(src@)), Ghost(p));
    let at = shift_range(resolved.span, bom, Ghost(encode_utf8(src@)), Ghost(p));
    let flow = lies_in_flow(sink, resolved.span);
    match insert_after_key(src, key, at.start, flow, value) {
        Some(out) => {
            if moves_lines(sink, src, Span { start: at.start, end: at.start }, out.as_str(), bom, Ghost(p)) {
                return Err(
                    refused("a quoted value that goes on over lines begins on this line, and would be read otherwise"),
                );
            }
            Ok((out, widest(sink, anchor, SetOutcome::Inserted)))
        },
        None => Err(refused("an explicit key without a colon has no place for a value")),
    }
}

/// The source with an entry for `key` after the line that ends at `line_end`,
/// indented like the entry `x`, whose line starts at `line`.
fn write_override(src: &str, x: Span, line: usize, line_end: usize, key: &str, text: &str) -> (r: String)
    requires
        line <= x.start <= encode_utf8(src@).len(),
        bd(encode_utf8(src@), line as int),
        bd(encode_utf8(src@), x.start as int),
        bd(encode_utf8(src@), line_end as int),
        line == line_start(encode_utf8(src@), x.start as int),
        line_end == line_close(encode_utf8(src@), x.end as int),
        line_end <= encode_utf8(src@).len(),
    ensures
        encode_utf8(r@) == overridden(encode_utf8(src@), x.v(), encode_utf8(key@), encode_utf8(text@)),
{
    let ghost s = encode_utf8(src@);
    proof {
        lemma_text(src@);
        lemma_bd_ends(s);
        assert(encode_utf8(Seq::<char>::empty()) =~= Seq::<u8>::empty());
    }
    let mut out = String::new();
    put_slice(&mut out, src, 0, line_end);
    put_byte(&mut out, LF);
    put_slice(&mut out, src, line, x.start);
    render_new(key, false, &mut out);
    put(&mut out, ": ");
    put(&mut out, text);
    put_slice(&mut out, src, line_end, src.as_bytes().len());
    assert(encode_utf8(out@) =~= overridden(s, x.v(), encode_utf8(key@), encode_utf8(text@)));
    out
}

/// The source with `text` in place of the bytes `span`.
fn splice(src: &str, span: Span, text: &str) -> (r: String)
    requires
        span.start <= span.end <= encode_utf8(src@).len(),
        bd(encode_utf8(src@), span.start as int),
        bd(encode_utf8(src@), span.end as int),
    ensures
        encode_utf8(r@) == spliced(encode_utf8(src@), span.v(), encode_utf8(text@)),
{
    let ghost s = encode_utf8(src@);
    proof {
        lemma_text(src@);
        lemma_bd_ends(s);
        assert(encode_utf8(Seq::<char>::empty()) =~= Seq::<u8>::empty());
    }
    let mut out = String::new();
    put_slice(&mut out, src, 0, span.start);
    put(&mut out, text);
    put_slice(&mut out, src, span.end, src.as_bytes().len());
    assert(encode_utf8(out@) =~= spliced(s, span.v(), encode_utf8(text@)));
    out
}

/// The bytes of node `id`.
fn text_of<'b>(sink: &SpanSink<'_>, src: &'b str, id: SpanId, bom: usize, Ghost(p): Ghost<int>) -> (r: &'b str)
    requires
        sound(sink@, past_bom(encode_utf8(src@)), p),
        is_text(past_bom(encode_utf8(src@))),
        bom == bom_len(encode_utf8(src@)),
        p <= past_bom(encode_utf8(src@)).len(),
        id < sink@.nodes.len(),
    ensures
        encode_utf8(r@) == text_at(encode_utf8(src@), sink@.nodes[id as int].span),
{
    let _len: usize = src.as_bytes().len();
    proof {
        lemma_text(src@);
        reveal(sound);
        assert(sound_node(sink@.nodes[id as int], id as int, past_bom(encode_utf8(src@)), p));
    }
    let m = shift_range(sink.node(id).span, bom, Ghost(encode_utf8(src@)), Ghost(p));
    slice(src, m.start, m.end)
}

/// The text of an explicit value that overrides an inherited one.
fn overriding_text<'a>(
    sink: &SpanSink<'a>,
    src: &'a str,
    resolved: &Resolved<'a>,
    value: &str,
    bom: usize,
    opts: &SetOpts,
    Ghost(p): Ghost<int>,
) -> (r: Result<String, Error>)
    requires
        linked(sink@),
        sound(sink@, past_bom(encode_utf8(src@)), p),
        is_text(past_bom(encode_utf8(src@))),
        bom == bom_len(encode_utf8(src@)),
        p <= past_bom(encode_utf8(src@)).len(),
        resolved.inherited is Some ==> resolved.inherited->0 < sink@.nodes.len(),
    ensures
        match (r, override_text(encode_utf8(src@), sink@, resolved.v(), encode_utf8(value@), opts@)) {
            (Ok(out), Ok(text)) => encode_utf8(out@) == text,
            (Err(e), Err(msg)) => e@ == plain_error(msg),
            _ => false,
        },
{
    match resolved.inherited {
        Some(id) => {
            let def: usize = match follow_alias(sink, id) {
                Some(d) => d,
                None => id,
            };
            if !is_leaf(sink, def) && !opts.replace_nodes {
                return Err(
                    refused("inherited value is a collection, SetOpts::replace_nodes allows replacing it"),
                );
            }
            let model = text_of(sink, src, def, bom, Ghost(p));
            let none: Vec<&'a str> = Vec::new();
            assert(tags_view(none@) =~= Seq::empty());
            let keep = if opts.allow_type_change {
                None
            } else {
                Some(KeepRef { old: value_of_node(sink, src, id, bom, Ghost(p)), tags: &none })
            };
            restyle(model, value, false, false, &keep)
        },
        None => {
            let mut out = String::new();
            render_new(value, false, &mut out);
            proof {
                assert(encode_utf8(Seq::<char>::empty()) =~= Seq::<u8>::empty());
                assert(encode_utf8(out@) =~= new_text(encode_utf8(value@), false));
            }
            Ok(out)
        },
    }
}

fn override_inherited<'a>(
    sink: &SpanSink<'a>,
    src: &'a str,
    resolved: &Resolved<'a>,
    path: &[Segment<'_>],
    value: &str,
    bom: usize,
    opts: &SetOpts,
    Ghost(p): Ghost<int>,
) -> (r: Result<(String, SetOutcome<'a>), Error>)
    requires
        linked(sink@),
        is_text(past_bom(encode_utf8(src@))),
        bom == bom_len(encode_utf8(src@)),
        p <= past_bom(encode_utf8(src@)).len(),
        sound(sink@, past_bom(encode_utf8(src@)), p),
        sound_extent(resolved.span.v(), past_bom(encode_utf8(src@)), p),
        resolved.inherited is Some ==> resolved.inherited->0 < sink@.nodes.len(),
    ensures
        match (
            r,
            override_key(encode_utf8(src@), sink@, resolved.v(), path_view(path@), encode_utf8(value@), opts@),
        ) {
            (Ok((out, outcome)), Ok((text, want))) => encode_utf8(out@) == text && outcome@ == want,
            (Err(e), Err(msg)) => e@ == plain_error(msg),
            _ => false,
        },
{
    let ghost s = encode_utf8(src@);
    let b = src.as_bytes();
    let _len: usize = b.len();
    let n: usize = path.len();
    if n == 0 {
        return Err(refused("only a key name can override an inherited one"));
    }
    assert(path_view(path@).last() == path@[n - 1]@);
    let key = match path[n - 1] {
        Segment::Key(k) => k,
        _ => {
            return Err(refused("only a key name can override an inherited one"));
        },
    };
    if resolved.truncated {
        return Err(
            refused("path continues past the inherited key, and a key that is not there is not added"),
        );
    }
    if let Some((name, _)) = resolved.enclosing_anchor {
        if !opts.edit_anchors {
            return Err(
                refused_name("this map is inside the anchor '&", name, "', SetOpts::edit_anchors allows editing it"),
            );
        }
    }
    proof {
        lemma_text(src@);
        lemma_bd_ends(s);
        assert(encode_utf8(Seq::<char>::empty()) =~= Seq::<u8>::empty());
    }
    let x = shift_range(resolved.span, bom, Ghost(s), Ghost(p));
    proof {
        lemma_bom(s);
        lemma_back_line(s, bom as int, x.start as int);
    }
    let line: usize = scan_back(b, bom, x.start, Class::Line);
    if scan(b, line, Class::Spaces) < x.start || lies_in_flow(sink, resolved.span) {
        return Err(refused("cannot add an override inside a flow mapping"));
    }
    let mut line_end: usize = scan(b, x.end, Class::Line);
    if line_end < b.len() && b[line_end] == CR && line_end + 1 < b.len() && b[line_end + 1] == LF {
        proof {
            lemma_bd_ascii(s, line_end as int);
        }
        line_end = line_end + 1;
    }
    let text = match overriding_text(sink, src, resolved, value, bom, opts, Ghost(p)) {
        Ok(text) => text,
        Err(e) => {
            return Err(e);
        },
    };
    let out = write_override(src, x, line, line_end, key, text.as_str());
    let outcome = widest(sink, resolved.enclosing_anchor, SetOutcome::Inserted);
    Ok((out, outcome))
}

/// Replace the scalar at `path`, preserving everything around it.
///
/// Comments, key order, indentation and blank lines are unaffected. The quoting style of the source
/// survives, because otherwise `"3.9"` would turn into a float.
///
/// Check the returned [`SetOutcome`].
///
/// By default, it refuses anything wider than the bytes you named: an alias, an anchor definition
/// or a value inside one, a collection, an inherited key or an empty value. It also refuses a text
/// that would change the type of the value. Use [`set_with`] with
/// [`SetOpts`] to change behavior.
pub fn set<'a>(src: &'a str, path: &[Segment<'_>], value: &str) -> (r: Result<(String, SetOutcome<'a>), Error>)
    ensures
        match (r, edited(encode_utf8(src@), path_view(path@), encode_utf8(value@), strict_opts())) {
            (Ok((out, outcome)), Ok((text, want))) => encode_utf8(out@) == text && outcome@ == want,
            (Err(e), Err(want)) => e@ == want,
            _ => false,
        },
{
    set_with(src, path, value, SetOpts::default())
}

/// [`set`] with chosen options on how the edits will or will not be performed.
///
/// The returned [`SetOutcome`] reports the biggest impact outcome, whether or not it was allowed
/// by the options.
///
/// See [`SetOpts`] for the description of possible options.
pub fn set_with<'a>(src: &'a str, path: &[Segment<'_>], value: &str, opts: SetOpts) -> (r: Result<
    (String, SetOutcome<'a>),
    Error,
>)
    ensures
        match (r, edited(encode_utf8(src@), path_view(path@), encode_utf8(value@), opts@)) {
            (Ok((out, outcome)), Ok((text, want))) => encode_utf8(out@) == text && outcome@ == want,
            (Err(e), Err(want)) => e@ == want,
            _ => false,
        },
{
    let ghost s = encode_utf8(src@);
    let _len: usize = src.as_bytes().len();
    let (sink, bom) = match spans(src) {
        Ok(x) => x,
        Err(e) => {
            return Err(e);
        },
    };
    let ghost st = stream(past_bom(s))->Ok_0.1;
    proof {
        lemma_linked(sink@, past_bom(s), st.p);
    }
    let resolved = match resolve(&*sink, path, opts.follow_refs) {
        Some(x) => x,
        None => {
            return Err(refused("no node at that path"));
        },
    };
    let ghost f = resolved.v();
    proof {
        lemma_in_tree(sink@, f, past_bom(s), st.p);
        lemma_text(src@);
    }
    if resolved.span.start == resolved.span.end {
        return insert_empty_value(&*sink, src, &resolved, value, bom, &opts, Ghost(st.p));
    }
    if let NodeKind::MergeInherited = resolved.kind {
        if opts.override_inherited {
            return override_inherited(&*sink, src, &resolved, path, value, bom, &opts, Ghost(st.p));
        }
    }
    let plan = match plan_edit(&*sink, &resolved, &opts) {
        Ok(x) => x,
        Err(e) => {
            return Err(e);
        },
    };
    let span = shift_range(resolved.span, bom, Ghost(s), Ghost(st.p));
    let text = match replacement(&*sink, src, &resolved, plan.model, value, bom, &opts, Ghost(st.p)) {
        Ok(text) => text,
        Err(e) => {
            return Err(e);
        },
    };
    let n = indentation(&*sink, src, &resolved, bom, Ghost(st.p));
    let text = indent(n, text);
    let out = splice(src, span, text.as_str());
    if moves_lines(&*sink, src, span, out.as_str(), bom, Ghost(st.p)) {
        return Err(
            refused("a quoted value that goes on over lines begins on this line, and would be read otherwise"),
        );
    }
    Ok((out, plan.outcome))
}

/// One more space than the number, or none.
spec fn depth_view(n: Option<usize>) -> int {
    match n {
        Some(d) => d + 1,
        None => 0,
    }
}

/// How much further in a scalar has to stand than what it replaces.
fn indentation<'a>(
    sink: &SpanSink<'a>,
    src: &str,
    resolved: &Resolved<'a>,
    bom: usize,
    Ghost(p): Ghost<int>,
) -> (r: Option<usize>)
    requires
        is_text(past_bom(encode_utf8(src@))),
        bom == bom_len(encode_utf8(src@)),
        p <= past_bom(encode_utf8(src@)).len(),
        sound_extent(resolved.span.v(), past_bom(encode_utf8(src@)), p),
        resolved.key_span is Some ==> sound_extent(
            resolved.key_span->0.v(),
            past_bom(encode_utf8(src@)),
            p,
        ),
        resolved.node is Some && resolved.node->0 < sink@.nodes.len(),
    ensures
        depth_view(r) == steps_in(encode_utf8(src@), sink@, resolved.v()),
{
    let ghost s = encode_utf8(src@);
    let b = src.as_bytes();
    let _len: usize = b.len();
    proof {
        lemma_text(src@);
    }
    match (resolved.key_span, resolved.node) {
        (Some(key_span), Some(id)) => {
            let leaf = is_leaf(sink, id);
            let x = shift_range(resolved.span, bom, Ghost(s), Ghost(p));
            let key = shift_range(key_span, bom, Ghost(s), Ghost(p));
            let c: usize = x.start - scan_back(b, bom, x.start, Class::Line);
            let k: usize = key.start - scan_back(b, bom, key.start, Class::Line);
            if !leaf && c <= k {
                Some(k - c)
            } else {
                None
            }
        },
        _ => None,
    }
}

/// A text after one more space than `n`, or none.
fn indent(n: Option<usize>, text: String) -> (r: String)
    ensures
        encode_utf8(r@) == indented(depth_view(n), encode_utf8(text@)),
{
    let d: usize = match n {
        Some(d) => d,
        None => {
            return text;
        },
    };
    let mut out = String::new();
    put_byte(&mut out, SPACE);
    let mut i: usize = 0;
    proof {
        assert(encode_utf8(Seq::<char>::empty()) =~= Seq::<u8>::empty());
        assert(encode_utf8(out@) =~= Seq::new(1nat, |j: int| SPACE));
    }
    while i < d
        invariant
            i <= d,
            encode_utf8(out@) == Seq::new((i + 1) as nat, |j: int| SPACE),
        decreases d - i,
    {
        put_byte(&mut out, SPACE);
        i = i + 1;
        assert(encode_utf8(out@) =~= Seq::new((i + 1) as nat, |j: int| SPACE));
    }
    put(&mut out, text.as_str());
    out
}

/// The text that replaces the node that was found, styled after the node `model`.
fn replacement<'a>(
    sink: &SpanSink<'a>,
    src: &'a str,
    resolved: &Resolved<'a>,
    model: SpanId,
    value: &str,
    bom: usize,
    opts: &SetOpts,
    Ghost(p): Ghost<int>,
) -> (r: Result<String, Error>)
    requires
        linked(sink@),
        sound(sink@, past_bom(encode_utf8(src@)), p),
        is_text(past_bom(encode_utf8(src@))),
        bom == bom_len(encode_utf8(src@)),
        p <= past_bom(encode_utf8(src@)).len(),
        model < sink@.nodes.len(),
        sound_extent(resolved.span.v(), past_bom(encode_utf8(src@)), p),
        resolved.node is Some && resolved.node->0 < sink@.nodes.len(),
    ensures
        match (
            r,
            restyled(
                text_at(encode_utf8(src@), sink@.nodes[model as int].span),
                encode_utf8(value@),
                in_flow(sink@, resolved.v().located.span),
                fenced(past_bom(encode_utf8(src@)), resolved.v().located.span),
                kept_at(encode_utf8(src@), sink@, resolved.v().node->0, opts@),
            ),
        ) {
            (Ok(out), Ok(text)) => encode_utf8(out@) == text,
            (Err(e), Err(msg)) => e@ == plain_error(msg),
            _ => false,
        },
{
    let flow = lies_in_flow(sink, resolved.span);
    let style = text_of(sink, src, model, bom, Ghost(p));
    let keep = match resolved.node {
        Some(id) if !opts.allow_type_change => Some(
            KeepRef { old: value_of_node(sink, src, id, bom, Ghost(p)), tags: &sink.node(id).tags },
        ),
        _ => None,
    };
    let asked = is_fenced(src, resolved.span);
    restyle(style, value, flow, asked, &keep)
}

} // verus!
