//! The type of a value in the source, and whether new text keeps it.
use vstd::prelude::*;
use vstd::utf8::*;
use std::borrow::Cow;
use super::locate::{alias_target, linked, moved};
use super::set::shift_range;
use super::sink::{sound, sound_node, tags_view, Extent, Shape, SpanId, SpanSink, Tree};
use super::{KindView, NodeKind};
use crate::parser::scalar::ScalarToken;
use crate::parser::tokens::token;
use crate::parser::{bom_len, past_bom, Parser};
use crate::patterns::{resolve_scalar, resolved};
use crate::text::{at, is_break, is_text, lemma_text, same, slice, CR, DQUOTE, GREATER, LF, PIPE, SQUOTE};
use crate::value::{apply_tag, cow_str, lit, with_tag, BorrowedValue, Val};

verus! {

/// The value with tags applied, the first one first.
pub open spec fn tagged(tags: Seq<Seq<u8>>, v: Val) -> Val
    decreases tags.len(),
{
    if tags.len() == 0 {
        v
    } else {
        with_tag(tags.last(), tagged(tags.drop_last(), v))
    }
}

/// The value under the tags that stay on it.
pub open spec fn untagged(v: Val) -> Val
    decreases v,
{
    match v {
        Val::Tagged(_, b) => untagged(*b),
        _ => v,
    }
}

/// Whether two values are of one type: both null, both a truth value, both an
/// integer, both a float, both a string, or both a collection of one kind.
pub open spec fn same_type(a: Val, b: Val) -> bool {
    match (untagged(a), untagged(b)) {
        (Val::Null, Val::Null) => true,
        (Val::Bool(_), Val::Bool(_)) => true,
        (Val::Int(_), Val::Int(_)) => true,
        (Val::Float(_), Val::Float(_)) => true,
        (Val::Str(_), Val::Str(_)) => true,
        (Val::List(_), Val::List(_)) => true,
        (Val::Dict(_), Val::Dict(_)) => true,
        _ => false,
    }
}

/// Whether `v`, if it is a string, is the string `text`.
pub open spec fn says(v: Val, text: Seq<u8>) -> bool {
    untagged(v) is Str ==> untagged(v) == Val::Str(text)
}

/// Whether the bytes of a scalar begin with a quote.
pub open spec fn has_quotes(raw: Seq<u8>) -> bool {
    at(raw, 0) == Some(DQUOTE) || at(raw, 0) == Some(SQUOTE)
}

/// The value of a scalar with the bytes `raw`.
pub open spec fn raw_value(raw: Seq<u8>) -> Val {
    if has_quotes(raw) {
        match token(raw, 0) {
            Ok(k) => Val::Str(k.text),
            Err(_) => Val::Str(raw),
        }
    } else {
        resolved(raw)
    }
}

/// Whether the bytes of a scalar say what it is read as wherever they stand: they are
/// on one line, and no block scalar.
pub open spec fn flat(raw: Seq<u8>) -> bool {
    &&& raw.len() > 0 && raw[0] != PIPE && raw[0] != GREATER
    &&& forall|i: int| 0 <= i < raw.len() ==> !is_break(#[trigger] raw[i])
}

/// The value of a text that is written in quotes or without them.
pub open spec fn written_value(text: Seq<u8>, quotes: bool) -> Val {
    if quotes {
        Val::Str(text)
    } else {
        resolved(text)
    }
}

/// The bytes of `x` in the text with its byte order mark.
pub open spec fn text_at(s: Seq<u8>, x: Extent) -> Seq<u8> {
    s.subrange(moved(x, bom_len(s)).a, moved(x, bom_len(s)).b)
}

/// Whether the tag makes another type of some strings and not of others.
pub open spec fn converts(tag: Seq<u8>) -> bool {
    tag == lit("!!int") || tag == lit("!!float") || tag == lit("!!bool")
}

/// Whether the tags leave the type of a string as it is, whatever it says, or make one
/// type of every string.
pub open spec fn unmoved(tags: Seq<Seq<u8>>) -> bool {
    forall|i: int| 0 <= i < tags.len() ==> !converts(#[trigger] tags[i])
}

/// A value of the type that node `id` has: that of its text or of what it stands
/// for, with its tags. A collection counts as a string, which takes its place. There
/// is none if a tag goes by what is read and the bytes do not show that.
pub open spec fn node_value(s: Seq<u8>, t: Tree, id: int) -> Option<Val>
    decreases id,
{
    let x = t.nodes[id];
    match x.kind {
        KindView::AliasRef(_) => match alias_target(t, id) {
            Some(def) if 0 <= def < id => match node_value(s, t, def) {
                Some(v) if unmoved(x.tags) => Some(tagged(x.tags, v)),
                _ => None,
            },
            _ => Some(tagged(x.tags, Val::Str(Seq::empty()))),
        },
        _ => if !(x.shape is Leaf) {
            Some(tagged(x.tags, Val::Str(Seq::empty())))
        } else if unmoved(x.tags) || flat(text_at(s, x.span)) {
            Some(tagged(x.tags, raw_value(text_at(s, x.span))))
        } else {
            None
        },
    }
}

fn is_flat(raw: &str) -> (r: bool)
    ensures
        r == flat(encode_utf8(raw@)),
{
    let b = raw.as_bytes();
    if b.len() == 0 || b[0] == PIPE || b[0] == GREATER {
        return false;
    }
    let mut i: usize = 0;
    while i < b.len()
        invariant
            i <= b@.len(),
            b@ == encode_utf8(raw@),
            forall|j: int| 0 <= j < i ==> !is_break(#[trigger] b@[j]),
        decreases b@.len() - i,
    {
        if b[i] == LF || b[i] == CR {
            assert(is_break(b@[i as int]));
            return false;
        }
        i = i + 1;
    }
    true
}

fn is_unmoved(tags: &Vec<&str>) -> (r: bool)
    ensures
        r == unmoved(tags_view(tags@)),
{
    let ghost all = tags_view(tags@);
    let mut i: usize = 0;
    while i < tags.len()
        invariant
            all == tags_view(tags@),
            i <= tags@.len(),
            forall|j: int| 0 <= j < i ==> !converts(#[trigger] all[j]),
        decreases tags@.len() - i,
    {
        assert(all[i as int] == encode_utf8(tags@[i as int]@));
        if same(tags[i], "!!int") || same(tags[i], "!!float") || same(tags[i], "!!bool") {
            assert(converts(all[i as int]));
            return false;
        }
        i = i + 1;
    }
    true
}

pub(crate) fn apply_tags<'a>(tags: &Vec<&'a str>, v: BorrowedValue<'a>) -> (r: BorrowedValue<'a>)
    ensures
        r.val() == tagged(tags_view(tags@), v.val()),
{
    let ghost all = tags_view(tags@);
    let ghost v0 = v.val();
    let mut r = v;
    let mut i: usize = 0;
    assert(all.take(0) =~= Seq::empty());
    while i < tags.len()
        invariant
            all == tags_view(tags@),
            i <= tags@.len(),
            r.val() == tagged(all.take(i as int), v0),
        decreases tags@.len() - i,
    {
        proof {
            assert(all.take(i + 1).drop_last() =~= all.take(i as int));
            assert(all.take(i + 1).last() == encode_utf8(tags@[i as int]@));
        }
        r = apply_tag(Cow::Borrowed(tags[i]), r);
        i = i + 1;
    }
    assert(all.take(i as int) =~= all);
    r
}

/// The value under the tags that stay on it.
fn strip<'b, 'a>(v: &'b BorrowedValue<'a>) -> (r: &'b BorrowedValue<'a>)
    ensures
        r.val() == untagged(v.val()),
        !(r is Tagged),
    decreases v,
{
    match v {
        BorrowedValue::Tagged(_, b) => strip(b),
        _ => v,
    }
}

pub(crate) fn is_same_type(a: &BorrowedValue<'_>, b: &BorrowedValue<'_>) -> (r: bool)
    ensures
        r == same_type(a.val(), b.val()),
{
    match (strip(a), strip(b)) {
        (BorrowedValue::Null, BorrowedValue::Null) => true,
        (BorrowedValue::Bool(_), BorrowedValue::Bool(_)) => true,
        (BorrowedValue::Int(_), BorrowedValue::Int(_)) => true,
        (BorrowedValue::Float(_), BorrowedValue::Float(_)) => true,
        (BorrowedValue::String(_), BorrowedValue::String(_)) => true,
        (BorrowedValue::Sequence(_), BorrowedValue::Sequence(_)) => true,
        (BorrowedValue::Mapping(_), BorrowedValue::Mapping(_)) => true,
        _ => false,
    }
}

/// Whether `v`, if it is a string, is the string `text`.
pub(crate) fn is_said(v: &BorrowedValue<'_>, text: &str) -> (r: bool)
    ensures
        r == says(v.val(), encode_utf8(text@)),
{
    match strip(v) {
        BorrowedValue::String(c) => same(cow_str(c), text),
        _ => true,
    }
}

fn value_of_raw<'a>(raw: &'a str) -> (r: BorrowedValue<'a>)
    ensures
        r.val() == raw_value(encode_utf8(raw@)),
{
    let ghost s = encode_utf8(raw@);
    let b = raw.as_bytes();
    if b.len() > 0 && (b[0] == DQUOTE || b[0] == SQUOTE) {
        let mut p = Parser::new(raw);
        assert(past_bom(s) =~= s);
        match p.read_scalar_token() {
            Ok((ScalarToken::Quoted(c), _)) => BorrowedValue::String(c),
            Ok((ScalarToken::Plain(c), _)) => BorrowedValue::String(c),
            Err(_) => BorrowedValue::String(Cow::Borrowed(raw)),
        }
    } else {
        resolve_scalar(Cow::Borrowed(raw))
    }
}

/// A value of the type that node `id` has, if that shows.
pub(crate) fn value_of_node<'a>(
    sink: &SpanSink<'a>,
    src: &'a str,
    id: SpanId,
    bom: usize,
    Ghost(p): Ghost<int>,
) -> (r: Option<BorrowedValue<'a>>)
    requires
        linked(sink@),
        sound(sink@, past_bom(encode_utf8(src@)), p),
        is_text(past_bom(encode_utf8(src@))),
        bom == bom_len(encode_utf8(src@)),
        p <= past_bom(encode_utf8(src@)).len(),
        id < sink@.nodes.len(),
    ensures
        match r {
            Some(v) => node_value(encode_utf8(src@), sink@, id as int) == Some(v.val()),
            None => node_value(encode_utf8(src@), sink@, id as int) is None,
        },
    decreases id,
{
    let ghost s = encode_utf8(src@);
    let node = sink.node(id);
    let tags = is_unmoved(&node.tags);
    let v = match node.kind {
        NodeKind::AliasRef(_) => match sink.target_of(id) {
            Some(def) => match value_of_node(sink, src, def, bom, Ghost(p)) {
                Some(v) if tags => v,
                _ => {
                    return None;
                },
            },
            None => BorrowedValue::String(Cow::Borrowed("")),
        },
        _ => match node.shape {
            Shape::Leaf => {
                let _len: usize = src.as_bytes().len();
                proof {
                    lemma_text(src@);
                    reveal(sound);
                    assert(sound_node(sink@.nodes[id as int], id as int, past_bom(s), p));
                }
                let m = shift_range(node.span, bom, Ghost(s), Ghost(p));
                let raw = slice(src, m.start, m.end);
                if !tags && !is_flat(raw) {
                    return None;
                }
                value_of_raw(raw)
            },
            _ => BorrowedValue::String(Cow::Borrowed("")),
        },
    };
    proof {
        reveal_strlit("");
        assert(encode_utf8(""@) =~= Seq::<u8>::empty());
    }
    Some(apply_tags(&node.tags, v))
}

} // verus!
