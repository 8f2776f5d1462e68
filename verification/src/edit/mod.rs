//! Byte-span addressing over parsed YAML, for format-preserving edits.
//!
//! The parser records a span tree as it walks; [`locate()`](locate::locate)
//! resolves a path to the source bytes it addresses and to what kind of node
//! lives there.
pub mod apply;
pub mod around;
pub mod doc;
pub mod edit_doc;
pub mod locate;
pub mod path;
pub mod plan;
pub mod set;
pub mod types;
pub mod sink;

use vstd::prelude::*;
use vstd::std_specs::convert::FromSpecImpl;
use vstd::utf8::*;
use std::ops::Range;

verus! {

/// A path segment representing one level of descent into a YAML stream.
///
/// [`Segment::Doc`] is only meaningful as the leading segment; absent, document 0.
/// Build paths by hand or with [`parse_path`](path::parse_path).
#[derive(Debug, Clone, Copy, PartialEq, Eq)]
pub enum Segment<'a> {
    /// Document index in a `---` separated (multi-doc) stream.
    Doc(usize),
    /// Mapping key, matched against the key's text rather than its source
    /// spelling, so `Key("a")` finds `"a": 1`.
    Key(&'a str),
    /// 0-based element index (sequence/array)
    Index(usize),
}

/// The contents of a [`Segment`].
pub enum SegmentView {
    Doc(int),
    Key(Seq<u8>),
    Index(int),
}

impl<'a> View for Segment<'a> {
    type V = SegmentView;

    open spec fn view(&self) -> SegmentView {
        match self {
            Segment::Doc(n) => SegmentView::Doc(*n as int),
            Segment::Key(k) => SegmentView::Key(encode_utf8(k@)),
            Segment::Index(n) => SegmentView::Index(*n as int),
        }
    }
}

/// The contents of a path.
pub open spec fn path_view(path: Seq<Segment<'_>>) -> Seq<SegmentView> {
    Seq::new(path.len(), |i: int| path[i]@)
}

impl<'a> From<&'a str> for Segment<'a> {
    fn from(key: &'a str) -> (r: Segment<'a>) {
        Segment::Key(key)
    }
}

impl<'a> FromSpecImpl<&'a str> for Segment<'a> {
    open spec fn obeys_from_spec() -> bool {
        true
    }

    open spec fn from_spec(key: &'a str) -> Segment<'a> {
        Segment::Key(key)
    }
}

impl<'a> From<usize> for Segment<'a> {
    fn from(index: usize) -> (r: Segment<'a>) {
        Segment::Index(index)
    }
}

impl<'a> FromSpecImpl<usize> for Segment<'a> {
    open spec fn obeys_from_spec() -> bool {
        true
    }

    open spec fn from_spec(index: usize) -> Segment<'a> {
        Segment::Index(index)
    }
}

/// Describes what the located bytes are, helps decide if an edit is safe (breaks guarantees or not,
/// see [`SetOpts`](set::SetOpts))
#[derive(Debug, Clone, Copy, PartialEq, Eq)]
pub enum NodeKind<'a> {
    /// An ordinary value. Editing it changes nothing else.
    Literal,
    /// A `*name` token referencing an anchor's value.
    AliasRef(&'a str),
    /// The key is not present at this path. It arrives through `<<`.
    MergeInherited,
}

/// The contents of a [`NodeKind`].
pub enum KindView {
    Literal,
    AliasRef(Seq<u8>),
    MergeInherited,
}

impl<'a> View for NodeKind<'a> {
    type V = KindView;

    open spec fn view(&self) -> KindView {
        match self {
            NodeKind::Literal => KindView::Literal,
            NodeKind::AliasRef(name) => KindView::AliasRef(encode_utf8(name@)),
            NodeKind::MergeInherited => KindView::MergeInherited,
        }
    }
}

/// Holds information about the node a path resolves to in the stream
#[derive(Debug, PartialEq, Eq)]
pub struct Located<'a> {
    /// Byte range into the source passed to [`locate()`](locate::locate), ready to slice.
    pub span: Range<usize>,
    /// What the bytes are, which decides whether an edit is safe.
    pub kind: NodeKind<'a>,
    /// Anchor this node defines, if any, so editing it reaches every alias.
    pub anchor: Option<&'a str>,
}

/// The contents of a [`Located`].
pub struct LocatedView {
    pub span: sink::Extent,
    pub kind: KindView,
    pub anchor: Option<Seq<u8>>,
}

impl<'a> View for Located<'a> {
    type V = LocatedView;

    open spec fn view(&self) -> LocatedView {
        LocatedView {
            span: sink::Extent { a: self.span.start as int, b: self.span.end as int },
            kind: self.kind@,
            anchor: match self.anchor {
                Some(name) => Some(encode_utf8(name@)),
                None => None,
            },
        }
    }
}

impl<'a> Clone for Located<'a> {
    fn clone(&self) -> (r: Self)
        ensures
            r@ == self@,
    {
        Located { span: self.span.start..self.span.end, kind: self.kind, anchor: self.anchor }
    }
}

} // verus!
