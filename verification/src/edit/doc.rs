//! Parsed views and editable buffers.
use vstd::prelude::*;
use vstd::string::*;
use vstd::utf8::*;
use super::locate::{
    in_flow, lemma_in_tree, lemma_linked, lies_in_flow, location, moved, resolve, resolved_path, spans,
};
use super::set::{edited, line_start, refused, set_with, shift_range, strict_opts, SetOpts, SetOutcome};
use super::sink::{sound, SpanSink};
use super::{path_view, Located, LocatedView, NodeKind, Segment, SegmentView};
use crate::error::{plain_error, Error, ErrorView};
use crate::parser::grammar::stream;
use crate::parser::layout::{bounds, moves, next_line, next_line_bd, Fail};
use crate::parser::{bom_len, lemma_bom, past_bom, report};
use crate::text::{
    bd, lemma_back_line, lemma_bd_ends, lemma_run, lemma_text, put_slice, run, scan, scan_back, Class, CR, LF,
};
use crate::value::lit;

verus! {

broadcast use {moves, bounds};

/// A parsed view of a source string, for visiting many paths without
/// re-parsing.
///
/// Read-only and borrowed. To edit, use [`Document`].
///
/// Mostly used internally to be able to diff and traverse, but effective to query fields.
pub struct DocumentView<'a> {
    src: &'a str,
    sink: Box<SpanSink<'a>>,
    bom: usize,
}

impl<'a> DocumentView<'a> {
    /// The text that was parsed.
    pub closed spec fn text(self) -> Seq<u8> {
        encode_utf8(self.src@)
    }

    /// The spans are those of the text.
    pub closed spec fn ready(self) -> bool {
        &&& stream(past_bom(self.text())) is Ok
        &&& self.sink@ == (stream(past_bom(self.text()))->Ok_0).1.t
        &&& self.sink@.roots.len() == (stream(past_bom(self.text()))->Ok_0).0.len()
        &&& self.bom == bom_len(self.text())
        &&& sound(self.sink@, past_bom(self.text()), (stream(past_bom(self.text()))->Ok_0).1.p)
        &&& (stream(past_bom(self.text()))->Ok_0).1.p <= past_bom(self.text()).len()
    }

    /// Parse a YAML string into a path-searchable Document
    pub fn parse(src: &'a str) -> (r: Result<Self, Error>)
        ensures
            match (r, stream(past_bom(encode_utf8(src@)))) {
                (Ok(d), Ok(_)) => d.ready() && d.text() == encode_utf8(src@),
                (Err(e), Err(f)) => e@ == report(past_bom(encode_utf8(src@)), f),
                _ => false,
            },
    {
        match spans(src) {
            Ok((sink, bom)) => Ok(DocumentView { src, sink, bom }),
            Err(e) => Err(e),
        }
    }

    /// Resolve a path on a parsed document
    ///
    /// Since the document is already parsed, a non-existent path returns [`None`], and not [`Err`].
    ///
    /// The span lies on character boundaries of the text.
    pub fn locate(&self, path: &[Segment<'_>]) -> (r: Option<Located<'a>>)
        requires
            self.ready(),
        ensures
            match r {
                Some(l) => location(self.text(), path_view(path@)) == Ok::<_, Fail>(Some(l@)) && l.span.start
                    <= l.span.end && bd(self.text(), l.span.start as int) && bd(self.text(), l.span.end as int),
                None => location(self.text(), path_view(path@)) == Ok::<Option<LocatedView>, Fail>(None),
            },
    {
        let ghost s = self.text();
        let ghost st = (stream(past_bom(s))->Ok_0).1;
        proof {
            lemma_linked(self.sink@, past_bom(s), st.p);
        }
        match resolve(&*self.sink, path, false) {
            Some(x) => {
                let _len: usize = self.src.as_bytes().len();
                proof {
                    lemma_in_tree(self.sink@, x.v(), past_bom(s), st.p);
                    lemma_text(self.src@);
                    crate::parser::lemma_past_bom_text(s);
                }
                let span = shift_range(x.span, self.bom, Ghost(s), Ghost(st.p));
                Some(Located { span: span.start..span.end, kind: x.kind, anchor: x.anchor })
            },
            None => None,
        }
    }

    /// Document count in the stream for [`Segment::Doc`]
    pub fn document_count(&self) -> (r: usize)
        requires
            self.ready(),
        ensures
            stream(past_bom(self.text())) is Ok,
            r == (stream(past_bom(self.text()))->Ok_0).0.len(),
    {
        let roots = self.sink.roots();
        assert(super::sink::ids_view(roots@).len() == roots@.len());
        roots.len()
    }

    /// Document source string
    pub fn src(&self) -> (r: &'a str)
        ensures
            encode_utf8(r@) == self.text(),
    {
        self.src
    }
}

/// Resolve a path to the source bytes it addresses.
///
/// Returns `None` when the path doesn't exist. A path running *through* an
/// alias stops at the alias rather than following it. Spans index `src` as
/// given, so they can be spliced directly.
pub fn locate<'a>(src: &'a str, path: &[Segment<'_>]) -> (r: Result<Option<Located<'a>>, Error>)
    ensures
        match (r, location(encode_utf8(src@), path_view(path@))) {
            (Ok(Some(l)), Ok(Some(want))) => l@ == want && l.span.start <= l.span.end && bd(
                encode_utf8(src@),
                l.span.start as int,
            ) && bd(encode_utf8(src@), l.span.end as int),
            (Ok(None), Ok(None)) => true,
            (Err(e), Err(f)) => e@ == report(past_bom(encode_utf8(src@)), f),
            _ => false,
        },
{
    match DocumentView::parse(src) {
        Ok(d) => Ok(d.locate(path)),
        Err(e) => Err(e),
    }
}

/// The source without the lines of the entry from `key` to `end`.
pub open spec fn without_lines(s: Seq<u8>, key: int, end: int) -> Seq<u8> {
    // the line break goes with it, so no blank line remains
    s.take(line_start(s, key)) + s.skip(next_line(s, end))
}

/// What removing the entry at `path` from the source `s` does.
pub open spec fn removed(s: Seq<u8>, path: Seq<SegmentView>) -> Result<Seq<u8>, ErrorView> {
    match stream(past_bom(s)) {
        Err(f) => Err(report(past_bom(s), f)),
        Ok((_, st)) => match resolved_path(st.t, path, false) {
            None => Err(plain_error(lit("no node at given path"))),
            Some(f) => if f.located.kind is MergeInherited {
                Err(plain_error(lit("key is inherited through '<<', not present on the document")))
            } else if f.truncated {
                Err(plain_error(lit("no node at given path")))
            } else if f.located.anchor is Some || f.enclosing is Some {
                Err(plain_error(lit("removing an anchored value would break its aliases")))
            } else if f.key is None {
                Err(plain_error(lit("only a mapping entry can be removed")))
            } else {
                let key = moved(f.key->0, bom_len(s));
                if run(s, line_start(s, key.a), Class::Spaces) < key.a || in_flow(st.t, f.key->0) {
                    Err(plain_error(lit("cannot remove an entry from a flow mapping")))
                } else {
                    Ok(without_lines(s, key.a, moved(f.located.span, bom_len(s)).b))
                }
            },
        },
    }
}

/// An owned buffer that edits in place.
///
/// Each edit re-parses rather than caching a span tree. A splice shifts every
/// span after it, so a cached tree would be stale the moment anything changed.
/// For many reads against one parse, take a [`DocumentView`] with
/// [`view`](Document::view).
pub struct Document {
    pub(crate) src: String,
}

impl Document {
    /// The text in the buffer.
    pub closed spec fn text(self) -> Seq<u8> {
        encode_utf8(self.src@)
    }

    pub fn new(src: &str) -> (r: Self)
        ensures
            r.text() == encode_utf8(src@),
    {
        Document { src: src.to_owned() }
    }

    /// Replace the scalar at `path`. A refused edit leaves the buffer as it is.
    pub fn set(&mut self, path: &[Segment<'_>], value: &str) -> (r: Result<SetOutcome<'static>, Error>)
        ensures
            match (r, edited(old(self).text(), path_view(path@), encode_utf8(value@), strict_opts())) {
                (Ok(outcome), Ok((text, want))) => final(self).text() == text && outcome@ == want,
                (Err(e), Err(want)) => e@ == want && final(self).text() == old(self).text(),
                _ => false,
            },
    {
        self.set_with(path, value, SetOpts::new())
    }

    /// [`set`](Document::set) with options. A refused edit leaves the buffer as it is.
    pub fn set_with(&mut self, path: &[Segment<'_>], value: &str, opts: SetOpts) -> (r: Result<
        SetOutcome<'static>,
        Error,
    >)
        ensures
            match (r, edited(old(self).text(), path_view(path@), encode_utf8(value@), opts@)) {
                (Ok(outcome), Ok((text, want))) => final(self).text() == text && outcome@ == want,
                (Err(e), Err(want)) => e@ == want && final(self).text() == old(self).text(),
                _ => false,
            },
    {
        let (out, outcome) = match set_with(self.src.as_str(), path, value, opts) {
            Ok((out, outcome)) => (out, outcome.into_owned()),
            Err(e) => {
                return Err(e);
            },
        };
        self.src = out;
        Ok(outcome)
    }

    /// Borrow a parsed view for several reads between edits.
    pub fn view(&self) -> (r: Result<DocumentView<'_>, Error>)
        ensures
            match (r, stream(past_bom(self.text()))) {
                (Ok(d), Ok(_)) => d.ready() && d.text() == self.text(),
                (Err(e), Err(f)) => e@ == report(past_bom(self.text()), f),
                _ => false,
            },
    {
        DocumentView::parse(self.src.as_str())
    }

    pub fn as_str(&self) -> (r: &str)
        ensures
            encode_utf8(r@) == self.text(),
    {
        self.src.as_str()
    }

    pub fn into_string(self) -> (r: String)
        ensures
            encode_utf8(r@) == self.text(),
    {
        self.src
    }

    /// Remove the mapping entry at `path`, both key and value.
    ///
    /// Whole lines are removed, so a multi-line value is removed with its key. A comment on the
    /// key's own line is not kept either. A comment above the key is kept. A refused removal
    /// leaves the buffer as it is.
    pub fn remove(&mut self, path: &[Segment<'_>]) -> (r: Result<(), Error>)
        ensures
            match (r, removed(old(self).text(), path_view(path@))) {
                (Ok(_), Ok(text)) => final(self).text() == text,
                (Err(e), Err(want)) => e@ == want && final(self).text() == old(self).text(),
                _ => false,
            },
    {
        let out = match remove_entry(self.src.as_str(), path) {
            Ok(out) => out,
            Err(e) => {
                return Err(e);
            },
        };
        self.src = out;
        Ok(())
    }
}

/// The source without the entry at `path`.
fn remove_entry(src: &str, path: &[Segment<'_>]) -> (r: Result<String, Error>)
    ensures
        match (r, removed(encode_utf8(src@), path_view(path@))) {
            (Ok(out), Ok(text)) => encode_utf8(out@) == text,
            (Err(e), Err(want)) => e@ == want,
            _ => false,
        },
{
    let ghost s = encode_utf8(src@);
    let b = src.as_bytes();
    let n: usize = b.len();
    let (sink, bom) = match spans(src) {
        Ok(x) => x,
        Err(e) => {
            return Err(e);
        },
    };
    let ghost st = (stream(past_bom(s))->Ok_0).1;
    proof {
        lemma_linked(sink@, past_bom(s), st.p);
    }
    let resolved = match resolve(&*sink, path, false) {
        Some(x) => x,
        None => {
            return Err(refused("no node at given path"));
        },
    };
    let ghost f = resolved.v();
    proof {
        lemma_in_tree(sink@, f, past_bom(s), st.p);
        lemma_text(src@);
        lemma_bd_ends(s);
    }
    if let NodeKind::MergeInherited = resolved.kind {
        return Err(refused("key is inherited through '<<', not present on the document"));
    }
    if resolved.truncated {
        return Err(refused("no node at given path"));
    }
    if resolved.anchor.is_some() || resolved.enclosing_anchor.is_some() {
        return Err(refused("removing an anchored value would break its aliases"));
    }
    let key_span = match resolved.key_span {
        Some(x) => x,
        None => {
            return Err(refused("only a mapping entry can be removed"));
        },
    };
    let key = shift_range(key_span, bom, Ghost(s), Ghost(st.p));
    let value = shift_range(resolved.span, bom, Ghost(s), Ghost(st.p));
    proof {
        lemma_bom(s);
        lemma_back_line(s, bom as int, key.start as int);
    }
    let line: usize = scan_back(b, bom, key.start, Class::Line);
    if scan(b, line, Class::Spaces) < key.start || lies_in_flow(&*sink, key_span) {
        return Err(refused("cannot remove an entry from a flow mapping"));
    }
    let e: usize = scan(b, value.end, Class::Line);
    let line_end: usize = if e < n && b[e] == CR && e + 1 < n && b[e + 1] == LF {
        e + 2
    } else if e < n {
        e + 1
    } else {
        e
    };
    proof {
        lemma_run(s, value.end as int, Class::Line);
        assert(line_end == next_line(s, value.end as int));
        next_line_bd(s, value.end as int);
    }
    let mut out = String::new();
    put_slice(&mut out, src, 0, line);
    put_slice(&mut out, src, line_end, n);
    proof {
        assert(encode_utf8(Seq::<char>::empty()) =~= Seq::<u8>::empty());
        assert(encode_utf8(out@) =~= without_lines(s, key.start as int, value.end as int));
    }
    Ok(out)
}

} // verus!
