pub mod block_map;
pub mod block_scalar;
pub mod block_seq;
pub mod cursor;
pub mod escape;
pub mod flow;
pub mod grammar;
pub mod layout;
pub mod notes;
pub mod props;
pub mod scalar;
pub mod tokens;

use vstd::prelude::*;
use vstd::string::*;
use vstd::utf8::*;
use crate::edit::sink::{grew, lemma_blank, lemma_grew_from, sound, SpanSink, Tree};
use crate::error::{Error, ErrorView};
use std::borrow::Cow;
use crate::text::{
    decimal, is_text, bd, lemma_bd_ascii, lemma_bd_ends, put, put_decimal, slice, DASH, DOT, PERCENT, GREATER,
    LBRACE, LBRACKET, PIPE, STAR,
};
use crate::value::{resolve_merge_keys, vals, BorrowedValue, Val};
use grammar::{
    at_start, block_seq, content, documents, node, next_document, node_here, only_document, past_directives, St,
    flow_or_map, scalar_or_map,
};
use layout::{bounds, col_at, line_at, moves, past_marker, Fail};

verus! {

broadcast use {moves, bounds};

/// YAML parser cursor over a borrowed source string.
///
/// Reach for `Parser` when you need:
///
/// - **Multi-document streams** — [`Parser::parse_all`] returns
///   `Vec<BorrowedValue>` for inputs containing `---`-separated documents.
/// - **Manual inspection** — call [`Parser::parse`] and walk the
///   [`BorrowedValue`] tree yourself.
/// - **Zero-copy borrows** — keep the resulting `BorrowedValue` alive, its text
///   consists of slices of the input wherever it can.
pub struct Parser<'a> {
    pub(crate) src: &'a str,
    pub(crate) pos: usize,
    /// lines before the cursor
    pub(crate) line0: usize,
    /// bytes before the cursor on its line
    pub(crate) col0: usize,
    /// anchors in the order of their definition; the last of a name counts
    pub(crate) anchors: Vec<(&'a str, BorrowedValue<'a>)>,
    /// where spans are recorded, if they are
    pub(crate) sink: Option<Box<SpanSink<'a>>>,
    pub(crate) tree: Ghost<Tree>,
}

/// The contents of a list of anchors.
pub open spec fn anchors_of(v: Seq<(&str, BorrowedValue<'_>)>) -> Seq<(Seq<u8>, Val)> {
    Seq::new(v.len(), |i: int| (encode_utf8(v[i].0@), v[i].1.val()))
}

impl<'a> Parser<'a> {
    /// The text that is parsed.
    pub closed spec fn source(self) -> Seq<u8> {
        encode_utf8(self.src@)
    }

    /// Where the parser stands, and what it has read.
    pub closed spec fn st(self) -> St {
        St { p: self.pos as int, a: anchors_of(self.anchors@), t: self.tree@ }
    }

    /// Whether spans are recorded.
    pub closed spec fn records(self) -> bool {
        self.sink is Some
    }

    /// The line and column are those of the position, and the recorded spans are
    /// those of what was read.
    pub closed spec fn ready(self) -> bool {
        &&& self.pos <= self.source().len()
        &&& self.line0 == line_at(self.source(), self.pos as int)
        &&& self.col0 == col_at(self.source(), self.pos as int)
        &&& sound(self.tree@, self.source(), self.pos as int)
        &&& self.sink is Some ==> self.sink->0@ == self.tree@
    }

    /// Ready, and between two characters.
    pub open spec fn settled(self) -> bool {
        self.ready() && is_text(self.source()) && self.source().len() <= usize::MAX && bd(self.source(), self.st().p)
    }
}

/// The same text, with the cursor not moved back.
pub open spec fn went(old: Parser<'_>, new: Parser<'_>) -> bool {
    &&& new.settled()
    &&& new.source() == old.source()
    &&& new.records() == old.records()
    &&& old.st().p <= new.st().p <= old.source().len()
}

/// Counts from one, as far as numbers go.
pub open spec fn one_based(n: int) -> int {
    if n < usize::MAX {
        n + 1
    } else {
        n
    }
}

/// How a refusal is reported: its message, line and column.
pub open spec fn report(s: Seq<u8>, f: Fail) -> ErrorView {
    ErrorView {
        msg: f.msg,
        line: Some(one_based(line_at(s, f.p))),
        col: Some(one_based(col_at(s, f.p))),
    }
}

/// Whether `r` and the parser after it are what the grammar says.
pub open spec fn gave(r: Result<BorrowedValue<'_>, Error>, after: Parser<'_>, want: Result<(Val, St), Fail>) -> bool {
    match (r, want) {
        (Ok(v), Ok((w, st))) => v.val() == w && after.st() == st,
        (Err(e), Err(f)) => e@ == report(after.source(), f) && after.st().p == f.p,
        _ => false,
    }
}

impl<'a> Parser<'a> {
    /// Parse a single YAML node (scalar, seq, map, tagged, or empty)
    ///
    /// Input:
    /// ```yaml
    /// !mytag
    /// - a
    /// - b
    /// ```
    ///
    /// Output: `BorrowedValue::Tagged("!mytag", BorrowedValue::Sequence([String("a"), String("b")]))`
    ///
    /// `min_indent` is the minimum indent the node must have to belong to the
    /// caller; content at lesser indent yields `BorrowedValue::Null`. Accepts cursor
    /// at line-start (skips blanks + checks indent) or mid-line (uses
    /// `col - 1` as effective indent).
    pub fn parse_node(&mut self, min_indent: usize) -> (r: Result<BorrowedValue<'a>, Error>)
        requires
            old(self).settled(),
        ensures
            went(*old(self), *final(self)),
            gave(r, *final(self), node(old(self).source(), old(self).st(), min_indent as int)),
            r is Ok ==> grew(old(self).st().t, final(self).st().t, old(self).st().p),
        decreases old(self).source().len() - old(self).st().p, 8int,
    {
        proof {
            reveal(node);
            reveal(node_here);
        }
        let ghost st0 = self.st();
        let at: usize = self.pos;
        // Catch doc markers at cursor (covers entries from parse_all where
        // consume_doc_marker has just advanced past the line break)
        if self.at_doc_bound() {
            self.note_empty(at);
            return Ok(BorrowedValue::Null);
        }
        if !self.at_line_end() && self.col0 > 0 {
            proof {
                layout::lemma_place(self.source(), st0.p);
            }
            let col: usize = self.col0;
            return self.parse_node_here(col, min_indent);
        }
        self.skip_blank_and_comment_lines();
        // Document boundary terminates a node — parse_all handles the marker
        if self.at_eof() || self.at_doc_bound() {
            self.note_empty(at);
            return Ok(BorrowedValue::Null);
        }
        let indent: usize = match self.current_indent() {
            Ok(n) => n,
            Err(e) => {
                return Err(e);
            },
        };
        if indent < min_indent {
            self.note_empty(at);
            return Ok(BorrowedValue::Null);
        }
        self.jump(self.pos + indent);
        let ghost st1 = self.st();
        let r = self.parse_node_here(indent, min_indent);
        proof {
            if r is Ok {
                lemma_grew_from(st0.t, self.st().t, st1.p, st0.p);
            }
        }
        r
    }

    /// A node that begins at the cursor, with its tag and anchor.
    fn parse_node_here(&mut self, indent: usize, min_indent: usize) -> (r: Result<BorrowedValue<'a>, Error>)
        requires
            old(self).settled(),
            indent <= old(self).st().p,
        ensures
            went(*old(self), *final(self)),
            gave(
                r,
                *final(self),
                node_here(old(self).source(), old(self).st(), indent as int, min_indent as int),
            ),
            r is Ok ==> grew(old(self).st().t, final(self).st().t, old(self).st().p),
        decreases old(self).source().len() - old(self).st().p, 7int,
    {
        proof {
            reveal(node_here);
            reveal(node);
            reveal(content);
        }
        let ghost st0 = self.st();
        let x = match self.read_props(false) {
            Ok(x) => x,
            Err(e) => {
                return Err(e);
            },
        };
        let ghost st1 = self.st();
        let inner = if (x.tag.is_some() || x.anchor.is_some()) && self.at_line_end() {
            self.parse_node(min_indent)
        } else {
            self.dispatch(indent, min_indent)
        };
        match inner {
            Ok(v) => {
                proof {
                    lemma_grew_from(st0.t, self.st().t, st1.p, st0.p);
                }
                Ok(self.finish_node(x, v, Ghost(st0.t), Ghost(st0.p)))
            },
            Err(e) => Err(e),
        }
    }

    /// Route the cursor to the right node parser based on the next byte
    pub(crate) fn dispatch(&mut self, indent: usize, min_indent: usize) -> (r: Result<BorrowedValue<'a>, Error>)
        requires
            old(self).settled(),
            indent <= old(self).st().p,
        ensures
            went(*old(self), *final(self)),
            gave(
                r,
                *final(self),
                content(old(self).source(), old(self).st(), indent as int, min_indent as int),
            ),
            r is Ok ==> grew(old(self).st().t, final(self).st().t, old(self).st().p),
        decreases old(self).source().len() - old(self).st().p, 6int,
    {
        proof {
            reveal(content);
            reveal(flow_or_map);
            reveal(block_seq);
            reveal(scalar_or_map);
        }
        let ghost st0 = self.st();
        match self.peek() {
            None => {
                self.note_empty(self.pos);
                Ok(BorrowedValue::Null)
            },
            Some(b) => if b == LBRACKET || b == LBRACE {
                self.flow_node_or_map(indent)
            } else if b == PIPE || b == GREATER {
                self.note_open(false);
                match self.parse_block_scalar(min_indent) {
                    Ok(t) => {
                        self.note_close(Ghost(st0.t), Ghost(st0.p));
                        Ok(BorrowedValue::String(Cow::Owned(t)))
                    },
                    Err(e) => Err(e),
                }
            } else if b == STAR {
                self.parse_alias()
            } else if self.at_seq_dash() {
                self.parse_block_seq(indent)
            } else {
                self.parse_scalar_or_map(indent, min_indent)
            },
        }
    }
}

/// How many bytes the byte order mark at the start of `s` takes.
pub open spec fn bom_len(s: Seq<u8>) -> int {
    if s.len() >= 3 && s[0] == 0xef && s[1] == 0xbb && s[2] == 0xbf {
        3
    } else {
        0
    }
}

/// The text after the byte order mark, if one is there.
pub open spec fn past_bom(s: Seq<u8>) -> Seq<u8> {
    s.subrange(bom_len(s), s.len() as int)
}

/// The byte order mark ends on a boundary.
pub proof fn lemma_bom(s: Seq<u8>)
    requires
        is_text(s),
    ensures
        bd(s, bom_len(s)),
{
    crate::text::lemma_bd_ends(s);
    if bom_len(s) == 3 {
        lemma_mark_bd(s);
    }
}

proof fn lemma_mark_bd(s: Seq<u8>)
    requires
        is_text(s),
        bom_len(s) == 3,
    ensures
        bd(s, 3),
{
    reveal(is_text);
    reveal(crate::text::on_char);
    reveal_with_fuel(is_char_boundary, 3);
    reveal_with_fuel(valid_utf8, 2);
    assert(0xefu8 & 0xf0u8 == 0xe0u8) by (bit_vector);
    assert(length_of_first_scalar(s) == 3);
}

/// What follows the byte order mark is text.
pub proof fn lemma_past_bom_text(s: Seq<u8>)
    requires
        is_text(s),
    ensures
        is_text(past_bom(s)),
{
    if bom_len(s) == 3 {
        lemma_bom(s);
        reveal(is_text);
        reveal(crate::text::on_char);
        valid_utf8_split(s, 3);
    } else {
        assert(past_bom(s) =~= s);
    }
}

/// A boundary of the text is one of the text with its byte order mark.
pub proof fn lemma_past_bom(s: Seq<u8>, x: int)
    requires
        is_text(s),
        is_text(past_bom(s)),
        bd(past_bom(s), x),
    ensures
        bd(s, x + bom_len(s)),
{
    let n = bom_len(s);
    let t = past_bom(s);
    reveal(is_text);
    reveal(crate::text::on_char);
    if x == t.len() {
        lemma_bd_ends(s);
    } else {
        assert(t[x] == s[x + n]);
        is_char_boundary_iff_not_is_continuation_byte(s, x + n);
        is_char_boundary_iff_not_is_continuation_byte(t, x);
    }
}

/// The length of the byte order mark at the start of `src`.
pub(crate) fn bom_of(src: &str) -> (r: usize)
    ensures
        r == bom_len(encode_utf8(src@)),
        bd(encode_utf8(src@), r as int),
{
    let b = src.as_bytes();
    proof {
        crate::text::lemma_text(src@);
        lemma_bd_ends(encode_utf8(src@));
    }
    if b.len() >= 3 && b[0] == 0xef && b[1] == 0xbb && b[2] == 0xbf {
        proof {
            lemma_bom(encode_utf8(src@));
        }
        3
    } else {
        0
    }
}

impl<'a> Parser<'a> {
    /// A parser at the start of `src`.
    ///
    /// A leading UTF-8 byte order mark is not part of the text.
    pub fn new(src: &'a str) -> (r: Self)
        ensures
            r.settled(),
            !r.records(),
            r.source() == past_bom(encode_utf8(src@)),
            r.st() == at_start(),
    {
        let n: usize = bom_of(src);
        let len: usize = src.as_bytes().len();
        proof {
            crate::text::lemma_text(src@);
            lemma_bd_ends(encode_utf8(src@));
        }
        let src = slice(src, n, len);
        proof {
            crate::text::lemma_text(src@);
            lemma_bd_ends(encode_utf8(src@));
            lemma_blank(encode_utf8(src@));
        }
        let _n: usize = src.as_bytes().len();
        let anchors: Vec<(&'a str, BorrowedValue<'a>)> = Vec::new();
        assert(anchors_of(anchors@) =~= Seq::empty());
        Parser { src, pos: 0, line0: 0, col0: 0, anchors, sink: None, tree: Ghost(Tree::blank()) }
    }

    /// A parser at the start of `src` that records spans.
    pub fn with_spans(src: &'a str) -> (r: Self)
        ensures
            r.settled(),
            r.records(),
            r.source() == past_bom(encode_utf8(src@)),
            r.st() == at_start(),
    {
        let p = Parser::new(src);
        Parser { sink: Some(Box::new(SpanSink::new())), ..p }
    }

    /// The recorded spans.
    pub(crate) fn take_sink(self) -> (r: Box<SpanSink<'a>>)
        requires
            self.ready(),
            self.records(),
        ensures
            r@ == self.st().t,
            sound(r@, self.source(), self.st().p),
    {
        match self.sink {
            Some(k) => k,
            None => Box::new(SpanSink::new()),
        }
    }

    /// Consume `%YAML`/`%TAG` directive lines (and any in-between blanks)
    fn skip_directives(&mut self)
        requires
            old(self).settled(),
        ensures
            went(*old(self), *final(self)),
            final(self).st() == old(self).st().to(past_directives(old(self).source(), old(self).st().p)),
    {
        while self.peek() == Some(PERCENT)
            invariant
                went(*old(self), *self),
                self.st() == old(self).st().to(self.st().p),
                past_directives(old(self).source(), old(self).st().p) == past_directives(
                    old(self).source(),
                    self.st().p,
                ),
            decreases self.source().len() - self.st().p,
        {
            self.skip_to_next_line();
            self.skip_blank_and_comment_lines();
        }
    }

    /// Consume a doc marker (`---` or `...`) plus its trailing line break
    fn consume_doc_marker(&mut self)
        requires
            old(self).settled(),
            old(self).st().p + 3 <= old(self).source().len(),
            bd(old(self).source(), old(self).st().p + 3),
        ensures
            went(*old(self), *final(self)),
            final(self).st() == old(self).st().to(past_marker(old(self).source(), old(self).st().p)),
            old(self).st().p < final(self).st().p,
    {
        self.jump(self.pos + 3);
        self.skip_spaces();
        self.consume_newline();
    }

    /// The next document of the stream, if there is one, and whether an end
    /// marker followed it.
    fn parse_document(&mut self, allow_bare: bool) -> (r: Result<Option<(BorrowedValue<'a>, bool)>, Error>)
        requires
            old(self).settled(),
        ensures
            went(*old(self), *final(self)),
            match (r, next_document(old(self).source(), old(self).st(), allow_bare)) {
                (Ok(Some((v, ended))), Ok((Some((w, want)), st))) => {
                    &&& v.val() == w && ended == want && final(self).st() == st
                    &&& old(self).st().p < st.p || (allow_bare && !ended)
                    &&& old(self).st().t.stack.len() == 0 ==> st.t.stack.len() == 0 && st.t.roots.len() == old(
                        self,
                    ).st().t.roots.len() + 1
                },
                (Ok(None), Ok((None, st))) => final(self).st() == st && st.t == old(self).st().t,
                (Err(e), Err(f)) => e@ == report(old(self).source(), f) && final(self).st().p == f.p,
                _ => false,
            },
    {
        let ghost s = self.source();
        proof {
            reveal(next_document);
        }
        self.skip_blank_and_comment_lines();
        self.skip_directives();
        if self.at_eof() {
            return Ok(None);
        }
        if self.at_doc_marker(DASH) {
            proof {
                lemma_bd_ascii(s, self.st().p + 2);
            }
            self.consume_doc_marker();
        } else if !allow_bare {
            match self.current_indent() {
                Ok(indent) => {
                    // point at content, not col 1
                    self.jump(self.pos + indent);
                    return Err(
                        self.err("unexpected content; expected '---' to start a new document".to_owned()),
                    );
                },
                Err(e) => {
                    return Err(e);
                },
            }
        }
        // Mandatory reset of anchor scope at document boundaries
        self.anchors = Vec::new();
        assert(anchors_of(self.anchors@) =~= Seq::empty());
        let value = match self.parse_node(0) {
            Ok(v) => v,
            Err(e) => {
                return Err(e);
            },
        };
        proof {
            reveal(grew);
        }
        let doc = resolve_merge_keys(&value);
        self.skip_blank_and_comment_lines();
        let ended = self.at_doc_marker(DOT);
        if ended {
            proof {
                lemma_bd_ascii(s, self.st().p + 2);
            }
            self.consume_doc_marker();
        }
        Ok(Some((doc, ended)))
    }

    /// Parse all documents in the YAML stream
    ///
    /// Input:
    /// ```yaml
    /// ---
    /// kind: Pod
    /// ---
    /// kind: Service
    /// ```
    ///
    /// Output: `vec![Mapping[kind: Pod], Mapping[kind: Service]]`
    ///
    /// Handles `---` start markers, `...` end markers, and `%`-prefix
    /// directives. Anchors are reset between documents.
    ///
    /// Every span that was opened is closed again, and each document leaves one
    /// root.
    pub fn parse_all(&mut self) -> (r: Result<Vec<BorrowedValue<'a>>, Error>)
        requires
            old(self).settled(),
        ensures
            went(*old(self), *final(self)),
            match (r, documents(old(self).source(), old(self).st(), Seq::empty(), true)) {
                (Ok(v), Ok((w, st))) => vals(v@) == w && final(self).st() == st,
                (Err(e), Err(f)) => e@ == report(old(self).source(), f) && final(self).st().p == f.p,
                _ => false,
            },
            r is Ok && old(self).st().t.stack.len() == 0 ==> {
                &&& final(self).st().t.stack.len() == 0
                &&& final(self).st().t.roots.len() == old(self).st().t.roots.len() + r->Ok_0@.len()
            },
            r is Ok ==> sound(final(self).st().t, final(self).source(), final(self).st().p),
    {
        let ghost s = self.source();
        let ghost goal = documents(s, self.st(), Seq::empty(), true);
        let mut docs: Vec<BorrowedValue<'a>> = Vec::new();
        let mut allow_bare = true;
        assert(vals(docs@) =~= Seq::<Val>::empty());
        loop
            invariant
                went(*old(self), *self),
                s == old(self).source(),
                goal == documents(old(self).source(), old(self).st(), Seq::empty(), true),
                goal == documents(s, self.st(), vals(docs@), allow_bare),
                old(self).st().t.stack.len() == 0 ==> {
                    &&& self.st().t.stack.len() == 0
                    &&& self.st().t.roots.len() == old(self).st().t.roots.len() + docs@.len()
                },
            decreases s.len() - self.st().p, (if allow_bare {
                1int
            } else {
                0
            }),
        {
            match self.parse_document(allow_bare) {
                Err(e) => {
                    return Err(e);
                },
                Ok(None) => {
                    return Ok(docs);
                },
                Ok(Some((doc, ended))) => {
                    let ghost before = docs@;
                    docs.push(doc);
                    assert(vals(docs@) =~= vals(before).push(doc.val()));
                    allow_bare = ended;
                },
            }
        }
    }

    /// Parse a single-document YAML stream
    ///
    /// Input: `"a: 1\nb: 2\n"` → Output: `BorrowedValue::Mapping([("a", 1), ("b", 2)])`
    ///
    /// Errors if the stream contains more than one document. Returns
    /// `BorrowedValue::Null` on empty input.
    pub fn parse(&mut self) -> (r: Result<BorrowedValue<'a>, Error>)
        requires
            old(self).settled(),
        ensures
            went(*old(self), *final(self)),
            match documents(old(self).source(), old(self).st(), Seq::empty(), true) {
                Err(f) => r is Err && r->Err_0@ == report(old(self).source(), f),
                Ok((vs, st)) => match (r, only_document(vs, st.p)) {
                    (Ok(v), Ok(w)) => v.val() == w,
                    (Err(e), Err(f)) => e@ == report(old(self).source(), f),
                    _ => false,
                },
            },
    {
        let mut docs = match self.parse_all() {
            Ok(d) => d,
            Err(e) => {
                return Err(e);
            },
        };
        let n: usize = docs.len();
        if n == 0 {
            return Ok(BorrowedValue::Null);
        }
        if n == 1 {
            assert(vals(docs@)[0] == docs@[0].val());
            if let Some(v) = docs.pop() {
                return Ok(v);
            }
        }
        let mut msg = String::new();
        put(&mut msg, "expected single document, got ");
        put_decimal(&mut msg, n as u64);
        proof {
            assert(encode_utf8(Seq::<char>::empty()) =~= Seq::<u8>::empty());
            assert(encode_utf8(msg@) =~= crate::value::lit("expected single document, got ") + decimal(n as nat));
        }
        Err(self.err(msg))
    }
}

} // verus!
