//! The cursor: where it stands, what it sees, and how it moves.
use vstd::prelude::*;
use vstd::utf8::*;
use super::layout::{
    bounds, col_at, doc_bound, doc_marker, gap_at, indent_at, indicator_at, lemma_place, line_at, line_blank,
    line_comment, line_ends, marker_at, moves, next_line, past_break, past_filler, past_flow_gap, Fail,
};
use super::{one_based, report, Parser};
use crate::edit::sink::lemma_sound_on;
use crate::error::Error;
use crate::text::{at, run, scan, Class, CR, DASH, DOT, HASH, LF, SPACE, TAB};
use crate::value::lit;

verus! {

broadcast use {moves, bounds};

fn plus_one(n: usize) -> (r: usize)
    ensures
        r == one_based(n as int),
{
    if n < usize::MAX {
        n + 1
    } else {
        n
    }
}

/// Past white space, line breaks and comments from `start` on.
pub(crate) fn gap_end(b: &[u8], start: usize) -> (q: usize)
    requires
        start <= b@.len(),
    ensures
        q == past_flow_gap(b@, start as int),
        start <= q <= b@.len(),
{
    let mut q: usize = scan(b, start, Class::Gap);
    let ghost mut p: int = start as int;
    while q < b.len() && b[q] == HASH
        invariant
            start <= b@.len(),
            start <= p <= q <= b@.len(),
            q == run(b@, p, Class::Gap),
            past_flow_gap(b@, start as int) == past_flow_gap(b@, p),
        decreases b@.len() - q,
    {
        let e: usize = scan(b, q, Class::Line);
        proof {
            p = e as int;
        }
        q = scan(b, e, Class::Gap);
    }
    q
}

impl<'a> Parser<'a> {
    /// Construct an `Error` annotated with the cursor's current line/col.
    /// Use this for any parser-side error so users see useful positions.
    pub(crate) fn err(&self, msg: String) -> (r: Error)
        requires
            self.ready(),
        ensures
            r@ == report(self.source(), Fail { msg: encode_utf8(msg@), p: self.st().p }),
    {
        Error { msg, line: Some(plus_one(self.line0)), col: Some(plus_one(self.col0)) }
    }

    /// 1-based line of the cursor
    pub fn line(&self) -> (r: usize)
        requires
            self.ready(),
        ensures
            r == one_based(line_at(self.source(), self.st().p)),
    {
        plus_one(self.line0)
    }

    /// 1-based column of the cursor
    pub fn col(&self) -> (r: usize)
        requires
            self.ready(),
        ensures
            r == one_based(col_at(self.source(), self.st().p)),
    {
        plus_one(self.col0)
    }

    pub fn peek(&self) -> (r: Option<u8>)
        requires
            self.ready(),
        ensures
            r == at(self.source(), self.st().p),
    {
        self.peek_at(self.pos)
    }

    /// The text that is parsed.
    pub(crate) fn bytes(&self) -> (r: &'a [u8])
        ensures
            r@ == self.source(),
    {
        self.src.as_bytes()
    }

    pub(crate) fn peek_at(&self, pos: usize) -> (r: Option<u8>)
        ensures
            r == at(self.source(), pos as int),
            self.source().len() <= usize::MAX,
    {
        let b = self.src.as_bytes();
        if pos < b.len() {
            Some(b[pos])
        } else {
            None
        }
    }

    /// Moves the cursor on to `to`.
    pub(crate) fn jump(&mut self, to: usize)
        requires
            old(self).ready(),
            old(self).st().p <= to <= old(self).source().len(),
        ensures
            final(self).ready(),
            final(self).source() == old(self).source(),
            final(self).records() == old(self).records(),
            final(self).st() == old(self).st().to(to as int),
    {
        let ghost s = self.source();
        let b = self.src.as_bytes();
        let mut p: usize = self.pos;
        let mut line: usize = self.line0;
        let mut col: usize = self.col0;
        while p < to
            invariant
                b@ == s,
                p <= to <= s.len(),
                line == line_at(s, p as int),
                col == col_at(s, p as int),
            decreases to - p,
        {
            proof {
                lemma_place(s, p as int);
            }
            if b[p] == LF || b[p] == CR {
                if !(b[p] == CR && p + 1 < b.len() && b[p + 1] == LF) {
                    line = line + 1;
                }
                col = 0;
            } else {
                col = col + 1;
            }
            p = p + 1;
        }
        proof {
            lemma_sound_on(self.tree@, s, self.pos as int, to as int);
        }
        self.pos = to;
        self.line0 = line;
        self.col0 = col;
    }

    /// Moves the cursor on by one byte, if there is one.
    pub fn advance(&mut self)
        requires
            old(self).ready(),
        ensures
            final(self).ready(),
            final(self).source() == old(self).source(),
            final(self).records() == old(self).records(),
            final(self).st() == old(self).st().to(
                if old(self).st().p < old(self).source().len() {
                    old(self).st().p + 1
                } else {
                    old(self).st().p
                },
            ),
    {
        if self.pos < self.src.as_bytes().len() {
            self.jump(self.pos + 1);
        }
    }

    pub fn at_eof(&self) -> (r: bool)
        requires
            self.ready(),
        ensures
            r == (self.st().p >= self.source().len()),
    {
        self.peek().is_none()
    }

    pub fn skip_spaces(&mut self)
        requires
            old(self).settled(),
        ensures
            final(self).settled(),
            final(self).source() == old(self).source(),
            final(self).records() == old(self).records(),
            final(self).st() == old(self).st().to(run(old(self).source(), old(self).st().p, Class::Blank)),
    {
        let q: usize = scan(self.src.as_bytes(), self.pos, Class::Blank);
        self.jump(q);
    }

    pub fn at_line_end(&self) -> (r: bool)
        requires
            self.ready(),
        ensures
            r == line_ends(self.source(), self.st().p),
    {
        match self.peek() {
            None => true,
            Some(b) => b == LF || b == CR,
        }
    }

    /// The position after one line break at `p`.
    pub(crate) fn break_from(&self, p: usize) -> (q: usize)
        requires
            p <= self.source().len(),
        ensures
            q == past_break(self.source(), p as int),
            p <= q <= self.source().len(),
    {
        match self.peek_at(p) {
            Some(b) => if b == CR {
                if self.peek_at(p + 1) == Some(LF) {
                    p + 2
                } else {
                    p + 1
                }
            } else if b == LF {
                p + 1
            } else {
                p
            },
            None => p,
        }
    }

    /// The start of the line after `p`.
    pub(crate) fn next_line_from(&self, p: usize) -> (q: usize)
        requires
            p <= self.source().len(),
        ensures
            q == next_line(self.source(), p as int),
            p <= q <= self.source().len(),
    {
        let q: usize = scan(self.src.as_bytes(), p, Class::Line);
        self.break_from(q)
    }

    /// Whether nothing but blanks follows `p` on its line.
    pub(crate) fn blank_from(&self, p: usize) -> (r: bool)
        requires
            p <= self.source().len(),
        ensures
            r == line_blank(self.source(), p as int),
    {
        let q: usize = scan(self.src.as_bytes(), p, Class::Blank);
        match self.peek_at(q) {
            None => true,
            Some(b) => b == LF || b == CR,
        }
    }

    /// Whether a comment is all that follows `p` on its line.
    pub(crate) fn comment_from(&self, p: usize) -> (r: bool)
        requires
            p <= self.source().len(),
        ensures
            r == line_comment(self.source(), p as int),
    {
        let q: usize = scan(self.src.as_bytes(), p, Class::Blank);
        self.peek_at(q) == Some(HASH)
    }

    pub fn current_line_is_blank(&self) -> (r: bool)
        requires
            self.ready(),
        ensures
            r == line_blank(self.source(), self.st().p),
    {
        self.blank_from(self.pos)
    }

    pub fn current_line_is_comment(&self) -> (r: bool)
        requires
            self.ready(),
        ensures
            r == line_comment(self.source(), self.st().p),
    {
        self.comment_from(self.pos)
    }

    pub fn skip_blank_and_comment_lines(&mut self)
        requires
            old(self).settled(),
        ensures
            final(self).settled(),
            final(self).source() == old(self).source(),
            final(self).records() == old(self).records(),
            final(self).st() == old(self).st().to(past_filler(old(self).source(), old(self).st().p)),
    {
        let n: usize = self.src.as_bytes().len();
        let mut q: usize = self.pos;
        while q < n && (self.blank_from(q) || self.comment_from(q))
            invariant
                n == self.source().len(),
                self.pos <= q <= n,
                past_filler(self.source(), self.pos as int) == past_filler(self.source(), q as int),
            decreases n - q,
        {
            q = self.next_line_from(q);
        }
        self.jump(q);
    }

    pub(crate) fn skip_to_next_line(&mut self)
        requires
            old(self).settled(),
        ensures
            final(self).settled(),
            final(self).source() == old(self).source(),
            final(self).records() == old(self).records(),
            final(self).st() == old(self).st().to(next_line(old(self).source(), old(self).st().p)),
    {
        let q: usize = self.next_line_from(self.pos);
        self.jump(q);
    }

    /// Passes one line break, if the cursor stands at one.
    pub(crate) fn consume_newline(&mut self)
        requires
            old(self).settled(),
        ensures
            final(self).settled(),
            final(self).source() == old(self).source(),
            final(self).records() == old(self).records(),
            final(self).st() == old(self).st().to(past_break(old(self).source(), old(self).st().p)),
    {
        let q: usize = self.break_from(self.pos);
        self.jump(q);
    }

    /// The indentation of the line that the cursor stands at the start of.
    pub fn current_indent(&self) -> (r: Result<usize, Error>)
        requires
            self.ready(),
        ensures
            match (r, indent_at(self.source(), self.st().p)) {
                (Ok(n), Some(m)) => n == m && self.st().p + n <= self.source().len(),
                (Err(e), None) => e@ == report(
                    self.source(),
                    Fail { msg: lit("parsing failed: illegal indent whitespace using \\t"), p: self.st().p },
                ),
                _ => false,
            },
    {
        let q: usize = scan(self.src.as_bytes(), self.pos, Class::Spaces);
        if self.peek_at(q) == Some(TAB) {
            Err(self.err("parsing failed: illegal indent whitespace using \\t".to_owned()))
        } else {
            Ok(q - self.pos)
        }
    }

    /// Whether white space or the end stands at `p`.
    pub(crate) fn gap_from(&self, p: usize) -> (r: bool)
        ensures
            r == gap_at(self.source(), p as int),
    {
        match self.peek_at(p) {
            None => true,
            Some(b) => b == SPACE || b == TAB || b == LF || b == CR,
        }
    }

    /// Whether the block indicator `ind` stands at `pos`.
    pub(crate) fn is_block_indicator_at(&self, pos: usize, ind: u8) -> (r: bool)
        ensures
            r == indicator_at(self.source(), pos as int, ind),
    {
        self.peek_at(pos) == Some(ind) && self.gap_from(pos + 1)
    }

    /// Whether three of `c` stand at `p`, followed by white space or the end.
    pub(crate) fn is_doc_marker_at(&self, p: usize, c: u8) -> (r: bool)
        ensures
            r == marker_at(self.source(), p as int, c),
    {
        self.peek_at(p) == Some(c) && self.peek_at(p + 1) == Some(c) && self.peek_at(p + 2) == Some(c)
            && self.gap_from(p + 3)
    }

    /// True when cursor is at column 1 and starts with three of `c` followed
    /// by whitespace, newline, or EOF — the rule for `---` and `...`
    pub(crate) fn at_doc_marker(&self, c: u8) -> (r: bool)
        requires
            self.ready(),
        ensures
            r == doc_marker(self.source(), self.st().p, c),
    {
        self.col0 == 0 && self.is_doc_marker_at(self.pos, c)
    }

    /// Whether a document starts or ends at the cursor.
    pub(crate) fn at_doc_bound(&self) -> (r: bool)
        requires
            self.ready(),
        ensures
            r == doc_bound(self.source(), self.st().p),
    {
        self.at_doc_marker(DASH) || self.at_doc_marker(DOT)
    }

    pub(crate) fn skip_flow_whitespace(&mut self)
        requires
            old(self).settled(),
        ensures
            final(self).settled(),
            final(self).source() == old(self).source(),
            final(self).records() == old(self).records(),
            final(self).st() == old(self).st().to(past_flow_gap(old(self).source(), old(self).st().p)),
    {
        let q: usize = gap_end(self.src.as_bytes(), self.pos);
        self.jump(q);
    }
}

} // verus!
