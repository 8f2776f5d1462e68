//! Plain and quoted scalars.
use vstd::prelude::*;
use vstd::string::*;
use vstd::utf8::*;
use std::borrow::Cow;
use super::escape::Refusal;
use super::layout::{bounds, lemma_bol, moves, next_line, past_break, Fail};
use super::tokens::{
    blank_lines, breaks, fold_from, lemma_blank_lines_bd, lemma_plain, line_fold, past_blank_lines, past_blanks,
    plain_end, plain_folded, plain_glue, plain_rest, plain_stop, plain_text, quote, quoted, quoted_class,
    quoted_rest, token,
};
use super::{report, went, Parser};
use crate::error::Error;
use crate::patterns::{resolve_scalar, resolved};
use crate::text::{
    at, bd, is_blank, is_break, lemma_bd_ascii, put, put_byte, put_slice, run, scan, scan_back, slice, Class,
    BACKSLASH, COLON, COMMA, CR, DQUOTE, HASH, LBRACE, LBRACKET, LF, RBRACE, RBRACKET, SPACE, SQUOTE, TAB,
};
use crate::value::{cow_str, BorrowedValue, Val};

verus! {

broadcast use {moves, bounds};

/// Appends `n` line feeds.
pub(crate) fn put_breaks(out: &mut String, n: usize)
    ensures
        encode_utf8(final(out)@) == encode_utf8(old(out)@) + breaks(n as int),
{
    let mut i: usize = 0;
    assert(encode_utf8(out@) =~= encode_utf8(old(out)@) + breaks(0));
    while i < n
        invariant
            i <= n,
            encode_utf8(out@) == encode_utf8(old(out)@) + breaks(i as int),
        decreases n - i,
    {
        let ghost before = encode_utf8(out@);
        put_byte(out, LF);
        assert(before.push(LF) =~= encode_utf8(old(out)@) + breaks(i + 1));
        i = i + 1;
    }
}

/// A scalar as it is written.
pub enum ScalarToken<'a> {
    Plain(Cow<'a, str>),
    Quoted(Cow<'a, str>),
}

impl<'a> ScalarToken<'a> {
    pub open spec fn quoted(self) -> bool {
        self is Quoted
    }

    pub open spec fn text(self) -> Seq<u8> {
        match self {
            ScalarToken::Plain(c) => encode_utf8(c@),
            ScalarToken::Quoted(c) => encode_utf8(c@),
        }
    }

    pub(crate) fn as_text(&self) -> (r: &str)
        ensures
            encode_utf8(r@) == self.text(),
    {
        match self {
            ScalarToken::Plain(c) => cow_str(c),
            ScalarToken::Quoted(c) => cow_str(c),
        }
    }

    /// The value that the token stands for on its own.
    pub open spec fn meaning(self) -> Val {
        match self {
            ScalarToken::Plain(c) => resolved(encode_utf8(c@)),
            ScalarToken::Quoted(c) => Val::Str(encode_utf8(c@)),
        }
    }

    pub fn into_value(self) -> (r: BorrowedValue<'a>)
        ensures
            r.val() == self.meaning(),
    {
        match self {
            ScalarToken::Plain(s) => resolve_scalar(s),
            ScalarToken::Quoted(s) => BorrowedValue::String(s),
        }
    }

    /// The token's text.
    pub(crate) fn text_copy(&self) -> (r: Cow<'a, str>)
        ensures
            encode_utf8(r@) == self.text(),
    {
        match self {
            ScalarToken::Plain(s) => crate::value::cow_dup(s),
            ScalarToken::Quoted(s) => crate::value::cow_dup(s),
        }
    }
}

impl<'a> Parser<'a> {
    /// The error for a refusal ahead of the cursor, which moves there.
    pub(crate) fn refuse(&mut self, x: Refusal) -> (e: Error)
        requires
            old(self).settled(),
            old(self).st().p <= x.p <= old(self).source().len(),
            bd(old(self).source(), x.p as int),
        ensures
            went(*old(self), *final(self)),
            final(self).st() == old(self).st().to(x.p as int),
            e@ == report(old(self).source(), x.v()),
    {
        self.jump(x.p);
        self.err(x.msg.to_owned())
    }

    /// Where a plain scalar that begins at `p` stops.
    fn plain_stop_from(&self, p: usize, flow: bool) -> (q: usize)
        requires
            p <= self.source().len(),
        ensures
            q == plain_stop(self.source(), p as int, flow),
            p <= q <= self.source().len(),
    {
        let b = self.src.as_bytes();
        let mut q: usize = p;
        if p < b.len() && b[p] == HASH {
            return p;
        }
        while q < b.len()
            invariant
                b@ == self.source(),
                p <= q <= b@.len(),
                plain_rest(b@, p as int, flow) == plain_rest(b@, q as int, flow),
                at(b@, p as int) != Some(HASH),
            decreases b@.len() - q,
        {
            let c = b[q];
            if c == LF || c == CR || (c == COLON && (flow || self.gap_from(q + 1))) || (flow && (c == COMMA || c
                == LBRACKET || c == RBRACKET || c == LBRACE || c == RBRACE)) || ((c == SPACE || c == TAB)
                && self.peek_at(q + 1) == Some(HASH)) {
                return q;
            }
            q = q + 1;
        }
        q
    }

    /// The plain scalar that begins at the cursor, and where its text ends.
    ///
    /// In flow context it stops at flow marks and at every colon.
    pub(crate) fn parse_plain_scalar(&mut self, flow: bool) -> (r: (&'a str, usize))
        requires
            old(self).settled(),
        ensures
            went(*old(self), *final(self)),
            final(self).st() == old(self).st().to(plain_stop(old(self).source(), old(self).st().p, flow)),
            encode_utf8(r.0@) == plain_text(old(self).source(), old(self).st().p, flow),
            r.1 == plain_end(old(self).source(), old(self).st().p, flow),
    {
        proof {
            lemma_plain(self.source(), self.st().p, flow);
        }
        let p: usize = self.pos;
        let q: usize = self.plain_stop_from(p, flow);
        let e: usize = scan_back(self.src.as_bytes(), p, q, Class::Blank);
        let text = slice(self.src, p, e);
        self.jump(q);
        (text, e)
    }

    /// Past the blank lines from `p` on, and how many there are.
    pub(crate) fn blank_lines_from(&self, p: usize) -> (r: (usize, usize))
        requires
            p <= self.source().len(),
        ensures
            r.0 == past_blank_lines(self.source(), p as int),
            r.1 == blank_lines(self.source(), p as int),
            p <= r.0 <= self.source().len(),
    {
        let n: usize = self.src.as_bytes().len();
        let ghost s = self.source();
        let mut q: usize = p;
        let mut k: usize = 0;
        while q < n && self.blank_from(q)
            invariant
                n == s.len(),
                s == self.source(),
                p <= q <= n,
                k <= q - p,
                past_blank_lines(s, p as int) == past_blank_lines(s, q as int),
                blank_lines(s, p as int) == blank_lines(s, q as int) + k,
            decreases n - q,
        {
            q = self.next_line_from(q);
            k = k + 1;
        }
        (q, k)
    }

    /// A plain scalar of text `first` together with the lines that go on at an
    /// indentation of at least `min_indent`.
    pub(crate) fn fold_plain_continuation(&mut self, first: Cow<'a, str>, min_indent: usize) -> (r: Result<
        Cow<'a, str>,
        Error,
    >)
        requires
            old(self).settled(),
        ensures
            went(*old(self), *final(self)),
            match (
                r,
                plain_folded(old(self).source(), encode_utf8(first@), old(self).st().p, min_indent as int),
            ) {
                (Ok(c), Ok((t, p))) => encode_utf8(c@) == t && final(self).st() == old(self).st().to(p),
                (Err(e), Err(f)) => e@ == report(old(self).source(), f) && final(self).st() == old(self).st().to(f.p),
                _ => false,
            },
    {
        let ghost s = self.source();
        let ghost p0 = self.st().p;
        let b = self.src.as_bytes();
        let mut text = first;
        let mut p: usize = self.pos;
        while p < b.len() && (b[p] == LF || b[p] == CR)
            invariant
                *self == *old(self),
                self.settled(),
                s == self.source(),
                b@ == s,
                self.pos <= p <= s.len(),
                bd(s, p as int),
                plain_folded(s, encode_utf8(first@), self.st().p, min_indent as int) == plain_folded(
                    s,
                    encode_utf8(text@),
                    p as int,
                    min_indent as int,
                ),
            ensures
                plain_folded(s, encode_utf8(text@), p as int, min_indent as int) == Ok::<_, Fail>(
                    (encode_utf8(text@), p as int),
                ),
            decreases s.len() - p,
        {
            let l: usize = self.break_from(p);
            let (q, blanks) = self.blank_lines_from(l);
            proof {
                lemma_bol(s, p as int);
                lemma_blank_lines_bol(s, l as int);
                lemma_blank_lines_bd(s, l as int);
            }
            if q >= b.len() {
                break;
            }
            if self.is_doc_marker_at(q, crate::text::DASH) || self.is_doc_marker_at(q, crate::text::DOT) {
                break;
            }
            if scan(b, q, Class::Spaces) - q < min_indent || self.comment_from(q) {
                break;
            }
            let c: usize = scan(b, q, Class::Blank);
            proof {
                lemma_plain(s, c as int, false);
            }
            let stop: usize = self.plain_stop_from(c, false);
            let end: usize = scan_back(b, c, stop, Class::Blank);
            let e: usize = scan(b, stop, Class::Blank);
            if self.is_block_indicator_at(e, COLON) {
                return Err(self.refuse(Refusal { msg: "mapping values are not allowed here", p: e }));
            }
            let mut more = String::new();
            put(&mut more, cow_str(&text));
            if blanks == 0 {
                put_byte(&mut more, SPACE);
            } else {
                put_breaks(&mut more, blanks);
            }
            put_slice(&mut more, self.src, c, end);
            proof {
                assert(encode_utf8(more@) =~= encode_utf8(text@) + plain_glue(blanks as int) + plain_text(
                    s,
                    c as int,
                    false,
                ));
            }
            text = Cow::Owned(more);
            p = e;
        }
        self.jump(p);
        Ok(text)
    }

    /// Appends what the line break at `p` inside a quoted scalar stands for, and
    /// gives the position after it.
    pub(crate) fn consume_line_fold(&self, p: usize, out: &mut String, parent_indent: usize) -> (q: usize)
        requires
            self.settled(),
            p <= self.source().len(),
            bd(self.source(), p as int),
        ensures
            q == line_fold(self.source(), p as int, parent_indent as int).1,
            encode_utf8(final(out)@) == encode_utf8(old(out)@) + line_fold(
                self.source(),
                p as int,
                parent_indent as int,
            ).0,
            past_break(self.source(), p as int) <= q <= self.source().len(),
            bd(self.source(), q as int),
    {
        let ghost s = self.source();
        let b = self.src.as_bytes();
        let l: usize = self.break_from(p);
        let mut q: usize = l;
        let mut empty_lines: usize = 0;
        loop
            invariant
                self.settled(),
                s == self.source(),
                b@ == s,
                l == past_break(s, p as int),
                l <= q <= s.len(),
                bd(s, q as int),
                empty_lines <= q,
                out@ == old(out)@,
                line_fold(s, p as int, parent_indent as int) == fold_from(
                    s,
                    q as int,
                    parent_indent as int,
                    empty_lines as int,
                ),
            decreases s.len() - q,
        {
            let mut r: usize = q;
            let mut stripped: usize = 0;
            while stripped < parent_indent && r < b.len() && (b[r] == SPACE || b[r] == TAB)
                invariant
                    self.settled(),
                    s == self.source(),
                    b@ == s,
                    stripped <= parent_indent,
                    q <= r <= s.len(),
                    bd(s, r as int),
                    past_blanks(s, q as int, parent_indent as int) == past_blanks(
                        s,
                        r as int,
                        parent_indent - stripped,
                    ),
                decreases s.len() - r,
            {
                proof {
                    lemma_bd_ascii(s, r as int);
                }
                r = r + 1;
                stripped = stripped + 1;
            }
            if r < b.len() && (b[r] == LF || b[r] == CR) {
                empty_lines = empty_lines + 1;
                q = self.break_from(r);
            } else {
                if empty_lines > 0 {
                    put_breaks(out, empty_lines);
                } else if r < b.len() && (b[r] == SPACE || b[r] == TAB) {
                    put_byte(out, LF);
                    assert(encode_utf8(old(out)@).push(LF) =~= encode_utf8(old(out)@) + seq![LF]);
                } else {
                    put_byte(out, SPACE);
                    assert(encode_utf8(old(out)@).push(SPACE) =~= encode_utf8(old(out)@) + seq![SPACE]);
                }
                return r;
            }
        }
    }

    /// The quoted scalar whose opening quote stands at the cursor.
    fn parse_quoted(&mut self, double: bool) -> (r: Result<Cow<'a, str>, Error>)
        requires
            old(self).settled(),
            at(old(self).source(), old(self).st().p) == Some(quote(double)),
        ensures
            went(*old(self), *final(self)),
            match (r, quoted(old(self).source(), old(self).st().p, double)) {
                (Ok(c), Ok((t, p))) => encode_utf8(c@) == t && final(self).st() == old(self).st().to(p)
                    && old(self).st().p < p,
                (Err(e), Err(f)) => e@ == report(old(self).source(), f) && final(self).st() == old(self).st().to(f.p),
                _ => false,
            },
    {
        let ghost s = self.source();
        let b = self.src.as_bytes();
        let start: usize = self.pos;
        let indent: usize = self.col0;
        let q: u8 = if double {
            DQUOTE
        } else {
            SQUOTE
        };
        let class = if double {
            Class::Double
        } else {
            Class::Single
        };
        proof {
            lemma_bd_ascii(s, start as int);
            assert(encode_utf8(Seq::<char>::empty()) =~= Seq::<u8>::empty());
        }
        // A scalar on one line without escapes is a slice of the source.
        let mut e: usize = start + 1;
        while e < b.len() && b[e] != q && b[e] != LF && b[e] != CR && (b[e] != BACKSLASH || !double)
            invariant
                b@ == s,
                start + 1 <= e <= s.len(),
                q == quote(double),
                forall|i: int|
                    start + 1 <= i < e ==> s[i] != q && !is_break(#[trigger] s[i]) && (s[i] != BACKSLASH || !double),
            decreases s.len() - e,
        {
            e = e + 1;
        }
        if e < b.len() && b[e] == q && (double || self.peek_at(e + 1) != Some(SQUOTE)) {
            proof {
                lemma_bd_ascii(s, e as int);
                lemma_quoted_plain(s, start + 1, e as int, indent as int, double, Seq::empty());
                assert(Seq::<u8>::empty() + s.subrange(start + 1, e as int) =~= s.subrange(start + 1, e as int));
            }
            let text = slice(self.src, start + 1, e);
            self.jump(e + 1);
            return Ok(Cow::Borrowed(text));
        }
        let mut out = String::new();
        let mut p: usize = start + 1;
        loop
            invariant
                *self == *old(self),
                self.settled(),
                s == self.source(),
                b@ == s,
                start == self.pos,
                start < p <= s.len(),
                bd(s, p as int),
                q == quote(double),
                class == quoted_class(double),
                quoted(s, self.st().p, double) == quoted_rest(
                    s,
                    p as int,
                    indent as int,
                    double,
                    encode_utf8(out@),
                ),
            decreases s.len() - p,
        {
            if p >= b.len() {
                return Err(
                    self.refuse(
                        Refusal {
                            msg: if double {
                                "unterminated double-quoted string"
                            } else {
                                "unterminated single-quoted string"
                            },
                            p,
                        },
                    ),
                );
            }
            let c = b[p];
            let ghost text = encode_utf8(out@);
            if c == q {
                proof {
                    lemma_bd_ascii(s, p as int);
                }
                if !double && self.peek_at(p + 1) == Some(SQUOTE) {
                    proof {
                        lemma_bd_ascii(s, p + 1);
                    }
                    put_byte(&mut out, SQUOTE);
                    p = p + 2;
                } else {
                    self.jump(p + 1);
                    return Ok(Cow::Owned(out));
                }
            } else if double && c == BACKSLASH {
                match self.unescape(p, &mut out) {
                    Ok(n) => {
                        p = n;
                    },
                    Err(x) => {
                        return Err(self.refuse(x));
                    },
                }
            } else if c == LF || c == CR {
                p = self.consume_line_fold(p, &mut out, indent);
            } else if c == SPACE || c == TAB {
                let n: usize = scan(b, p, Class::Blank);
                if !(n >= b.len() || b[n] == LF || b[n] == CR) {
                    put_slice(&mut out, self.src, p, n);
                }
                p = n;
            } else {
                let n: usize = scan(b, p, class);
                put_slice(&mut out, self.src, p, n);
                p = n;
            }
        }
    }

    /// The double-quoted scalar whose opening quote stands at the cursor.
    pub(crate) fn parse_double_quoted(&mut self) -> (r: Result<Cow<'a, str>, Error>)
        requires
            old(self).settled(),
            at(old(self).source(), old(self).st().p) == Some(DQUOTE),
        ensures
            went(*old(self), *final(self)),
            match (r, quoted(old(self).source(), old(self).st().p, true)) {
                (Ok(c), Ok((t, p))) => encode_utf8(c@) == t && final(self).st() == old(self).st().to(p)
                    && old(self).st().p < p,
                (Err(e), Err(f)) => e@ == report(old(self).source(), f) && final(self).st() == old(self).st().to(f.p),
                _ => false,
            },
    {
        self.parse_quoted(true)
    }

    /// The single-quoted scalar whose opening quote stands at the cursor.
    pub(crate) fn parse_single_quoted(&mut self) -> (r: Result<Cow<'a, str>, Error>)
        requires
            old(self).settled(),
            at(old(self).source(), old(self).st().p) == Some(SQUOTE),
        ensures
            went(*old(self), *final(self)),
            match (r, quoted(old(self).source(), old(self).st().p, false)) {
                (Ok(c), Ok((t, p))) => encode_utf8(c@) == t && final(self).st() == old(self).st().to(p)
                    && old(self).st().p < p,
                (Err(e), Err(f)) => e@ == report(old(self).source(), f) && final(self).st() == old(self).st().to(f.p),
                _ => false,
            },
    {
        self.parse_quoted(false)
    }

    /// Parse a scalar token, either double-quoted, single-quoted or plain, and
    /// where it ends
    ///
    /// `"42"` => ScalarToken::Quoted(42)
    /// `'42'` => ScalarToken::Quoted(42)
    /// `42` => ScalarToken::Plain(42)
    pub(crate) fn read_scalar_token(&mut self) -> (r: Result<(ScalarToken<'a>, usize), Error>)
        requires
            old(self).settled(),
        ensures
            went(*old(self), *final(self)),
            match (r, token(old(self).source(), old(self).st().p)) {
                (Ok((k, end)), Ok(want)) => k.quoted() == want.quoted && k.text() == want.text && end == want.end
                    && final(self).st() == old(self).st().to(want.p) && old(self).st().p <= end <= want.p && bd(
                    old(self).source(),
                    end as int,
                ),
                (Err(e), Err(f)) => e@ == report(old(self).source(), f) && final(self).st() == old(self).st().to(f.p),
                _ => false,
            },
    {
        proof {
            lemma_plain(self.source(), self.st().p, false);
        }
        match self.peek() {
            Some(b) if b == DQUOTE => match self.parse_double_quoted() {
                Ok(c) => Ok((ScalarToken::Quoted(c), self.pos)),
                Err(e) => Err(e),
            },
            Some(b) if b == SQUOTE => match self.parse_single_quoted() {
                Ok(c) => Ok((ScalarToken::Quoted(c), self.pos)),
                Err(e) => Err(e),
            },
            _ => {
                let (text, end) = self.parse_plain_scalar(false);
                Ok((ScalarToken::Plain(Cow::Borrowed(text)), end))
            },
        }
    }
}

/// A line that follows blank lines starts in the first column.
pub(crate) proof fn lemma_blank_lines_bol(s: Seq<u8>, q: int)
    requires
        0 <= q <= s.len(),
        super::layout::col_at(s, q) == 0,
    ensures
        super::layout::col_at(s, past_blank_lines(s, q)) == 0 || past_blank_lines(s, q) == s.len(),
    decreases s.len() - q,
{
    if q < s.len() && super::layout::line_blank(s, q) {
        super::layout::lemma_next_line_bol(s, q);
        if next_line(s, q) < s.len() {
            lemma_blank_lines_bol(s, next_line(s, q));
        }
    }
}

/// A quoted scalar on one line without escapes stands for itself.
proof fn lemma_quoted_plain(s: Seq<u8>, p: int, e: int, indent: int, double: bool, text: Seq<u8>)
    requires
        0 <= p <= e < s.len(),
        s[e] == quote(double),
        double || at(s, e + 1) != Some(SQUOTE),
        forall|i: int|
            p <= i < e ==> s[i] != quote(double) && !is_break(#[trigger] s[i]) && (s[i] != BACKSLASH || !double),
    ensures
        quoted_rest(s, p, indent, double, text) == Ok::<_, Fail>((text + s.subrange(p, e), e + 1)),
    decreases e - p,
{
    if p == e {
        assert(text + s.subrange(p, e) =~= text);
    } else {
        let c = if is_blank(s[p]) {
            Class::Blank
        } else {
            quoted_class(double)
        };
        let q = run(s, p, c);
        crate::text::lemma_run(s, p, c);
        if q > e {
            assert(c.holds(s[e]));
        }
        lemma_quoted_plain(s, q, e, indent, double, text + s.subrange(p, q));
        assert(text + s.subrange(p, q) + s.subrange(q, e) =~= text + s.subrange(p, e));
    }
}

} // verus!
