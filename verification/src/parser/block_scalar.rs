//! Literal and folded block scalars.
use vstd::prelude::*;
use vstd::string::*;
use vstd::utf8::*;
use super::escape::Refusal;
use super::layout::{bounds, lemma_bol, lemma_next_line_bol, moves};
use super::scalar::put_breaks;
use super::tokens::{
    block_depth, block_glue, block_header, block_lines, block_scalar, breaks, chomp_of, chomped, depth_of,
    lemma_depth_cap, past_spaces, Block, Chomp,
};
use super::{report, went, Parser};
use crate::error::Error;
use crate::text::{
    at, bd, lemma_bd_ascii, put_byte, put_slice, scan, Class, CR, DASH, DOT, GREATER, HASH, LF, PIPE, PLUS, SPACE,
    TAB,
};

verus! {

broadcast use {moves, bounds};

fn chomp_value(b: Option<u8>) -> (r: Option<Chomp>)
    ensures
        r == chomp_of(b),
        r is Some ==> b is Some && b->0 < 0x80,
{
    match b {
        Some(c) => if c == DASH {
            Some(Chomp::Strip)
        } else if c == PLUS {
            Some(Chomp::Keep)
        } else {
            None
        },
        None => None,
    }
}

fn depth_value(b: Option<u8>) -> (r: Option<usize>)
    ensures
        match r {
            Some(n) => depth_of(b) == Some(n as int) && b is Some && b->0 < 0x80 && n <= 9,
            None => depth_of(b) is None,
        },
{
    match b {
        Some(c) => if 0x31 <= c && c <= 0x39 {
            Some((c - 0x30) as usize)
        } else {
            None
        },
        None => None,
    }
}

impl<'a> Parser<'a> {
    /// The indicators after the `|` or `>` of a block scalar.
    fn read_block_header(&self, p: usize) -> (r: (Chomp, Option<usize>, usize))
        requires
            self.settled(),
            p <= self.source().len(),
            bd(self.source(), p as int),
        ensures
            block_header(self.source(), p as int) == (
                r.0,
                match r.1 {
                    Some(n) => Some(n as int),
                    None => None,
                },
                r.2 as int,
            ),
            r.1 is Some ==> r.1->0 <= 9,
            p <= r.2 <= self.source().len(),
            bd(self.source(), r.2 as int),
    {
        let ghost s = self.source();
        let first = self.peek_at(p);
        proof {
            if p < s.len() && s[p as int] < 0x80 {
                lemma_bd_ascii(s, p as int);
                if p + 1 < s.len() && s[p + 1] < 0x80 {
                    lemma_bd_ascii(s, p + 1);
                }
            }
        }
        match chomp_value(first) {
            Some(c) => match depth_value(self.peek_at(p + 1)) {
                Some(d) => (c, Some(d), p + 2),
                None => (c, None, p + 1),
            },
            None => match depth_value(first) {
                Some(d) => match chomp_value(self.peek_at(p + 1)) {
                    Some(c) => (c, Some(d), p + 2),
                    None => (Chomp::Clip, Some(d), p + 1),
                },
                None => (Chomp::Clip, None, p),
            },
        }
    }

    /// The indentation of a block scalar's lines, or the length of the text if it
    /// is greater.
    fn read_block_depth(&self, l: usize, asked: Option<usize>, min_indent: usize) -> (r: usize)
        requires
            self.settled(),
            l <= self.source().len(),
            asked is Some ==> asked->0 <= 9,
        ensures
            ({
                let d = block_depth(
                    self.source(),
                    l as int,
                    match asked {
                        Some(n) => Some(n as int),
                        None => None,
                    },
                    min_indent as int,
                );
                r == d || (r == self.source().len() && self.source().len() <= d)
            }),
    {
        let b = self.src.as_bytes();
        match asked {
            Some(d) => {
                if min_indent == 0 {
                    if d < b.len() {
                        d
                    } else {
                        b.len()
                    }
                } else if min_indent - 1 >= b.len() || d >= b.len() - (min_indent - 1) {
                    b.len()
                } else {
                    min_indent - 1 + d
                }
            },
            None => {
                let (q, _blanks) = self.blank_lines_from(l);
                let n: usize = scan(b, q, Class::Spaces) - q;
                if n < min_indent {
                    min_indent
                } else {
                    n
                }
            },
        }
    }

    /// Past at most `n` spaces.
    fn spaces_from(&self, p: usize, n: usize) -> (q: usize)
        requires
            self.settled(),
            p <= self.source().len(),
            bd(self.source(), p as int),
        ensures
            q == past_spaces(self.source(), p as int, n as int),
            p <= q <= self.source().len(),
            q - p <= n,
            bd(self.source(), q as int),
            forall|i: int| p <= i < q ==> self.source()[i] == SPACE,
    {
        let ghost s = self.source();
        let b = self.src.as_bytes();
        let mut q: usize = p;
        let mut k: usize = 0;
        while k < n && q < b.len() && b[q] == SPACE
            invariant
                self.settled(),
                s == self.source(),
                b@ == s,
                k <= n,
                q == p + k,
                q <= s.len(),
                bd(s, q as int),
                past_spaces(s, p as int, n as int) == past_spaces(s, q as int, n - k),
                forall|i: int| p <= i < q ==> s[i] == SPACE,
            decreases n - k,
        {
            proof {
                lemma_bd_ascii(s, q as int);
            }
            q = q + 1;
            k = k + 1;
        }
        q
    }

    /// The block scalar whose `|` or `>` stands at the cursor, in a place where
    /// content is indented by at least `min_indent`.
    pub(crate) fn parse_block_scalar(&mut self, min_indent: usize) -> (r: Result<String, Error>)
        requires
            old(self).settled(),
            at(old(self).source(), old(self).st().p) == Some(PIPE) || at(old(self).source(), old(self).st().p) == Some(
                GREATER,
            ),
        ensures
            went(*old(self), *final(self)),
            match (r, block_scalar(old(self).source(), old(self).st().p, min_indent as int)) {
                (Ok(t), Ok((u, p))) => encode_utf8(t@) == u && final(self).st() == old(self).st().to(p),
                (Err(e), Err(f)) => e@ == report(old(self).source(), f) && final(self).st() == old(self).st().to(f.p),
                _ => false,
            },
    {
        let ghost s = self.source();
        let b = self.src.as_bytes();
        let start: usize = self.pos;
        let folded = b[start] == GREATER;
        proof {
            lemma_bd_ascii(s, start as int);
            assert(encode_utf8(Seq::<char>::empty()) =~= Seq::<u8>::empty());
        }
        let (chomp, asked, h) = self.read_block_header(start + 1);
        let q: usize = scan(b, h, Class::Blank);
        let e: usize = if q < b.len() && b[q] == HASH && h < q {
            scan(b, q, Class::Line)
        } else {
            q
        };
        if e < b.len() && b[e] != LF && b[e] != CR {
            return Err(self.refuse(Refusal { msg: "invalid block scalar header", p: e }));
        }
        let first: usize = self.break_from(e);
        let depth: usize = self.read_block_depth(first, asked, min_indent);
        let ghost none = Block { text: Seq::empty(), empties: 0, any: false, more: false };
        proof {
            let d = block_depth(
                s,
                first as int,
                match asked {
                    Some(n) => Some(n as int),
                    None => None,
                },
                min_indent as int,
            );
            if depth != d {
                lemma_depth_cap(s, first as int, d, folded, none);
            }
        }
        let mut out = String::new();
        let mut empties: usize = 0;
        let mut any = false;
        let mut more = false;
        let mut l: usize = first;
        proof {
            if e < s.len() {
                lemma_bol(s, e as int);
            }
        }
        while l < b.len()
            invariant
                *self == *old(self),
                self.settled(),
                s == self.source(),
                b@ == s,
                start <= l <= s.len(),
                bd(s, l as int),
                empties <= l,
                l < s.len() ==> super::layout::col_at(s, l as int) == 0,
                block_lines(s, first as int, depth as int, folded, none) == block_lines(
                    s,
                    l as int,
                    depth as int,
                    folded,
                    (Block { text: encode_utf8(out@), empties: empties as int, any, more }),
                ),
            ensures
                block_lines(
                    s,
                    l as int,
                    depth as int,
                    folded,
                    (Block { text: encode_utf8(out@), empties: empties as int, any, more }),
                ) == ((Block { text: encode_utf8(out@), empties: empties as int, any, more }), l as int),
            decreases s.len() - l,
        {
            let ghost now = Block { text: encode_utf8(out@), empties: empties as int, any, more };
            let c: usize = self.spaces_from(l, depth);
            let n: usize = self.next_line_from(l);
            proof {
                lemma_next_line_bol(s, l as int);
            }
            if c >= b.len() || b[c] == LF || b[c] == CR || (c - l < depth && self.blank_from(c)) {
                empties = empties + 1;
            } else if c - l < depth || self.is_doc_marker_at(l, DASH) || self.is_doc_marker_at(l, DOT) {
                break;
            } else {
                let deeper = b[c] == SPACE || b[c] == TAB;
                let ghost glue = block_glue(now, folded, deeper);
                if !any {
                    put_breaks(&mut out, empties);
                } else if folded && !more && !deeper {
                    if empties == 0 {
                        put_byte(&mut out, SPACE);
                        assert(encode_utf8(out@) =~= now.text + seq![SPACE]);
                    } else {
                        put_breaks(&mut out, empties);
                    }
                } else {
                    put_breaks(&mut out, empties);
                    put_byte(&mut out, LF);
                    assert(encode_utf8(out@) =~= now.text + breaks(empties + 1));
                }
                assert(encode_utf8(out@) == now.text + glue);
                let end: usize = scan(b, c, Class::Line);
                put_slice(&mut out, self.src, c, end);
                empties = 0;
                any = true;
                more = deeper;
            }
            l = n;
        }
        let ghost last = Block { text: encode_utf8(out@), empties: empties as int, any, more };
        if !any {
            out = String::new();
            match chomp {
                Chomp::Keep => {
                    put_breaks(&mut out, empties);
                    assert(encode_utf8(out@) =~= breaks(empties as int));
                },
                _ => {},
            }
        } else {
            match chomp {
                Chomp::Strip => {},
                Chomp::Clip => {
                    put_byte(&mut out, LF);
                },
                Chomp::Keep => {
                    put_breaks(&mut out, empties);
                    put_byte(&mut out, LF);
                    assert(encode_utf8(out@) =~= last.text + breaks(empties + 1));
                },
            }
        }
        assert(encode_utf8(out@) == chomped(last, chomp));
        self.jump(l);
        Ok(out)
    }
}

} // verus!
