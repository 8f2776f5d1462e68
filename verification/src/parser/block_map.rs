//! Block mappings.
use vstd::prelude::*;
use vstd::string::*;
use vstd::utf8::*;
use super::grammar::{
    content, explicit_entry, map_entry, map_from, map_rest, map_value, scalar_or_map, St, block_seq, node,
};
use super::layout::{bounds, indicator_at, moves};
use super::scalar::ScalarToken;
use super::tokens::{plain_folded, token};
use super::{gave, report, went, Parser};
use crate::edit::sink::{grew, inside, lemma_grew_from, lemma_inside_grew, waits, Span};
use crate::error::Error;
use crate::patterns::{resolve_scalar, resolved};
use crate::text::{at, lemma_bd_ascii, COLON, DASH, QUESTION};
use crate::value::{lemma_dict_val, pairs_of, BorrowedValue, Val};

verus! {

broadcast use {moves, bounds};

impl<'a> Parser<'a> {
    /// The value of an implicit key whose colon the cursor stands at, and the
    /// rest of the mapping that began at `start` with it.
    pub(crate) fn continue_block_map(
        &mut self,
        key: BorrowedValue<'a>,
        indent: usize,
        Ghost(start): Ghost<St>,
    ) -> (r: Result<BorrowedValue<'a>, Error>)
        requires
            old(self).settled(),
            at(old(self).source(), old(self).st().p) == Some(COLON),
            indent <= old(self).st().p,
            0 <= start.p <= old(self).st().p,
            inside(start.t, old(self).st().t, start.p),
            waits(old(self).st().t),
        ensures
            went(*old(self), *final(self)),
            gave(
                r,
                *final(self),
                match map_value(old(self).source(), old(self).st().to(old(self).st().p + 1), indent as int) {
                    Err(f) => Err(f),
                    Ok((v, st)) => map_from(
                        old(self).source(),
                        start.p,
                        st,
                        indent as int,
                        seq![(key.val(), v)],
                    ),
                },
            ),
            r is Ok ==> grew(start.t, final(self).st().t, start.p),
            r is Ok ==> old(self).st().p < final(self).st().p,
        decreases old(self).source().len() - old(self).st().p, 0int,
    {
        proof {
            reveal(map_from);
            reveal(map_value);
            reveal(map_rest);
        }
        let ghost s = self.source();
        proof {
            lemma_bd_ascii(s, self.st().p);
        }
        self.jump(self.pos + 1);
        let ghost st1 = self.st();
        let value = match self.parse_block_map_value(indent) {
            Ok(v) => v,
            Err(e) => {
                return Err(e);
            },
        };
        proof {
            lemma_inside_grew(start.t, st1.t, self.st().t, start.p, st1.p);
        }
        let mut pairs: Vec<(BorrowedValue<'a>, BorrowedValue<'a>)> = Vec::new();
        pairs.push((key, value));
        assert(pairs_of(pairs@) =~= seq![(key.val(), value.val())]);
        match self.parse_block_map_rest(indent, &mut pairs, Ghost(start)) {
            Ok(_) => {},
            Err(e) => {
                return Err(e);
            },
        }
        self.note_close(Ghost(start.t), Ghost(start.p));
        proof {
            lemma_dict_val(pairs);
        }
        Ok(BorrowedValue::Mapping(pairs))
    }

    /// Parse a scalar OR an implicit-key block map starting with that scalar
    ///
    /// Input:
    /// ```yaml
    /// a: 1
    /// b: 2
    /// ```
    ///
    /// Output: `BorrowedValue::Mapping([(String("a"), Int(1)), (String("b"), Int(2))])`
    ///
    /// Input: `foo\n` → Output: `BorrowedValue::String("foo")` (no `:` follows the
    /// first token, so it's a bare scalar).
    pub(crate) fn parse_scalar_or_map(&mut self, indent: usize, min_indent: usize) -> (r: Result<
        BorrowedValue<'a>,
        Error,
    >)
        requires
            old(self).settled(),
            indent <= old(self).st().p,
        ensures
            went(*old(self), *final(self)),
            gave(
                r,
                *final(self),
                scalar_or_map(old(self).source(), old(self).st(), indent as int, min_indent as int),
            ),
            r is Ok ==> grew(old(self).st().t, final(self).st().t, old(self).st().p),
        decreases old(self).source().len() - old(self).st().p, 5int,
    {
        proof {
            reveal(scalar_or_map);
            reveal(explicit_entry);
            reveal(map_value);
            reveal(map_from);
            reveal(map_rest);
        }
        let ghost s = self.source();
        let ghost st0 = self.st();
        let start: usize = self.pos;
        let start_line: usize = self.line0;
        self.note_open(false);
        if self.at_explicit_key() {
            let entry = match self.parse_explicit_entry(indent, Ghost(st0)) {
                Ok(kv) => kv,
                Err(e) => {
                    return Err(e);
                },
            };
            let mut pairs: Vec<(BorrowedValue<'a>, BorrowedValue<'a>)> = Vec::new();
            pairs.push(entry);
            assert(pairs_of(pairs@) =~= seq![(entry.0.val(), entry.1.val())]);
            match self.parse_block_map_rest(indent, &mut pairs, Ghost(st0)) {
                Ok(_) => {},
                Err(e) => {
                    return Err(e);
                },
            }
            self.note_close(Ghost(st0.t), Ghost(st0.p));
            proof {
                lemma_dict_val(pairs);
            }
            return Ok(BorrowedValue::Mapping(pairs));
        }
        let (first, end) = match self.read_scalar_token() {
            Ok(x) => x,
            Err(e) => {
                return Err(e);
            },
        };
        self.skip_spaces();
        if !self.is_kv_colon() {
            let r = self.finish_value_token(first, min_indent);
            if r.is_ok() {
                self.note_close(Ghost(st0.t), Ghost(st0.p));
            }
            return r;
        }
        if self.line0 != start_line {
            return Err(self.err("implicit key must not span multiple lines".to_owned()));
        }
        let text = first.text_copy();
        self.note_key(Span { start, end }, text, Ghost(st0.t), Ghost(st0.p));
        let key = first.into_value();
        self.continue_block_map(key, indent, Ghost(st0))
    }

    /// The value of a scalar token that is no key; a plain one may go on over
    /// further lines.
    fn finish_value_token(&mut self, tok: ScalarToken<'a>, min_indent: usize) -> (r: Result<BorrowedValue<'a>, Error>)
        requires
            old(self).settled(),
        ensures
            went(*old(self), *final(self)),
            tok.quoted() ==> r is Ok && r->Ok_0.val() == Val::Str(tok.text()) && *final(self) == *old(self),
            !tok.quoted() ==> match (
                r,
                plain_folded(old(self).source(), tok.text(), old(self).st().p, min_indent as int),
            ) {
                (Ok(v), Ok((t, p))) => v.val() == resolved(t) && final(self).st() == old(self).st().to(p),
                (Err(e), Err(f)) => e@ == report(old(self).source(), f) && final(self).st() == old(self).st().to(f.p),
                _ => false,
            },
    {
        match tok {
            ScalarToken::Plain(s) => match self.fold_plain_continuation(s, min_indent) {
                Ok(c) => Ok(resolve_scalar(c)),
                Err(e) => Err(e),
            },
            ScalarToken::Quoted(s) => Ok(BorrowedValue::String(s)),
        }
    }

    /// Continue parsing remaining `k: v` pairs at the given indent
    ///
    /// Input (with `indent = 0`, after `a: 1\n` already parsed):
    /// ```yaml
    /// b: 2
    /// c: 3
    /// ```
    ///
    /// Output: `pairs` extended with `[(String("b"), Int(2)), (String("c"), Int(3))]`.
    /// Stops at EOF, a line whose indent differs from `indent`, or a
    /// sequence-dash at this indent (compact-seq handoff).
    pub(crate) fn parse_block_map_rest(
        &mut self,
        indent: usize,
        pairs: &mut Vec<(BorrowedValue<'a>, BorrowedValue<'a>)>,
        Ghost(start): Ghost<St>,
    ) -> (r: Result<(), Error>)
        requires
            old(self).settled(),
            inside(start.t, old(self).st().t, start.p),
            !waits(old(self).st().t),
        ensures
            went(*old(self), *final(self)),
            match (
                r,
                map_rest(old(self).source(), old(self).st(), indent as int, pairs_of(old(pairs)@)),
            ) {
                (Ok(_), Ok((kvs, st))) => pairs_of(final(pairs)@) == kvs && final(self).st() == st && inside(
                    start.t,
                    st.t,
                    start.p,
                ),
                (Err(e), Err(f)) => e@ == report(old(self).source(), f) && final(self).st().p == f.p,
                _ => false,
            },
        decreases old(self).source().len() - old(self).st().p, 5int,
    {
        let ghost s = self.source();
        let ghost n = indent as int;
        let ghost goal = map_rest(s, self.st(), n, pairs_of(pairs@));
        loop
            invariant
                went(*old(self), *self),
                s == old(self).source(),
                n == indent,
                goal == map_rest(old(self).source(), old(self).st(), indent as int, pairs_of(old(pairs)@)),
                goal == map_rest(s, self.st(), n, pairs_of(pairs@)),
                inside(start.t, self.st().t, start.p),
                !waits(self.st().t),
            decreases s.len() - self.st().p,
        {
            proof {
                reveal(map_rest);
                reveal(map_entry);
            }
            let ghost sta = self.st();
            self.skip_blank_and_comment_lines();
            if self.at_eof() || self.at_doc_bound() {
                return Ok(());
            }
            let k: usize = match self.current_indent() {
                Ok(k) => k,
                Err(e) => {
                    return Err(e);
                },
            };
            if k != indent {
                return Ok(());
            }
            self.jump(self.pos + indent);
            if self.at_seq_dash() {
                return Ok(());
            }
            let ghost stb = self.st();
            let entry = match self.parse_block_map_entry(indent, Ghost(start)) {
                Ok(kv) => kv,
                Err(e) => {
                    return Err(e);
                },
            };
            let ghost before = pairs@;
            pairs.push(entry);
            assert(pairs_of(pairs@) =~= pairs_of(before).push((entry.0.val(), entry.1.val())));
        }
    }

    /// One entry of a block mapping, from its key on.
    fn parse_block_map_entry(&mut self, indent: usize, Ghost(start): Ghost<St>) -> (r: Result<
        (BorrowedValue<'a>, BorrowedValue<'a>),
        Error,
    >)
        requires
            old(self).settled(),
            indent <= old(self).st().p,
            inside(start.t, old(self).st().t, start.p),
            !waits(old(self).st().t),
        ensures
            went(*old(self), *final(self)),
            match (r, map_entry(old(self).source(), old(self).st(), indent as int)) {
                (Ok(kv), Ok((want, st))) => (kv.0.val(), kv.1.val()) == want && final(self).st() == st && inside(
                    start.t,
                    st.t,
                    start.p,
                ) && !waits(st.t) && old(self).st().p < st.p,
                (Err(e), Err(f)) => e@ == report(old(self).source(), f) && final(self).st().p == f.p,
                _ => false,
            },
        decreases old(self).source().len() - old(self).st().p, 4int,
    {
        proof {
            reveal(map_entry);
            reveal(explicit_entry);
            reveal(map_value);
        }
        let ghost s = self.source();
        let ghost st0 = self.st();
        let at: usize = self.pos;
        let start_line: usize = self.line0;
        if self.at_explicit_key() {
            return self.parse_explicit_entry(indent, Ghost(start));
        }
        let (token, end) = match self.read_scalar_token() {
            Ok(x) => x,
            Err(e) => {
                return Err(e);
            },
        };
        self.skip_spaces();
        if !self.is_kv_colon() {
            return Err(self.err("expected ':' after map key".to_owned()));
        }
        if self.line0 != start_line {
            return Err(self.err("implicit key must not span multiple lines".to_owned()));
        }
        let text = token.text_copy();
        self.note_key(Span { start: at, end }, text, Ghost(start.t), Ghost(start.p));
        proof {
            lemma_bd_ascii(s, self.st().p);
        }
        self.jump(self.pos + 1);
        let ghost st1 = self.st();
        let key = token.into_value();
        match self.parse_block_map_value(indent) {
            Ok(value) => {
                proof {
                    lemma_inside_grew(start.t, st1.t, self.st().t, start.p, st1.p);
                }
                Ok((key, value))
            },
            Err(e) => Err(e),
        }
    }

    /// Parse the value part of a `key:` pair
    ///
    /// Input (after `key:` consumed):
    /// ```yaml
    ///   - a
    ///   - b
    /// ```
    ///
    /// Output: `BorrowedValue::Sequence([String("a"), String("b")])`.
    ///
    /// Inline values (same line as the key) parse via `parse_node`.
    /// Multi-line values handle indent locally to support the compact-seq
    /// form (`key:\n- item`) where the dash sits at the parent's indent.
    pub(crate) fn parse_block_map_value(&mut self, parent_indent: usize) -> (r: Result<BorrowedValue<'a>, Error>)
        requires
            old(self).settled(),
            parent_indent < old(self).st().p,
        ensures
            went(*old(self), *final(self)),
            gave(r, *final(self), map_value(old(self).source(), old(self).st(), parent_indent as int)),
            r is Ok ==> grew(old(self).st().t, final(self).st().t, old(self).st().p),
        decreases old(self).source().len() - old(self).st().p, 9int,
    {
        proof {
            reveal(map_value);
            reveal(node);
            reveal(block_seq);
            reveal(content);
        }
        let ghost s = self.source();
        let ghost st0 = self.st();
        let at: usize = self.pos;
        self.skip_spaces();
        // Inline value (same line as key): cursor at value byte
        if !self.at_line_end() {
            let ghost st1 = self.st();
            let r = self.parse_node(parent_indent + 1);
            proof {
                if r is Ok {
                    lemma_grew_from(st0.t, self.st().t, st1.p, st0.p);
                }
            }
            return r;
        }
        // Multi-line value, handle indent ourselves so we can support
        // sequence of maps
        self.skip_blank_and_comment_lines();
        if self.at_eof() {
            self.note_empty(at);
            return Ok(BorrowedValue::Null);
        }
        let next_indent: usize = match self.current_indent() {
            Ok(n) => n,
            Err(e) => {
                return Err(e);
            },
        };
        // Compact sequence, dash at parent's indent
        if next_indent == parent_indent && self.is_block_indicator_at(self.pos + next_indent, DASH) {
            self.jump(self.pos + next_indent);
            let ghost st1 = self.st();
            let r = self.parse_block_seq(next_indent);
            proof {
                if r is Ok {
                    lemma_grew_from(st0.t, self.st().t, st1.p, st0.p);
                }
            }
            return r;
        }
        if next_indent <= parent_indent {
            self.note_empty(at);
            return Ok(BorrowedValue::Null);
        }
        self.jump(self.pos + next_indent);
        let ghost st1 = self.st();
        let r = self.dispatch(next_indent, parent_indent + 1);
        proof {
            if r is Ok {
                lemma_grew_from(st0.t, self.st().t, st1.p, st0.p);
            }
        }
        r
    }

    /// A `? key` with its `: value`, if it has one.
    pub(crate) fn parse_explicit_entry(&mut self, indent: usize, Ghost(start): Ghost<St>) -> (r: Result<
        (BorrowedValue<'a>, BorrowedValue<'a>),
        Error,
    >)
        requires
            old(self).settled(),
            indent <= old(self).st().p,
            at(old(self).source(), old(self).st().p) == Some(QUESTION),
            inside(start.t, old(self).st().t, start.p),
            !waits(old(self).st().t),
        ensures
            went(*old(self), *final(self)),
            match (r, explicit_entry(old(self).source(), old(self).st(), indent as int)) {
                (Ok(kv), Ok((want, st))) => (kv.0.val(), kv.1.val()) == want && final(self).st() == st && inside(
                    start.t,
                    st.t,
                    start.p,
                ) && !waits(st.t) && old(self).st().p < st.p,
                (Err(e), Err(f)) => e@ == report(old(self).source(), f) && final(self).st().p == f.p,
                _ => false,
            },
        decreases old(self).source().len() - old(self).st().p, 3int,
    {
        proof {
            reveal(explicit_entry);
            reveal(node);
            reveal(map_value);
        }
        let ghost s = self.source();
        let ghost st0 = self.st();
        proof {
            lemma_bd_ascii(s, self.st().p);
        }
        self.jump(self.pos + 1);
        self.skip_spaces();
        let ghost st1 = self.st();
        let key = match self.parse_node(indent + 1) {
            Ok(v) => v,
            Err(e) => {
                return Err(e);
            },
        };
        proof {
            lemma_inside_grew(start.t, st1.t, self.st().t, start.p, st1.p);
            crate::edit::sink::lemma_width(st1.t);
        }
        let text = key.text();
        self.note_promote(text, Ghost(start.t), Ghost(start.p));
        let ghost st2 = self.st();
        let at: usize = self.pos;
        self.skip_blank_and_comment_lines();
        let filled = if self.at_eof() {
            false
        } else {
            match self.current_indent() {
                Ok(n) => n == indent && self.is_block_indicator_at(self.pos + indent, COLON),
                Err(e) => {
                    return Err(e);
                },
            }
        };
        if !filled {
            self.note_empty(at);
            proof {
                lemma_inside_grew(start.t, st2.t, self.st().t, start.p, st2.p);
            }
            return Ok((key, BorrowedValue::Null));
        }
        self.jump(self.pos + indent);
        proof {
            lemma_bd_ascii(s, self.st().p);
        }
        self.jump(self.pos + 1);
        let ghost st3 = self.st();
        match self.parse_block_map_value(indent) {
            Ok(value) => {
                proof {
                    lemma_inside_grew(start.t, st3.t, self.st().t, start.p, st3.p);
                }
                Ok((key, value))
            },
            Err(e) => Err(e),
        }
    }

    fn is_kv_colon(&self) -> (r: bool)
        requires
            self.ready(),
        ensures
            r == indicator_at(self.source(), self.st().p, COLON),
    {
        self.is_block_indicator_at(self.pos, COLON)
    }

    /// Whether the next character is a `-` at e.g. start of a sequence
    pub(crate) fn at_seq_dash(&self) -> (r: bool)
        requires
            self.ready(),
        ensures
            r == indicator_at(self.source(), self.st().p, DASH),
    {
        self.is_block_indicator_at(self.pos, DASH)
    }

    pub(crate) fn at_explicit_key(&self) -> (r: bool)
        requires
            self.ready(),
        ensures
            r == indicator_at(self.source(), self.st().p, QUESTION),
    {
        self.is_block_indicator_at(self.pos, QUESTION)
    }
}

} // verus!
