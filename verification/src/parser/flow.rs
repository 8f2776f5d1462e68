//! Flow sequences and mappings.
use vstd::prelude::*;
use vstd::string::*;
use vstd::utf8::*;
use std::borrow::Cow;
use super::grammar::{
    flow_collection, flow_content, flow_map, flow_node, flow_or_map, flow_seq, flow_value, finish_dict, finish_list,
    map_from, map_value,
};
use super::layout::{bounds, moves, Fail};
use super::{gave, went, Parser};
use crate::edit::sink::{grew, inside, lemma_grew_from, lemma_inside_grew, waits, width};
use crate::error::Error;
use crate::patterns::resolve_scalar;
use crate::text::{at, lemma_bd_ascii, COLON, COMMA, DQUOTE, LBRACE, LBRACKET, RBRACE, RBRACKET, SQUOTE, STAR};
use crate::value::{lemma_dict_val, lemma_list_val, pairs_of, vals, BorrowedValue, Val};

verus! {

broadcast use {moves, bounds};

impl<'a> Parser<'a> {
    /// Parse a flow-style sequence
    ///
    /// Input: `[1, 2, 3]` → Output: `BorrowedValue::Sequence([Int(1), Int(2), Int(3)])`
    ///
    /// Cursor enters at `[`. Skips whitespace/newlines/comments between
    /// tokens. Empty (`[]`) and trailing-comma (`[a,]`) forms are legal.
    pub fn parse_flow_seq(&mut self) -> (r: Result<BorrowedValue<'a>, Error>)
        requires
            old(self).settled(),
            at(old(self).source(), old(self).st().p) == Some(LBRACKET),
        ensures
            went(*old(self), *final(self)),
            gave(r, *final(self), flow_collection(old(self).source(), old(self).st())),
            r is Ok ==> grew(old(self).st().t, final(self).st().t, old(self).st().p),
            r is Ok ==> old(self).st().p < final(self).st().p,
        decreases old(self).source().len() - old(self).st().p, 1int,
    {
        proof {
            reveal(flow_collection);
            reveal(flow_seq);
        }
        let ghost s = self.source();
        let ghost st0 = self.st();
        proof {
            lemma_bd_ascii(s, st0.p);
        }
        self.note_open(true);
        self.jump(self.pos + 1);
        let ghost st1 = self.st();
        let mut items: Vec<BorrowedValue<'a>> = Vec::new();
        assert(vals(items@) =~= Seq::<Val>::empty());
        loop
            invariant_except_break
                flow_seq(s, st1, Seq::empty()) == flow_seq(s, self.st(), vals(items@)),
            invariant
                went(*old(self), *self),
                s == old(self).source(),
                st0 == old(self).st(),
                st0.p < self.st().p,
                inside(st0.t, self.st().t, st0.p),
                !waits(self.st().t),
                flow_collection(s, st0) == finish_list(s, flow_seq(s, st1, Seq::empty())),
            ensures
                flow_seq(s, st1, Seq::empty()) == Ok::<_, Fail>((vals(items@), self.st())),
            decreases s.len() - self.st().p,
        {
            proof {
                reveal(flow_seq);
                reveal(flow_node);
            }
            self.skip_flow_whitespace();
            match self.peek() {
                None => {
                    return Err(self.err("unterminated flow sequence".to_owned()));
                },
                Some(b) => if b == RBRACKET {
                    proof {
                        lemma_bd_ascii(s, self.st().p);
                    }
                    self.jump(self.pos + 1);
                    break;
                },
            }
            let ghost sta = self.st();
            let item = match self.parse_flow_node() {
                Ok(v) => v,
                Err(e) => {
                    return Err(e);
                },
            };
            proof {
                lemma_inside_grew(st0.t, sta.t, self.st().t, st0.p, sta.p);
            }
            let ghost before = items@;
            items.push(item);
            assert(vals(items@) =~= vals(before).push(item.val()));
            self.skip_flow_whitespace();
            proof {
                if self.st().p < s.len() && s[self.st().p] < 0x80 {
                    lemma_bd_ascii(s, self.st().p);
                }
            }
            match self.peek() {
                None => {
                    return Err(self.err("unterminated flow sequence".to_owned()));
                },
                Some(b) => if b == COMMA {
                    self.jump(self.pos + 1);
                } else if b == RBRACKET {
                    self.jump(self.pos + 1);
                    break;
                } else {
                    return Err(self.err("expected ',' or ']' in flow sequence".to_owned()));
                },
            }
        }
        self.note_close(Ghost(st0.t), Ghost(st0.p));
        proof {
            lemma_list_val(items);
        }
        Ok(BorrowedValue::Sequence(items))
    }

    /// The value of an entry in a flow mapping, after its key.
    fn parse_flow_value(&mut self) -> (r: Result<BorrowedValue<'a>, Error>)
        requires
            old(self).settled(),
        ensures
            went(*old(self), *final(self)),
            gave(r, *final(self), flow_value(old(self).source(), old(self).st())),
            r is Ok ==> grew(old(self).st().t, final(self).st().t, old(self).st().p),
        decreases old(self).source().len() - old(self).st().p, 4int,
    {
        proof {
            reveal(flow_value);
            reveal(flow_node);
        }
        let ghost s = self.source();
        let ghost st0 = self.st();
        self.skip_flow_whitespace();
        if self.peek() == Some(COLON) {
            proof {
                lemma_bd_ascii(s, self.st().p);
            }
            self.jump(self.pos + 1);
            self.skip_flow_whitespace();
            let ghost st1 = self.st();
            let none = match self.peek() {
                None => true,
                Some(b) => b == COMMA || b == RBRACE,
            };
            if !none {
                let r = self.parse_flow_node();
                proof {
                    if r is Ok {
                        lemma_grew_from(st0.t, self.st().t, st1.p, st0.p);
                    }
                }
                return r;
            }
        }
        let ghost st1 = self.st();
        self.note_empty(self.pos);
        proof {
            lemma_grew_from(st0.t, self.st().t, st1.p, st0.p);
        }
        Ok(BorrowedValue::Null)
    }

    /// Parse a flow-style mapping
    ///
    /// Input: `{a: 1, b: 2}` → Output: `BorrowedValue::Mapping([(String("a"), Int(1)), (String("b"), Int(2))])`
    ///
    /// Cursor enters at `{`. Supports JSON-style `{"a":1}` and spaceless
    /// `{a:1}` (plain scalars in flow can't end with `:`).
    /// Pair shorthand (`{a, b}`) yields null values.
    pub fn parse_flow_map(&mut self) -> (r: Result<BorrowedValue<'a>, Error>)
        requires
            old(self).settled(),
            at(old(self).source(), old(self).st().p) == Some(LBRACE),
        ensures
            went(*old(self), *final(self)),
            gave(r, *final(self), flow_collection(old(self).source(), old(self).st())),
            r is Ok ==> grew(old(self).st().t, final(self).st().t, old(self).st().p),
            r is Ok ==> old(self).st().p < final(self).st().p,
        decreases old(self).source().len() - old(self).st().p, 1int,
    {
        proof {
            reveal(flow_collection);
            reveal(flow_map);
        }
        let ghost s = self.source();
        let ghost st0 = self.st();
        proof {
            lemma_bd_ascii(s, st0.p);
        }
        self.note_open(true);
        self.jump(self.pos + 1);
        let ghost st1 = self.st();
        let mut pairs: Vec<(BorrowedValue<'a>, BorrowedValue<'a>)> = Vec::new();
        assert(pairs_of(pairs@) =~= Seq::<(Val, Val)>::empty());
        loop
            invariant_except_break
                flow_map(s, st1, Seq::empty()) == flow_map(s, self.st(), pairs_of(pairs@)),
            invariant
                went(*old(self), *self),
                s == old(self).source(),
                st0 == old(self).st(),
                st0.p < self.st().p,
                inside(st0.t, self.st().t, st0.p),
                !waits(self.st().t),
                width(self.st().t) == 0,
                flow_collection(s, st0) == finish_dict(s, flow_map(s, st1, Seq::empty())),
            ensures
                flow_map(s, st1, Seq::empty()) == Ok::<_, Fail>((pairs_of(pairs@), self.st())),
            decreases s.len() - self.st().p,
        {
            proof {
                reveal(flow_map);
                reveal(flow_node);
                reveal(flow_value);
            }
            self.skip_flow_whitespace();
            match self.peek() {
                None => {
                    return Err(self.err("unterminated flow map".to_owned()));
                },
                Some(b) => if b == RBRACE {
                    proof {
                        lemma_bd_ascii(s, self.st().p);
                    }
                    self.jump(self.pos + 1);
                    break;
                },
            }
            let ghost sta = self.st();
            let key = match self.parse_flow_node() {
                Ok(v) => v,
                Err(e) => {
                    return Err(e);
                },
            };
            proof {
                lemma_inside_grew(st0.t, sta.t, self.st().t, st0.p, sta.p);
            }
            let text = key.text();
            self.note_promote(text, Ghost(st0.t), Ghost(st0.p));
            let ghost stb = self.st();
            let value = match self.parse_flow_value() {
                Ok(v) => v,
                Err(e) => {
                    return Err(e);
                },
            };
            proof {
                lemma_inside_grew(st0.t, stb.t, self.st().t, st0.p, stb.p);
            }
            let ghost before = pairs@;
            pairs.push((key, value));
            assert(pairs_of(pairs@) =~= pairs_of(before).push((key.val(), value.val())));
            self.skip_flow_whitespace();
            proof {
                if self.st().p < s.len() && s[self.st().p] < 0x80 {
                    lemma_bd_ascii(s, self.st().p);
                }
            }
            match self.peek() {
                None => {
                    return Err(self.err("unterminated flow map".to_owned()));
                },
                Some(b) => if b == COMMA {
                    self.jump(self.pos + 1);
                } else if b == RBRACE {
                    self.jump(self.pos + 1);
                    break;
                } else {
                    return Err(self.err("expected ',' or '}' in flow map".to_owned()));
                },
            }
        }
        self.note_close(Ghost(st0.t), Ghost(st0.p));
        proof {
            lemma_dict_val(pairs);
        }
        Ok(BorrowedValue::Mapping(pairs))
    }

    /// Parse one node in flow context (scalar, nested flow, alias, optionally tagged/anchored)
    ///
    /// Input: `*ref` → Output: `BorrowedValue::String(...)` (alias resolved from the anchors)
    ///
    /// Unlike `parse_node`, this never recurses into block-style parsers —
    /// flow context is closed. Tag/anchor prefixes are accepted in
    /// either order, just like block context.
    fn parse_flow_node(&mut self) -> (r: Result<BorrowedValue<'a>, Error>)
        requires
            old(self).settled(),
        ensures
            went(*old(self), *final(self)),
            gave(r, *final(self), flow_node(old(self).source(), old(self).st())),
            r is Ok ==> grew(old(self).st().t, final(self).st().t, old(self).st().p),
        decreases old(self).source().len() - old(self).st().p, 3int,
    {
        proof {
            reveal(flow_node);
            reveal(flow_content);
        }
        let ghost st0 = self.st();
        let x = match self.read_props(true) {
            Ok(x) => x,
            Err(e) => {
                return Err(e);
            },
        };
        let ghost st1 = self.st();
        match self.parse_flow_content() {
            Ok(v) => {
                proof {
                    lemma_grew_from(st0.t, self.st().t, st1.p, st0.p);
                }
                Ok(self.finish_node(x, v, Ghost(st0.t), Ghost(st0.p)))
            },
            Err(e) => Err(e),
        }
    }

    /// A node in flow context without tag or anchor.
    fn parse_flow_content(&mut self) -> (r: Result<BorrowedValue<'a>, Error>)
        requires
            old(self).settled(),
        ensures
            went(*old(self), *final(self)),
            gave(r, *final(self), flow_content(old(self).source(), old(self).st())),
            r is Ok ==> grew(old(self).st().t, final(self).st().t, old(self).st().p),
        decreases old(self).source().len() - old(self).st().p, 2int,
    {
        proof {
            reveal(flow_content);
            reveal(flow_collection);
        }
        let ghost st0 = self.st();
        match self.peek() {
            None => {
                self.note_empty(self.pos);
                Ok(BorrowedValue::Null)
            },
            Some(b) => if b == LBRACKET {
                self.parse_flow_seq()
            } else if b == LBRACE {
                self.parse_flow_map()
            } else if b == DQUOTE || b == SQUOTE {
                self.note_open(false);
                let r = if b == DQUOTE {
                    self.parse_double_quoted()
                } else {
                    self.parse_single_quoted()
                };
                match r {
                    Ok(c) => {
                        self.note_close(Ghost(st0.t), Ghost(st0.p));
                        Ok(BorrowedValue::String(c))
                    },
                    Err(e) => Err(e),
                }
            } else if b == STAR {
                self.parse_alias()
            } else if b == COMMA || b == RBRACKET || b == RBRACE {
                self.note_empty(self.pos);
                Ok(BorrowedValue::Null)
            } else {
                self.note_open(false);
                let (text, _end) = self.parse_plain_scalar(true);
                self.note_close(Ghost(st0.t), Ghost(st0.p));
                Ok(resolve_scalar(Cow::Borrowed(text)))
            },
        }
    }

    /// Parse a flow node; a `: ` on the same line means it was an implicit key
    pub(crate) fn flow_node_or_map(&mut self, indent: usize) -> (r: Result<BorrowedValue<'a>, Error>)
        requires
            old(self).settled(),
            at(old(self).source(), old(self).st().p) == Some(LBRACKET) || at(old(self).source(), old(self).st().p)
                == Some(LBRACE),
            indent <= old(self).st().p,
        ensures
            went(*old(self), *final(self)),
            gave(r, *final(self), flow_or_map(old(self).source(), old(self).st(), indent as int)),
            r is Ok ==> grew(old(self).st().t, final(self).st().t, old(self).st().p),
            r is Ok ==> old(self).st().p < final(self).st().p,
        decreases old(self).source().len() - old(self).st().p, 5int,
    {
        proof {
            reveal(flow_or_map);
            reveal(flow_collection);
            reveal(map_value);
            reveal(map_from);
        }
        let ghost s = self.source();
        let ghost st0 = self.st();
        let start_line: usize = self.line0;
        self.note_open(false);
        let ghost sta = self.st();
        let first = if self.peek() == Some(LBRACKET) {
            self.parse_flow_seq()
        } else {
            self.parse_flow_map()
        };
        let node = match first {
            Ok(v) => v,
            Err(e) => {
                return Err(e);
            },
        };
        let ghost stb = self.st();
        proof {
            lemma_inside_grew(st0.t, sta.t, stb.t, st0.p, st0.p);
        }
        self.skip_spaces();
        if !self.is_block_indicator_at(self.pos, COLON) {
            self.note_dissolve(Ghost(st0.t), Ghost(sta.t), Ghost(st0.p));
            return Ok(node);
        }
        if self.line0 != start_line {
            return Err(self.err("implicit key must not span multiple lines".to_owned()));
        }
        self.note_promote(None, Ghost(st0.t), Ghost(st0.p));
        self.continue_block_map(node, indent, Ghost(st0))
    }
}

} // verus!
