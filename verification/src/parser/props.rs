//! Tags, anchors and aliases.
use vstd::prelude::*;
use vstd::string::*;
use vstd::utf8::*;
use std::borrow::Cow;
use super::grammar::{alias, anchored, with_props};
use super::layout::{bounds, moves, Fail};
use super::tokens::{props, props_from, tag_end, Props};
use super::{anchors_of, gave, report, went, Parser};
use crate::edit::sink::{grew, Extent, Span, Tree};
use crate::error::Error;
use crate::text::{is_text, at, bd, lemma_bd_ascii, put, run, same, scan, slice, Class, AMP, BANG, GREATER, LESS, STAR};
use crate::value::{apply_tag, lit, BorrowedValue};

verus! {

broadcast use {moves, bounds};

/// What stands before a node.
pub struct NodeProps<'a> {
    pub tag: Option<&'a str>,
    /// The name, and where `&name` stands.
    pub anchor: Option<(&'a str, Span)>,
}

impl<'a> NodeProps<'a> {
    pub open spec fn v(self) -> Props {
        Props {
            tag: match self.tag {
                Some(t) => Some(encode_utf8(t@)),
                None => None,
            },
            anchor: match self.anchor {
                Some((name, span)) => Some((encode_utf8(name@), span.v())),
                None => None,
            },
        }
    }
}

proof fn lemma_tag_end(s: Seq<u8>, p: int)
    requires
        is_text(s),
        bd(s, p),
        at(s, p) == Some(BANG),
    ensures
        p < tag_end(s, p) <= s.len(),
        bd(s, tag_end(s, p)),
{
    lemma_bd_ascii(s, p);
    if at(s, p + 1) == Some(LESS) {
        lemma_bd_ascii(s, p + 1);
        let q = run(s, p + 2, Class::Until(GREATER));
        crate::text::lemma_run(s, p + 2, Class::Until(GREATER));
        if q < s.len() {
            lemma_bd_ascii(s, q);
        }
    }
}

impl<'a> Parser<'a> {
    /// Consume a YAML tag prefix if present
    ///
    /// Input:
    /// ```yaml
    /// !!str foo
    /// ```
    ///
    /// Output: `Some("!!str")`, cursor positioned at `foo`. Returns `None`
    /// (no advance) if the next byte isn't `!`. Recognizes `!`, `!!name`,
    /// and `!<verbatim>` forms.
    fn try_consume_tag(&mut self) -> (r: Option<&'a str>)
        requires
            old(self).settled(),
        ensures
            went(*old(self), *final(self)),
            r is Some == (at(old(self).source(), old(self).st().p) == Some(BANG)),
            match r {
                Some(t) => {
                    let s = old(self).source();
                    let p = old(self).st().p;
                    &&& encode_utf8(t@) == s.subrange(p, tag_end(s, p))
                    &&& p < tag_end(s, p)
                    &&& final(self).st() == old(self).st().to(run(s, tag_end(s, p), Class::Blank))
                    &&& p < final(self).st().p
                },
                None => *final(self) == *old(self),
            },
    {
        let ghost s = self.source();
        let b = self.src.as_bytes();
        let p: usize = self.pos;
        if p >= b.len() || b[p] != BANG {
            return None;
        }
        proof {
            lemma_tag_end(s, p as int);
            lemma_bd_ascii(s, p as int);
        }
        let e: usize = if p + 1 < b.len() && b[p + 1] == LESS {
            let q: usize = scan(b, p + 2, Class::Until(GREATER));
            if q < b.len() {
                q + 1
            } else {
                q
            }
        } else {
            scan(b, p + 1, Class::Name)
        };
        let tag = slice(self.src, p, e);
        let q: usize = scan(b, e, Class::Blank);
        self.jump(q);
        Some(tag)
    }

    /// Consume an anchor prefix (`&name`) if present
    ///
    /// Input:
    /// ```yaml
    /// &id 42
    /// ```
    ///
    /// Output: `Some("id")` with the place of `&id`, cursor positioned at `42`.
    /// Returns `None` (no advance) if the next byte isn't `&`. The name's
    /// lifetime is borrowed from source.
    fn try_consume_anchor(&mut self) -> (r: Result<Option<(&'a str, Span)>, Error>)
        requires
            old(self).settled(),
        ensures
            went(*old(self), *final(self)),
            ({
                let s = old(self).source();
                let p = old(self).st().p;
                let e = run(s, p + 1, Class::Name);
                match r {
                    Ok(None) => at(s, p) != Some(AMP) && *final(self) == *old(self),
                    Ok(Some((name, span))) => at(s, p) == Some(AMP) && e != p + 1 && encode_utf8(name@) == s.subrange(
                        p + 1,
                        e,
                    ) && span.v() == (Extent { a: p, b: e }) && final(self).st() == old(self).st().to(
                        run(s, e, Class::Blank),
                    ) && p < final(self).st().p,
                    Err(x) => at(s, p) == Some(AMP) && e == p + 1 && x@ == report(
                        s,
                        Fail { msg: lit("empty anchor name"), p: e },
                    ) && final(self).st() == old(self).st().to(e),
                }
            }),
    {
        let ghost s = self.source();
        let b = self.src.as_bytes();
        let p: usize = self.pos;
        if p >= b.len() || b[p] != AMP {
            return Ok(None);
        }
        proof {
            lemma_bd_ascii(s, p as int);
        }
        let e: usize = scan(b, p + 1, Class::Name);
        if e == p + 1 {
            self.jump(e);
            return Err(self.err("empty anchor name".to_owned()));
        }
        let name = slice(self.src, p + 1, e);
        let q: usize = scan(b, e, Class::Blank);
        self.jump(q);
        Ok(Some((name, Span { start: p, end: e })))
    }

    /// The tags and anchors at the cursor, at most one of each, in either order.
    pub(crate) fn read_props(&mut self, flow: bool) -> (r: Result<NodeProps<'a>, Error>)
        requires
            old(self).settled(),
        ensures
            went(*old(self), *final(self)),
            match (r, props(old(self).source(), old(self).st().p, flow)) {
                (Ok(x), Ok((y, p))) => x.v() == y && final(self).st() == old(self).st().to(p) && (y.tag is Some
                    || y.anchor is Some ==> old(self).st().p < p),
                (Err(e), Err(f)) => e@ == report(old(self).source(), f) && final(self).st() == old(self).st().to(f.p),
                _ => false,
            },
    {
        let ghost s = self.source();
        let mut got = NodeProps { tag: None, anchor: None };
        loop
            invariant
                went(*old(self), *self),
                s == old(self).source(),
                self.st() == old(self).st().to(self.st().p),
                props(s, old(self).st().p, flow) == props_from(s, self.st().p, flow, got.v()),
                got.tag is Some || got.anchor is Some ==> old(self).st().p < self.st().p,
            decreases s.len() - self.st().p,
        {
            let mut consumed = false;
            if got.tag.is_none() {
                if let Some(t) = self.try_consume_tag() {
                    got = NodeProps { tag: Some(t), anchor: got.anchor };
                    consumed = true;
                }
            }
            if got.anchor.is_none() {
                match self.try_consume_anchor() {
                    Err(e) => {
                        return Err(e);
                    },
                    Ok(Some(a)) => {
                        got = NodeProps { tag: got.tag, anchor: Some(a) };
                        consumed = true;
                    },
                    Ok(None) => {},
                }
            }
            if !consumed {
                return Ok(got);
            }
            if flow {
                self.skip_flow_whitespace();
            }
        }
    }

    /// A node's value with its tag applied and its anchor recorded.
    pub(crate) fn finish_node(
        &mut self,
        x: NodeProps<'a>,
        v: BorrowedValue<'a>,
        Ghost(t0): Ghost<Tree>,
        Ghost(from): Ghost<int>,
    ) -> (r: BorrowedValue<'a>)
        requires
            old(self).settled(),
            grew(t0, old(self).st().t, from),
        ensures
            went(*old(self), *final(self)),
            with_props(x.v(), v.val(), old(self).st()) == (r.val(), final(self).st()),
            grew(t0, final(self).st().t, from),
    {
        let w = match x.tag {
            Some(t) => {
                self.note_tag(t, Ghost(t0), Ghost(from));
                apply_tag(Cow::Borrowed(t), v)
            },
            None => v,
        };
        if let Some((name, token)) = x.anchor {
            self.note_anchor(name, token, Ghost(t0), Ghost(from));
            let ghost before = self.anchors@;
            self.anchors.push((name, w.dup()));
            assert(anchors_of(self.anchors@) =~= anchors_of(before).push((encode_utf8(name@), w.val())));
        }
        w
    }

    /// A copy of the value last given to an anchor.
    fn anchor_value(&self, name: &str) -> (r: Option<BorrowedValue<'a>>)
        ensures
            match r {
                Some(v) => anchored(self.st().a, encode_utf8(name@)) == Some(v.val()),
                None => anchored(self.st().a, encode_utf8(name@)) is None,
            },
    {
        let ghost a = self.st().a;
        let mut i: usize = self.anchors.len();
        assert(a.take(i as int) =~= a);
        while i > 0
            invariant
                i <= self.anchors@.len(),
                a == anchors_of(self.anchors@),
                a == self.st().a,
                anchored(a, encode_utf8(name@)) == anchored(a.take(i as int), encode_utf8(name@)),
            decreases i,
        {
            i = i - 1;
            proof {
                assert(a.take(i + 1).last() == a[i as int]);
                assert(a.take(i + 1).drop_last() =~= a.take(i as int));
            }
            if same(self.anchors[i].0, name) {
                return Some(self.anchors[i].1.dup());
            }
        }
        None
    }

    /// Resolve a `*name` alias to a clone of the anchored value
    ///
    /// Input (with anchor `id` previously registered as `Int(42)`):
    /// ```yaml
    /// *id
    /// ```
    ///
    /// Output: `BorrowedValue::Int(42)` (cloned from the anchors). Errors if
    /// the anchor name is unknown or empty.
    pub(crate) fn parse_alias(&mut self) -> (r: Result<BorrowedValue<'a>, Error>)
        requires
            old(self).settled(),
            at(old(self).source(), old(self).st().p) == Some(STAR),
        ensures
            went(*old(self), *final(self)),
            gave(r, *final(self), alias(old(self).source(), old(self).st())),
            r is Ok ==> grew(old(self).st().t, final(self).st().t, old(self).st().p),
    {
        let ghost s = self.source();
        let ghost st0 = self.st();
        let start: usize = self.pos;
        proof {
            lemma_bd_ascii(s, start as int);
        }
        let e: usize = scan(self.src.as_bytes(), start + 1, Class::Name);
        if e == start + 1 {
            self.jump(e);
            return Err(self.err("empty alias name".to_owned()));
        }
        let name = slice(self.src, start + 1, e);
        match self.anchor_value(name) {
            Some(v) => {
                self.note_open(false);
                self.note_alias(name, Ghost(st0.t), Ghost(start as int));
                self.jump(e);
                self.note_close(Ghost(st0.t), Ghost(start as int));
                Ok(v)
            },
            None => {
                self.jump(e);
                let mut msg = String::new();
                put(&mut msg, "unknown anchor: '");
                put(&mut msg, name);
                put(&mut msg, "'");
                proof {
                    assert(encode_utf8(Seq::<char>::empty()) =~= Seq::<u8>::empty());
                    assert(encode_utf8(msg@) =~= lit("unknown anchor: '") + encode_utf8(name@) + lit("'"));
                }
                Err(self.err(msg))
            },
        }
    }
}

} // verus!
