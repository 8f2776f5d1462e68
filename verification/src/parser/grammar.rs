//! Nodes, documents and streams, as functions of the source and a state.
use vstd::prelude::*;
use super::layout::{
    col_at, doc_bound, doc_marker, indent_at, indicator_at, line_at, line_ends, moves, next_line, past_filler,
    past_flow_gap, past_marker, tab_fail, Fail,
};
use super::tokens::{block_scalar, plain_folded, plain_stop, plain_text, props, quoted, token, Props};
use crate::edit::sink::{Extent, Tree};
use crate::edit::KindView;
use crate::patterns::resolved;
use crate::text::{
    at, decimal, run, Class, COLON, COMMA, DASH, DOT, DQUOTE, GREATER, LBRACE, LBRACKET, PERCENT, PIPE, QUESTION,
    RBRACE, RBRACKET, SQUOTE, STAR,
};
use crate::value::{lit, merged, scalar_text, with_tag, Val};

verus! {

broadcast use moves;

/// What the parser knows while it reads: the position, the anchors of the
/// document so far, and the spans.
pub struct St {
    pub p: int,
    pub a: Seq<(Seq<u8>, Val)>,
    pub t: Tree,
}

impl St {
    pub open spec fn to(self, p: int) -> St {
        St { p, ..self }
    }

    pub open spec fn with(self, t: Tree) -> St {
        St { t, ..self }
    }
}

/// A node that is not there, between the position of `st` and `p`.
pub open spec fn absent(st: St, p: int) -> (Val, St) {
    (Val::Null, St { p, t: st.t.empty(st.p), ..st })
}

/// A scalar from the position of `st` to `p`.
pub open spec fn leaf(s: Seq<u8>, st: St, v: Val, p: int) -> (Val, St) {
    (v, St { p, t: st.t.open(st.p, false).close(p, s), ..st })
}

/// The value last given to an anchor.
pub open spec fn anchored(a: Seq<(Seq<u8>, Val)>, name: Seq<u8>) -> Option<Val>
    decreases a.len(),
{
    if a.len() == 0 {
        None
    } else if a.last().0 == name {
        Some(a.last().1)
    } else {
        anchored(a.drop_last(), name)
    }
}

/// The alias whose `*` stands at the position of `st`.
pub open spec fn alias(s: Seq<u8>, st: St) -> Result<(Val, St), Fail> {
    let q = run(s, st.p + 1, Class::Name);
    let name = s.subrange(st.p + 1, q);
    if q == st.p + 1 {
        Err(Fail { msg: lit("empty alias name"), p: q })
    } else {
        match anchored(st.a, name) {
            Some(v) => Ok((v, St { p: q, t: st.t.open(st.p, false).kind_open(KindView::AliasRef(name)).close(q, s), ..st })),
            None => Err(Fail { msg: lit("unknown anchor: '") + name + lit("'"), p: q }),
        }
    }
}

/// A node with its tag applied and its anchor recorded.
pub open spec fn with_props(x: Props, v: Val, st: St) -> (Val, St) {
    let w = match x.tag {
        Some(t) => with_tag(t, v),
        None => v,
    };
    let t = match x.tag {
        Some(t) => st.t.set_tag(t),
        None => st.t,
    };
    match x.anchor {
        Some((name, token)) => (w, St { a: st.a.push((name, w)), t: t.set_anchor(name, token), ..st }),
        None => (w, st.with(t)),
    }
}

/// A position that the parser never reaches.
pub open spec fn astray<T>(p: int) -> Result<T, Fail> {
    Err(Fail { msg: Seq::empty(), p })
}

/// A sequence whose items have all been read.
pub open spec fn finish_list(s: Seq<u8>, r: Result<(Seq<Val>, St), Fail>) -> Result<(Val, St), Fail> {
    match r {
        Err(f) => Err(f),
        Ok((vs, st)) => Ok((Val::List(vs), st.with(st.t.close(st.p, s)))),
    }
}

/// A mapping whose entries have all been read.
pub open spec fn finish_dict(s: Seq<u8>, r: Result<(Seq<(Val, Val)>, St), Fail>) -> Result<(Val, St), Fail> {
    match r {
        Err(f) => Err(f),
        Ok((kvs, st)) => Ok((Val::Dict(kvs), st.with(st.t.close(st.p, s)))),
    }
}

/// A node whose indentation is at least `m`.
///
/// At the end of a line, or at its start, the node is looked for on the lines
/// that follow; anywhere else it begins at once.
#[verifier::opaque]
pub open spec fn node(s: Seq<u8>, st: St, m: int) -> Result<(Val, St), Fail>
    decreases s.len() - st.p, 8int,
        when 0 <= st.p <= s.len()
{
    let p = past_filler(s, st.p);
    if doc_bound(s, st.p) {
        Ok(absent(st, st.p))
    } else if !line_ends(s, st.p) && col_at(s, st.p) > 0 {
        node_here(s, st, col_at(s, st.p), m)
    } else if p >= s.len() || doc_bound(s, p) {
        Ok(absent(st, p))
    } else {
        match indent_at(s, p) {
            None => tab_fail(p),
            Some(n) => if n < m {
                Ok(absent(st, p))
            } else {
                node_here(s, st.to(p + n), n, m)
            },
        }
    }
}

/// A node that begins at the position of `st`, with what stands before it.
#[verifier::opaque]
pub open spec fn node_here(s: Seq<u8>, st: St, n: int, m: int) -> Result<(Val, St), Fail>
    decreases s.len() - st.p, 7int,
        when 0 <= st.p <= s.len()
{
    match props(s, st.p, false) {
        Err(f) => Err(f),
        Ok((x, p)) => {
            let inner = if (x.tag is Some || x.anchor is Some) && line_ends(s, p) {
                if st.p < p <= s.len() {
                    node(s, st.to(p), m)
                } else {
                    astray(p)
                }
            } else if st.p <= p <= s.len() {
                content(s, st.to(p), n, m)
            } else {
                astray(p)
            };
            match inner {
                Err(f) => Err(f),
                Ok((v, st1)) => Ok(with_props(x, v, st1)),
            }
        },
    }
}

/// A node without tag or anchor that begins at the position of `st`.
#[verifier::opaque]
pub open spec fn content(s: Seq<u8>, st: St, n: int, m: int) -> Result<(Val, St), Fail>
    decreases s.len() - st.p, 6int,
        when 0 <= st.p <= s.len()
{
    match at(s, st.p) {
        None => Ok(absent(st, st.p)),
        Some(b) => if b == LBRACKET || b == LBRACE {
            flow_or_map(s, st, n)
        } else if b == PIPE || b == GREATER {
            match block_scalar(s, st.p, m) {
                Ok((t, p)) => Ok(leaf(s, st, Val::Str(t), p)),
                Err(f) => Err(f),
            }
        } else if b == STAR {
            alias(s, st)
        } else if indicator_at(s, st.p, DASH) {
            block_seq(s, st, n)
        } else {
            scalar_or_map(s, st, n, m)
        },
    }
}

/// A scalar, or the block mapping that begins with it as a key.
#[verifier::opaque]
pub open spec fn scalar_or_map(s: Seq<u8>, st: St, n: int, m: int) -> Result<(Val, St), Fail>
    decreases s.len() - st.p, 5int,
        when 0 <= st.p <= s.len()
{
    let inner = st.with(st.t.open(st.p, false));
    if indicator_at(s, st.p, QUESTION) {
        match explicit_entry(s, inner, n) {
            Err(f) => Err(f),
            Ok((kv, st1)) => map_from(s, st.p, st1, n, seq![kv]),
        }
    } else {
        match token(s, st.p) {
            Err(f) => Err(f),
            Ok(k) => {
                let p = run(s, k.p, Class::Blank);
                if !indicator_at(s, p, COLON) {
                    if k.quoted {
                        Ok((Val::Str(k.text), St { p, t: inner.t.close(p, s), ..st }))
                    } else {
                        match plain_folded(s, k.text, p, m) {
                            Ok((t, q)) => Ok((resolved(t), St { p: q, t: inner.t.close(q, s), ..st })),
                            Err(f) => Err(f),
                        }
                    }
                } else if line_at(s, p) != line_at(s, st.p) {
                    Err(Fail { msg: lit("implicit key must not span multiple lines"), p })
                } else if st.p <= p < s.len() {
                    let key = if k.quoted {
                        Val::Str(k.text)
                    } else {
                        resolved(k.text)
                    };
                    let st1 = St { p: p + 1, t: inner.t.key(Extent { a: st.p, b: k.end }, Some(k.text)), ..st };
                    match map_value(s, st1, n) {
                        Err(f) => Err(f),
                        Ok((v, st2)) => map_from(s, st.p, st2, n, seq![(key, v)]),
                    }
                } else {
                    astray(p)
                }
            },
        }
    }
}

/// A block mapping that began at `start` and has the entries `kvs` so far.
#[verifier::opaque]
pub open spec fn map_from(s: Seq<u8>, start: int, st: St, n: int, kvs: Seq<(Val, Val)>) -> Result<(Val, St), Fail>
    decreases s.len() - start, 0int,
        when 0 <= start <= s.len()
{
    if start < st.p <= s.len() {
        finish_dict(s, map_rest(s, st, n, kvs))
    } else {
        astray(st.p)
    }
}

/// The entries that follow `kvs` in a block mapping of indentation `n`.
///
/// They end at a line of another indentation, at a sequence dash, or with the
/// document.
#[verifier::opaque]
pub open spec fn map_rest(s: Seq<u8>, st: St, n: int, kvs: Seq<(Val, Val)>) -> Result<(Seq<(Val, Val)>, St), Fail>
    decreases s.len() - st.p, 5int,
        when 0 <= st.p <= s.len()
{
    let p = past_filler(s, st.p);
    if p >= s.len() || doc_bound(s, p) {
        Ok((kvs, st.to(p)))
    } else if indent_at(s, p) is None {
        tab_fail(p)
    } else if indent_at(s, p) != Some(n) {
        Ok((kvs, st.to(p)))
    } else if indicator_at(s, p + n, DASH) {
        Ok((kvs, st.to(p + n)))
    } else {
        match map_entry(s, st.to(p + n), n) {
            Err(f) => Err(f),
            Ok((kv, st1)) => if st.p < st1.p <= s.len() {
                map_rest(s, st1, n, kvs.push(kv))
            } else {
                astray(st1.p)
            },
        }
    }
}

/// One entry of a block mapping, from its key on.
#[verifier::opaque]
pub open spec fn map_entry(s: Seq<u8>, st: St, n: int) -> Result<((Val, Val), St), Fail>
    decreases s.len() - st.p, 4int,
        when 0 <= st.p <= s.len()
{
    if indicator_at(s, st.p, QUESTION) {
        explicit_entry(s, st, n)
    } else {
        match token(s, st.p) {
            Err(f) => Err(f),
            Ok(k) => {
                let p = run(s, k.p, Class::Blank);
                if !indicator_at(s, p, COLON) {
                    Err(Fail { msg: lit("expected ':' after map key"), p })
                } else if line_at(s, p) != line_at(s, st.p) {
                    Err(Fail { msg: lit("implicit key must not span multiple lines"), p })
                } else if st.p <= p < s.len() {
                    let key = if k.quoted {
                        Val::Str(k.text)
                    } else {
                        resolved(k.text)
                    };
                    let st1 = St { p: p + 1, t: st.t.key(Extent { a: st.p, b: k.end }, Some(k.text)), ..st };
                    match map_value(s, st1, n) {
                        Err(f) => Err(f),
                        Ok((v, st2)) => Ok(((key, v), st2)),
                    }
                } else {
                    astray(p)
                }
            },
        }
    }
}

/// The value after a `key:` in a block mapping of indentation `n`.
///
/// On a line of its own it is indented further than the key, except for a
/// sequence, whose dashes may stand below the key.
#[verifier::opaque]
pub open spec fn map_value(s: Seq<u8>, st: St, n: int) -> Result<(Val, St), Fail>
    decreases s.len() - st.p, 9int,
        when 0 <= st.p <= s.len()
{
    let p = run(s, st.p, Class::Blank);
    let q = past_filler(s, p);
    if !line_ends(s, p) {
        node(s, st.to(p), n + 1)
    } else if q >= s.len() {
        Ok(absent(st, q))
    } else {
        match indent_at(s, q) {
            None => tab_fail(q),
            Some(k) => if k == n && indicator_at(s, q + k, DASH) {
                block_seq(s, st.to(q + k), k)
            } else if k <= n {
                Ok(absent(st, q))
            } else {
                content(s, st.to(q + k), k, n + 1)
            },
        }
    }
}

/// A `? key` with its `: value`, if it has one.
#[verifier::opaque]
pub open spec fn explicit_entry(s: Seq<u8>, st: St, n: int) -> Result<((Val, Val), St), Fail>
    decreases s.len() - st.p, 3int,
        when 0 <= st.p <= s.len()
{
    let p = run(s, st.p + 1, Class::Blank);
    if st.p < p <= s.len() {
        match node(s, st.to(p), n + 1) {
            Err(f) => Err(f),
            Ok((key, st1)) => {
                let st2 = st1.with(st1.t.promote(scalar_text(key)));
                let q = past_filler(s, st1.p);
                if !(p <= st1.p <= s.len()) {
                    astray(st1.p)
                } else if q >= s.len() {
                    let (v, st3) = absent(st2, q);
                    Ok(((key, v), st3))
                } else if indent_at(s, q) is None {
                    tab_fail(q)
                } else if indent_at(s, q) != Some(n) || !indicator_at(s, q + n, COLON) {
                    let (v, st3) = absent(st2, q);
                    Ok(((key, v), st3))
                } else {
                    match map_value(s, st2.to(q + n + 1), n) {
                        Err(f) => Err(f),
                        Ok((v, st3)) => Ok(((key, v), st3)),
                    }
                }
            },
        }
    } else {
        astray(p)
    }
}

/// A block sequence of indentation `n`.
#[verifier::opaque]
pub open spec fn block_seq(s: Seq<u8>, st: St, n: int) -> Result<(Val, St), Fail>
    decreases s.len() - st.p, 5int,
        when 0 <= st.p <= s.len()
{
    finish_list(s, seq_rest(s, st.with(st.t.open(st.p, false)), n, Seq::empty()))
}

/// The items that follow `vs` in a block sequence of indentation `n`.
///
/// The first dash may stand where the cursor is; every other one stands at the
/// indentation of the sequence.
#[verifier::opaque]
pub open spec fn seq_rest(s: Seq<u8>, st: St, n: int, vs: Seq<Val>) -> Result<(Seq<Val>, St), Fail>
    decreases s.len() - st.p, 4int,
        when 0 <= st.p <= s.len()
{
    let p = past_filler(s, st.p);
    if p >= s.len() {
        Ok((vs, st.to(p)))
    } else {
        match indent_at(s, p) {
            None => tab_fail(p),
            Some(k) => {
                let here = vs.len() == 0 && k == 0;
                if !indicator_at(s, p + k, DASH) || !(here || col_at(s, p + k) == n) {
                    Ok((vs, st.to(p)))
                } else {
                    match node(s, st.to(run(s, p + k + 1, Class::Blank)), n + 1) {
                        Err(f) => Err(f),
                        Ok((v, st1)) => if st.p < st1.p <= s.len() {
                            seq_rest(s, st1, n, vs.push(v))
                        } else {
                            astray(st1.p)
                        },
                    }
                }
            },
        }
    }
}

/// A flow collection, or the block mapping that begins with it as a key.
#[verifier::opaque]
pub open spec fn flow_or_map(s: Seq<u8>, st: St, n: int) -> Result<(Val, St), Fail>
    decreases s.len() - st.p, 5int,
        when 0 <= st.p <= s.len()
{
    match flow_collection(s, st.with(st.t.open(st.p, false))) {
        Err(f) => Err(f),
        Ok((v, st1)) => {
            let p = run(s, st1.p, Class::Blank);
            if !indicator_at(s, p, COLON) {
                Ok((v, St { p, t: st1.t.dissolve(), ..st1 }))
            } else if line_at(s, p) != line_at(s, st.p) {
                Err(Fail { msg: lit("implicit key must not span multiple lines"), p })
            } else if st.p <= p < s.len() {
                match map_value(s, St { p: p + 1, t: st1.t.promote(None), ..st1 }, n) {
                    Err(f) => Err(f),
                    Ok((w, st2)) => map_from(s, st.p, st2, n, seq![(v, w)]),
                }
            } else {
                astray(p)
            }
        },
    }
}

/// The flow sequence or mapping whose bracket stands at the position of `st`.
#[verifier::opaque]
pub open spec fn flow_collection(s: Seq<u8>, st: St) -> Result<(Val, St), Fail>
    decreases s.len() - st.p, 1int,
        when 0 <= st.p <= s.len()
{
    let inner = St { p: st.p + 1, t: st.t.open(st.p, true), ..st };
    if st.p >= s.len() {
        astray(st.p)
    } else if s[st.p] == LBRACKET {
        finish_list(s, flow_seq(s, inner, Seq::empty()))
    } else {
        finish_dict(s, flow_map(s, inner, Seq::empty()))
    }
}

/// The items that follow `vs` in a flow sequence, and its closing bracket.
#[verifier::opaque]
pub open spec fn flow_seq(s: Seq<u8>, st: St, vs: Seq<Val>) -> Result<(Seq<Val>, St), Fail>
    decreases s.len() - st.p, 4int,
        when 0 <= st.p <= s.len()
{
    let p = past_flow_gap(s, st.p);
    if p >= s.len() {
        Err(Fail { msg: lit("unterminated flow sequence"), p })
    } else if s[p] == RBRACKET {
        Ok((vs, st.to(p + 1)))
    } else {
        match flow_node(s, st.to(p)) {
            Err(f) => Err(f),
            Ok((v, st1)) => {
                let q = past_flow_gap(s, st1.p);
                if q >= s.len() {
                    Err(Fail { msg: lit("unterminated flow sequence"), p: q })
                } else if s[q] == COMMA {
                    if st.p <= q < s.len() {
                        flow_seq(s, st1.to(q + 1), vs.push(v))
                    } else {
                        astray(q)
                    }
                } else if s[q] == RBRACKET {
                    Ok((vs.push(v), st1.to(q + 1)))
                } else {
                    Err(Fail { msg: lit("expected ',' or ']' in flow sequence"), p: q })
                }
            },
        }
    }
}

/// The value of an entry in a flow mapping, after its key.
#[verifier::opaque]
pub open spec fn flow_value(s: Seq<u8>, st: St) -> Result<(Val, St), Fail>
    decreases s.len() - st.p, 4int,
        when 0 <= st.p <= s.len()
{
    let p = past_flow_gap(s, st.p);
    if at(s, p) == Some(COLON) {
        let q = past_flow_gap(s, p + 1);
        match at(s, q) {
            None => Ok(absent(st.to(q), q)),
            Some(b) => if b == COMMA || b == RBRACE {
                Ok(absent(st.to(q), q))
            } else {
                flow_node(s, st.to(q))
            },
        }
    } else {
        Ok(absent(st.to(p), p))
    }
}

/// The entries that follow `kvs` in a flow mapping, and its closing bracket.
#[verifier::opaque]
pub open spec fn flow_map(s: Seq<u8>, st: St, kvs: Seq<(Val, Val)>) -> Result<(Seq<(Val, Val)>, St), Fail>
    decreases s.len() - st.p, 5int,
        when 0 <= st.p <= s.len()
{
    let p = past_flow_gap(s, st.p);
    if p >= s.len() {
        Err(Fail { msg: lit("unterminated flow map"), p })
    } else if s[p] == RBRACE {
        Ok((kvs, st.to(p + 1)))
    } else {
        match flow_node(s, st.to(p)) {
            Err(f) => Err(f),
            Ok((k, st1)) => if !(st.p <= st1.p <= s.len()) {
                astray(st1.p)
            } else {
                match flow_value(s, st1.with(st1.t.promote(scalar_text(k)))) {
                    Err(f) => Err(f),
                    Ok((v, st2)) => {
                        let q = past_flow_gap(s, st2.p);
                        if q >= s.len() {
                            Err(Fail { msg: lit("unterminated flow map"), p: q })
                        } else if s[q] == COMMA {
                            if st.p <= q < s.len() {
                                flow_map(s, st2.to(q + 1), kvs.push((k, v)))
                            } else {
                                astray(q)
                            }
                        } else if s[q] == RBRACE {
                            Ok((kvs.push((k, v)), st2.to(q + 1)))
                        } else {
                            Err(Fail { msg: lit("expected ',' or '}' in flow map"), p: q })
                        }
                    },
                }
            },
        }
    }
}

/// A node in flow context, with what stands before it.
#[verifier::opaque]
pub open spec fn flow_node(s: Seq<u8>, st: St) -> Result<(Val, St), Fail>
    decreases s.len() - st.p, 3int,
        when 0 <= st.p <= s.len()
{
    match props(s, st.p, true) {
        Err(f) => Err(f),
        Ok((x, p)) => if st.p <= p <= s.len() {
            match flow_content(s, st.to(p)) {
                Err(f) => Err(f),
                Ok((v, st1)) => Ok(with_props(x, v, st1)),
            }
        } else {
            astray(p)
        },
    }
}

/// A node in flow context without tag or anchor.
#[verifier::opaque]
pub open spec fn flow_content(s: Seq<u8>, st: St) -> Result<(Val, St), Fail>
    decreases s.len() - st.p, 2int,
        when 0 <= st.p <= s.len()
{
    match at(s, st.p) {
        None => Ok(absent(st, st.p)),
        Some(b) => if b == LBRACKET || b == LBRACE {
            flow_collection(s, st)
        } else if b == DQUOTE || b == SQUOTE {
            match quoted(s, st.p, b == DQUOTE) {
                Ok((t, q)) => Ok(leaf(s, st, Val::Str(t), q)),
                Err(f) => Err(f),
            }
        } else if b == STAR {
            alias(s, st)
        } else if b == COMMA || b == RBRACKET || b == RBRACE {
            Ok(absent(st, st.p))
        } else {
            Ok(leaf(s, st, resolved(plain_text(s, st.p, true)), plain_stop(s, st.p, true)))
        },
    }
}

/// Past the directives that stand before a document.
pub open spec fn past_directives(s: Seq<u8>, p: int) -> int
    decreases s.len() - p,
        when 0 <= p <= s.len()
{
    if at(s, p) == Some(PERCENT) {
        past_directives(s, past_filler(s, next_line(s, p)))
    } else {
        p
    }
}

pub proof fn lemma_past_directives(s: Seq<u8>, p: int)
    requires
        0 <= p <= s.len(),
    ensures
        p <= past_directives(s, p) <= s.len(),
    decreases s.len() - p,
{
    if at(s, p) == Some(PERCENT) {
        lemma_past_directives(s, past_filler(s, next_line(s, p)));
    }
}

/// The next document of a stream, if there is one, and whether an end marker
/// followed it. It needs no `---` if `bare` holds. Each document has anchors of
/// its own.
#[verifier::opaque]
pub open spec fn next_document(s: Seq<u8>, st: St, bare: bool) -> Result<(Option<(Val, bool)>, St), Fail> {
    let p = past_directives(s, past_filler(s, st.p));
    if p >= s.len() {
        Ok((None, st.to(p)))
    } else if !doc_marker(s, p, DASH) && !bare {
        match indent_at(s, p) {
            None => tab_fail(p),
            Some(n) => Err(
                Fail { msg: lit("unexpected content; expected '---' to start a new document"), p: p + n },
            ),
        }
    } else {
        let q = if doc_marker(s, p, DASH) {
            past_marker(s, p)
        } else {
            p
        };
        match node(s, St { p: q, a: Seq::empty(), ..st }, 0) {
            Err(f) => Err(f),
            Ok((v, st1)) => {
                let r = past_filler(s, st1.p);
                let ended = doc_marker(s, r, DOT);
                let e = if ended {
                    past_marker(s, r)
                } else {
                    r
                };
                Ok((Some((merged(v), ended)), st1.to(e)))
            },
        }
    }
}

/// The documents that follow `vs` in a stream. The next one needs no `---` if
/// `bare` holds.
pub open spec fn documents(s: Seq<u8>, st: St, vs: Seq<Val>, bare: bool) -> Result<(Seq<Val>, St), Fail>
    decreases s.len() - st.p, (if bare { 1int } else { 0 }),
        when 0 <= st.p <= s.len()
{
    match next_document(s, st, bare) {
        Err(f) => Err(f),
        Ok((None, st1)) => Ok((vs, st1)),
        Ok((Some((v, ended)), st1)) => if st.p <= st1.p <= s.len() && (st.p < st1.p || (bare && !ended)) {
            documents(s, st1, vs.push(v), ended)
        } else {
            astray(st1.p)
        },
    }
}

/// The state at the start of a stream.
pub open spec fn at_start() -> St {
    St { p: 0, a: Seq::empty(), t: Tree::blank() }
}

/// All documents of the stream `s`.
pub open spec fn stream(s: Seq<u8>) -> Result<(Seq<Val>, St), Fail> {
    documents(s, at_start(), Seq::empty(), true)
}

/// The one document among `vs`; none is null.
pub open spec fn only_document(vs: Seq<Val>, p: int) -> Result<Val, Fail> {
    if vs.len() == 0 {
        Ok(Val::Null)
    } else if vs.len() == 1 {
        Ok(vs[0])
    } else {
        Err(Fail { msg: lit("expected single document, got ") + decimal(vs.len()), p })
    }
}

} // verus!
