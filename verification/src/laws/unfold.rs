//! The grammar, one step at a time.
use vstd::prelude::*;
use crate::parser::layout::{
    col_at, doc_bound, indent_at, indicator_at, line_at, line_ends, moves, past_filler, past_flow_gap, tab_fail,
    Fail,
};
use crate::parser::tokens::{block_scalar, plain_folded, plain_stop, plain_text, props, quoted, token};
use crate::edit::sink::Extent;
use crate::patterns::resolved;
use crate::text::{
    at, run, Class, COLON, COMMA, DASH, DQUOTE, GREATER, LBRACE, LBRACKET, PIPE, QUESTION, RBRACE, RBRACKET, SQUOTE,
    STAR,
};
use crate::value::{lit, scalar_text, Val};
use crate::parser::grammar::{
    absent, alias, astray, finish_dict, finish_list, leaf, with_props, St, node, node_here, content, scalar_or_map,
    map_from, map_rest, map_entry, map_value, explicit_entry, block_seq, seq_rest, flow_or_map, flow_collection,
    flow_seq, flow_value, flow_map, flow_node, flow_content,
};

verus! {

broadcast use moves;

pub(crate) proof fn unfold_node(s: Seq<u8>, st: St, m: int)
    requires
        0 <= st.p <= s.len(),
    ensures
        node(s, st, m) == ({
            let p = past_filler(s, st.p);
            if doc_bound(s, st.p) {
                Ok(absent(st, st.p))
            } else if !line_ends(s, st.p) && col_at(s, st.p) > 0 {
                node_here(s, st, col_at(s, st.p), m)
            } else if p >= s.len() || doc_bound(s, p) {
                Ok(absent(st, p))
            } else {
                match indent_at(s, p) {
                    None => tab_fail(p),
                    Some(n) => if n < m {
                        Ok(absent(st, p))
                    } else {
                        node_here(s, st.to(p + n), n, m)
                    },
                }
            }
        }),
{
    reveal(node);
    reveal(node_here);
}

pub(crate) proof fn unfold_node_here(s: Seq<u8>, st: St, n: int, m: int)
    requires
        0 <= st.p <= s.len(),
    ensures
        node_here(s, st, n, m) == ({
            match props(s, st.p, false) {
                Err(f) => Err(f),
                Ok((x, p)) => {
                    let inner = if (x.tag is Some || x.anchor is Some) && line_ends(s, p) {
                        if st.p < p <= s.len() {
                            node(s, st.to(p), m)
                        } else {
                            astray(p)
                        }
                    } else if st.p <= p <= s.len() {
                        content(s, st.to(p), n, m)
                    } else {
                        astray(p)
                    };
                    match inner {
                        Err(f) => Err(f),
                        Ok((v, st1)) => Ok(with_props(x, v, st1)),
                    }
                },
            }
        }),
{
    reveal(node_here);
    reveal(node);
    reveal(content);
}

pub(crate) proof fn unfold_content(s: Seq<u8>, st: St, n: int, m: int)
    requires
        0 <= st.p <= s.len(),
    ensures
        content(s, st, n, m) == ({
            match at(s, st.p) {
                None => Ok(absent(st, st.p)),
                Some(b) => if b == LBRACKET || b == LBRACE {
                    flow_or_map(s, st, n)
                } else if b == PIPE || b == GREATER {
                    match block_scalar(s, st.p, m) {
                        Ok((t, p)) => Ok(leaf(s, st, Val::Str(t), p)),
                        Err(f) => Err(f),
                    }
                } else if b == STAR {
                    alias(s, st)
                } else if indicator_at(s, st.p, DASH) {
                    block_seq(s, st, n)
                } else {
                    scalar_or_map(s, st, n, m)
                },
            }
        }),
{
    reveal(content);
    reveal(scalar_or_map);
    reveal(block_seq);
    reveal(flow_or_map);
}

pub(crate) proof fn unfold_scalar_or_map(s: Seq<u8>, st: St, n: int, m: int)
    requires
        0 <= st.p <= s.len(),
    ensures
        scalar_or_map(s, st, n, m) == ({
            let inner = st.with(st.t.open(st.p, false));
            if indicator_at(s, st.p, QUESTION) {
                match explicit_entry(s, inner, n) {
                    Err(f) => Err(f),
                    Ok((kv, st1)) => map_from(s, st.p, st1, n, seq![kv]),
                }
            } else {
                match token(s, st.p) {
                    Err(f) => Err(f),
                    Ok(k) => {
                        let p = run(s, k.p, Class::Blank);
                        if !indicator_at(s, p, COLON) {
                            if k.quoted {
                                Ok((Val::Str(k.text), St { p, t: inner.t.close(p, s), ..st }))
                            } else {
                                match plain_folded(s, k.text, p, m) {
                                    Ok((t, q)) => Ok((resolved(t), St { p: q, t: inner.t.close(q, s), ..st })),
                                    Err(f) => Err(f),
                                }
                            }
                        } else if line_at(s, p) != line_at(s, st.p) {
                            Err(Fail { msg: lit("implicit key must not span multiple lines"), p })
                        } else if st.p <= p < s.len() {
                            let key = if k.quoted {
                                Val::Str(k.text)
                            } else {
                                resolved(k.text)
                            };
                            let st1 = St { p: p + 1, t: inner.t.key(Extent { a: st.p, b: k.end }, Some(k.text)), ..st };
                            match map_value(s, st1, n) {
                                Err(f) => Err(f),
                                Ok((v, st2)) => map_from(s, st.p, st2, n, seq![(key, v)]),
                            }
                        } else {
                            astray(p)
                        }
                    },
                }
            }
        }),
{
    reveal(scalar_or_map);
    reveal(map_from);
    reveal(map_value);
    reveal(explicit_entry);
}

pub(crate) proof fn unfold_map_from(s: Seq<u8>, start: int, st: St, n: int, kvs: Seq<(Val, Val)>)
    requires
        0 <= start <= s.len(),
    ensures
        map_from(s, start, st, n, kvs) == ({
            if start < st.p <= s.len() {
                finish_dict(s, map_rest(s, st, n, kvs))
            } else {
                astray(st.p)
            }
        }),
{
    reveal(map_from);
    reveal(map_rest);
}

pub(crate) proof fn unfold_map_rest(s: Seq<u8>, st: St, n: int, kvs: Seq<(Val, Val)>)
    requires
        0 <= st.p <= s.len(),
    ensures
        map_rest(s, st, n, kvs) == ({
            let p = past_filler(s, st.p);
            if p >= s.len() || doc_bound(s, p) {
                Ok((kvs, st.to(p)))
            } else if indent_at(s, p) is None {
                tab_fail(p)
            } else if indent_at(s, p) != Some(n) {
                Ok((kvs, st.to(p)))
            } else if indicator_at(s, p + n, DASH) {
                Ok((kvs, st.to(p + n)))
            } else {
                match map_entry(s, st.to(p + n), n) {
                    Err(f) => Err(f),
                    Ok((kv, st1)) => if st.p < st1.p <= s.len() {
                        map_rest(s, st1, n, kvs.push(kv))
                    } else {
                        astray(st1.p)
                    },
                }
            }
        }),
{
    reveal(map_rest);
    reveal(map_entry);
}

pub(crate) proof fn unfold_map_entry(s: Seq<u8>, st: St, n: int)
    requires
        0 <= st.p <= s.len(),
    ensures
        map_entry(s, st, n) == ({
            if indicator_at(s, st.p, QUESTION) {
                explicit_entry(s, st, n)
            } else {
                match token(s, st.p) {
                    Err(f) => Err(f),
                    Ok(k) => {
                        let p = run(s, k.p, Class::Blank);
                        if !indicator_at(s, p, COLON) {
                            Err(Fail { msg: lit("expected ':' after map key"), p })
                        } else if line_at(s, p) != line_at(s, st.p) {
                            Err(Fail { msg: lit("implicit key must not span multiple lines"), p })
                        } else if st.p <= p < s.len() {
                            let key = if k.quoted {
                                Val::Str(k.text)
                            } else {
                                resolved(k.text)
                            };
                            let st1 = St { p: p + 1, t: st.t.key(Extent { a: st.p, b: k.end }, Some(k.text)), ..st };
                            match map_value(s, st1, n) {
                                Err(f) => Err(f),
                                Ok((v, st2)) => Ok(((key, v), st2)),
                            }
                        } else {
                            astray(p)
                        }
                    },
                }
            }
        }),
{
    reveal(map_entry);
    reveal(map_value);
    reveal(explicit_entry);
}

pub(crate) proof fn unfold_map_value(s: Seq<u8>, st: St, n: int)
    requires
        0 <= st.p <= s.len(),
    ensures
        map_value(s, st, n) == ({
            let p = run(s, st.p, Class::Blank);
            let q = past_filler(s, p);
            if !line_ends(s, p) {
                node(s, st.to(p), n + 1)
            } else if q >= s.len() {
                Ok(absent(st, q))
            } else {
                match indent_at(s, q) {
                    None => tab_fail(q),
                    Some(k) => if k == n && indicator_at(s, q + k, DASH) {
                        block_seq(s, st.to(q + k), k)
                    } else if k <= n {
                        Ok(absent(st, q))
                    } else {
                        content(s, st.to(q + k), k, n + 1)
                    },
                }
            }
        }),
{
    reveal(map_value);
    reveal(node);
    reveal(content);
    reveal(block_seq);
}

pub(crate) proof fn unfold_explicit_entry(s: Seq<u8>, st: St, n: int)
    requires
        0 <= st.p <= s.len(),
    ensures
        explicit_entry(s, st, n) == ({
            let p = run(s, st.p + 1, Class::Blank);
            if st.p < p <= s.len() {
                match node(s, st.to(p), n + 1) {
                    Err(f) => Err(f),
                    Ok((key, st1)) => {
                        let st2 = st1.with(st1.t.promote(scalar_text(key)));
                        let q = past_filler(s, st1.p);
                        if !(p <= st1.p <= s.len()) {
                            astray(st1.p)
                        } else if q >= s.len() {
                            let (v, st3) = absent(st2, q);
                            Ok(((key, v), st3))
                        } else if indent_at(s, q) is None {
                            tab_fail(q)
                        } else if indent_at(s, q) != Some(n) || !indicator_at(s, q + n, COLON) {
                            let (v, st3) = absent(st2, q);
                            Ok(((key, v), st3))
                        } else {
                            match map_value(s, st2.to(q + n + 1), n) {
                                Err(f) => Err(f),
                                Ok((v, st3)) => Ok(((key, v), st3)),
                            }
                        }
                    },
                }
            } else {
                astray(p)
            }
        }),
{
    reveal(explicit_entry);
    reveal(node);
    reveal(map_value);
}

pub(crate) proof fn unfold_block_seq(s: Seq<u8>, st: St, n: int)
    requires
        0 <= st.p <= s.len(),
    ensures
        block_seq(s, st, n) == ({
            finish_list(s, seq_rest(s, st.with(st.t.open(st.p, false)), n, Seq::empty()))
        }),
{
    reveal(block_seq);
    reveal(seq_rest);
}

pub(crate) proof fn unfold_seq_rest(s: Seq<u8>, st: St, n: int, vs: Seq<Val>)
    requires
        0 <= st.p <= s.len(),
    ensures
        seq_rest(s, st, n, vs) == ({
            let p = past_filler(s, st.p);
            if p >= s.len() {
                Ok((vs, st.to(p)))
            } else {
                match indent_at(s, p) {
                    None => tab_fail(p),
                    Some(k) => {
                        let here = vs.len() == 0 && k == 0;
                        if !indicator_at(s, p + k, DASH) || !(here || col_at(s, p + k) == n) {
                            Ok((vs, st.to(p)))
                        } else {
                            match node(s, st.to(run(s, p + k + 1, Class::Blank)), n + 1) {
                                Err(f) => Err(f),
                                Ok((v, st1)) => if st.p < st1.p <= s.len() {
                                    seq_rest(s, st1, n, vs.push(v))
                                } else {
                                    astray(st1.p)
                                },
                            }
                        }
                    },
                }
            }
        }),
{
    reveal(seq_rest);
    reveal(node);
}

pub(crate) proof fn unfold_flow_or_map(s: Seq<u8>, st: St, n: int)
    requires
        0 <= st.p <= s.len(),
    ensures
        flow_or_map(s, st, n) == ({
            match flow_collection(s, st.with(st.t.open(st.p, false))) {
                Err(f) => Err(f),
                Ok((v, st1)) => {
                    let p = run(s, st1.p, Class::Blank);
                    if !indicator_at(s, p, COLON) {
                        Ok((v, St { p, t: st1.t.dissolve(), ..st1 }))
                    } else if line_at(s, p) != line_at(s, st.p) {
                        Err(Fail { msg: lit("implicit key must not span multiple lines"), p })
                    } else if st.p <= p < s.len() {
                        match map_value(s, St { p: p + 1, t: st1.t.promote(None), ..st1 }, n) {
                            Err(f) => Err(f),
                            Ok((w, st2)) => map_from(s, st.p, st2, n, seq![(v, w)]),
                        }
                    } else {
                        astray(p)
                    }
                },
            }
        }),
{
    reveal(flow_or_map);
    reveal(map_from);
    reveal(map_value);
    reveal(flow_collection);
}

pub(crate) proof fn unfold_flow_collection(s: Seq<u8>, st: St)
    requires
        0 <= st.p <= s.len(),
    ensures
        flow_collection(s, st) == ({
            let inner = St { p: st.p + 1, t: st.t.open(st.p, true), ..st };
            if st.p >= s.len() {
                astray(st.p)
            } else if s[st.p] == LBRACKET {
                finish_list(s, flow_seq(s, inner, Seq::empty()))
            } else {
                finish_dict(s, flow_map(s, inner, Seq::empty()))
            }
        }),
{
    reveal(flow_collection);
    reveal(flow_seq);
    reveal(flow_map);
}

pub(crate) proof fn unfold_flow_seq(s: Seq<u8>, st: St, vs: Seq<Val>)
    requires
        0 <= st.p <= s.len(),
    ensures
        flow_seq(s, st, vs) == ({
            let p = past_flow_gap(s, st.p);
            if p >= s.len() {
                Err(Fail { msg: lit("unterminated flow sequence"), p })
            } else if s[p] == RBRACKET {
                Ok((vs, st.to(p + 1)))
            } else {
                match flow_node(s, st.to(p)) {
                    Err(f) => Err(f),
                    Ok((v, st1)) => {
                        let q = past_flow_gap(s, st1.p);
                        if q >= s.len() {
                            Err(Fail { msg: lit("unterminated flow sequence"), p: q })
                        } else if s[q] == COMMA {
                            if st.p <= q < s.len() {
                                flow_seq(s, st1.to(q + 1), vs.push(v))
                            } else {
                                astray(q)
                            }
                        } else if s[q] == RBRACKET {
                            Ok((vs.push(v), st1.to(q + 1)))
                        } else {
                            Err(Fail { msg: lit("expected ',' or ']' in flow sequence"), p: q })
                        }
                    },
                }
            }
        }),
{
    reveal(flow_seq);
    reveal(flow_node);
}

pub(crate) proof fn unfold_flow_value(s: Seq<u8>, st: St)
    requires
        0 <= st.p <= s.len(),
    ensures
        flow_value(s, st) == ({
            let p = past_flow_gap(s, st.p);
            if at(s, p) == Some(COLON) {
                let q = past_flow_gap(s, p + 1);
                match at(s, q) {
                    None => Ok(absent(st.to(q), q)),
                    Some(b) => if b == COMMA || b == RBRACE {
                        Ok(absent(st.to(q), q))
                    } else {
                        flow_node(s, st.to(q))
                    },
                }
            } else {
                Ok(absent(st.to(p), p))
            }
        }),
{
    reveal(flow_value);
    reveal(flow_node);
}

pub(crate) proof fn unfold_flow_map(s: Seq<u8>, st: St, kvs: Seq<(Val, Val)>)
    requires
        0 <= st.p <= s.len(),
    ensures
        flow_map(s, st, kvs) == ({
            let p = past_flow_gap(s, st.p);
            if p >= s.len() {
                Err(Fail { msg: lit("unterminated flow map"), p })
            } else if s[p] == RBRACE {
                Ok((kvs, st.to(p + 1)))
            } else {
                match flow_node(s, st.to(p)) {
                    Err(f) => Err(f),
                    Ok((k, st1)) => if !(st.p <= st1.p <= s.len()) {
                        astray(st1.p)
                    } else {
                        match flow_value(s, st1.with(st1.t.promote(scalar_text(k)))) {
                            Err(f) => Err(f),
                            Ok((v, st2)) => {
                                let q = past_flow_gap(s, st2.p);
                                if q >= s.len() {
                                    Err(Fail { msg: lit("unterminated flow map"), p: q })
                                } else if s[q] == COMMA {
                                    if st.p <= q < s.len() {
                                        flow_map(s, st2.to(q + 1), kvs.push((k, v)))
                                    } else {
                                        astray(q)
                                    }
                                } else if s[q] == RBRACE {
                                    Ok((kvs.push((k, v)), st2.to(q + 1)))
                                } else {
                                    Err(Fail { msg: lit("expected ',' or '}' in flow map"), p: q })
                                }
                            },
                        }
                    },
                }
            }
        }),
{
    reveal(flow_map);
    reveal(flow_value);
    reveal(flow_node);
}

pub(crate) proof fn unfold_flow_node(s: Seq<u8>, st: St)
    requires
        0 <= st.p <= s.len(),
    ensures
        flow_node(s, st) == ({
            match props(s, st.p, true) {
                Err(f) => Err(f),
                Ok((x, p)) => if st.p <= p <= s.len() {
                    match flow_content(s, st.to(p)) {
                        Err(f) => Err(f),
                        Ok((v, st1)) => Ok(with_props(x, v, st1)),
                    }
                } else {
                    astray(p)
                },
            }
        }),
{
    reveal(flow_node);
    reveal(flow_content);
}

pub(crate) proof fn unfold_flow_content(s: Seq<u8>, st: St)
    requires
        0 <= st.p <= s.len(),
    ensures
        flow_content(s, st) == ({
            match at(s, st.p) {
                None => Ok(absent(st, st.p)),
                Some(b) => if b == LBRACKET || b == LBRACE {
                    flow_collection(s, st)
                } else if b == DQUOTE || b == SQUOTE {
                    match quoted(s, st.p, b == DQUOTE) {
                        Ok((t, q)) => Ok(leaf(s, st, Val::Str(t), q)),
                        Err(f) => Err(f),
                    }
                } else if b == STAR {
                    alias(s, st)
                } else if b == COMMA || b == RBRACKET || b == RBRACE {
                    Ok(absent(st, st.p))
                } else {
                    Ok(leaf(s, st, resolved(plain_text(s, st.p, true)), plain_stop(s, st.p, true)))
                },
            }
        }),
{
    reveal(flow_content);
    reveal(flow_collection);
}

} // verus!
