//! The grammar, one step at a time.
use vstd::prelude::*;
use super::scalars::meaning;
use crate::edit::sink::Extent;
use crate::parser::grammar::{
    block_seq, content, explicit_entry, finish_dict, finish_list, flow_collection, flow_map, flow_or_map, flow_seq,
    leaf, map_entry, map_from, map_rest, map_value, node, node_here, scalar_or_map, seq_rest, St,
};
use crate::parser::layout::{
    col_at, doc_bound, indent_at, indicator_at, line_at, line_ends, moves, past_filler, past_flow_gap, Fail,
};
use crate::parser::tokens::{block_scalar, plain_folded, props, token, Props, Token};
use crate::patterns::resolved;
use crate::text::{run, Class, COLON, DASH, GREATER, LBRACE, LBRACKET, PIPE, QUESTION, RBRACE, RBRACKET, STAR};
use crate::value::{scalar_text, with_tag, Val};

verus! {

broadcast use moves;

pub(crate) proof fn step_content_scalar(s: Seq<u8>, st: St, n: int, m: int)
    requires
        0 <= st.p < s.len(),
        !(s[st.p] == LBRACKET || s[st.p] == LBRACE || s[st.p] == PIPE || s[st.p] == GREATER || s[st.p] == STAR),
        !indicator_at(s, st.p, DASH),
    ensures
        content(s, st, n, m) == scalar_or_map(s, st, n, m),
{
    reveal(content);
    reveal(scalar_or_map);
}

pub(crate) proof fn step_content_flow(s: Seq<u8>, st: St, n: int, m: int)
    requires
        0 <= st.p < s.len(),
        s[st.p] == LBRACKET || s[st.p] == LBRACE,
    ensures
        content(s, st, n, m) == flow_or_map(s, st, n),
{
    reveal(content);
    reveal(flow_or_map);
}

pub(crate) proof fn step_content_block(s: Seq<u8>, st: St, n: int, m: int)
    requires
        0 <= st.p < s.len(),
        s[st.p] == PIPE || s[st.p] == GREATER,
    ensures
        content(s, st, n, m) == (match block_scalar(s, st.p, m) {
            Ok((t, p)) => Ok(leaf(s, st, Val::Str(t), p)),
            Err(f) => Err(f),
        }),
{
    reveal(content);
}

pub(crate) proof fn step_content_seq(s: Seq<u8>, st: St, n: int, m: int)
    requires
        0 <= st.p < s.len(),
        indicator_at(s, st.p, DASH),
    ensures
        content(s, st, n, m) == block_seq(s, st, n),
{
    reveal(content);
    reveal(block_seq);
}

pub(crate) proof fn step_scalar(s: Seq<u8>, st: St, n: int, m: int, k: Token)
    requires
        0 <= st.p <= s.len(),
        !indicator_at(s, st.p, QUESTION),
        token(s, st.p) == Ok::<_, Fail>(k),
        !indicator_at(s, run(s, k.p, Class::Blank), COLON),
    ensures
        ({
            let p = run(s, k.p, Class::Blank);
            let t = st.t.open(st.p, false);
            scalar_or_map(s, st, n, m) == (if k.quoted {
                Ok((Val::Str(k.text), St { p, t: t.close(p, s), ..st }))
            } else {
                match plain_folded(s, k.text, p, m) {
                    Ok((u, q)) => Ok((resolved(u), St { p: q, t: t.close(q, s), ..st })),
                    Err(f) => Err(f),
                }
            })
        }),
{
    reveal(scalar_or_map);
}

pub(crate) proof fn step_flow_or_map(s: Seq<u8>, st: St, n: int, v: Val, st1: St)
    requires
        0 <= st.p <= s.len(),
        flow_collection(s, st.with(st.t.open(st.p, false))) == Ok::<_, Fail>((v, st1)),
        !indicator_at(s, run(s, st1.p, Class::Blank), COLON),
    ensures
        flow_or_map(s, st, n) == Ok::<_, Fail>(
            (v, St { p: run(s, st1.p, Class::Blank), t: st1.t.dissolve(), ..st1 }),
        ),
{
    reveal(flow_or_map);
    reveal(flow_collection);
}

pub(crate) proof fn step_flow_empty(s: Seq<u8>, st: St)
    requires
        0 <= st.p,
        st.p + 1 < s.len(),
        s[st.p] == LBRACKET && s[st.p + 1] == RBRACKET || s[st.p] == LBRACE && s[st.p + 1] == RBRACE,
    ensures
        flow_collection(s, st) == (if s[st.p] == LBRACKET {
            finish_list(
                s,
                Ok((Seq::empty(), St { p: st.p + 2, t: st.t.open(st.p, true), ..st })),
            )
        } else {
            finish_dict(
                s,
                Ok((Seq::empty(), St { p: st.p + 2, t: st.t.open(st.p, true), ..st })),
            )
        }),
{
    reveal(flow_collection);
    reveal(flow_seq);
    reveal(flow_map);
    assert(run(s, st.p + 1, Class::Gap) == st.p + 1);
    assert(past_flow_gap(s, st.p + 1) == st.p + 1);
}

/// A node in the middle of a line begins at once.
pub(crate) proof fn step_node_here(s: Seq<u8>, st: St, m: int)
    requires
        0 <= st.p < s.len(),
        !line_ends(s, st.p),
        col_at(s, st.p) > 0,
    ensures
        node(s, st, m) == node_here(s, st, col_at(s, st.p), m),
{
    reveal(node);
    reveal(node_here);
}

/// A node at the end or the start of a line is looked for on the lines after it.
pub(crate) proof fn step_node_below(s: Seq<u8>, st: St, m: int)
    requires
        0 <= st.p <= s.len(),
        !doc_bound(s, st.p),
        line_ends(s, st.p) || col_at(s, st.p) == 0,
        past_filler(s, st.p) < s.len(),
        !doc_bound(s, past_filler(s, st.p)),
        indent_at(s, past_filler(s, st.p)) is Some,
        indent_at(s, past_filler(s, st.p))->0 >= m,
    ensures
        node(s, st, m) == node_here(
            s,
            st.to(past_filler(s, st.p) + indent_at(s, past_filler(s, st.p))->0),
            indent_at(s, past_filler(s, st.p))->0,
            m,
        ),
{
    reveal(node);
    reveal(node_here);
}

/// A node without tag or anchor is its content.
pub(crate) proof fn step_bare(s: Seq<u8>, st: St, n: int, m: int)
    requires
        0 <= st.p < s.len(),
        s[st.p] != crate::text::BANG && s[st.p] != crate::text::AMP,
    ensures
        node_here(s, st, n, m) == content(s, st, n, m),
{
    reveal(node_here);
    reveal(content);
    assert(st.to(st.p) == st);
}

/// The first entry of a mapping is read like the others.
pub(crate) proof fn step_first_entry(s: Seq<u8>, st: St, n: int, m: int, kv: (Val, Val), st1: St)
    requires
        0 <= st.p <= s.len(),
        map_entry(s, st.with(st.t.open(st.p, false)), n) == Ok::<_, Fail>((kv, st1)),
    ensures
        scalar_or_map(s, st, n, m) == map_from(s, st.p, st1, n, seq![kv]),
{
    reveal(scalar_or_map);
    reveal(map_entry);
    reveal(explicit_entry);
    reveal(map_value);
    reveal(map_from);
}

pub(crate) proof fn step_map_from(s: Seq<u8>, start: int, st: St, n: int, kvs: Seq<(Val, Val)>)
    requires
        0 <= start < st.p <= s.len(),
    ensures
        map_from(s, start, st, n, kvs) == finish_dict(s, map_rest(s, st, n, kvs)),
{
    reveal(map_from);
    reveal(map_rest);
}

pub(crate) proof fn step_map_end(s: Seq<u8>, st: St, n: int, kvs: Seq<(Val, Val)>)
    requires
        0 <= st.p <= s.len(),
        ({
            let p = past_filler(s, st.p);
            p == s.len() || (indent_at(s, p) is Some && indent_at(s, p)->0 != n)
        }),
    ensures
        map_rest(s, st, n, kvs) == Ok::<_, Fail>((kvs, st.to(past_filler(s, st.p)))),
{
    reveal(map_rest);
}

pub(crate) proof fn step_map_more(s: Seq<u8>, st: St, n: int, kvs: Seq<(Val, Val)>, kv: (Val, Val), st1: St)
    requires
        0 <= st.p <= s.len(),
        past_filler(s, st.p) < s.len(),
        !doc_bound(s, past_filler(s, st.p)),
        indent_at(s, past_filler(s, st.p)) == Some(n),
        !indicator_at(s, past_filler(s, st.p) + n, DASH),
        map_entry(s, st.to(past_filler(s, st.p) + n), n) == Ok::<_, Fail>((kv, st1)),
        st.p < st1.p <= s.len(),
    ensures
        map_rest(s, st, n, kvs) == map_rest(s, st1, n, kvs.push(kv)),
{
    reveal(map_rest);
    reveal(map_entry);
}

pub(crate) proof fn step_entry(s: Seq<u8>, st: St, n: int, k: Token, v: Val, st1: St)
    requires
        0 <= st.p <= s.len(),
        !indicator_at(s, st.p, QUESTION),
        token(s, st.p) == Ok::<_, Fail>(k),
        ({
            let p = run(s, k.p, Class::Blank);
            &&& st.p <= p < s.len()
            &&& indicator_at(s, p, COLON)
            &&& line_at(s, p) == line_at(s, st.p)
            &&& map_value(
                s,
                St { p: p + 1, t: st.t.key(Extent { a: st.p, b: k.end }, Some(k.text)), ..st },
                n,
            ) == Ok::<_, Fail>((v, st1))
        }),
    ensures
        map_entry(s, st, n) == Ok::<_, Fail>(((meaning(k), v), st1)),
{
    reveal(map_entry);
    reveal(map_value);
}

pub(crate) proof fn step_explicit_entry(s: Seq<u8>, st: St, n: int)
    requires
        0 <= st.p <= s.len(),
        indicator_at(s, st.p, QUESTION),
    ensures
        map_entry(s, st, n) == explicit_entry(s, st, n),
{
    reveal(map_entry);
    reveal(explicit_entry);
}

pub(crate) proof fn step_explicit(s: Seq<u8>, st: St, n: int, key: Val, st1: St, v: Val, st3: St)
    requires
        0 <= st.p < s.len(),
        ({
            let p = run(s, st.p + 1, Class::Blank);
            let q = past_filler(s, st1.p);
            &&& node(s, st.to(p), n + 1) == Ok::<_, Fail>((key, st1))
            &&& p <= st1.p <= s.len()
            &&& q < s.len()
            &&& indent_at(s, q) == Some(n)
            &&& indicator_at(s, q + n, COLON)
            &&& map_value(s, St { p: q + n + 1, t: st1.t.promote(scalar_text(key)), ..st1 }, n) == Ok::<_, Fail>(
                (v, st3),
            )
        }),
    ensures
        explicit_entry(s, st, n) == Ok::<_, Fail>(((key, v), st3)),
{
    reveal(explicit_entry);
    reveal(node);
    reveal(map_value);
}

/// A value on the line of its key.
pub(crate) proof fn step_value_here(s: Seq<u8>, st: St, n: int)
    requires
        0 <= st.p <= s.len(),
        !line_ends(s, run(s, st.p, Class::Blank)),
    ensures
        map_value(s, st, n) == node(s, st.to(run(s, st.p, Class::Blank)), n + 1),
{
    reveal(map_value);
    reveal(node);
}

/// A value on the lines after its key.
pub(crate) proof fn step_value_below(s: Seq<u8>, st: St, n: int)
    requires
        0 <= st.p <= s.len(),
        ({
            let p = run(s, st.p, Class::Blank);
            let q = past_filler(s, p);
            &&& line_ends(s, p)
            &&& q < s.len()
            &&& indent_at(s, q) is Some
            &&& indent_at(s, q)->0 > n
        }),
    ensures
        ({
            let q = past_filler(s, run(s, st.p, Class::Blank));
            let k = indent_at(s, q)->0;
            map_value(s, st, n) == content(s, st.to(q + k), k, n + 1)
        }),
{
    reveal(map_value);
    reveal(content);
}

pub(crate) proof fn step_seq(s: Seq<u8>, st: St, n: int)
    requires
        0 <= st.p <= s.len(),
    ensures
        block_seq(s, st, n) == finish_list(
            s,
            seq_rest(s, st.with(st.t.open(st.p, false)), n, Seq::empty()),
        ),
{
    reveal(block_seq);
    reveal(seq_rest);
}

pub(crate) proof fn step_seq_end(s: Seq<u8>, st: St, n: int, vs: Seq<Val>)
    requires
        0 <= st.p <= s.len(),
        ({
            let p = past_filler(s, st.p);
            p == s.len() || (vs.len() > 0 && indent_at(s, p) is Some && col_at(s, p + indent_at(s, p)->0) != n)
        }),
    ensures
        seq_rest(s, st, n, vs) == Ok::<_, Fail>((vs, st.to(past_filler(s, st.p)))),
{
    reveal(seq_rest);
}

pub(crate) proof fn step_seq_more(s: Seq<u8>, st: St, n: int, vs: Seq<Val>, v: Val, st1: St)
    requires
        0 <= st.p <= s.len(),
        past_filler(s, st.p) < s.len(),
        ({
            let p = past_filler(s, st.p);
            let k = indent_at(s, p)->0;
            &&& indent_at(s, p) is Some
            &&& 0 <= k
            &&& p + k < s.len()
            &&& indicator_at(s, p + k, DASH)
            &&& (vs.len() == 0 && k == 0) || col_at(s, p + k) == n
            &&& node(s, st.to(run(s, p + k + 1, Class::Blank)), n + 1) == Ok::<_, Fail>((v, st1))
        }),
        st.p < st1.p <= s.len(),
    ensures
        seq_rest(s, st, n, vs) == seq_rest(s, st1, n, vs.push(v)),
{
    reveal(seq_rest);
    reveal(node);
}

/// A node with a tag.
pub(crate) proof fn step_tagged(s: Seq<u8>, st: St, n: int, m: int, tag: Seq<u8>, p: int)
    requires
        0 <= st.p < p <= s.len(),
        props(s, st.p, false) == Ok::<_, Fail>((Props { tag: Some(tag), anchor: None }, p)),
    ensures
        node_here(s, st, n, m) == (match (if line_ends(s, p) {
            node(s, st.to(p), m)
        } else {
            content(s, st.to(p), n, m)
        }) {
            Err(f) => Err(f),
            Ok((v, st1)) => Ok((with_tag(tag, v), st1.with(st1.t.set_tag(tag)))),
        }),
{
    super::unfold::unfold_node_here(s, st, n, m);
}

} // verus!
