//! Flow collections before and after the scalar are read alike.
use vstd::prelude::*;
use super::basic::{
    b_collection, b_flow_content, b_flow_map, b_flow_node, b_flow_seq, b_flow_value, lemma_key_nodes,
    lemma_kept_nodes, within,
};
use super::cut::{lemma_flow_gap, Cut};
use super::ends::{lemma_props_bd, lemma_quoted_bd, lemma_quoted_end};
use super::growth::{
    good, kept, lemma_grow_open, lemma_grow_part, lemma_grow_promote, lemma_kept_from, lemma_kept_same,
    lemma_kept_trans,
};
use super::lists::lemma_kept_len;
use super::low::one_line;
use super::place::{lemma_later_on, lemma_leaf_new, node_quiet};
use super::shift::{m_close, m_empty, m_kind_open, m_open, m_promote, m_set_anchor, m_set_tag, moved_st, moved_tree};
use super::words::{
    lemma_name, lemma_plain_word, lemma_props, lemma_quoted_cut, lemma_quoted_in, lemma_quoted_word, lemma_sub,
    moved_props,
};
use super::super::unfold::{
    unfold_flow_collection, unfold_flow_content, unfold_flow_map, unfold_flow_node, unfold_flow_seq,
    unfold_flow_value,
};
use crate::edit::around::reads_alike;
use crate::edit::sink::{inside, lemma_kind_open, lemma_open, lemma_sound_on, sound, trimmed, width, Extent, Tree};
use crate::edit::KindView;
use crate::parser::grammar::{
    absent, alias, flow_collection, flow_content, flow_map, flow_node, flow_seq, flow_value, leaf, with_props, St,
};
use crate::parser::layout::{bounds, col_at, line_ends, moves, past_flow_gap, past_flow_gap_in, Fail};
use crate::parser::tokens::{
    escaped, lemma_plain, plain_stop, plain_text, props, quote, quoted, quoted_class, quoted_rest, Props,
};
use crate::text::{
    at, back, bd, is_blank, is_break, lemma_bd_ascii, lemma_run, run, Class, BACKSLASH, COLON, COMMA, DQUOTE, LBRACE,
    LBRACKET, RBRACE, RBRACKET, SQUOTE, STAR,
};
use crate::value::{scalar_text, Val};

verus! {

broadcast use {moves, bounds};

/// Whether quoted scalars among the nodes from `n` on that begin after what differs, on
/// its line, end on it or are read alike.
#[verifier::opaque]
pub open spec fn quiet(k: Cut, t: Tree, n: int) -> bool {
    forall|i: int| 0 <= n <= i < t.nodes.len() ==> node_quiet(k, #[trigger] t.nodes[i])
}

/// What is read ends before what differs, or begins after it, on a later line
/// unless that makes no difference.
pub open spec fn clear(k: Cut, st: St, end: St) -> bool {
    end.p < k.a || k.later(st.p) || (k.b <= st.p && quiet(k, end.t, st.t.nodes.len() as int))
}

pub(crate) proof fn lemma_quiet_down(k: Cut, t: Tree, t1: Tree, from: int, n: int, n1: int)
    requires
        quiet(k, t1, n1),
        kept(t, t1, from),
        0 <= n1 <= n,
    ensures
        quiet(k, t, n),
{
    reveal(quiet);
    reveal(kept);
    assert forall|i: int| 0 <= n <= i < t.nodes.len() implies node_quiet(k, #[trigger] t.nodes[i]) by {
        assert(t1.nodes[i] == t.nodes[i]);
        assert(node_quiet(k, t1.nodes[i]));
    }
}

/// What holds of parts of what was read.
proof fn lemma_clear_part(k: Cut, st: St, end: St, sta: St, stb: St, from: int)
    requires
        clear(k, st, end),
        st.p <= sta.p <= k.s.len(),
        stb.p <= end.p,
        st.t.nodes.len() <= sta.t.nodes.len(),
        kept(stb.t, end.t, from),
    ensures
        clear(k, sta, stb),
{
    if k.later(st.p) {
        lemma_later_on(k, st.p, sta.p);
    } else if !(end.p < k.a) {
        lemma_quiet_down(k, stb.t, end.t, from, sta.t.nodes.len() as int, st.t.nodes.len() as int);
    }
}

/// It holds of fewer nodes.
pub(crate) proof fn lemma_quiet_after(k: Cut, t: Tree, n: int, m: int)
    requires
        quiet(k, t, n),
        0 <= n <= m,
    ensures
        quiet(k, t, m),
{
    reveal(quiet);
}

/// Properties change nothing of it.
pub(crate) proof fn lemma_quiet_props(k: Cut, x: Props, v: Val, st1: St, n: int)
    requires
        sound(st1.t, k.s, st1.p),
        quiet(k, with_props(x, v, st1).1.t, n),
    ensures
        quiet(k, st1.t, n),
{
    reveal(quiet);
    reveal(Tree::set_anchor);
    reveal(Tree::set_tag);
    assert(st1.t.last is Some ==> 0 <= st1.t.last->0 < st1.t.nodes.len()) by {
        reveal(sound);
    }
    let end = with_props(x, v, st1).1;
    assert forall|i: int| 0 <= n <= i < st1.t.nodes.len() implies node_quiet(k, #[trigger] st1.t.nodes[i]) by {
        assert(node_quiet(k, end.t.nodes[i]));
    }
}

pub(crate) proof fn lemma_kept_close(t: Tree, p: int, s: Seq<u8>)
    requires
        t.stack.len() > 0,
    ensures
        kept(t, t.close(p, s), t.stack.last().start),
{
    reveal(kept);
    reveal(Tree::close);
}

/// A quoted scalar on one line does not depend on where the line begins.
proof fn lemma_quoted_line(s: Seq<u8>, p: int, indent: int, other: int, double: bool, text: Seq<u8>)
    requires
        0 <= p <= s.len(),
        quoted_rest(s, p, indent, double, text) is Ok,
        forall|i: int| p <= i < (quoted_rest(s, p, indent, double, text)->Ok_0).1 ==> !is_break(#[trigger] s[i]),
    ensures
        quoted_rest(s, p, other, double, text) == quoted_rest(s, p, indent, double, text),
    decreases s.len() - p,
{
    lemma_quoted_in(s, p, indent, double, text);
    if s[p] == quote(double) {
        if !double && at(s, p + 1) == Some(SQUOTE) {
            lemma_quoted_line(s, p + 2, indent, other, double, text.push(SQUOTE));
        }
    } else if double && s[p] == BACKSLASH {
        let (u, q) = escaped(s, p)->Ok_0;
        if p < q <= s.len() {
            lemma_quoted_line(s, q, indent, other, double, text + u);
        }
    } else if is_blank(s[p]) {
        let q = run(s, p, Class::Blank);
        lemma_run(s, p, Class::Blank);
        if line_ends(s, q) {
            lemma_quoted_line(s, q, indent, other, double, text);
        } else {
            lemma_quoted_line(s, q, indent, other, double, text + s.subrange(p, q));
        }
    } else {
        let q = run(s, p, quoted_class(double));
        lemma_run(s, p, quoted_class(double));
        assert(!is_break(s[p]));
        lemma_quoted_line(s, q, indent, other, double, text + s.subrange(p, q));
    }
}

/// A quoted scalar on the line of what differs.
proof fn f_quoted(k: Cut, p: int, double: bool)
    requires
        k.base(),
        0 <= p < k.s.len(),
        k.s[p] == quote(double),
        quoted(k.s, p, double) is Ok,
        (quoted(k.s, p, double)->Ok_0).1 < k.a || k.later(p) || (k.b <= p && (one_line(
            k.s,
            p,
            (quoted(k.s, p, double)->Ok_0).1,
        ) || reads_alike(k.s, p, k.t, k.to(p)))),
    ensures
        quoted(k.t, k.to(p), double) == Ok::<_, Fail>(
            ((quoted(k.s, p, double)->Ok_0).0, k.to((quoted(k.s, p, double)->Ok_0).1)),
        ),
        p < (quoted(k.s, p, double)->Ok_0).1 <= k.s.len(),
{
    let (u, e) = quoted(k.s, p, double)->Ok_0;
    lemma_quoted_in(k.s, p + 1, col_at(k.s, p), double, Seq::empty());
    if e < k.a || k.later(p) {
        lemma_quoted_cut(k, p, double);
    } else if one_line(k.s, p, e) {
        lemma_quoted_line(k.s, p + 1, col_at(k.s, p), col_at(k.t, k.to(p)), double, Seq::empty());
        lemma_quoted_word(k, p + 1, col_at(k.t, k.to(p)), double, Seq::empty());
    }
}

pub(crate) proof fn f_sound(s: Seq<u8>, st: St, p: int)
    requires
        good(s, st),
        st.p <= p <= s.len(),
        bd(s, p),
    ensures
        good(s, st.to(p)),
{
    lemma_sound_on(st.t, s, st.p, p);
}

pub(crate) proof fn f_absent(k: Cut, st: St, p: int)
    ensures
        absent(moved_st(k, st), k.to(p)) == (Val::Null, moved_st(k, absent(st, p).1)),
{
    m_empty(k, st.t, st.p);
}

pub(crate) proof fn f_leaf(k: Cut, st: St, v: Val, p: int)
    requires
        k.base(),
        good(k.s, st),
        st.p <= p <= k.s.len(),
        bd(k.s, p),
        p <= k.a || k.b <= st.p,
    ensures
        leaf(k.t, moved_st(k, st), v, k.to(p)) == (v, moved_st(k, leaf(k.s, st, v, p).1)),
        moved_tree(k, st.t).open(k.to(st.p), false).close(k.to(p), k.t) == moved_tree(
            k,
            st.t.open(st.p, false).close(p, k.s),
        ),
{
    let t = st.t.open(st.p, false);
    lemma_open(st.t, k.s, st.p, false);
    lemma_sound_on(t, k.s, st.p, p);
    assert(t.stack.len() > 0 && t.stack.last().start == st.p) by {
        reveal(Tree::open);
    }
    m_open(k, st.t, st.p, false);
    m_close(k, t, p);
}

pub(crate) proof fn f_alias(k: Cut, st: St)
    requires
        k.base(),
        good(k.s, st),
        at(k.s, st.p) == Some(STAR),
        alias(k.s, st) is Ok,
        st.p < k.a || k.b <= st.p,
        (alias(k.s, st)->Ok_0).1.p <= k.a || k.b <= st.p,
    ensures
        alias(k.t, moved_st(k, st)) == Ok::<_, Fail>(
            ((alias(k.s, st)->Ok_0).0, moved_st(k, (alias(k.s, st)->Ok_0).1)),
        ),
{
    let q = run(k.s, st.p + 1, Class::Name);
    lemma_run(k.s, st.p + 1, Class::Name);
    if st.p < k.a {
        assert(st.p + 1 < k.a) by {
            if st.p + 1 == k.a {
                assert(k.s[k.a - 1] == STAR);
                lemma_run(k.s, st.p + 2, Class::Name);
            }
        }
    }
    lemma_name(k, st.p + 1);
    lemma_sub(k, st.p + 1, q);
    lemma_bd_ascii(k.s, st.p);
    let name = k.s.subrange(st.p + 1, q);
    let t = st.t.open(st.p, false);
    let u = t.kind_open(KindView::AliasRef(name));
    lemma_open(st.t, k.s, st.p, false);
    lemma_kind_open(st.t, t, k.s, st.p, st.p, KindView::AliasRef(name));
    lemma_sound_on(u, k.s, st.p, q);
    assert(u.stack.len() > 0 && u.stack.last().start == st.p) by {
        reveal(Tree::open);
        reveal(Tree::kind_open);
    }
    m_open(k, st.t, st.p, false);
    m_kind_open(k, t, KindView::AliasRef(name));
    m_close(k, u, q);
}

pub(crate) proof fn f_props(k: Cut, x: Props, v: Val, st: St)
    requires
        sound(st.t, k.s, st.p),
    ensures
        with_props(moved_props(k, x), v, moved_st(k, st)) == (
            with_props(x, v, st).0,
            moved_st(k, with_props(x, v, st).1),
        ),
{
    assert(st.t.last is Some ==> 0 <= st.t.last->0 < st.t.nodes.len()) by {
        reveal(sound);
    }
    let t = match x.tag {
        Some(t) => st.t.set_tag(t),
        None => st.t,
    };
    if let Some(tag) = x.tag {
        m_set_tag(k, st.t, tag);
    }
    if let Some((name, token)) = x.anchor {
        reveal(Tree::set_tag);
        m_set_anchor(k, t, name, token);
    }
}

/// A quoted scalar on the line of what differs ends on it.
proof fn lemma_one_line(k: Cut, st: St)
    requires
        k.base(),
        good(k.s, st),
        at(k.s, st.p) == Some(DQUOTE) || at(k.s, st.p) == Some(SQUOTE),
        quoted(k.s, st.p, k.s[st.p] == DQUOTE) is Ok,
        ({
            let q = (quoted(k.s, st.p, k.s[st.p] == DQUOTE)->Ok_0).1;
            clear(k, st, St { p: q, t: st.t.open(st.p, false).close(q, k.s), ..st })
        }),
    ensures
        ({
            let q = (quoted(k.s, st.p, k.s[st.p] == DQUOTE)->Ok_0).1;
            q < k.a || k.later(st.p) || (k.b <= st.p && (one_line(k.s, st.p, q) || reads_alike(
                k.s,
                st.p,
                k.t,
                k.to(st.p),
            )))
        }),
{
    let q = (quoted(k.s, st.p, k.s[st.p] == DQUOTE)->Ok_0).1;
    lemma_quoted_end(k.s, st.p + 1, col_at(k.s, st.p), k.s[st.p] == DQUOTE, Seq::empty());
    lemma_leaf_new(st.t, st.p, q, k.s);
    assert(trimmed(k.s, st.p, q) == q) by {
        assert(back(k.s, st.p, q, Class::Breaks) == q);
        assert(back(k.s, st.p, q, Class::Blank) == q);
    }
    if !(q < k.a) && !k.later(st.p) {
        reveal(quiet);
        let u = st.t.open(st.p, false).close(q, k.s);
        assert(node_quiet(k, u.nodes[st.t.nodes.len() as int]));
    }
}

pub(crate) proof fn f_content(k: Cut, st: St)
    requires
        k.base(),
        good(k.s, st),
        flow_content(k.s, st) is Ok,
        clear(k, st, (flow_content(k.s, st)->Ok_0).1),
    ensures
        flow_content(k.t, moved_st(k, st)) == Ok::<_, Fail>(
            ((flow_content(k.s, st)->Ok_0).0, moved_st(k, (flow_content(k.s, st)->Ok_0).1)),
        ),
    decreases k.s.len() - st.p, 2int,
{
    unfold_flow_content(k.s, st);
    unfold_flow_content(k.t, moved_st(k, st));
    let st1 = (flow_content(k.s, st)->Ok_0).1;
    b_flow_content(k.s, st);
    assert(k.on(st.p) && st.p != k.a);
    if st.p < k.s.len() {
        assert(k.s[st.p] == k.t[k.to(st.p)]);
    }
    f_absent(k, st, st.p);
    if let Some(b) = at(k.s, st.p) {
        if b == LBRACKET || b == LBRACE {
            f_collection(k, st);
        } else if b == DQUOTE || b == SQUOTE {
            lemma_quoted_bd(k.s, st.p, b == DQUOTE);
            lemma_one_line(k, st);
            f_quoted(k, st.p, b == DQUOTE);
            let (t, q) = quoted(k.s, st.p, b == DQUOTE)->Ok_0;
            f_leaf(k, st, Val::Str(t), q);
        } else if b == STAR {
            f_alias(k, st);
        } else if b == COMMA || b == RBRACKET || b == RBRACE {
        } else {
            lemma_plain(k.s, st.p, true);
            lemma_plain_word(k, st.p, true);
            f_leaf(
                k,
                st,
                crate::patterns::resolved(plain_text(k.s, st.p, true)),
                plain_stop(k.s, st.p, true),
            );
        }
    }
}

pub(crate) proof fn f_node(k: Cut, st: St)
    requires
        k.base(),
        good(k.s, st),
        flow_node(k.s, st) is Ok,
        clear(k, st, (flow_node(k.s, st)->Ok_0).1),
    ensures
        flow_node(k.t, moved_st(k, st)) == Ok::<_, Fail>(
            ((flow_node(k.s, st)->Ok_0).0, moved_st(k, (flow_node(k.s, st)->Ok_0).1)),
        ),
    decreases k.s.len() - st.p, 3int,
{
    unfold_flow_node(k.s, st);
    unfold_flow_node(k.t, moved_st(k, st));
    let none = Props { tag: None, anchor: None };
    lemma_props_bd(k.s, st.p, true, none);
    let (x, p) = props(k.s, st.p, true)->Ok_0;
    f_sound(k.s, st, p);
    let st0 = st.to(p);
    b_flow_content(k.s, st0);
    let (v, st1) = flow_content(k.s, st0)->Ok_0;
    assert((flow_node(k.s, st)->Ok_0).1 == with_props(x, v, st1).1);
    if k.later(st.p) {
        lemma_later_on(k, st.p, p);
    } else if !((flow_node(k.s, st)->Ok_0).1.p < k.a) {
        lemma_quiet_props(k, x, v, st1, st.t.nodes.len() as int);
    }
    assert(moved_props(k, none) == none);
    lemma_props(k, st.p, true, none);
    f_content(k, st0);
    f_props(k, x, v, st1);
}

pub(crate) proof fn f_value(k: Cut, st: St)
    requires
        k.base(),
        good(k.s, st),
        flow_value(k.s, st) is Ok,
        clear(k, st, (flow_value(k.s, st)->Ok_0).1),
    ensures
        flow_value(k.t, moved_st(k, st)) == Ok::<_, Fail>(
            ((flow_value(k.s, st)->Ok_0).0, moved_st(k, (flow_value(k.s, st)->Ok_0).1)),
        ),
    decreases k.s.len() - st.p, 4int,
{
    unfold_flow_value(k.s, st);
    b_flow_value(k.s, st);
    let st1 = (flow_value(k.s, st)->Ok_0).1;
    let p = past_flow_gap(k.s, st.p);
    if at(k.s, p) == Some(COLON) {
        past_flow_gap_in(k.s, p + 1);
        lemma_bd_ascii(k.s, p);
        let q = past_flow_gap(k.s, p + 1);
        f_sound(k.s, st, q);
        if q < k.s.len() && k.s[q] != COMMA && k.s[q] != RBRACE {
            b_flow_node(k.s, st.to(q));
        }
        assert(q <= st1.p);
        lemma_flow_gap(k, st.p);
        assert(k.s[p] == k.t[k.to(p)]);
        lemma_flow_gap(k, p + 1);
        if q < k.s.len() {
            assert(k.s[q] == k.t[k.to(q)]);
        }
        if k.later(st.p) {
            lemma_later_on(k, st.p, q);
        }
        unfold_flow_value(k.t, moved_st(k, st));
        f_absent(k, st.to(q), q);
        if q < k.s.len() && k.s[q] != COMMA && k.s[q] != RBRACE {
            f_node(k, st.to(q));
        }
    } else {
        assert(st1.p == p);
        lemma_flow_gap(k, st.p);
        if p < k.s.len() {
            assert(k.s[p] == k.t[k.to(p)]);
        }
        unfold_flow_value(k.t, moved_st(k, st));
        f_absent(k, st.to(p), p);
    }
}

pub(crate) proof fn f_seq(k: Cut, t0: Tree, start: int, st: St, vs: Seq<Val>)
    requires
        k.base(),
        within(k.s, t0, start, st, true, false),
        flow_seq(k.s, st, vs) is Ok,
        clear(k, st, (flow_seq(k.s, st, vs)->Ok_0).1),
    ensures
        flow_seq(k.t, moved_st(k, st), vs) == Ok::<_, Fail>(
            ((flow_seq(k.s, st, vs)->Ok_0).0, moved_st(k, (flow_seq(k.s, st, vs)->Ok_0).1)),
        ),
    decreases k.s.len() - st.p, 4int,
{
    unfold_flow_seq(k.s, st, vs);
    unfold_flow_seq(k.t, moved_st(k, st), vs);
    b_flow_seq(k.s, t0, start, st, vs);
    let end = (flow_seq(k.s, st, vs)->Ok_0).1;
    let p = past_flow_gap(k.s, st.p);
    if k.s[p] == RBRACKET {
        lemma_flow_gap(k, st.p);
        assert(k.s[p] == k.t[k.to(p)]);
    } else {
        f_sound(k.s, st, p);
        let st0 = st.to(p);
        b_flow_node(k.s, st0);
        let (v, st1) = flow_node(k.s, st0)->Ok_0;
        lemma_grow_part(k.s, t0, start, st0, st1, true, false);
        let q = past_flow_gap(k.s, st1.p);
        lemma_bd_ascii(k.s, q);
        f_sound(k.s, st1, q + 1);
        if k.s[q] == COMMA {
            b_flow_seq(k.s, t0, start, st1.to(q + 1), vs.push(v));
        } else {
            lemma_kept_same(st1.t, q + 1);
        }
        assert(q < end.p);
        lemma_kept_len(st0.t, st1.t, p);
        lemma_kept_same(end.t, 0);
        lemma_clear_part(k, st, end, st0, st1, q + 1);
        lemma_clear_part(k, st, end, st1.to(q + 1), end, 0);
        if k.later(st.p) {
            lemma_later_on(k, st.p, p);
            lemma_later_on(k, st.p, st1.p);
            lemma_later_on(k, st.p, q + 1);
        }
        lemma_flow_gap(k, st.p);
        assert(k.s[p] == k.t[k.to(p)]);
        f_node(k, st0);
        lemma_flow_gap(k, st1.p);
        assert(k.s[q] == k.t[k.to(q)]);
        assert(k.to(q + 1) == k.to(q) + 1);
        if k.s[q] == COMMA {
            f_seq(k, t0, start, st1.to(q + 1), vs.push(v));
        }
    }
}

pub(crate) proof fn f_map(k: Cut, t0: Tree, start: int, st: St, kvs: Seq<(Val, Val)>, entries: bool)
    requires
        k.base(),
        within(k.s, t0, start, st, true, entries),
        width(st.t) == 0,
        flow_map(k.s, st, kvs) is Ok,
        clear(k, st, (flow_map(k.s, st, kvs)->Ok_0).1),
    ensures
        flow_map(k.t, moved_st(k, st), kvs) == Ok::<_, Fail>(
            ((flow_map(k.s, st, kvs)->Ok_0).0, moved_st(k, (flow_map(k.s, st, kvs)->Ok_0).1)),
        ),
    decreases k.s.len() - st.p, 5int,
{
    unfold_flow_map(k.s, st, kvs);
    unfold_flow_map(k.t, moved_st(k, st), kvs);
    b_flow_map(k.s, t0, start, st, kvs, entries);
    let end = (flow_map(k.s, st, kvs)->Ok_0).1;
    let p = past_flow_gap(k.s, st.p);
    if k.s[p] == RBRACE {
        lemma_flow_gap(k, st.p);
        assert(k.s[p] == k.t[k.to(p)]);
    } else {
        f_sound(k.s, st, p);
        let st0 = st.to(p);
        b_flow_node(k.s, st0);
        let (key, st1) = flow_node(k.s, st0)->Ok_0;
        lemma_grow_part(k.s, t0, start, st0, st1, true, entries);
        lemma_grow_promote(k.s, t0, start, st1, scalar_text(key), true, entries);
        let st2 = st1.with(st1.t.promote(scalar_text(key)));
        b_flow_value(k.s, st2);
        let (v, st3) = flow_value(k.s, st2)->Ok_0;
        lemma_grow_part(k.s, t0, start, st2, st3, true, entries);
        let q = past_flow_gap(k.s, st3.p);
        lemma_bd_ascii(k.s, q);
        f_sound(k.s, st3, q + 1);
        if k.s[q] == COMMA {
            b_flow_map(k.s, t0, start, st3.to(q + 1), kvs.push((key, v)), true);
        } else {
            lemma_kept_same(st3.t, q + 1);
        }
        assert(q < end.p);
        lemma_key_nodes(st1.t, Extent { a: 0, b: 0 }, scalar_text(key));
        lemma_kept_len(st0.t, st1.t, p);
        lemma_kept_len(st2.t, st3.t, st2.p);
        lemma_kept_same(end.t, 0);
        lemma_clear_part(k, st, end, st2, st3, q + 1);
        lemma_kept_from(st3.t, end.t, q + 1, st3.p);
        lemma_kept_nodes(st1.t, st2.t, st3.t, st2.p, st1.p);
        lemma_kept_trans(st1.t, st3.t, end.t, st1.p, st3.p);
        lemma_clear_part(k, st, end, st0, st1, st1.p);
        lemma_clear_part(k, st, end, st3.to(q + 1), end, 0);
        if k.later(st.p) {
            lemma_later_on(k, st.p, p);
            lemma_later_on(k, st.p, st1.p);
            lemma_later_on(k, st.p, st3.p);
            lemma_later_on(k, st.p, q + 1);
        }
        lemma_flow_gap(k, st.p);
        assert(k.s[p] == k.t[k.to(p)]);
        f_node(k, st0);
        m_promote(k, st1.t, k.s, st1.p, scalar_text(key));
        f_value(k, st2);
        lemma_flow_gap(k, st3.p);
        assert(k.s[q] == k.t[k.to(q)]);
        assert(k.to(q + 1) == k.to(q) + 1);
        if k.s[q] == COMMA {
            f_map(k, t0, start, st3.to(q + 1), kvs.push((key, v)), true);
        }
    }
}

pub(crate) proof fn f_collection(k: Cut, st: St)
    requires
        k.base(),
        good(k.s, st),
        at(k.s, st.p) == Some(LBRACKET) || at(k.s, st.p) == Some(LBRACE),
        flow_collection(k.s, st) is Ok,
        clear(k, st, (flow_collection(k.s, st)->Ok_0).1),
    ensures
        flow_collection(k.t, moved_st(k, st)) == Ok::<_, Fail>(
            ((flow_collection(k.s, st)->Ok_0).0, moved_st(k, (flow_collection(k.s, st)->Ok_0).1)),
        ),
    decreases k.s.len() - st.p, 1int,
{
    unfold_flow_collection(k.s, st);
    unfold_flow_collection(k.t, moved_st(k, st));
    b_collection(k.s, st);
    let end = (flow_collection(k.s, st)->Ok_0).1;
    lemma_bd_ascii(k.s, st.p);
    lemma_grow_open(k.s, st, true);
    let t = st.t.open(st.p, true);
    f_sound(k.s, st.with(t), st.p + 1);
    let inner = St { p: st.p + 1, t, ..st };
    assert(k.on(st.p) && st.p != k.a);
    assert(k.s[st.p] == k.t[k.to(st.p)]);
    m_open(k, st.t, st.p, true);
    if k.later(st.p) {
        lemma_later_on(k, st.p, st.p + 1);
    }
    assert(t.stack.len() > 0 && t.stack.last().start == st.p) by {
        reveal(Tree::open);
    }
    if k.s[st.p] == LBRACKET {
        b_flow_seq(k.s, st.t, st.p, inner, Seq::empty());
        let (vs, st1) = flow_seq(k.s, inner, Seq::empty())->Ok_0;
        assert(st.p + 1 <= st1.p);
        assert(inner.t.nodes == st.t.nodes) by {
            reveal(Tree::open);
        }
        assert(st1.t.stack.len() > 0) by {
            reveal(inside);
        }
        lemma_kept_close(st1.t, st1.p, k.s);
        lemma_clear_part(k, st, end, inner, st1, st1.t.stack.last().start);
        f_seq(k, st.t, st.p, inner, Seq::empty());
        assert(st1.t.stack.len() > 0 && st1.t.stack.last().start == st.p) by {
            reveal(inside);
        }
        m_close(k, st1.t, st1.p);
    } else {
        b_flow_map(k.s, st.t, st.p, inner, Seq::empty(), false);
        let (kvs, st1) = flow_map(k.s, inner, Seq::empty())->Ok_0;
        assert(inner.t.nodes == st.t.nodes) by {
            reveal(Tree::open);
        }
        assert(st1.t.stack.len() > 0) by {
            reveal(inside);
        }
        lemma_kept_close(st1.t, st1.p, k.s);
        lemma_clear_part(k, st, end, inner, st1, st1.t.stack.last().start);
        f_map(k, st.t, st.p, inner, Seq::empty(), false);
        assert(st1.t.stack.len() > 0 && st1.t.stack.last().start == st.p) by {
            reveal(inside);
        }
        m_close(k, st1.t, st1.p);
    }
}

} // verus!
