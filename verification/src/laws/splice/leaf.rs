//! The scalar that differs is read in both sources.
use vstd::prelude::*;
use super::super::scalars::{is_foreign, lemma_word, meaning};
use super::super::steps::{step_content_scalar, step_scalar};
use super::super::unfold::{unfold_content, unfold_flow_or_map, unfold_map_from, unfold_scalar_or_map};
use super::basic::{b_collection, b_map_rest, b_value, lemma_key_nodes, lemma_kept_nodes, lemma_open_count, within};
use super::cut::{lemma_white, Cut};
use super::ends::{lemma_quoted_end, lemma_token_bd};
use super::flows::{f_sound, quiet};
use super::growth::{
    frame_is, good, kept, lemma_grow_key, lemma_grow_open, lemma_grow_part, lemma_grow_promote, lemma_kept_same,
    lemma_kept_trans, tail_ends,
};
use super::low::{lemma_no_more, low};
use crate::edit::around::steady;
use super::place::{
    apart, leaf_at, lemma_alias_new, lemma_leaf_new, lemma_near, mid, node_apart, node_free, node_quiet, same,
    scalar_at,
};
use super::inner::{flow_written, free, g_collection, held};
use super::shift::{m_close_leaf, m_dissolve, m_open, moved_entries, moved_st, moved_tree};
use super::turn::{lemma_closed, lemma_raw_quoted, lemma_turned_leaf, lemma_turned_same, turned, was};
use super::words::{lemma_block_in, lemma_folded_in, lemma_lines_in};
use crate::edit::sink::{inside, sound, trimmed, Extent, Tree};
use crate::parser::grammar::{
    content, finish_dict, flow_collection, flow_or_map, map_from, map_rest, map_value, scalar_or_map, St,
};
use crate::parser::layout::{
    bounds, indicator_at, line_blank, line_comment, line_ends, moves, next_line, next_line_in, past_break,
    past_filler, Fail,
};
use crate::parser::tokens::{
    block_depth, block_header, block_lines, block_scalar, past_blank_lines, past_blank_lines_in, past_spaces,
    past_spaces_in, plain_end, plain_folded, plain_glue, plain_goes_on, plain_rest, plain_rest_in, plain_stop,
    plain_text, quoted, token, Block,
};
use crate::text::{
    at, back, is_blank, is_break, lemma_back_stop, lemma_bd_ascii, lemma_run, lemma_run_skip, run, Class, COLON,
    DQUOTE, GREATER, HASH, LBRACE, LBRACKET, PERCENT, PIPE, SQUOTE, STAR,
};
use crate::patterns::resolved;
use crate::value::Val;

verus! {

broadcast use {moves, bounds};

/// Whether the scalar of the second source is read as one, wherever it stands.
pub open spec fn written(k: Cut) -> bool {
    if k.flow() {
        &&& k.s[k.a] == LBRACKET || k.s[k.a] == LBRACE
        &&& k.inner().base()
        &&& flow_written(k.inner())
    } else {
        token_written(k)
    }
}

/// Whether the scalar of the second source is read as one token, and in quotes if
/// the first is.
pub open spec fn token_written(k: Cut) -> bool {
    let t = k.t;
    &&& k.x == k.a && k.y == k.b
    &&& !(t[k.a] == LBRACKET || t[k.a] == LBRACE || t[k.a] == PIPE || t[k.a] == GREATER || t[k.a] == STAR)
    &&& token(t, k.a) is Ok
    &&& k.n == meaning(token(t, k.a)->Ok_0)
    &&& run(t, token(t, k.a)->Ok_0.p, Class::Blank) == run(t, k.c, Class::Blank)
    &&& !is_blank(t[k.c - 1])
    &&& token(t, k.a)->Ok_0.quoted || !(k.s[k.a] == DQUOTE || k.s[k.a] == SQUOTE)
    &&& k.unblocks() ==> steady(k.s, k.a) && at(k.s, past_filler(k.s, k.b)) != Some(PERCENT)
}

/// What is trimmed is blanks and line breaks.
pub(crate) proof fn lemma_trimmed_gap(s: Seq<u8>, a: int, p: int)
    requires
        0 <= a <= p <= s.len(),
    ensures
        a <= trimmed(s, a, p) <= p,
        forall|i: int| trimmed(s, a, p) <= i < p ==> is_blank(#[trigger] s[i]) || is_break(s[i]),
        p > a && !is_break(s[p - 1]) ==> forall|i: int| trimmed(s, a, p) <= i < p ==> is_blank(#[trigger] s[i]),
{
    lemma_back_stop(s, a, p, Class::Breaks);
    let y = back(s, a, p, Class::Breaks);
    lemma_back_stop(s, a, y, Class::Blank);
    assert forall|i: int| trimmed(s, a, p) <= i < p implies is_blank(#[trigger] s[i]) || is_break(s[i]) by {
        if i < y {
            assert(Class::Blank.holds(s[i]));
        } else {
            assert(Class::Breaks.holds(s[i]));
        }
    }
    if p > a && !is_break(s[p - 1]) {
        if y < p {
            assert(Class::Breaks.holds(s[p - 1]));
        }
        assert forall|i: int| trimmed(s, a, p) <= i < p implies is_blank(#[trigger] s[i]) by {
            assert(Class::Blank.holds(s[i]));
        }
    }
}

proof fn lemma_run_exact(s: Seq<u8>, p: int, c: Class, e: int)
    requires
        0 <= p <= e <= s.len(),
        forall|i: int| p <= i < e ==> c.holds(#[trigger] s[i]),
        e == s.len() || !c.holds(s[e]),
    ensures
        run(s, p, c) == e,
    decreases e - p,
{
    if p < e {
        lemma_run_exact(s, p + 1, c, e);
    }
}

/// A plain scalar does not end in a line break.
pub(crate) proof fn lemma_plain_last(s: Seq<u8>, p: int, flow: bool)
    requires
        0 <= p <= s.len(),
        plain_rest(s, p, flow) > p,
    ensures
        !is_break(s[plain_rest(s, p, flow) - 1]),
    decreases s.len() - p,
{
    plain_rest_in(s, p + 1, flow);
    if plain_rest(s, p + 1, flow) > p + 1 {
        lemma_plain_last(s, p + 1, flow);
    }
}

/// Blanks do not end in a line break.
pub(crate) proof fn lemma_blank_last(s: Seq<u8>, p: int)
    requires
        0 < p <= s.len(),
        !is_break(s[p - 1]),
    ensures
        !is_break(s[run(s, p, Class::Blank) - 1]),
        run(s, p, Class::Blank) == s.len() || !is_blank(s[run(s, p, Class::Blank)]),
{
    lemma_run(s, p, Class::Blank);
    let q = run(s, p, Class::Blank);
    if q > p {
        assert(Class::Blank.holds(s[q - 1]));
    }
}

/// A plain scalar with its continuation lines ends in blanks or a word.
pub(crate) proof fn lemma_folded_last(s: Seq<u8>, text: Seq<u8>, p: int, m: int)
    requires
        0 < p <= s.len(),
        !is_break(s[p - 1]),
        p == s.len() || !is_blank(s[p]),
    ensures
        match plain_folded(s, text, p, m) {
            Ok((_, e)) => 0 < e <= s.len() && !is_break(s[e - 1]) && (e == s.len() || !is_blank(s[e])) && p <= e,
            Err(_) => true,
        },
        match plain_folded(s, text, p, m) {
            Ok((u, e)) => plain_folded(s, u, e, m) == Ok::<_, Fail>((u, e)),
            Err(_) => true,
        },
    decreases s.len() - p,
{
    let l = past_break(s, p);
    let q = past_blank_lines(s, l);
    past_blank_lines_in(s, l);
    if plain_goes_on(s, p, q, m) {
        let c = run(s, q, Class::Blank);
        lemma_run(s, q, Class::Blank);
        plain_rest_in(s, c, false);
        let stop = plain_stop(s, c, false);
        let e = run(s, stop, Class::Blank);
        if !indicator_at(s, e, COLON) {
            // The line has content.
            assert(c < s.len() && !is_break(s[c])) by {
                lemma_not_blank(s, l);
            }
            plain_rest_in(s, c + 1, false);
            if stop > c {
                lemma_plain_last(s, c, false);
            } else {
                assert(e == c);
                assert(s[c] == COLON && crate::parser::layout::gap_at(s, c + 1));
            }
            lemma_blank_last(s, stop);
            let more = text + plain_glue(crate::parser::tokens::blank_lines(s, l)) + plain_text(s, c, false);
            lemma_folded_last(s, more, e, m);
        }
    }
}

/// After the blank lines comes a line that is not blank, or the end.
proof fn lemma_not_blank(s: Seq<u8>, l: int)
    requires
        0 <= l <= s.len(),
    ensures
        past_blank_lines(s, l) < s.len() ==> !line_blank(s, past_blank_lines(s, l)),
    decreases s.len() - l,
{
    if l < s.len() && line_blank(s, l) {
        next_line_in(s, l);
        lemma_not_blank(s, next_line(s, l));
    }
}

/// A line that holds nothing but white space is passed.
proof fn lemma_gap_line(s: Seq<u8>, l: int, x: int)
    requires
        0 <= l <= x < next_line(s, l) <= s.len(),
        forall|i: int| x <= i < next_line(s, l) ==> is_blank(#[trigger] s[i]) || is_break(s[i]),
    ensures
        past_filler(s, x) == past_filler(s, next_line(s, l)),
{
    let e = run(s, l, Class::Line);
    lemma_run(s, l, Class::Line);
    let n = next_line(s, l);
    if x <= e {
        lemma_run_skip(s, l, x, Class::Line);
        assert(next_line(s, x) == n);
        assert forall|i: int| x <= i < e implies Class::Blank.holds(#[trigger] s[i]) by {
            assert(Class::Line.holds(s[i]));
            assert(is_blank(s[i]) || is_break(s[i]));
        }
        lemma_run_exact(s, x, Class::Blank, e);
        assert(line_blank(s, x));
    } else {
        assert(is_break(s[x]));
        assert(run(s, x, Class::Blank) == x);
        assert(run(s, x, Class::Line) == x);
        assert(next_line(s, x) == n);
    }
}

/// The white space at the end of a block scalar is filler.
proof fn lemma_lines_fill(s: Seq<u8>, l: int, d: int, folded: bool, b: Block, x: int)
    requires
        0 <= l <= x <= block_lines(s, l, d, folded, b).1,
        l <= s.len(),
        forall|i: int| x <= i < block_lines(s, l, d, folded, b).1 ==> is_blank(#[trigger] s[i]) || is_break(s[i]),
    ensures
        past_filler(s, x) == past_filler(s, block_lines(s, l, d, folded, b).1),
        block_lines(s, l, d, folded, b).1 == l || block_lines(s, l, d, folded, b).1 == s.len() || is_break(
            s[block_lines(s, l, d, folded, b).1 - 1],
        ),
    decreases s.len() - l,
{
    let q = past_spaces(s, l, d);
    let r = block_lines(s, l, d, folded, b).1;
    lemma_lines_in(s, l, d, folded, b);
    if l < s.len() && r != l {
        past_spaces_in(s, l, d);
        let n = next_line(s, l);
        next_line_in(s, l);
        let more = is_blank(s[q]);
        let e = run(s, q, Class::Line);
        let c = if line_ends(s, q) || (q - l < d && line_blank(s, q)) {
            Block { empties: b.empties + 1, ..b }
        } else {
            Block {
                text: b.text + crate::parser::tokens::block_glue(b, folded, more) + s.subrange(q, e),
                empties: 0,
                any: true,
                more,
            }
        };
        assert(block_lines(s, l, d, folded, b) == block_lines(s, n, d, folded, c));
        lemma_lines_in(s, n, d, folded, c);
        if x >= n {
            lemma_lines_fill(s, n, d, folded, c, x);
        } else {
            lemma_lines_fill(s, n, d, folded, c, n);
            lemma_gap_line(s, l, x);
        }
        if r == n && n < s.len() {
            lemma_run(s, l, Class::Line);
        }
    }
}

/// What follows a block scalar is what follows its last line.
proof fn lemma_block_fill(s: Seq<u8>, a: int, m: int, b: int)
    requires
        0 <= a < s.len(),
        s[a] == PIPE || s[a] == GREATER,
        block_scalar(s, a, m) is Ok,
        trimmed(s, a, (block_scalar(s, a, m)->Ok_0).1) == b,
        a < b,
        !is_break(s[b - 1]),
    ensures
        ({
            let r = (block_scalar(s, a, m)->Ok_0).1;
            &&& b <= r <= s.len()
            &&& past_filler(s, b) == past_filler(s, r)
            &&& r == s.len() || (b < r && is_break(s[r - 1]))
        }),
{
    let (chomp, asked, h) = block_header(s, a + 1);
    let q = run(s, h, Class::Blank);
    let e = if at(s, q) == Some(HASH) && h < q {
        run(s, q, Class::Line)
    } else {
        q
    };
    let l = past_break(s, e);
    let d = block_depth(s, l, asked, m);
    let none = Block { text: Seq::empty(), empties: 0, any: false, more: false };
    let folded = s[a] == GREATER;
    let r = block_lines(s, l, d, folded, none).1;
    lemma_block_in(s, a, m);
    lemma_lines_in(s, l, d, folded, none);
    lemma_trimmed_gap(s, a, r);
    if b >= l {
        lemma_lines_fill(s, l, d, folded, none, b);
        if r == l && r < s.len() {
            assert(is_break(s[l - 1]));
            assert(b == r);
        }
    } else {
        lemma_lines_fill(s, l, d, folded, none, l);
        // The header is all there is.
        assert(b <= e) by {
            if b > e {
                assert(is_break(s[b - 1]));
            }
        }
        assert forall|i: int| b <= i < e implies Class::Blank.holds(#[trigger] s[i]) by {
            assert(is_blank(s[i]) || is_break(s[i]));
            lemma_run(s, h, Class::Blank);
            lemma_run(s, q, Class::Line);
            if i >= q {
                assert(Class::Line.holds(s[i]));
            } else if i >= h {
                assert(Class::Blank.holds(s[i]));
            }
        }
        lemma_run_exact(s, b, Class::Blank, e);
        assert(line_blank(s, b));
        assert forall|i: int| b <= i < e implies Class::Line.holds(#[trigger] s[i]) by {
            assert(Class::Blank.holds(s[i]));
        }
        lemma_run_exact(s, b, Class::Line, e);
        assert(next_line(s, b) == l);
    }
}

/// A mapping's node comes after the nodes of its entries, and is no leaf.
pub open spec fn closes_map(t: Tree, end: Tree, from: int) -> bool {
    &&& t.nodes.len() < end.nodes.len()
    &&& forall|i: int| 0 <= i < t.nodes.len() ==> #[trigger] end.nodes[i] == t.nodes[i]
    &&& forall|i: int| t.nodes.len() <= i < end.nodes.len() - 1 ==> (#[trigger] end.nodes[i]).span.a >= from
    &&& end.nodes.last().shape is Entries
}

pub(crate) proof fn lemma_map_close(s: Seq<u8>, st: St, st1: St, n: int, kvs: Seq<(Val, Val)>)
    requires
        good(s, st),
        within(s, st.t, st.p, st1, false, true),
        tail_ends(st.t, st1.t),
        st.p < st1.p,
        map_from(s, st.p, st1, n, kvs) is Ok,
    ensures
        closes_map(st1.t, (map_from(s, st.p, st1, n, kvs)->Ok_0).1.t, st1.p),
        ({
            let st2 = (map_rest(s, st1, n, kvs)->Ok_0).1;
            let end = (map_from(s, st.p, st1, n, kvs)->Ok_0).1;
            &&& map_rest(s, st1, n, kvs) is Ok
            &&& map_from(s, st.p, st1, n, kvs) == finish_dict(s, map_rest(s, st1, n, kvs))
            &&& end.t.nodes.last().shape->Entries_0 == st2.t.stack.last().entries
            &&& end.t.nodes.len() == st2.t.nodes.len() + 1
            &&& st2.p == end.p
            &&& kept(st2.t, end.t, st.p)
        }),
{
    unfold_map_from(s, st.p, st1, n, kvs);
    b_map_rest(s, st.t, st.p, st1, n, kvs);
    let (all, st2) = map_rest(s, st1, n, kvs)->Ok_0;
    let end = st2.t.close(st2.p, s);
    reveal(Tree::close);
    reveal(frame_is);
    reveal(kept);
    reveal(inside);
    assert(st2.t.stack.last().entries.len() > 0);
    assert(end.nodes.len() == st2.t.nodes.len() + 1);
    assert forall|i: int| 0 <= i < st2.t.nodes.len() implies #[trigger] end.nodes[i] == st2.t.nodes[i] by {}
    assert forall|i: int| 0 <= i < st1.t.nodes.len() implies #[trigger] end.nodes[i] == st1.t.nodes[i] by {
        assert(st2.t.nodes[i] == st1.t.nodes[i]);
    }
    assert forall|i: int| st1.t.nodes.len() <= i < end.nodes.len() - 1 implies (#[trigger] end.nodes[i]).span.a
        >= st1.p by {
        assert(st2.t.nodes[i].span.a >= st1.p);
    }
}

/// The scalar is not among what a mapping that begins with it as a key holds.
proof fn lemma_not_map(k: Cut, id: int, st: St, st1: St, st2: St, end: Tree)
    requires
        !k.flow(),
        k.a == k.x,
        k.a < st1.p <= st2.p,
        st1.t.nodes == st.t.nodes,
        kept(st1.t, st2.t, st1.p),
        closes_map(st2.t, end, st2.p),
        mid(id, st.t, end),
    ensures
        !leaf_at(k, end, id),
{
    reveal(kept);
    if id < st2.t.nodes.len() {
        assert(end.nodes[id] == st2.t.nodes[id]);
        assert(st2.t.nodes[id].span.a >= st1.p);
    } else if id < end.nodes.len() - 1 {
        assert(end.nodes[id].span.a >= st2.p);
    } else {
        assert(end.nodes[id] == end.nodes.last());
    }
}

/// Reading a flow collection leaves a delimited node that begins there.
pub(crate) proof fn lemma_flow_node_left(s: Seq<u8>, st: St, n: int)
    requires
        good(s, st),
        at(s, st.p) == Some(LBRACKET) || at(s, st.p) == Some(LBRACE),
        flow_or_map(s, st, n) is Ok,
    ensures
        ({
            let inner = st.with(st.t.open(st.p, false));
            let st1 = (flow_collection(s, inner)->Ok_0).1;
            let end = (flow_or_map(s, st, n)->Ok_0).1;
            &&& flow_collection(s, inner) is Ok
            &&& kept(st1.t, end.t, st.p)
            &&& st.p < st1.p <= end.p
            &&& st.t.nodes.len() < st1.t.nodes.len()
            &&& exists|i: int|
                st.t.nodes.len() <= i < st1.t.nodes.len() && (#[trigger] st1.t.nodes[i]).delimited
                    && st1.t.nodes[i].span.a == st.p && st1.t.nodes[i].span.b == st1.p
        }),
{
    unfold_flow_or_map(s, st, n);
    lemma_grow_open(s, st, false);
    lemma_open_count(st.t, st.p, false);
    let inner = st.with(st.t.open(st.p, false));
    b_collection(s, inner);
    let (v, st1) = flow_collection(s, inner)->Ok_0;
    let id = st1.t.last->0;
    assert(st.t.nodes.len() <= id < st1.t.nodes.len()) by {
        reveal(crate::edit::sink::grew);
    }
    assert(st1.t.nodes[id].delimited);
    let p = run(s, st1.p, Class::Blank);
    lemma_key_nodes(st1.t, Extent { a: 0, b: 0 }, None);
    lemma_kept_same(st1.t, st.p);
    if !indicator_at(s, p, COLON) {
        lemma_kept_same_nodes(st1.t, st1.t.dissolve(), st.p);
    } else {
        lemma_bd_ascii(s, p);
        f_sound(s, st1, p + 1);
        lemma_grow_part(s, st.t, st.p, inner, st1, false, false);
        crate::edit::sink::lemma_width(inner.t);
        lemma_grow_promote(s, st.t, st.p, st1.to(p + 1), None, false, false);
        let st2 = St { p: p + 1, t: st1.t.promote(None), ..st1 };
        b_value(s, st2, n);
        let (w, st3) = map_value(s, st2, n)->Ok_0;
        lemma_grow_part(s, st.t, st.p, st2, st3, false, false);
        lemma_map_close(s, st, st3, n, seq![(v, w)]);
        b_map_rest(s, st.t, st.p, st3, n, seq![(v, w)]);
        let end = (flow_or_map(s, st, n)->Ok_0).1;
        lemma_kept_nodes(st1.t, st2.t, st3.t, st2.p, st.p);
        let st4 = (map_rest(s, st3, n, seq![(v, w)])->Ok_0).1;
        lemma_kept_trans(st1.t, st3.t, st4.t, st.p, st3.p);
        lemma_kept_trans(st1.t, st4.t, end.t, st.p, st.p);
    }
}

proof fn lemma_kept_same_nodes(t: Tree, u: Tree, from: int)
    requires
        t.nodes == u.nodes,
    ensures
        kept(t, u, from),
{
    reveal(kept);
}

/// A flow collection does not begin where the scalar does.
proof fn lemma_no_flow(k: Cut, st: St, st1: St, end: St)
    requires
        st.p <= k.a < st1.p,
        st.p < k.a || !k.flow(),
        kept(st1.t, end.t, st.p),
        exists|i: int|
            st.t.nodes.len() <= i < st1.t.nodes.len() && (#[trigger] st1.t.nodes[i]).delimited && st1.t.nodes[i].span.a
                == st.p && st1.t.nodes[i].span.b == st1.p,
    ensures
        !apart(k, end.t, st.t.nodes.len() as int),
{
    reveal(apart);
    reveal(kept);
    let i = choose|i: int|
        st.t.nodes.len() <= i < st1.t.nodes.len() && (#[trigger] st1.t.nodes[i]).delimited && st1.t.nodes[i].span.a
            == st.p && st1.t.nodes[i].span.b == st1.p;
    assert(end.t.nodes[i] == st1.t.nodes[i]);
    assert(!node_apart(k, end.t.nodes[i]));
}

/// No flow collection covers the scalar.
pub(crate) proof fn lemma_flow_apart(k: Cut, id: int, st: St, n: int)
    requires
        k.ok(),
        good(k.s, st),
        at(k.s, st.p) == Some(LBRACKET) || at(k.s, st.p) == Some(LBRACE),
        flow_or_map(k.s, st, n) is Ok,
        st.p < k.a || (!k.flow() && st.p == k.a),
        apart(k, (flow_or_map(k.s, st, n)->Ok_0).1.t, st.t.nodes.len() as int),
    ensures
        (flow_collection(k.s, st.with(st.t.open(st.p, false)))->Ok_0).1.p <= k.a,
{
    lemma_flow_node_left(k.s, st, n);
    let st1 = (flow_collection(k.s, st.with(st.t.open(st.p, false)))->Ok_0).1;
    if st1.p > k.a {
        lemma_no_flow(k, st, st1, (flow_or_map(k.s, st, n)->Ok_0).1);
    }
}

/// The scalar of the first source is a leaf from `a` to `b`, read up to `p`.
pub open spec fn read_leaf(k: Cut, st: St, r: Result<(Val, St), Fail>, p: int) -> bool {
    &&& r is Ok
    &&& (r->Ok_0).1 == (St { p, t: st.t.open(st.p, false).close(p, k.s), ..st })
    &&& k.a <= p <= k.s.len()
    &&& trimmed(k.s, k.a, p) == k.b
}

proof fn lemma_leaf_place(k: Cut, id: int, st: St, p: int)
    requires
        st.p == k.a,
        k.a < k.b,
        0 <= k.a <= p <= k.s.len(),
        mid(id, st.t, st.t.open(st.p, false).close(p, k.s)),
        leaf_at(k, st.t.open(st.p, false).close(p, k.s), id),
    ensures
        trimmed(k.s, k.a, p) == k.b,
{
    lemma_leaf_new(st.t, st.p, p, k.s);
}

/// The plain scalar of the first source, and what comes after it.
proof fn lemma_first_plain(k: Cut, id: int, st: St, n: int, m: int)
    requires
        k.ok(),
        k.x == k.a && k.y == k.b,
        good(k.s, st),
        st.p == k.a,
        scalar_or_map(k.s, st, n, m) is Ok,
        mid(id, st.t, (scalar_or_map(k.s, st, n, m)->Ok_0).1.t),
        leaf_at(k, (scalar_or_map(k.s, st, n, m)->Ok_0).1.t, id),
    ensures
        ({
            let p = (scalar_or_map(k.s, st, n, m)->Ok_0).1.p;
            let x = token(k.s, k.a)->Ok_0;
            &&& token(k.s, k.a) is Ok
            &&& read_leaf(k, st, scalar_or_map(k.s, st, n, m), p)
            &&& p == run(k.s, k.b, Class::Blank)
            &&& !x.quoted ==> stays(k, p, m)
            &&& was(k, (scalar_or_map(k.s, st, n, m)->Ok_0).0)
        }),
{
    let s = k.s;
    unfold_scalar_or_map(s, st, n, m);
    lemma_token_bd(s, st.p);
    let x = token(s, st.p)->Ok_0;
    let p = run(s, x.p, Class::Blank);
    let end = (scalar_or_map(s, st, n, m)->Ok_0).1;
    lemma_grow_open(s, st, false);
    lemma_open_count(st.t, st.p, false);
    let t = st.t.open(st.p, false);
    if indicator_at(s, p, COLON) {
        // It would be a key.
        lemma_bd_ascii(s, p);
        let inner = st.with(t);
        f_sound(s, inner, p + 1);
        let ext = Extent { a: st.p, b: x.end };
        lemma_grow_key(s, st.t, st.p, inner.to(p + 1), ext, Some(x.text), false, false);
        lemma_key_nodes(t, ext, Some(x.text));
        let st1 = St { p: p + 1, t: t.key(ext, Some(x.text)), ..st };
        b_value(s, st1, n);
        let (v, st2) = map_value(s, st1, n)->Ok_0;
        lemma_grow_part(s, st.t, st.p, st1, st2, false, false);
        let key = if x.quoted {
            Val::Str(x.text)
        } else {
            crate::patterns::resolved(x.text)
        };
        lemma_map_close(s, st, st2, n, seq![(key, v)]);
        lemma_not_map(k, id, st, st1, st2, end.t);
    }
    if x.quoted {
        super::ends::lemma_quoted_bd(s, st.p, s[st.p] == DQUOTE);
        lemma_quoted_last(s, st.p, s[st.p] == DQUOTE);
        lemma_blank_last(s, x.p);
        lemma_leaf_place(k, id, st, p);
        lemma_tail_run(k, p);
        assert(k.b == x.p) by {
            lemma_quoted_end(s, st.p + 1, crate::parser::layout::col_at(s, st.p), s[st.p] == DQUOTE, Seq::empty());
            lemma_trimmed_gap(s, k.a, p);
            lemma_run(s, x.p, Class::Blank);
            lemma_back_stop(s, k.a, back(s, k.a, p, Class::Breaks), Class::Blank);
            if k.b > x.p {
                assert(Class::Blank.holds(s[k.b - 1]));
            }
            if k.b < x.p {
                assert(is_blank(s[x.p - 1]));
            }
        }
        lemma_raw_quoted(s, k.a, k.b);
    } else {
        assert(x.p > st.p && !is_break(s[x.p - 1])) by {
            plain_rest_in(s, st.p + 1, false);
            if plain_rest(s, st.p, false) == st.p {
                assert(s[st.p] == COLON && crate::parser::layout::gap_at(s, st.p + 1));
            } else {
                lemma_plain_last(s, st.p, false);
            }
        }
        lemma_blank_last(s, x.p);
        lemma_folded_last(s, x.text, p, m);
        lemma_folded_in(s, x.text, p, m);
        let (u, q) = plain_folded(s, x.text, p, m)->Ok_0;
        lemma_leaf_place(k, id, st, q);
        lemma_tail_run(k, q);
        lemma_stays(k, u, q, m);
        lemma_plain_was(k, u, q, m);
    }
}

/// What a plain scalar with continuation lines is read as.
proof fn lemma_folded_grows(s: Seq<u8>, text: Seq<u8>, p: int, m: int)
    requires
        0 < p <= s.len(),
        plain_folded(s, text, p, m) is Ok,
    ensures
        ({
            let (u, e) = plain_folded(s, text, p, m)->Ok_0;
            &&& u == text && e == p || {
                &&& text.len() < u.len()
                &&& is_foreign(u[text.len() as int])
                &&& p < e && p < s.len() && is_break(s[p])
            }
        }),
    decreases s.len() - p,
{
    let l = past_break(s, p);
    let q = past_blank_lines(s, l);
    past_blank_lines_in(s, l);
    if plain_goes_on(s, p, q, m) {
        let c = run(s, q, Class::Blank);
        plain_rest_in(s, c, false);
        let e = run(s, plain_stop(s, c, false), Class::Blank);
        let more = text + plain_glue(crate::parser::tokens::blank_lines(s, l)) + plain_text(s, c, false);
        lemma_folded_grows(s, more, e, m);
        lemma_folded_in(s, more, e, m);
        let u = (plain_folded(s, text, p, m)->Ok_0).0;
        lemma_blank_count(s, l);
        assert(is_foreign(more[text.len() as int]));
        lemma_folded_prefix(s, more, e, m);
        assert(u[text.len() as int] == more[text.len() as int]);
    }
}

/// A number of lines is not negative.
proof fn lemma_blank_count(s: Seq<u8>, l: int)
    requires
        0 <= l <= s.len(),
    ensures
        crate::parser::tokens::blank_lines(s, l) >= 0,
    decreases s.len() - l,
{
    if l < s.len() && line_blank(s, l) {
        next_line_in(s, l);
        lemma_blank_count(s, next_line(s, l));
    }
}

/// Continuation lines come after what was read.
proof fn lemma_folded_prefix(s: Seq<u8>, text: Seq<u8>, p: int, m: int)
    requires
        0 <= p <= s.len(),
        plain_folded(s, text, p, m) is Ok,
    ensures
        text.is_prefix_of((plain_folded(s, text, p, m)->Ok_0).0),
    decreases s.len() - p,
{
    let l = past_break(s, p);
    let q = past_blank_lines(s, l);
    past_blank_lines_in(s, l);
    if plain_goes_on(s, p, q, m) {
        let c = run(s, q, Class::Blank);
        plain_rest_in(s, c, false);
        let e = run(s, plain_stop(s, c, false), Class::Blank);
        let more = text + plain_glue(crate::parser::tokens::blank_lines(s, l)) + plain_text(s, c, false);
        lemma_folded_prefix(s, more, e, m);
    }
}

/// The bytes of a plain scalar say what it was read as, if they are on one line.
pub(crate) proof fn lemma_plain_was(k: Cut, u: Seq<u8>, q: int, m: int)
    requires
        0 <= k.a < k.b <= k.s.len(),
        k.x == k.a && k.y == k.b,
        !(k.s[k.a] == DQUOTE || k.s[k.a] == SQUOTE),
        ({
            let p = run(k.s, plain_stop(k.s, k.a, false), Class::Blank);
            &&& k.a < p
            &&& plain_folded(k.s, plain_text(k.s, k.a, false), p, m) == Ok::<_, Fail>((u, q))
        }),
        trimmed(k.s, k.a, q) == k.b,
        q <= k.s.len(),
        !is_break(k.s[q - 1]),
        k.a < q,
    ensures
        was(k, resolved(u)),
{
    let s = k.s;
    let stop = plain_stop(s, k.a, false);
    plain_rest_in(s, k.a, false);
    let p = run(s, stop, Class::Blank);
    let text = plain_text(s, k.a, false);
    let raw = s.subrange(k.a, k.b);
    assert(raw[0] == s[k.a]);
    lemma_folded_grows(s, text, p, m);
    lemma_trimmed_gap(s, k.a, q);
    lemma_run(s, stop, Class::Blank);
    lemma_back_stop(s, k.a, stop, Class::Blank);
    if q == p {
        let e = plain_end(s, k.a, false);
        assert(k.b == e) by {
            assert(back(s, k.a, q, Class::Breaks) == q);
            lemma_back_stop(s, k.a, q, Class::Blank);
            if e > k.a && k.b < e {
                assert(is_blank(s[e - 1]));
            }
            if e < k.b {
                if k.b - 1 >= stop {
                    assert(Class::Blank.holds(s[k.b - 1]));
                } else {
                    assert(Class::Blank.holds(s[k.b - 1]));
                }
            }
        }
    } else {
        lemma_word(u, text.len() as int);
        assert(p < k.b) by {
            assert(is_break(s[p]));
            if k.b <= p {
                assert(is_blank(s[p]));
            }
        }
        assert(raw[p - k.a] == s[p]);
        lemma_word(raw, p - k.a);
    }
}

/// A quoted scalar ends in its quote.
pub(crate) proof fn lemma_quoted_last(s: Seq<u8>, p: int, double: bool)
    requires
        crate::text::is_text(s),
        0 <= p < s.len(),
        quoted(s, p, double) is Ok,
    ensures
        !is_break(s[(quoted(s, p, double)->Ok_0).1 - 1]),
        p < (quoted(s, p, double)->Ok_0).1 <= s.len(),
{
    super::ends::lemma_quoted_end(s, p + 1, crate::parser::layout::col_at(s, p), double, Seq::empty());
}

/// The cursor stands after the blanks that follow the scalar.
proof fn lemma_tail_run(k: Cut, p: int)
    requires
        k.ok(),
        k.a < p <= k.s.len(),
        trimmed(k.s, k.a, p) == k.b,
        !is_break(k.s[p - 1]),
        p == k.s.len() || !is_blank(k.s[p]),
    ensures
        run(k.s, k.b, Class::Blank) == p,
{
    lemma_trimmed_gap(k.s, k.a, p);
    assert forall|i: int| k.b <= i < p implies Class::Blank.holds(#[trigger] k.s[i]) by {
        assert(is_blank(k.s[i]));
    }
    lemma_run_exact(k.s, k.b, Class::Blank, p);
}

/// The scalar of the second source is read as one leaf up to the rest of its line.
proof fn lemma_second(k: Cut, st2: St, n: int, m: int)
    requires
        k.ok(),
        token_written(k),
        st2.p == k.a,
        token(k.t, k.a)->Ok_0.quoted || stays(k, run(k.s, k.b, Class::Blank), m),
    ensures
        ({
            let q = run(k.t, k.c, Class::Blank);
            let r = content(k.t, st2, n, m);
            &&& r is Ok
            &&& r->Ok_0 == (k.n, St { p: q, t: st2.t.open(k.a, false).close(q, k.t), ..st2 })
            &&& trimmed(k.t, k.a, q) == k.c
            &&& q == k.to(run(k.s, k.b, Class::Blank))
            &&& k.c <= q <= k.t.len()
        }),
{
    let x = token(k.t, k.a)->Ok_0;
    let q = run(k.t, k.c, Class::Blank);
    let p = run(k.s, k.b, Class::Blank);
    lemma_white(k, k.b, Class::Blank);
    lemma_run(k.t, k.c, Class::Blank);
    lemma_run(k.s, k.b, Class::Blank);
    // What follows is no colon.
    assert(!indicator_at(k.t, q, COLON));
    step_content_scalar(k.t, st2, n, m);
    step_scalar(k.t, st2, n, m, x);
    if !x.quoted {
        super::words::lemma_goes_on(k, p, m);
    }
    // It ends where it was written.
    assert(trimmed(k.t, k.a, q) == k.c) by {
        lemma_back_stop(k.t, k.a, q, Class::Breaks);
        if q > k.c {
            assert(Class::Blank.holds(k.t[q - 1]));
        }
        assert(back(k.t, k.a, q, Class::Breaks) == q);
        lemma_back_stop(k.t, k.a, q, Class::Blank);
        let e = back(k.t, k.a, q, Class::Blank);
        if e < k.c {
            assert(Class::Blank.holds(k.t[k.c - 1]));
        }
        if e > k.c {
            assert(Class::Blank.holds(k.t[e - 1]));
        }
    }
}

/// Whether no plain scalar goes on after `p`.
pub open spec fn stays(k: Cut, p: int, m: int) -> bool {
    !plain_goes_on(k.s, p, past_blank_lines(k.s, past_break(k.s, p)), m)
}

/// A plain scalar that was read to its end does not go on.
proof fn lemma_stays(k: Cut, u: Seq<u8>, p: int, m: int)
    requires
        0 <= p <= k.s.len(),
        plain_folded(k.s, u, p, m) == Ok::<_, Fail>((u, p)),
    ensures
        stays(k, p, m),
{
    let l = past_break(k.s, p);
    let q = past_blank_lines(k.s, l);
    past_blank_lines_in(k.s, l);
    if plain_goes_on(k.s, p, q, m) {
        let c = run(k.s, q, Class::Blank);
        plain_rest_in(k.s, c, false);
        let e = run(k.s, plain_stop(k.s, c, false), Class::Blank);
        if !indicator_at(k.s, e, COLON) {
            lemma_folded_in(
                k.s,
                u + plain_glue(crate::parser::tokens::blank_lines(k.s, l)) + plain_text(k.s, c, false),
                e,
                m,
            );
        }
        assert(false);
    }
}

/// The scalar that differs is read as one leaf in both sources.
proof fn x_scalar(k: Cut, id: int, st: St, n: int, m: int)
    requires
        k.ok(),
        token_written(k),
        good(k.s, st),
        st.p == k.a,
        content(k.s, st, n, m) is Ok,
        mid(id, st.t, (content(k.s, st, n, m)->Ok_0).1.t),
        leaf_at(k, (content(k.s, st, n, m)->Ok_0).1.t, id),
        apart(k, (content(k.s, st, n, m)->Ok_0).1.t, st.t.nodes.len() as int),
        k.unblocks() ==> low(k.s, (content(k.s, st, n, m)->Ok_0).1.p, m),
    ensures
        same(k, id, st, content(k.s, st, n, m), content(k.t, moved_st(k, st), n, m)),
{
    let s = k.s;
    unfold_content(s, st, n, m);
    let end = (content(s, st, n, m)->Ok_0).1;
    let c = s[k.a];
    let st2 = moved_st(k, st);
    if c == LBRACKET || c == LBRACE {
        lemma_flow_apart(k, id, st, n);
        lemma_flow_node_left(s, st, n);
        assert(false);
    } else if c == STAR {
        let q = run(s, st.p + 1, Class::Name);
        lemma_alias_new(st.t, st.p, q, s, s.subrange(st.p + 1, q));
        assert(false);
    } else if c == PIPE || c == GREATER {
        lemma_block_in(s, st.p, m);
        let (u, r) = block_scalar(s, st.p, m)->Ok_0;
        lemma_leaf_place(k, id, st, r);
        lemma_block_fill(s, k.a, m, k.b);
        if k.unblocks() {
            lemma_no_more(s, k.b, m);
        }
        lemma_second(k, st2, n, m);
        let q = run(k.t, k.c, Class::Blank);
        let y = run(s, k.b, Class::Blank);
        lemma_leaf_trees(k, st, r, q);
        lemma_block_was(k, u);
        lemma_leaf_turned(k, id, st, r, Val::Str(u));
        // The rest of the line is filler.
        lemma_near(k, y);
        lemma_rest_fill(k);
        assert(k.after(r)) by {
            if r < s.len() {
                assert(k.b <= r - 1 < r && is_break(s[r - 1]));
                assert(k.later(r));
            }
        }
    } else {
        lemma_first_plain(k, id, st, n, m);
        let p = run(s, k.b, Class::Blank);
        lemma_second(k, st2, n, m);
        let q = run(k.t, k.c, Class::Blank);
        lemma_leaf_trees(k, st, p, q);
        lemma_near(k, p);
        lemma_leaf_turned(k, id, st, p, (content(s, st, n, m)->Ok_0).0);
    }
}

/// What differs is read as one node in both sources.
pub(crate) proof fn x_leaf(k: Cut, id: int, st: St, n: int, m: int)
    requires
        k.ok(),
        written(k),
        good(k.s, st),
        st.p == k.a,
        content(k.s, st, n, m) is Ok,
        mid(id, st.t, (content(k.s, st, n, m)->Ok_0).1.t),
        leaf_at(k, (content(k.s, st, n, m)->Ok_0).1.t, id),
        apart(k, (content(k.s, st, n, m)->Ok_0).1.t, st.t.nodes.len() as int),
        k.unblocks() ==> low(k.s, (content(k.s, st, n, m)->Ok_0).1.p, m),
    ensures
        same(k, id, st, content(k.s, st, n, m), content(k.t, moved_st(k, st), n, m)),
{
    if k.flow() {
        x_flow(k, id, st, n, m);
    } else {
        x_scalar(k, id, st, n, m);
    }
}

/// The scalar's own node.
proof fn lemma_leaf_turned(k: Cut, id: int, st: St, p: int, v: Val)
    requires
        !k.flow(),
        was(k, v),
        mid(id, st.t, st.t.open(st.p, false).close(p, k.s)),
        leaf_at(k, st.t.open(st.p, false).close(p, k.s), id),
    ensures
        turned(k, st.t.open(st.p, false).close(p, k.s), v, k.n),
{
    lemma_leaf_new(st.t, st.p, p, k.s);
    assert(st.t.open(st.p, false).stack.len() > 0 && st.t.open(st.p, false).nodes == st.t.nodes) by {
        reveal(Tree::open);
    }
    lemma_closed(st.t.open(st.p, false), p, k.s);
    lemma_turned_leaf(k, st.t.open(st.p, false).close(p, k.s), v);
}

/// A block scalar is a string.
pub(crate) proof fn lemma_block_was(k: Cut, u: Seq<u8>)
    requires
        0 <= k.a < k.b <= k.s.len(),
        k.x == k.a && k.y == k.b,
        k.s[k.a] == PIPE || k.s[k.a] == GREATER,
    ensures
        was(k, Val::Str(u)),
{
    let raw = k.s.subrange(k.a, k.b);
    assert(raw[0] == k.s[k.a]);
    lemma_word(raw, 0);
}

/// Places are moved alike when the scalar is seen alone.
pub(crate) proof fn lemma_inner_moves(k: Cut, t: Tree)
    ensures
        moved_tree(k.inner(), t) == moved_tree(k, t),
{
    reveal(moved_tree);
    let j = k.inner();
    assert forall|e: Seq<crate::edit::sink::EntryView>| #[trigger] moved_entries(j, e) == moved_entries(k, e) by {
        assert(moved_entries(j, e) =~= moved_entries(k, e));
    }
    assert(moved_tree(j, t).nodes =~= moved_tree(k, t).nodes);
    assert(moved_tree(j, t).stack =~= moved_tree(k, t).stack);
}

/// The flow collection that the scalar stands in is read alike.
proof fn x_flow(k: Cut, id: int, st: St, n: int, m: int)
    requires
        k.ok(),
        k.flow(),
        written(k),
        good(k.s, st),
        st.p == k.a,
        content(k.s, st, n, m) is Ok,
        mid(id, st.t, (content(k.s, st, n, m)->Ok_0).1.t),
        leaf_at(k, (content(k.s, st, n, m)->Ok_0).1.t, id),
        apart(k, (content(k.s, st, n, m)->Ok_0).1.t, st.t.nodes.len() as int),
    ensures
        same(k, id, st, content(k.s, st, n, m), content(k.t, moved_st(k, st), n, m)),
{
    let s = k.s;
    let j = k.inner();
    unfold_content(s, st, n, m);
    unfold_flow_or_map(s, st, n);
    lemma_flow_node_left(s, st, n);
    lemma_grow_open(s, st, false);
    lemma_open_count(st.t, st.p, false);
    let inner = st.with(st.t.open(st.p, false));
    b_collection(s, inner);
    let (v, st1) = flow_collection(s, inner)->Ok_0;
    let end = (content(s, st, n, m)->Ok_0).1;
    lemma_flow_span(k, st, st1, end);
    // The scalar is in it.
    let lid = k.l;
    lemma_key_nodes(st1.t, Extent { a: 0, b: 0 }, None);
    lemma_flow_held(k, id, lid, st, inner, st1, end);
    lemma_inner_moves(k, inner.t);
    lemma_inner_moves(k, st1.t);
    g_collection(j, lid, inner);
    m_open(k, st.t, st.p, false);
    assert(s[k.a] == k.t[k.a]);
    unfold_content(k.t, moved_st(k, st), n, m);
    unfold_flow_or_map(k.t, moved_st(k, st), n);
    let p = run(s, k.b, Class::Blank);
    lemma_white(k, k.b, Class::Blank);
    lemma_run(s, k.b, Class::Blank);
    assert(k.to(k.b) == k.c);
    assert(!indicator_at(s, p, COLON));
    assert(!indicator_at(k.t, k.to(p), COLON)) by {
        if p < s.len() {
            assert(s[p] == k.t[k.to(p)]);
        }
    }
    m_dissolve(k, st1.t, s, st1.p);
    lemma_near(k, p);
    assert(st1.t.dissolve().last == st1.t.last) by {
        reveal(crate::edit::sink::grew);
        reveal(Tree::dissolve);
        reveal(Tree::open);
    }
    lemma_turned_same(j, k, st1.t, st1.t.dissolve(), v, (flow_collection(k.t, moved_st(j, inner))->Ok_0).0);
}

/// The flow collection that begins where what differs does ends with it.
proof fn lemma_flow_span(k: Cut, st: St, st1: St, end: St)
    requires
        st.p == k.a < st1.p,
        apart(k, end.t, st.t.nodes.len() as int),
        kept(st1.t, end.t, st.p),
        exists|i: int|
            st.t.nodes.len() <= i < st1.t.nodes.len() && (#[trigger] st1.t.nodes[i]).delimited && st1.t.nodes[i].span.a
                == st.p && st1.t.nodes[i].span.b == st1.p,
    ensures
        st1.p == k.b,
{
    reveal(apart);
    reveal(kept);
    let i = choose|i: int|
        st.t.nodes.len() <= i < st1.t.nodes.len() && (#[trigger] st1.t.nodes[i]).delimited && st1.t.nodes[i].span.a
            == st.p && st1.t.nodes[i].span.b == st1.p;
    assert(end.t.nodes[i] == st1.t.nodes[i]);
    assert(node_apart(k, end.t.nodes[i]));
}

proof fn lemma_flow_held(k: Cut, id: int, lid: int, st: St, inner: St, st1: St, end: St)
    requires
        k.ok(),
        k.flow(),
        written(k),
        good(k.s, st),
        st.p == k.a,
        st1.p == k.b,
        inner.t.nodes == st.t.nodes,
        end.t.nodes == st1.t.nodes,
        kept(inner.t, st1.t, st.p),
        lid < id < end.t.nodes.len(),
        lid == k.l,
        scalar_at(k, end.t, lid),
        apart(k, end.t, st.t.nodes.len() as int),
    ensures
        held(k.inner(), lid, inner, st1),
{
    assert(lid >= st.t.nodes.len()) by {
        if lid < st.t.nodes.len() {
            reveal(sound);
            reveal(kept);
            assert(crate::edit::sink::sound_node(st.t.nodes[lid], lid, k.s, st.p));
            assert(st1.t.nodes[lid] == st.t.nodes[lid]);
        }
    }
    reveal(free);
    reveal(quiet);
    reveal(apart);
    assert forall|i: int| st.t.nodes.len() <= i < st1.t.nodes.len() implies node_free(k.x, #[trigger] st1.t.nodes[i])
        && node_quiet(k.inner(), st1.t.nodes[i]) by {
        assert(node_apart(k, end.t.nodes[i]));
    }
}

/// The rest of the scalar's line is filler.
proof fn lemma_rest_fill(k: Cut)
    requires
        k.ok(),
    ensures
        past_filler(k.s, run(k.s, k.b, Class::Blank)) == past_filler(k.s, k.b),
{
    let s = k.s;
    let q = run(s, k.b, Class::Blank);
    lemma_run(s, k.b, Class::Blank);
    if k.b < q {
        lemma_run_skip(s, k.b, q, Class::Blank);
        assert(run(s, q, Class::Blank) == q);
        assert forall|i: int| k.b <= i < q implies Class::Line.holds(#[trigger] s[i]) by {
            assert(Class::Blank.holds(s[i]));
        }
        lemma_run_skip_class(s, k.b, q, Class::Line);
        assert(next_line(s, k.b) == next_line(s, q));
        if q < s.len() {
            assert(line_blank(s, k.b) == line_blank(s, q));
            assert(line_comment(s, k.b) == line_comment(s, q));
        } else {
            assert(line_blank(s, k.b));
            assert(next_line(s, k.b) == q);
        }
    }
}

pub(crate) proof fn lemma_run_skip_class(s: Seq<u8>, p: int, q: int, c: Class)
    requires
        0 <= p <= q <= s.len(),
        forall|i: int| p <= i < q ==> c.holds(#[trigger] s[i]),
    ensures
        run(s, p, c) == run(s, q, c),
    decreases q - p,
{
    if p < q {
        lemma_run_skip_class(s, p + 1, q, c);
    }
}

/// The tree of the one is that of the other, moved.
proof fn lemma_leaf_trees(k: Cut, st: St, p: int, q: int)
    requires
        k.ok(),
        st.p == k.a,
        trimmed(k.s, k.a, p) == k.b,
        trimmed(k.t, k.a, q) == k.c,
    ensures
        moved_tree(k, st.t).open(k.a, false).close(q, k.t) == moved_tree(k, st.t.open(k.a, false).close(p, k.s)),
{
    let t = st.t.open(k.a, false);
    m_open(k, st.t, k.a, false);
    assert(t.stack.len() > 0 && t.stack.last().start == k.a && t.stack.last().entries.len() == 0
        && t.stack.last().children.len() == 0) by {
        reveal(Tree::open);
    }
    m_close_leaf(k, t, p, q);
}

} // verus!
