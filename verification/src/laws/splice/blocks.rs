//! Block nodes around the scalar are read alike.
use vstd::prelude::*;
use super::super::unfold::{
    unfold_block_seq, unfold_content, unfold_explicit_entry, unfold_flow_or_map, unfold_map_entry, unfold_map_from,
    unfold_map_rest, unfold_map_value, unfold_node, unfold_node_here, unfold_scalar_or_map, unfold_seq_rest,
};
use super::basic::{
    b_collection, b_content, b_entry, b_explicit, b_flow_or_map, b_here, b_map_rest, b_node, b_scalar, b_seq,
    b_seq_rest, b_value, lemma_key_nodes, lemma_kept_nodes, lemma_open_count, within,
};
use super::cut::{
    lemma_col, lemma_doc_bound, lemma_ends, lemma_filler, lemma_filler_later, lemma_indent, lemma_indicator,
    lemma_line, lemma_line_before, lemma_white, Cut,
};
use super::ends::{lemma_block_bd, lemma_folded_bd, lemma_props_bd, lemma_token_bd};
use super::flows::{f_absent, f_alias, f_collection, f_leaf, f_props, f_sound};
use super::growth::{
    frame_is, good, kept, lemma_grow_empty, lemma_grow_key, lemma_grow_open, lemma_grow_part, lemma_grow_promote,
    lemma_kept_same, lemma_kept_trans, read_one, tail_ends,
};
use super::leaf::{lemma_flow_apart, lemma_flow_node_left, written, x_leaf};
use super::lists::{
    entries_of, follows, lemma_before_close, lemma_close_len, lemma_follows, lemma_kept_len, lemma_key_apart,
    lemma_more_apart, lemma_more_grew, lemma_more_key, lemma_more_same, lemma_more_trans, lemma_part, lemma_strict,
    more_entries, rest_placed,
};
use super::low::{
    beyond, eased, lemma_blank_line, lemma_col_on, lemma_col_spaces, lemma_key_line, lemma_low_map, lemma_low_seq,
    lemma_props_line, lemma_same_line, sits,
};
use super::nest::framed;
use super::place::{
    apart, beside, end_of, keys_apart, lemma_alias_new, lemma_apart_down, lemma_covered, lemma_later_on,
    lemma_leaf_down, lemma_leaf_new, lemma_mid, lemma_near, lemma_not_empty, mid, node_apart, placed, same,
};
use super::turn::{
    lemma_items_end, lemma_items_on, lemma_items_with, lemma_pairs_end, lemma_pairs_on, lemma_pairs_with,
    lemma_turned_props, turned, turned_items, turned_pairs,
};
use super::shift::{ends_with_part, m_close, m_dissolve, m_key, m_open, m_promote, moved_st};
use super::words::{lemma_block_cut, lemma_folded, lemma_props, lemma_token, lemma_token_in, moved_props};
use crate::edit::sink::{grew, inside, lemma_width, sound, waits, width, Extent, Tree};
use crate::parser::grammar::{
    block_seq, content, explicit_entry, flow_collection, flow_or_map, map_entry, map_from, map_rest, map_value, node,
    node_here, scalar_or_map, seq_rest, with_props, St,
};
use crate::parser::layout::{
    bounds, col_at, doc_bound, indent_at, indicator_at, line_at, line_ends, moves, past_filler, past_filler_in, Fail,
};
use crate::parser::tokens::{block_scalar, plain_folded, plain_rest, plain_rest_in, props, quoted, token, Props};
use crate::patterns::resolved;
use crate::text::{
    at, bd, lemma_bd_ascii, run, Class, COLON, DASH, DQUOTE, GREATER, LBRACE, LBRACKET, PIPE, QUESTION, STAR,
};
use crate::value::{scalar_text, Val};

verus! {

broadcast use {moves, bounds};

/// What was read of an entry of one source, `r`, and of the other, `r2`, is the
/// same up to the scalar that differs.
pub open spec fn same_entry(
    k: Cut,
    id: int,
    st: St,
    r: Result<((Val, Val), St), Fail>,
    r2: Result<((Val, Val), St), Fail>,
) -> bool {
    match (r, r2) {
        (Ok((v, st1)), Ok((w, st2))) => if mid(id, st.t, st1.t) {
            beside(k, st1, st2) && w.0 == v.0 && turned(k, st1.t, v.1, w.1)
        } else {
            w == v && st2 == moved_st(k, st1)
        },
        _ => false,
    }
}

/// The position of something that is read is outside the scalar.
proof fn lemma_on(k: Cut, id: int, st: St, st1: St)
    requires
        k.ok(),
        0 <= st.p <= k.s.len(),
        read_one(k.s, st, st1),
        placed(k, id, st, st1),
    ensures
        st.p <= k.a || k.later(st.p) || st.p == k.s.len(),
        k.on(st.p),
        mid(id, st.t, st1.t) ==> st.p <= k.a && k.b <= st1.p,
        !mid(id, st.t, st1.t) ==> st1.p <= k.a || k.later(st.p) || st.p == k.s.len(),
{
    lemma_kept_len(st.t, st1.t, st.p);
    if mid(id, st.t, st1.t) {
        lemma_mid(k, id, k.s, st, st1);
    }
}

pub(crate) proof fn s_node(k: Cut, id: int, st: St, m: int)
    requires
        k.ok(),
        written(k),
        good(k.s, st),
        node(k.s, st, m) is Ok,
        placed(k, id, st, end_of(node(k.s, st, m))),
        eased(k, id, st, end_of(node(k.s, st, m)), m),
        sits(k, id, st, end_of(node(k.s, st, m)), m),
    ensures
        same(k, id, st, node(k.s, st, m), node(k.t, moved_st(k, st), m)),
    decreases k.s.len() - st.p, 8int,
{
    let s = k.s;
    unfold_node(s, st, m);
    b_node(s, st, m);
    let end = end_of(node(s, st, m));
    lemma_on(k, id, st, end);
    unfold_node(k.t, moved_st(k, st), m);
    let p = past_filler(s, st.p);
    lemma_doc_bound(k, st.p);
    lemma_ends(k, st.p);
    if doc_bound(s, st.p) {
        lemma_not_empty(k, id, st.t, st.p);
        f_absent(k, st, st.p);
    } else if !line_ends(s, st.p) && col_at(s, st.p) > 0 {
        lemma_col(k, st.p);
        s_here(k, id, st, col_at(s, st.p), m);
    } else {
        if !line_ends(s, st.p) {
            lemma_col(k, st.p);
        }
        if p < s.len() && !doc_bound(s, p) && indent_at(s, p) is Some && indent_at(s, p)->0 >= m {
            let n = indent_at(s, p)->0;
            let st0 = st.to(p + n);
            f_sound(s, st, p + n);
            b_here(s, st0, n, m);
            lemma_moved_on(k, id, st, p + n, end);
            lemma_filler(k, st.p);
            lemma_doc_bound(k, p);
            lemma_indent(k, p);
            lemma_col_spaces(s, p);
            s_here(k, id, st0, n, m);
        } else {
            lemma_not_empty(k, id, st.t, st.p);
            assert(end.p == p);
            lemma_filler(k, st.p);
            if k.later(st.p) {
                lemma_later_on(k, st.p, p);
            }
            lemma_doc_bound(k, p);
            lemma_indent(k, p);
            f_absent(k, st, p);
        }
    }
}

/// The node is placed alike when white space before it is passed.
proof fn lemma_moved_on(k: Cut, id: int, st: St, p: int, end: St)
    requires
        k.ok(),
        0 <= st.p <= p <= k.s.len(),
        read_one(k.s, st.to(p), end),
        placed(k, id, st, end),
    ensures
        placed(k, id, st.to(p), end),
        p <= k.a || k.later(p) || p == k.s.len(),
        p <= k.a || k.b <= st.p,
        k.on(p),
{
    if id < st.t.nodes.len() {
        if k.later(st.p) {
            lemma_later_on(k, st.p, p);
        }
    }
    assert(placed(k, id, st.to(p), end));
    lemma_on(k, id, st.to(p), end);
}

pub(crate) proof fn s_here(k: Cut, id: int, st: St, n: int, m: int)
    requires
        k.ok(),
        written(k),
        good(k.s, st),
        node_here(k.s, st, n, m) is Ok,
        placed(k, id, st, end_of(node_here(k.s, st, n, m))),
        eased(k, id, st, end_of(node_here(k.s, st, n, m)), m),
        beyond(k, id, st, end_of(node_here(k.s, st, n, m)), n),
        mid(id, st.t, end_of(node_here(k.s, st, n, m)).t) && k.unblocks() ==> m <= n + 1,
    ensures
        same(k, id, st, node_here(k.s, st, n, m), node_here(k.t, moved_st(k, st), n, m)),
    decreases k.s.len() - st.p, 7int,
{
    let s = k.s;
    unfold_node_here(s, st, n, m);
    b_here(s, st, n, m);
    let end = end_of(node_here(s, st, n, m));
    lemma_on(k, id, st, end);
    let none = Props { tag: None, anchor: None };
    lemma_props_bd(s, st.p, false, none);
    let (x, p) = props(s, st.p, false)->Ok_0;
    f_sound(s, st, p);
    let st0 = st.to(p);
    let below = (x.tag is Some || x.anchor is Some) && line_ends(s, p);
    let r = if below {
        node(s, st0, m)
    } else {
        content(s, st0, n, m)
    };
    if below {
        b_node(s, st0, m);
    } else {
        b_content(s, st0, n, m);
    }
    let (v, st1) = r->Ok_0;
    assert(end == with_props(x, v, st1).1);
    lemma_inner(k, id, st, x, v, st1, end);
    lemma_moved_on(k, id, st, p, st1);
    assert(moved_props(k, none) == none);
    lemma_props(k, st.p, false, none);
    unfold_node_here(k.t, moved_st(k, st), n, m);
    lemma_ends(k, p);
    if st.p < p {
        lemma_strict(k, st.p, p);
    }
    if k.unblocks() && mid(id, st.t, st1.t) {
        lemma_props_line(s, k.a, st.p, none);
    }
    let r2 = if below {
        node(k.t, moved_st(k, st0), m)
    } else {
        content(k.t, moved_st(k, st0), n, m)
    };
    if below {
        s_node(k, id, st0, m);
    } else {
        s_content(k, id, st0, n, m);
    }
    f_props(k, x, v, st1);
    if mid(id, st.t, st1.t) {
        assert(st1.t.last is Some ==> 0 <= st1.t.last->0 < st1.t.nodes.len()) by {
            reveal(sound);
        }
        lemma_turned_props(k, x, v, (r2->Ok_0).0, st1);
    }
}

/// A node is placed as it is with its anchor, and has none if the scalar is in it.
proof fn lemma_inner(k: Cut, id: int, st: St, x: Props, v: Val, st1: St, end: St)
    requires
        k.ok(),
        read_one(k.s, st, end),
        sound(st1.t, k.s, st1.p),
        end == with_props(x, v, st1).1,
        placed(k, id, st, end),
    ensures
        placed(k, id, st, st1),
        mid(id, st.t, st1.t) ==> x.anchor is None,
        st1.t.nodes.len() == end.t.nodes.len(),
        st1.p == end.p,
{
    reveal(Tree::set_anchor);
    reveal(Tree::set_tag);
    reveal(grew);
    let last = end.t.last->0;
    assert(st1.t.last is Some ==> 0 <= st1.t.last->0 < st1.t.nodes.len()) by {
        reveal(sound);
    }
    assert(st1.t.last == end.t.last);
    assert(end.t.nodes.len() == st1.t.nodes.len());
    assert forall|i: int| 0 <= i < st1.t.nodes.len() implies (#[trigger] end.t.nodes[i]).span == st1.t.nodes[i].span
        && end.t.nodes[i].shape == st1.t.nodes[i].shape && end.t.nodes[i].kind == st1.t.nodes[i].kind
        && end.t.nodes[i].delimited == st1.t.nodes[i].delimited by {}
    if x.anchor is Some && mid(id, st.t, end.t) {
        assert(end.t.nodes[last].anchor is Some);
        lemma_covered(k, id, st.t, end.t);
    }
    if mid(id, st.t, end.t) && k.flow() {
        assert(end.t.nodes[k.l].span == st1.t.nodes[k.l].span);
    }
    assert(apart(k, st1.t, st.t.nodes.len() as int)) by {
        reveal(apart);
        let n = st.t.nodes.len() as int;
        assert forall|i: int| 0 <= n <= i < st1.t.nodes.len() implies node_apart(k, #[trigger] st1.t.nodes[i]) by {
            assert(node_apart(k, end.t.nodes[i]));
            if i != last {
                assert(end.t.nodes[i] == st1.t.nodes[i]);
            }
        }
    }
}

pub(crate) proof fn s_content(k: Cut, id: int, st: St, n: int, m: int)
    requires
        k.ok(),
        written(k),
        good(k.s, st),
        content(k.s, st, n, m) is Ok,
        placed(k, id, st, end_of(content(k.s, st, n, m))),
        eased(k, id, st, end_of(content(k.s, st, n, m)), m),
        beyond(k, id, st, end_of(content(k.s, st, n, m)), n),
        mid(id, st.t, end_of(content(k.s, st, n, m)).t) && k.unblocks() ==> m <= n + 1,
    ensures
        same(k, id, st, content(k.s, st, n, m), content(k.t, moved_st(k, st), n, m)),
    decreases k.s.len() - st.p, 6int,
{
    let s = k.s;
    b_content(s, st, n, m);
    let end = end_of(content(s, st, n, m));
    lemma_on(k, id, st, end);
    if st.p == k.a {
        if !mid(id, st.t, end.t) {
            lemma_content_moves(s, st, n, m);
        }
        x_leaf(k, id, st, n, m);
    } else {
        unfold_content(s, st, n, m);
        unfold_content(k.t, moved_st(k, st), n, m);
        lemma_indicator(k, st.p, DASH);
        if st.p < s.len() {
            assert(s[st.p] == k.t[k.to(st.p)]);
            let b = s[st.p];
            if b == LBRACKET || b == LBRACE {
                s_flow_or_map(k, id, st, n);
            } else if b == PIPE || b == GREATER {
                lemma_block_bd(s, st.p, m);
                let (u, p) = block_scalar(s, st.p, m)->Ok_0;
                lemma_leaf_new(st.t, st.p, p, s);
                lemma_block_cut(k, st.p, m);
                f_leaf(k, st, Val::Str(u), p);
            } else if b == STAR {
                let q = run(s, st.p + 1, Class::Name);
                lemma_alias_new(st.t, st.p, q, s, s.subrange(st.p + 1, q));
                f_alias(k, st);
            } else if indicator_at(s, st.p, DASH) {
                s_seq(k, id, st, n);
            } else {
                s_scalar(k, id, st, n, m);
            }
        } else {
            lemma_not_empty(k, id, st.t, st.p);
            f_absent(k, st, st.p);
        }
    }
}

/// Content that begins with a word has bytes.
proof fn lemma_content_moves(s: Seq<u8>, st: St, n: int, m: int)
    requires
        good(s, st),
        super::cut::word(s, st.p),
        content(s, st, n, m) is Ok,
    ensures
        end_of(content(s, st, n, m)).p > st.p,
{
    unfold_content(s, st, n, m);
    let b = s[st.p];
    if b == LBRACKET || b == LBRACE {
        lemma_flow_node_left(s, st, n);
    } else if b == PIPE || b == GREATER {
        super::words::lemma_block_in(s, st.p, m);
    } else if b == STAR {
    } else {
        unfold_scalar_or_map(s, st, n, m);
        let x = token(s, st.p)->Ok_0;
        lemma_token_in(s, st.p);
        assert(x.p > st.p) by {
            if x.quoted {
                super::words::lemma_quoted_in(s, st.p + 1, col_at(s, st.p), b == DQUOTE, Seq::empty());
            } else {
                plain_rest_in(s, st.p + 1, false);
                assert(plain_rest(s, st.p, false) > st.p);
            }
        }
        let p = run(s, x.p, Class::Blank);
        if !indicator_at(s, p, COLON) {
            if !x.quoted {
                super::words::lemma_folded_in(s, x.text, p, m);
            }
        } else {
            let st1 = St { p: p + 1, t: st.t.open(st.p, false).key(Extent { a: st.p, b: x.end }, Some(x.text)), ..st };
            let (v, st2) = map_value(s, st1, n)->Ok_0;
            let key = if x.quoted {
                Val::Str(x.text)
            } else {
                resolved(x.text)
            };
            unfold_map_from(s, st.p, st2, n, seq![(key, v)]);
            lemma_rest_moves(s, st2, n, seq![(key, v)]);
        }
    }
}

/// The entries of a mapping are read forward.
proof fn lemma_rest_moves(s: Seq<u8>, st: St, n: int, kvs: Seq<(Val, Val)>)
    requires
        0 <= st.p <= s.len(),
        map_rest(s, st, n, kvs) is Ok,
    ensures
        end_of(map_rest(s, st, n, kvs)).p >= st.p,
    decreases s.len() - st.p,
{
    unfold_map_rest(s, st, n, kvs);
    let p = past_filler(s, st.p);
    past_filler_in(s, st.p);
    if p < s.len() && !doc_bound(s, p) && indent_at(s, p) == Some(n) && !indicator_at(s, p + n, DASH) {
        let (kv, st1) = map_entry(s, st.to(p + n), n)->Ok_0;
        lemma_rest_moves(s, st1, n, kvs.push(kv));
    }
}

/// The value of the first entry and the entries after it.
pub open spec fn entry_on(s: Seq<u8>, start: int, st: St, n: int, key: Val) -> Result<(Val, St), Fail> {
    match map_value(s, st, n) {
        Err(f) => Err(f),
        Ok((v, st1)) => map_from(s, start, st1, n, seq![(key, v)]),
    }
}

/// The state after the first key of a mapping.
pub open spec fn keyed(s: Seq<u8>, st: St, st1: St) -> bool {
    &&& good(s, st)
    &&& good(s, st1)
    &&& st.p < st1.p
    &&& inside(st.t, st1.t, st.p)
    &&& kept(st.t, st1.t, st.p)
    &&& frame_is(st1.t, false, false)
    &&& framed(st.t, st1.t)
    &&& width(st1.t) == 0
    &&& waits(st1.t)
}

/// The first key of a mapping lies before or after the scalar.
proof fn lemma_keyed(k: Cut, id: int, st: St, st1: St, n: int, key: Val)
    requires
        k.ok(),
        keyed(k.s, st, st1),
        st.p != k.a,
        !mid(id, st.t, st1.t),
        entry_on(k.s, st.p, st1, n, key) is Ok,
        placed(k, id, st, end_of(entry_on(k.s, st.p, st1, n, key))),
    ensures
        st1.p <= k.a || k.later(st.p),
        ({
            let (v, st2) = map_value(k.s, st1, n)->Ok_0;
            let (all, st3) = map_rest(k.s, st2, n, seq![(key, v)])->Ok_0;
            let end = end_of(entry_on(k.s, st.p, st1, n, key));
            &&& map_value(k.s, st1, n) is Ok
            &&& map_rest(k.s, st2, n, seq![(key, v)]) is Ok
            &&& entry_on(k.s, st.p, st1, n, key) == Ok::<_, Fail>((Val::Dict(all), end))
            &&& end == st3.with(st3.t.close(st3.p, k.s))
            &&& read_one(k.s, st1, st2)
            &&& within(k.s, st.t, st.p, st2, false, true)
            &&& tail_ends(st.t, st2.t)
            &&& within(k.s, st.t, st.p, st3, false, true)
            &&& kept(st2.t, st3.t, st2.p)
            &&& st2.p <= st3.p
            &&& placed(k, id, st, st3)
            &&& keys_apart(k.a, entries_of(st3.t))
            &&& placed(k, id, st1, st2)
            &&& read_one(k.s, st, end)
        }),
{
    let s = k.s;
    b_value(s, st1, n);
    let (v, st2) = map_value(s, st1, n)->Ok_0;
    lemma_grow_part(s, st.t, st.p, st1, st2, false, false);
    unfold_map_from(s, st.p, st2, n, seq![(key, v)]);
    b_map_rest(s, st.t, st.p, st2, n, seq![(key, v)]);
    let (all, st3) = map_rest(s, st2, n, seq![(key, v)])->Ok_0;
    let end = end_of(entry_on(s, st.p, st1, n, key));
    super::growth::lemma_grow_close(s, st, st3);
    lemma_before_close(k, id, st, st3);
    lemma_kept_len(st.t, st1.t, st.p);
    lemma_kept_len(st1.t, st2.t, st1.p);
    lemma_part(k, id, st, st1, st2, st3);
    assert(st1.p <= k.a || k.later(st.p)) by {
        if id >= st2.t.nodes.len() {
            assert(st2.p <= k.a);
        } else if id >= st1.t.nodes.len() {
            lemma_mid(k, id, s, st1, st2);
        }
    }
}

/// A mapping from its first key on.
proof fn s_keyed(k: Cut, id: int, st: St, st1: St, n: int, key: Val)
    requires
        k.ok(),
        written(k),
        keyed(k.s, st, st1),
        st.p != k.a,
        !mid(id, st.t, st1.t),
        entry_on(k.s, st.p, st1, n, key) is Ok,
        placed(k, id, st, end_of(entry_on(k.s, st.p, st1, n, key))),
        eased(k, id, st, end_of(entry_on(k.s, st.p, st1, n, key)), n + 1),
        beyond(k, id, st1, end_of(entry_on(k.s, st.p, st1, n, key)), n),
    ensures
        same(
            k,
            id,
            st,
            entry_on(k.s, st.p, st1, n, key),
            entry_on(k.t, k.to(st.p), moved_st(k, st1), n, key),
        ),
    decreases k.s.len() - st.p, 3int,
{
    let s = k.s;
    lemma_keyed(k, id, st, st1, n, key);
    let (v, st2) = map_value(s, st1, n)->Ok_0;
    let (all, st3) = map_rest(s, st2, n, seq![(key, v)])->Ok_0;
    lemma_close_len(st3.t, st3.p, s);
    lemma_kept_len(st.t, st1.t, st.p);
    lemma_kept_len(st1.t, st2.t, st1.p);
    lemma_kept_len(st2.t, st3.t, st2.p);
    if mid(id, st1.t, st2.t) && k.unblocks() {
        lemma_low_map(s, st2, n, seq![(key, v)]);
    }
    s_value(k, id, st1, n);
    let (w, st2b) = map_value(k.t, moved_st(k, st1), n)->Ok_0;
    lemma_kept_len(st.t, st1.t, st.p);
    lemma_kept_len(st1.t, st2.t, st1.p);
    lemma_follows(k, id, st1, st2, st2b);
    assert(seq![(key, v)] =~= Seq::empty().push((key, v)));
    assert(seq![(key, w)] =~= Seq::empty().push((key, w)));
    if mid(id, st1.t, st2.t) {
        lemma_pairs_with(k, st2.t, Seq::empty(), key, v, w);
    }
    s_map_from(k, id, st, st2, st2b, n, seq![(key, v)], seq![(key, w)]);
}

/// The entries of a mapping that began before, and its end.
proof fn s_map_from(k: Cut, id: int, st: St, st1: St, st1b: St, n: int, kvs: Seq<(Val, Val)>, kvs2: Seq<(Val, Val)>)
    requires
        k.ok(),
        written(k),
        good(k.s, st),
        within(k.s, st.t, st.p, st1, false, true),
        tail_ends(st.t, st1.t),
        st.p < st1.p,
        st.p < k.a || k.later(st.p),
        map_from(k.s, st.p, st1, n, kvs) is Ok,
        placed(k, id, st, end_of(map_from(k.s, st.p, st1, n, kvs))),
        eased(k, id, st, end_of(map_from(k.s, st.p, st1, n, kvs)), n + 1),
        follows(k, id, st1, st1b),
        !mid(id, st.t, st1.t) ==> kvs == kvs2 && st1b == moved_st(k, st1),
        mid(id, st.t, st1.t) ==> turned_pairs(k, st1.t, kvs, kvs2),
        mid(id, st.t, st1.t) || k.on(st1.p),
    ensures
        same(
            k,
            id,
            st,
            map_from(k.s, st.p, st1, n, kvs),
            map_from(k.t, k.to(st.p), st1b, n, kvs2),
        ),
    decreases k.s.len() - st.p, 2int,
{
    let s = k.s;
    unfold_map_from(s, st.p, st1, n, kvs);
    b_map_rest(s, st.t, st.p, st1, n, kvs);
    let (all, st2) = map_rest(s, st1, n, kvs)->Ok_0;
    let end = end_of(map_from(s, st.p, st1, n, kvs));
    super::growth::lemma_grow_close(s, st, st2);
    lemma_before_close(k, id, st, st2);
    lemma_kept_len(st.t, st1.t, st.p);
    assert(rest_placed(k, id, st1, st2)) by {
        lemma_kept_same(st2.t, st2.p);
        lemma_apart_down(k, st2.t, st2.t, st2.p, st1.t.nodes.len() as int, st.t.nodes.len() as int);
    }
    lemma_close_len(st2.t, st2.p, s);
    lemma_kept_len(st1.t, st2.t, st1.p);
    s_map_rest(k, id, st.t, st.p, st1, st1b, n, kvs, kvs2);
    assert(k.to(st.p) < st1b.p <= k.t.len()) by {
        if mid(id, st.t, st1.t) {
            lemma_part(k, id, st, st, st1, st2);
            lemma_mid(k, id, s, st, st1);
        } else {
            if id < st.t.nodes.len() {
                lemma_later_on(k, st.p, st1.p);
            }
            lemma_strict(k, st.p, st1.p);
        }
    }
    unfold_map_from(k.t, k.to(st.p), st1b, n, kvs2);
    assert(ends_with_part(st2.t)) by {
        reveal(frame_is);
    }
    m_close(k, st2.t, st2.p);
    lemma_kept_len(st1.t, st2.t, st1.p);
    if mid(id, st.t, end.t) {
        lemma_mid(k, id, s, st, end);
        lemma_near(k, end.p);
        let all2 = (map_rest(k.t, st1b, n, kvs2)->Ok_0).0;
        lemma_pairs_end(k, st2.t, st2.p, s, all, all2);
    }
}

pub(crate) proof fn s_scalar(k: Cut, id: int, st: St, n: int, m: int)
    requires
        k.ok(),
        written(k),
        good(k.s, st),
        st.p != k.a,
        st.p < k.s.len(),
        scalar_or_map(k.s, st, n, m) is Ok,
        placed(k, id, st, end_of(scalar_or_map(k.s, st, n, m))),
        eased(k, id, st, end_of(scalar_or_map(k.s, st, n, m)), n + 1),
        beyond(k, id, st, end_of(scalar_or_map(k.s, st, n, m)), n),
    ensures
        same(k, id, st, scalar_or_map(k.s, st, n, m), scalar_or_map(k.t, moved_st(k, st), n, m)),
    decreases k.s.len() - st.p, 5int,
{
    let s = k.s;
    unfold_scalar_or_map(s, st, n, m);
    b_scalar(s, st, n, m);
    let end = end_of(scalar_or_map(s, st, n, m));
    lemma_on(k, id, st, end);
    unfold_scalar_or_map(k.t, moved_st(k, st), n, m);
    let t = st.t.open(st.p, false);
    let inner = st.with(t);
    lemma_grow_open(s, st, false);
    lemma_open_count(st.t, st.p, false);
    m_open(k, st.t, st.p, false);
    lemma_indicator(k, st.p, QUESTION);
    if indicator_at(s, st.p, QUESTION) {
        s_asked(k, id, st, n);
    } else {
        lemma_token_bd(s, st.p);
        let x = token(s, st.p)->Ok_0;
        let p = run(s, x.p, Class::Blank);
        if !indicator_at(s, p, COLON) {
            s_word(k, id, st, n, m);
        } else {
            s_implicit(k, id, st, n, m);
        }
    }
}

/// A mapping that begins with an implicit key.
proof fn s_implicit(k: Cut, id: int, st: St, n: int, m: int)
    requires
        k.ok(),
        written(k),
        good(k.s, st),
        st.p < k.a || k.later(st.p),
        st.p < k.s.len(),
        !indicator_at(k.s, st.p, QUESTION),
        scalar_or_map(k.s, st, n, m) is Ok,
        indicator_at(k.s, run(k.s, token(k.s, st.p)->Ok_0.p, Class::Blank), COLON),
        placed(k, id, st, end_of(scalar_or_map(k.s, st, n, m))),
        eased(k, id, st, end_of(scalar_or_map(k.s, st, n, m)), n + 1),
        beyond(k, id, st, end_of(scalar_or_map(k.s, st, n, m)), n),
    ensures
        same(k, id, st, scalar_or_map(k.s, st, n, m), scalar_or_map(k.t, moved_st(k, st), n, m)),
    decreases k.s.len() - st.p, 4int,
{
    let s = k.s;
    unfold_scalar_or_map(s, st, n, m);
    unfold_scalar_or_map(k.t, moved_st(k, st), n, m);
    let t = st.t.open(st.p, false);
    let inner = st.with(t);
    lemma_grow_open(s, st, false);
    lemma_open_count(st.t, st.p, false);
    m_open(k, st.t, st.p, false);
    lemma_indicator(k, st.p, QUESTION);
    lemma_token_bd(s, st.p);
    let x = token(s, st.p)->Ok_0;
    let p = run(s, x.p, Class::Blank);
    lemma_bd_ascii(s, p);
    f_sound(s, inner, p + 1);
    let ext = Extent { a: st.p, b: x.end };
    lemma_grow_key(s, st.t, st.p, inner.to(p + 1), ext, Some(x.text), false, false);
    lemma_key_nodes(t, ext, Some(x.text));
    let st1 = St { p: p + 1, t: t.key(ext, Some(x.text)), ..st };
    let key = if x.quoted {
        Val::Str(x.text)
    } else {
        resolved(x.text)
    };
    lemma_keyed(k, id, st, st1, n, key);
    lemma_token(k, st.p);
    lemma_white(k, x.p, Class::Blank);
    lemma_indicator(k, p, COLON);
    m_key(k, t, ext, Some(x.text));
    lemma_key_line(s, st.p, p);
    lemma_lines_alike(k, st.p, p);
    s_keyed(k, id, st, st1, n, key);
}

/// A scalar before or after the one that differs.
proof fn s_word(k: Cut, id: int, st: St, n: int, m: int)
    requires
        k.ok(),
        good(k.s, st),
        st.p < k.a || k.later(st.p),
        !indicator_at(k.s, st.p, QUESTION),
        scalar_or_map(k.s, st, n, m) is Ok,
        !indicator_at(k.s, run(k.s, token(k.s, st.p)->Ok_0.p, Class::Blank), COLON),
        placed(k, id, st, end_of(scalar_or_map(k.s, st, n, m))),
    ensures
        same(k, id, st, scalar_or_map(k.s, st, n, m), scalar_or_map(k.t, moved_st(k, st), n, m)),
{
    let s = k.s;
    unfold_scalar_or_map(s, st, n, m);
    unfold_scalar_or_map(k.t, moved_st(k, st), n, m);
    m_open(k, st.t, st.p, false);
    lemma_indicator(k, st.p, QUESTION);
    lemma_token_bd(s, st.p);
    let x = token(s, st.p)->Ok_0;
    let p = run(s, x.p, Class::Blank);
    if x.quoted {
        lemma_leaf_new(st.t, st.p, p, s);
        lemma_token(k, st.p);
        lemma_white(k, x.p, Class::Blank);
        lemma_indicator(k, p, COLON);
        f_leaf(k, st, Val::Str(x.text), p);
    } else {
        lemma_folded_bd(s, x.text, p, m);
        let (u, q) = plain_folded(s, x.text, p, m)->Ok_0;
        lemma_leaf_new(st.t, st.p, q, s);
        lemma_token(k, st.p);
        lemma_white(k, x.p, Class::Blank);
        lemma_indicator(k, p, COLON);
        lemma_folded(k, x.text, p, m);
        f_leaf(k, st, resolved(u), q);
    }
}

/// Two places before the scalar or after it are on one line in both sources or in
/// neither.
proof fn lemma_lines_alike(k: Cut, x: int, y: int)
    requires
        k.ok(),
        0 <= x <= y <= k.s.len(),
        y <= k.a || k.b <= x,
    ensures
        (line_at(k.t, k.to(x)) == line_at(k.t, k.to(y))) == (line_at(k.s, x) == line_at(k.s, y)),
{
    if y <= k.a {
        lemma_line_before(k, x);
        lemma_line_before(k, y);
    } else {
        lemma_line(k, x);
        lemma_line(k, y);
    }
}

/// What stands after a dash is in a later column.
proof fn lemma_dash_col(s: Seq<u8>, p: int)
    requires
        0 <= p < s.len(),
        s[p] == DASH,
    ensures
        col_at(s, run(s, p + 1, Class::Blank)) > col_at(s, p),
{
    lemma_col_on(s, p, p + 1);
    lemma_blank_line(s, p + 1);
}

/// A mapping that begins with an explicit key.
proof fn s_asked(k: Cut, id: int, st: St, n: int)
    requires
        k.ok(),
        written(k),
        good(k.s, st),
        st.p < k.a || k.later(st.p),
        indicator_at(k.s, st.p, QUESTION),
        ({
            let r = explicit_entry(k.s, st.with(st.t.open(st.p, false)), n);
            let (kv, st1) = r->Ok_0;
            &&& r is Ok
            &&& map_from(k.s, st.p, st1, n, seq![kv]) is Ok
            &&& placed(k, id, st, end_of(map_from(k.s, st.p, st1, n, seq![kv])))
            &&& eased(k, id, st, end_of(map_from(k.s, st.p, st1, n, seq![kv])), n + 1)
        }),
    ensures
        ({
            let r = explicit_entry(k.s, st.with(st.t.open(st.p, false)), n);
            let (kv, st1) = r->Ok_0;
            let r2 = explicit_entry(k.t, moved_st(k, st.with(st.t.open(st.p, false))), n);
            let (kv2, st2) = r2->Ok_0;
            &&& r2 is Ok
            &&& same(
                k,
                id,
                st,
                map_from(k.s, st.p, st1, n, seq![kv]),
                map_from(k.t, k.to(st.p), st2, n, seq![kv2]),
            )
        }),
    decreases k.s.len() - st.p, 4int,
{
    let s = k.s;
    let t = st.t.open(st.p, false);
    let inner = st.with(t);
    lemma_grow_open(s, st, false);
    lemma_open_count(st.t, st.p, false);
    b_explicit(s, st.t, st.p, inner, n, false);
    let (kv, st1) = explicit_entry(s, inner, n)->Ok_0;
    unfold_map_from(s, st.p, st1, n, seq![kv]);
    b_map_rest(s, st.t, st.p, st1, n, seq![kv]);
    let (all, st2) = map_rest(s, st1, n, seq![kv])->Ok_0;
    lemma_before_close(k, id, st, st2);
    lemma_kept_len(inner.t, st1.t, st.p);
    lemma_part(k, id, st, inner, st1, st2);
    e_map_rest(s, st.t, st.p, st1, n, seq![kv]);
    lemma_more_apart(k, st1.t, st2.t);
    lemma_close_len(st2.t, st2.p, s);
    if mid(id, inner.t, st1.t) && k.unblocks() {
        lemma_kept_len(st1.t, st2.t, st1.p);
        lemma_low_map(s, st1, n, seq![kv]);
    }
    s_explicit(k, id, st.t, st.p, inner, n, false);
    let (kv2, st1b) = explicit_entry(k.t, moved_st(k, inner), n)->Ok_0;
    lemma_follows(k, id, inner, st1, st1b);
    if id < st.t.nodes.len() {
        lemma_later_on(k, st.p, st1.p);
    }
    assert(seq![kv] =~= Seq::empty().push(kv));
    assert(seq![kv2] =~= Seq::empty().push(kv2));
    if mid(id, inner.t, st1.t) {
        lemma_pairs_with(k, st1.t, Seq::empty(), kv.0, kv.1, kv2.1);
    }
    s_map_from(k, id, st, st1, st1b, n, seq![kv], seq![kv2]);
}

/// The entries of a mapping are only added to.
proof fn e_map_rest(s: Seq<u8>, t0: Tree, start: int, st: St, n: int, kvs: Seq<(Val, Val)>)
    requires
        within(s, t0, start, st, false, true),
        tail_ends(t0, st.t),
        map_rest(s, st, n, kvs) is Ok,
    ensures
        more_entries(st.t, end_of(map_rest(s, st, n, kvs)).t),
    decreases s.len() - st.p,
{
    unfold_map_rest(s, st, n, kvs);
    let p = past_filler(s, st.p);
    lemma_more_same(st.t);
    if p < s.len() && !doc_bound(s, p) && indent_at(s, p) == Some(n) && !indicator_at(s, p + n, DASH) {
        f_sound(s, st, p + n);
        let st0 = st.to(p + n);
        b_entry(s, t0, start, st0, n, true);
        e_entry(s, t0, start, st0, n);
        let (kv, st1) = map_entry(s, st0, n)->Ok_0;
        e_map_rest(s, t0, start, st1, n, kvs.push(kv));
        lemma_more_trans(st.t, st1.t, end_of(map_rest(s, st1, n, kvs.push(kv))).t);
    }
}

proof fn e_entry(s: Seq<u8>, t0: Tree, start: int, st: St, n: int)
    requires
        within(s, t0, start, st, false, true),
        map_entry(s, st, n) is Ok,
    ensures
        more_entries(st.t, end_of(map_entry(s, st, n)).t),
{
    unfold_map_entry(s, st, n);
    reveal(inside);
    if indicator_at(s, st.p, QUESTION) {
        unfold_explicit_entry(s, st, n);
        lemma_bd_ascii(s, st.p);
        let p = run(s, st.p + 1, Class::Blank);
        f_sound(s, st, p);
        let st0 = st.to(p);
        b_node(s, st0, n + 1);
        let (key, st1) = node(s, st0, n + 1)->Ok_0;
        lemma_grow_part(s, t0, start, st0, st1, false, true);
        lemma_width(st0.t);
        lemma_grow_promote(s, t0, start, st1, scalar_text(key), false, true);
        lemma_more_grew(st.t, st1.t, p);
        lemma_more_key(st1.t, Extent { a: 0, b: 0 }, scalar_text(key));
        let st2 = st1.with(st1.t.promote(scalar_text(key)));
        let q = past_filler(s, st1.p);
        lemma_more_trans(st.t, st1.t, st2.t);
        lemma_grow_empty(s, st2, q);
        if q >= s.len() || indent_at(s, q) != Some(n) || !indicator_at(s, q + n, COLON) {
            lemma_more_grew(st2.t, st2.t.empty(st2.p), st2.p);
            lemma_more_trans(st.t, st2.t, st2.t.empty(st2.p));
        } else {
            lemma_bd_ascii(s, q + n);
            f_sound(s, st2, q + n + 1);
            let st3 = st2.to(q + n + 1);
            b_value(s, st3, n);
            let st4 = end_of(map_value(s, st3, n));
            lemma_more_grew(st3.t, st4.t, st3.p);
            lemma_more_trans(st.t, st3.t, st4.t);
        }
    } else {
        lemma_token_bd(s, st.p);
        let x = token(s, st.p)->Ok_0;
        let p = run(s, x.p, Class::Blank);
        lemma_bd_ascii(s, p);
        f_sound(s, st, p + 1);
        let ext = Extent { a: st.p, b: x.end };
        lemma_grow_key(s, t0, start, st.to(p + 1), ext, Some(x.text), false, true);
        let st1 = St { p: p + 1, t: st.t.key(ext, Some(x.text)), ..st };
        lemma_more_key(st.t, ext, Some(x.text));
        b_value(s, st1, n);
        let st2 = end_of(map_value(s, st1, n));
        lemma_more_grew(st1.t, st2.t, st1.p);
        lemma_more_trans(st.t, st1.t, st2.t);
    }
}

pub(crate) proof fn s_map_rest(
    k: Cut,
    id: int,
    t0: Tree,
    start: int,
    st: St,
    stb: St,
    n: int,
    kvs: Seq<(Val, Val)>,
    kvs2: Seq<(Val, Val)>,
)
    requires
        k.ok(),
        written(k),
        within(k.s, t0, start, st, false, true),
        tail_ends(t0, st.t),
        map_rest(k.s, st, n, kvs) is Ok,
        follows(k, id, st, stb),
        if mid(id, t0, st.t) {
            turned_pairs(k, st.t, kvs, kvs2)
        } else {
            kvs == kvs2
        },
        rest_placed(k, id, st, end_of(map_rest(k.s, st, n, kvs))),
        eased(k, id, st, end_of(map_rest(k.s, st, n, kvs)), n + 1),
    ensures
        ({
            let (all, end) = map_rest(k.s, st, n, kvs)->Ok_0;
            let (all2, end2) = map_rest(k.t, stb, n, kvs2)->Ok_0;
            &&& map_rest(k.t, stb, n, kvs2) is Ok
            &&& end2 == moved_st(k, end)
            &&& if mid(id, t0, end.t) {
                turned_pairs(k, end.t, all, all2)
            } else {
                all2 == all
            }
            &&& id < end.t.nodes.len() ==> k.later(end.p) || end.p == k.s.len()
        }),
    decreases k.s.len() - st.p, 5int,
{
    let s = k.s;
    unfold_map_rest(s, st, n, kvs);
    b_map_rest(s, t0, start, st, n, kvs);
    let (all, end) = map_rest(s, st, n, kvs)->Ok_0;
    assert(t0.nodes.len() <= st.t.nodes.len()) by {
        reveal(inside);
    }
    unfold_map_rest(k.t, stb, n, kvs2);
    let p = past_filler(s, st.p);
    past_filler_in(s, st.p);
    past_filler_in(k.t, stb.p);
    if id < st.t.nodes.len() {
        lemma_filler_later(k, st.p);
    }
    if p < s.len() && !doc_bound(s, p) && indent_at(s, p) == Some(n) && !indicator_at(s, p + n, DASH) {
        f_sound(s, st, p + n);
        let st0 = st.to(p + n);
        b_entry(s, t0, start, st0, n, true);
        let (kv, st1) = map_entry(s, st0, n)->Ok_0;
        b_map_rest(s, t0, start, st1, n, kvs.push(kv));
        lemma_kept_len(st0.t, st1.t, st0.p);
        lemma_kept_len(st1.t, end.t, st1.p);
        lemma_kept_trans(st0.t, st1.t, end.t, st0.p, st1.p);
        if id < st.t.nodes.len() {
            lemma_later_on(k, p, p + n);
        } else {
            if id < end.t.nodes.len() {
                lemma_mid(k, id, s, st0, end);
            }
            assert(p + n <= k.a);
            lemma_filler(k, st.p);
        }
        assert(past_filler(k.t, stb.p) == k.to(p));
        lemma_doc_bound(k, p);
        lemma_indent(k, p);
        lemma_indicator(k, p + n, DASH);
        assert(placed(k, id, st0, end));
        lemma_part(k, id, st0, st0, st1, end);
        e_map_rest(s, t0, start, st1, n, kvs.push(kv));
        lemma_more_apart(k, st1.t, end.t);
        lemma_col_spaces(s, p);
        if mid(id, st0.t, st1.t) && k.unblocks() {
            lemma_low_map(s, st1, n, kvs.push(kv));
        }
        s_entry(k, id, t0, start, st0, n, true);
        let (kv2, st1b) = map_entry(k.t, moved_st(k, st0), n)->Ok_0;
        assert(stb.to(k.to(p) + n) == moved_st(k, st0));
        lemma_follows(k, id, st0, st1, st1b);
        lemma_kept_same(end.t, end.p);
        lemma_apart_down(k, end.t, end.t, end.p, st1.t.nodes.len() as int, st.t.nodes.len() as int);
        assert(stb.p < st1b.p <= k.t.len()) by {
            if mid(id, st0.t, st1.t) {
                lemma_mid(k, id, s, st0, st1);
            } else {
                lemma_strict(k, st0.p, st1.p);
            }
        }
        if mid(id, t0, st.t) {
            lemma_pairs_on(k, st.t, st1.t, kvs, kvs2, kv, st0.p);
        } else if mid(id, st0.t, st1.t) {
            lemma_pairs_with(k, st1.t, kvs, kv.0, kv.1, kv2.1);
        }
        s_map_rest(k, id, t0, start, st1, st1b, n, kvs.push(kv), kvs2.push(kv2));
    } else {
        if id >= st.t.nodes.len() {
            assert(p <= end.p <= k.a);
            lemma_filler(k, st.p);
        } else {
            lemma_later_or_end(k, p, end.p);
        }
        lemma_doc_bound(k, p);
        lemma_indent(k, p);
        if p < s.len() && indent_at(s, p) == Some(n) {
            lemma_indicator(k, p + n, DASH);
        }
    }
}

proof fn lemma_later_or_end(k: Cut, x: int, y: int)
    requires
        k.later(x) || x == k.s.len(),
        x <= y <= k.s.len(),
    ensures
        k.later(y) || y == k.s.len(),
{
    if k.later(x) {
        lemma_later_on(k, x, y);
    }
}

/// One entry of a mapping.
#[verifier::rlimit(50)]
pub(crate) proof fn s_entry(k: Cut, id: int, t0: Tree, start: int, st: St, n: int, entries: bool)
    requires
        k.ok(),
        written(k),
        within(k.s, t0, start, st, false, entries),
        width(st.t) == 0,
        st.p < k.s.len(),
        map_entry(k.s, st, n) is Ok,
        placed(k, id, st, end_of(map_entry(k.s, st, n))),
        eased(k, id, st, end_of(map_entry(k.s, st, n)), n + 1),
        beyond(k, id, st, end_of(map_entry(k.s, st, n)), n),
        keys_apart(k.a, entries_of(end_of(map_entry(k.s, st, n)).t)),
    ensures
        same_entry(k, id, st, map_entry(k.s, st, n), map_entry(k.t, moved_st(k, st), n)),
    decreases k.s.len() - st.p, 4int,
{
    let s = k.s;
    unfold_map_entry(s, st, n);
    b_entry(s, t0, start, st, n, entries);
    let end = end_of(map_entry(s, st, n));
    lemma_kept_len(st.t, end.t, st.p);
    if mid(id, st.t, end.t) {
        lemma_mid(k, id, s, st, end);
    }
    assert(k.on(st.p));
    unfold_map_entry(k.t, moved_st(k, st), n);
    lemma_indicator(k, st.p, QUESTION);
    if indicator_at(s, st.p, QUESTION) {
        s_explicit(k, id, t0, start, st, n, entries);
    } else {
        lemma_token_bd(s, st.p);
        let x = token(s, st.p)->Ok_0;
        let p = run(s, x.p, Class::Blank);
        lemma_bd_ascii(s, p);
        let ext = Extent { a: st.p, b: x.end };
        let st1 = St { p: p + 1, t: st.t.key(ext, Some(x.text)), ..st };
        let (v, st2) = map_value(s, st1, n)->Ok_0;
        assert(end == st2);
        lemma_entry_key(k, id, t0, start, st, st1, ext, x.text, n, entries);
        lemma_token(k, st.p);
        lemma_white(k, x.p, Class::Blank);
        lemma_indicator(k, p, COLON);
        m_key(k, st.t, ext, Some(x.text));
        lemma_key_line(s, st.p, p);
        lemma_lines_alike(k, st.p, p);
        s_value(k, id, st1, n);
    }
}

proof fn lemma_entry_key(
    k: Cut,
    id: int,
    t0: Tree,
    start: int,
    st: St,
    st1: St,
    ext: Extent,
    text: Seq<u8>,
    n: int,
    entries: bool,
)
    requires
        k.ok(),
        within(k.s, t0, start, st, false, entries),
        width(st.t) == 0,
        st.p < st1.p <= k.s.len(),
        bd(k.s, st1.p),
        st1 == (St { p: st1.p, t: st.t.key(ext, Some(text)), ..st }),
        ext.a == st.p,
        crate::edit::sink::sound_extent(ext, k.s, st1.p),
        map_value(k.s, st1, n) is Ok,
        placed(k, id, st, end_of(map_value(k.s, st1, n))),
    ensures
        good(k.s, st1),
        placed(k, id, st1, end_of(map_value(k.s, st1, n))),
        st1.t.nodes == st.t.nodes,
        st1.p <= k.a || k.later(st.p),
{
    let s = k.s;
    f_sound(s, st, st1.p);
    lemma_grow_key(s, t0, start, st.to(st1.p), ext, Some(text), false, entries);
    lemma_key_nodes(st.t, ext, Some(text));
    b_value(s, st1, n);
    let st2 = end_of(map_value(s, st1, n));
    lemma_kept_same(st2.t, st2.p);
    lemma_kept_len(st1.t, st2.t, st1.p);
    lemma_part(k, id, st, st1, st2, st2);
    lemma_on(k, id, st1, st2);
}

/// An explicit key lies before or after the scalar, and so does what follows it.
proof fn lemma_explicit_key(k: Cut, id: int, t0: Tree, start: int, st: St, n: int, entries: bool)
    requires
        k.ok(),
        within(k.s, t0, start, st, false, entries),
        width(st.t) == 0,
        indicator_at(k.s, st.p, QUESTION),
        explicit_entry(k.s, st, n) is Ok,
        placed(k, id, st, end_of(explicit_entry(k.s, st, n))),
        keys_apart(k.a, entries_of(end_of(explicit_entry(k.s, st, n)).t)),
    ensures
        ({
            let p = run(k.s, st.p + 1, Class::Blank);
            let st0 = st.to(p);
            let (key, st1) = node(k.s, st0, n + 1)->Ok_0;
            let st2 = st1.with(st1.t.promote(scalar_text(key)));
            let q = past_filler(k.s, st1.p);
            let st3 = st2.to(q + n + 1);
            &&& good(k.s, st0)
            &&& node(k.s, st0, n + 1) is Ok
            &&& read_one(k.s, st0, st1)
            &&& placed(k, id, st0, st1)
            &&& !mid(id, st.t, st1.t)
            &&& p <= k.a && st1.p <= k.a || k.later(st.p)
            &&& q <= k.a || k.b <= st1.p
            &&& k.on(q)
            &&& q < k.s.len() && indent_at(k.s, q) == Some(n) && indicator_at(k.s, q + n, COLON) ==> {
                &&& good(k.s, st3)
                &&& map_value(k.s, st3, n) is Ok
                &&& placed(k, id, st3, end_of(map_value(k.s, st3, n)))
                &&& q + n + 1 <= k.a || k.later(st.p)
                &&& st3.t.nodes == st1.t.nodes
            }
        }),
{
    let s = k.s;
    unfold_explicit_entry(s, st, n);
    let end = end_of(explicit_entry(s, st, n));
    lemma_bd_ascii(s, st.p);
    let p = run(s, st.p + 1, Class::Blank);
    f_sound(s, st, p);
    let st0 = st.to(p);
    b_node(s, st0, n + 1);
    let (key, st1) = node(s, st0, n + 1)->Ok_0;
    lemma_grow_part(s, t0, start, st0, st1, false, entries);
    lemma_width(st0.t);
    lemma_grow_promote(s, t0, start, st1, scalar_text(key), false, entries);
    lemma_key_nodes(st1.t, Extent { a: 0, b: 0 }, scalar_text(key));
    let st2 = st1.with(st1.t.promote(scalar_text(key)));
    let q = past_filler(s, st1.p);
    lemma_kept_len(st.t, st1.t, p);
    assert(st.t.stack.len() > 0) by {
        reveal(inside);
    }
    let last = q >= s.len() || indent_at(s, q) != Some(n) || !indicator_at(s, q + n, COLON);
    let from = if last {
        st2.p
    } else {
        q + n + 1
    };
    if last {
        lemma_grow_empty(s, st2, q);
    } else {
        lemma_bd_ascii(s, q + n);
        f_sound(s, st2, q + n + 1);
        b_value(s, st2.to(q + n + 1), n);
    }
    assert(grew(st2.t, end.t, from) && kept(st2.t, end.t, from) && from <= end.p && st1.p <= end.p);
    lemma_kept_nodes(st1.t, st2.t, end.t, from, st1.p);
    lemma_part(k, id, st, st0, st1, end);
    if mid(id, st0.t, st1.t) {
        lemma_key_apart(k, id, st0.t, st1.t, st2.t, end.t, p, from, scalar_text(key));
    }
    lemma_on(k, id, st0, st1);
    if !last {
        let st3 = st2.to(q + n + 1);
        lemma_kept_same(end.t, end.p);
        lemma_kept_len(st3.t, end.t, from);
        lemma_part(k, id, st, st3, end, end);
        lemma_on(k, id, st3, end);
    } else {
        lemma_not_empty(k, id, st2.t, st2.p);
        assert(end.p == q);
    }
    if k.later(st.p) {
        lemma_later_on(k, st.p, st1.p);
    }
}

pub(crate) proof fn s_explicit(k: Cut, id: int, t0: Tree, start: int, st: St, n: int, entries: bool)
    requires
        k.ok(),
        written(k),
        within(k.s, t0, start, st, false, entries),
        width(st.t) == 0,
        indicator_at(k.s, st.p, QUESTION),
        explicit_entry(k.s, st, n) is Ok,
        placed(k, id, st, end_of(explicit_entry(k.s, st, n))),
        eased(k, id, st, end_of(explicit_entry(k.s, st, n)), n + 1),
        keys_apart(k.a, entries_of(end_of(explicit_entry(k.s, st, n)).t)),
    ensures
        same_entry(k, id, st, explicit_entry(k.s, st, n), explicit_entry(k.t, moved_st(k, st), n)),
    decreases k.s.len() - st.p, 3int,
{
    let s = k.s;
    unfold_explicit_entry(s, st, n);
    b_explicit(s, t0, start, st, n, entries);
    let (kv, end) = explicit_entry(s, st, n)->Ok_0;
    lemma_bd_ascii(s, st.p);
    let p = run(s, st.p + 1, Class::Blank);
    f_sound(s, st, p);
    let st0 = st.to(p);
    b_node(s, st0, n + 1);
    let (key, st1) = node(s, st0, n + 1)->Ok_0;
    let st2 = st1.with(st1.t.promote(scalar_text(key)));
    let q = past_filler(s, st1.p);
    lemma_explicit_key(k, id, t0, start, st, n, entries);
    lemma_kept_len(st.t, st1.t, p);
    // The key is read alike.
    lemma_white(k, st.p + 1, Class::Blank);
    s_node(k, id, st0, n + 1);
    m_promote(k, st1.t, s, st1.p, scalar_text(key));
    lemma_strict(k, st.p, p);
    unfold_explicit_entry(k.t, moved_st(k, st), n);
    assert(k.to(p) <= k.to(st1.p) <= k.t.len()) by {
        super::shift::lemma_order(k, p, st1.p);
        super::shift::lemma_order(k, st1.p, s.len() as int);
    }
    lemma_filler(k, st1.p);
    lemma_indent(k, q);
    if q < s.len() && indent_at(s, q) == Some(n) {
        lemma_indicator(k, q + n, COLON);
    }
    if q >= s.len() || indent_at(s, q) != Some(n) || !indicator_at(s, q + n, COLON) {
        lemma_key_nodes(st1.t, Extent { a: 0, b: 0 }, scalar_text(key));
        lemma_not_empty(k, id, st2.t, st2.p);
        f_absent(k, st2, q);
    } else {
        let st3 = st2.to(q + n + 1);
        lemma_col_spaces(s, q);
        lemma_col_on(s, q + n, q + n + 1);
        s_value(k, id, st3, n);
    }
}

pub(crate) proof fn s_value(k: Cut, id: int, st: St, n: int)
    requires
        k.ok(),
        written(k),
        good(k.s, st),
        map_value(k.s, st, n) is Ok,
        placed(k, id, st, end_of(map_value(k.s, st, n))),
        eased(k, id, st, end_of(map_value(k.s, st, n)), n + 1),
        beyond(k, id, st, end_of(map_value(k.s, st, n)), n),
    ensures
        same(k, id, st, map_value(k.s, st, n), map_value(k.t, moved_st(k, st), n)),
    decreases k.s.len() - st.p, 9int,
{
    let s = k.s;
    unfold_map_value(s, st, n);
    b_value(s, st, n);
    let end = end_of(map_value(s, st, n));
    lemma_on(k, id, st, end);
    unfold_map_value(k.t, moved_st(k, st), n);
    let p = run(s, st.p, Class::Blank);
    let q = past_filler(s, p);
    lemma_white(k, st.p, Class::Blank);
    lemma_ends(k, p);
    f_sound(s, st, p);
    if !line_ends(s, p) {
        b_node(s, st.to(p), n + 1);
        lemma_moved_on(k, id, st, p, end);
        lemma_blank_line(s, st.p);
        s_node(k, id, st.to(p), n + 1);
    } else {
        let x = if q < s.len() && indent_at(s, q) is Some {
            indent_at(s, q)->0
        } else {
            0
        };
        if q < s.len() && x == n && indicator_at(s, q + x, DASH) {
            f_sound(s, st, q + x);
            b_seq(s, st.to(q + x), x);
            lemma_moved_on(k, id, st, q + x, end);
            lemma_filler(k, p);
            lemma_indent(k, q);
            lemma_indicator(k, q + x, DASH);
            lemma_col_spaces(s, q);
            s_seq(k, id, st.to(q + x), x);
        } else if q < s.len() && x > n {
            f_sound(s, st, q + x);
            b_content(s, st.to(q + x), x, n + 1);
            lemma_moved_on(k, id, st, q + x, end);
            lemma_filler(k, p);
            lemma_indent(k, q);
            lemma_indicator(k, q + x, DASH);
            lemma_col_spaces(s, q);
            s_content(k, id, st.to(q + x), x, n + 1);
        } else {
            lemma_not_empty(k, id, st.t, st.p);
            lemma_filler(k, p);
            lemma_indent(k, q);
            if q < s.len() {
                lemma_indicator(k, q + x, DASH);
            }
            f_absent(k, st, q);
        }
    }
}

pub(crate) proof fn s_seq(k: Cut, id: int, st: St, n: int)
    requires
        k.ok(),
        written(k),
        good(k.s, st),
        st.p != k.a,
        block_seq(k.s, st, n) is Ok,
        placed(k, id, st, end_of(block_seq(k.s, st, n))),
        eased(k, id, st, end_of(block_seq(k.s, st, n)), n + 1),
        beyond(k, id, st, end_of(block_seq(k.s, st, n)), n),
        indicator_at(k.s, st.p, DASH),
    ensures
        same(k, id, st, block_seq(k.s, st, n), block_seq(k.t, moved_st(k, st), n)),
    decreases k.s.len() - st.p, 5int,
{
    let s = k.s;
    unfold_block_seq(s, st, n);
    unfold_block_seq(k.t, moved_st(k, st), n);
    b_seq(s, st, n);
    let end = end_of(block_seq(s, st, n));
    lemma_on(k, id, st, end);
    lemma_grow_open(s, st, false);
    lemma_open_count(st.t, st.p, false);
    m_open(k, st.t, st.p, false);
    let inner = st.with(st.t.open(st.p, false));
    b_seq_rest(s, st.t, st.p, inner, n, Seq::empty());
    let (vs, st1) = seq_rest(s, inner, n, Seq::empty())->Ok_0;
    lemma_before_close(k, id, st, st1);
    if id < st.t.nodes.len() {
        lemma_near(k, st.p);
    }
    lemma_close_len(st1.t, st1.p, s);
    lemma_kept_len(inner.t, st1.t, st.p);
    s_seq_rest(k, id, st.t, st.p, inner, moved_st(k, inner), n, Seq::empty(), Seq::empty());
    assert(st1.t.stack.len() > 0 && st1.t.stack.last().start == st.p) by {
        reveal(inside);
    }
    if id >= st1.t.nodes.len() || id < st.t.nodes.len() {
        m_close(k, st1.t, st1.p);
    } else {
        assert(ends_with_part(st1.t)) by {
            reveal(tail_ends);
            reveal(frame_is);
        }
        m_close(k, st1.t, st1.p);
        lemma_mid(k, id, s, st, end);
        lemma_near(k, end.p);
        let vs2 = (seq_rest(k.t, moved_st(k, inner), n, Seq::empty())->Ok_0).0;
        lemma_items_end(k, st1.t, st1.p, s, vs, vs2);
    }
    lemma_kept_len(inner.t, st1.t, st.p);
}

pub(crate) proof fn s_seq_rest(k: Cut, id: int, t0: Tree, start: int, st: St, stb: St, n: int, vs: Seq<Val>, vs2: Seq<Val>)
    requires
        k.ok(),
        written(k),
        within(k.s, t0, start, st, false, false),
        tail_ends(t0, st.t) || st.t.nodes.len() == t0.nodes.len(),
        seq_rest(k.s, st, n, vs) is Ok,
        follows(k, id, st, stb),
        if mid(id, t0, st.t) {
            turned_items(k, st.t, vs, vs2)
        } else {
            vs == vs2
        },
        rest_placed(k, id, st, end_of(seq_rest(k.s, st, n, vs))),
        eased(k, id, st, end_of(seq_rest(k.s, st, n, vs)), n + 1),
        vs.len() == 0 ==> indicator_at(k.s, st.p, DASH) && beyond(k, id, st, end_of(seq_rest(k.s, st, n, vs)), n),
    ensures
        ({
            let (all, end) = seq_rest(k.s, st, n, vs)->Ok_0;
            let (all2, end2) = seq_rest(k.t, stb, n, vs2)->Ok_0;
            &&& seq_rest(k.t, stb, n, vs2) is Ok
            &&& end2 == moved_st(k, end)
            &&& if mid(id, t0, end.t) {
                turned_items(k, end.t, all, all2)
            } else {
                all2 == all
            }
            &&& id < end.t.nodes.len() ==> k.later(end.p) || end.p == k.s.len()
        }),
    decreases k.s.len() - st.p, 4int,
{
    let s = k.s;
    unfold_seq_rest(s, st, n, vs);
    b_seq_rest(s, t0, start, st, n, vs);
    let (all, end) = seq_rest(s, st, n, vs)->Ok_0;
    assert(vs.len() == vs2.len()) by {
        reveal(turned_items);
    }
    assert(t0.nodes.len() <= st.t.nodes.len()) by {
        reveal(inside);
    }
    unfold_seq_rest(k.t, stb, n, vs2);
    let p = past_filler(s, st.p);
    past_filler_in(s, st.p);
    past_filler_in(k.t, stb.p);
    if id < st.t.nodes.len() {
        lemma_filler_later(k, st.p);
    }
    let x = if p < s.len() && indent_at(s, p) is Some {
        indent_at(s, p)->0
    } else {
        0
    };
    let here = vs.len() == 0 && x == 0;
    if p < s.len() && indicator_at(s, p + x, DASH) && (here || col_at(s, p + x) == n) {
        lemma_bd_ascii(s, p + x);
        let q = run(s, p + x + 1, Class::Blank);
        f_sound(s, st, q);
        let st0 = st.to(q);
        b_node(s, st0, n + 1);
        let (v, st1) = node(s, st0, n + 1)->Ok_0;
        lemma_grow_part(s, t0, start, st0, st1, false, false);
        b_seq_rest(s, t0, start, st1, n, vs.push(v));
        lemma_kept_len(st0.t, st1.t, st0.p);
        lemma_kept_len(st1.t, end.t, st1.p);
        lemma_kept_trans(st0.t, st1.t, end.t, st0.p, st1.p);
        if id < st.t.nodes.len() {
            lemma_later_on(k, p, q);
            lemma_later_on(k, p, p + x);
        } else {
            if id < end.t.nodes.len() {
                lemma_mid(k, id, s, st0, end);
            }
            assert(q <= k.a);
            lemma_filler(k, st.p);
        }
        assert(past_filler(k.t, stb.p) == k.to(p));
        lemma_indent(k, p);
        lemma_indicator(k, p + x, DASH);
        lemma_col(k, p + x);
        lemma_white(k, p + x + 1, Class::Blank);
        assert(placed(k, id, st0, end));
        lemma_part(k, id, st0, st0, st1, end);
        if mid(id, st0.t, st1.t) && k.unblocks() {
            lemma_low_seq(s, st1, n, vs.push(v));
            if vs.len() == 0 {
                assert(run(s, st.p, Class::Blank) == st.p);
                assert(p == st.p);
            }
            lemma_dash_col(s, p + x);
        }
        s_node(k, id, st0, n + 1);
        let (w, st1b) = node(k.t, moved_st(k, st0), n + 1)->Ok_0;
        assert(stb.to(run(k.t, k.to(p) + x + 1, Class::Blank)) == moved_st(k, st0));
        lemma_follows(k, id, st0, st1, st1b);
        lemma_kept_same(end.t, end.p);
        lemma_apart_down(k, end.t, end.t, end.p, st1.t.nodes.len() as int, st.t.nodes.len() as int);
        assert(stb.p < st1b.p <= k.t.len()) by {
            if mid(id, st0.t, st1.t) {
                lemma_mid(k, id, s, st0, st1);
            } else {
                lemma_strict(k, p + x, st1.p);
            }
        }
        if mid(id, t0, st.t) {
            lemma_items_on(k, st.t, st1.t, vs, vs2, v, st0.p);
        } else if mid(id, st0.t, st1.t) {
            lemma_items_with(k, st1.t, vs, v, w);
        }
        s_seq_rest(k, id, t0, start, st1, st1b, n, vs.push(v), vs2.push(w));
    } else {
        if id >= st.t.nodes.len() {
            assert(p <= end.p <= k.a);
            lemma_filler(k, st.p);
        } else {
            lemma_later_or_end(k, p, end.p);
        }
        lemma_indent(k, p);
        if p < s.len() {
            if id < st.t.nodes.len() {
                lemma_later_on(k, p, p + x);
            }
            lemma_indicator(k, p + x, DASH);
            lemma_col(k, p + x);
        }
    }
}

pub(crate) proof fn s_flow_or_map(k: Cut, id: int, st: St, n: int)
    requires
        k.ok(),
        written(k),
        good(k.s, st),
        st.p != k.a,
        at(k.s, st.p) == Some(LBRACKET) || at(k.s, st.p) == Some(LBRACE),
        flow_or_map(k.s, st, n) is Ok,
        placed(k, id, st, end_of(flow_or_map(k.s, st, n))),
        eased(k, id, st, end_of(flow_or_map(k.s, st, n)), n + 1),
        beyond(k, id, st, end_of(flow_or_map(k.s, st, n)), n),
    ensures
        same(k, id, st, flow_or_map(k.s, st, n), flow_or_map(k.t, moved_st(k, st), n)),
    decreases k.s.len() - st.p, 5int,
{
    let s = k.s;
    unfold_flow_or_map(s, st, n);
    b_flow_or_map(s, st, n);
    let end = end_of(flow_or_map(s, st, n));
    lemma_on(k, id, st, end);
    lemma_grow_open(s, st, false);
    lemma_open_count(st.t, st.p, false);
    let inner = st.with(st.t.open(st.p, false));
    b_collection(s, inner);
    let (v, st1) = flow_collection(s, inner)->Ok_0;
    if st.p < k.a {
        lemma_flow_apart(k, id, st, n);
        assert(st1.p != k.a);
    }
    m_open(k, st.t, st.p, false);
    f_collection(k, inner);
    lemma_kept_len(inner.t, st1.t, st.p);
    lemma_flow_node_left(s, st, n);
    assert(!mid(id, st.t, st1.t)) by {
        if mid(id, st.t, st1.t) {
            lemma_kept_len(st1.t, end.t, st.p);
            lemma_leaf_down(k, st1.t, end.t, st.p, id);
            lemma_mid(k, id, s, inner, st1);
        }
    }
    unfold_flow_or_map(k.t, moved_st(k, st), n);
    if k.later(st.p) {
        lemma_later_on(k, st.p, st1.p);
    }
    let p = run(s, st1.p, Class::Blank);
    lemma_white(k, st1.p, Class::Blank);
    lemma_indicator(k, p, COLON);
    if !indicator_at(s, p, COLON) {
        lemma_key_nodes(st1.t, Extent { a: 0, b: 0 }, None);
        m_dissolve(k, st1.t, s, st1.p);
    } else {
        lemma_bd_ascii(s, p);
        f_sound(s, st1, p + 1);
        lemma_grow_part(s, st.t, st.p, inner, st1, false, false);
        lemma_width(inner.t);
        lemma_grow_promote(s, st.t, st.p, st1.to(p + 1), None, false, false);
        lemma_key_nodes(st1.t, Extent { a: 0, b: 0 }, None);
        let st2 = St { p: p + 1, t: st1.t.promote(None), ..st1 };
        lemma_keyed(k, id, st, st2, n, v);
        lemma_lines_alike(k, st.p, p);
        m_promote(k, st1.t, s, st1.p, None);
        lemma_same_line(s, st.p, p);
        lemma_col_on(s, p, p + 1);
        s_keyed(k, id, st, st2, n, v);
    }
}

} // verus!
