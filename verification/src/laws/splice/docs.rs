//! Streams that differ in one scalar have the same documents, up to it.
use vstd::prelude::*;
use super::basic::b_node;
use super::blocks::s_node;
use super::cut::{
    lemma_doc_marker, lemma_filler, lemma_filler_later, lemma_indent, lemma_next_line, lemma_past_marker, Cut,
};
use super::flows::f_sound;
use super::nest::{forest, n_root, one_nested};
use super::growth::{good, lemma_ended, kept, lemma_kept_from, lemma_kept_same, lemma_kept_trans, read_one};
use super::leaf::written;
use super::low::{lemma_col_pos, lemma_filler_twice, low};
use super::lists::{lemma_kept_len, lemma_part, lemma_strict};
use super::place::{end_of, lemma_later_on, lemma_mid, mid, placed};
use super::shift::{lemma_order, moved_st};
use super::turn::{lemma_doc_kept, lemma_turned_doc, turned_doc};
use crate::laws::places::is_leaf;
use crate::edit::sink::{grew, Tree};
use crate::parser::grammar::{documents, lemma_past_directives, next_document, node, past_directives, St};
use crate::parser::layout::{
    bounds, doc_marker, moves, next_line, next_line_in, past_filler, past_filler_in, past_marker,
};
use crate::text::{at, bd, lemma_bd_ascii, DASH, DOT, PERCENT};
use crate::value::Val;

verus! {

broadcast use {moves, bounds};

/// Directives before or after the scalar.
proof fn lemma_directives(k: Cut, p: int)
    requires
        k.ok(),
        k.on(p),
        past_directives(k.s, p) <= k.a || k.b <= p,
    ensures
        past_directives(k.t, k.to(p)) == k.to(past_directives(k.s, p)),
    decreases k.s.len() - p,
{
    lemma_past_directives(k.s, p);
    if at(k.s, p) == Some(PERCENT) {
        next_line_in(k.s, p);
        let l = next_line(k.s, p);
        past_filler_in(k.s, l);
        let q = past_filler(k.s, l);
        lemma_past_directives(k.s, q);
        assert(p != k.a);
        assert(k.s[p] == k.t[k.to(p)]);
        lemma_next_line(k, p);
        lemma_filler(k, l);
        lemma_directives(k, q);
    } else if p < k.s.len() && p != k.a {
        assert(k.s[p] == k.t[k.to(p)]);
    }
}

/// Directives end on a character boundary.
proof fn lemma_directives_bd(s: Seq<u8>, p: int)
    requires
        0 <= p <= s.len(),
        crate::text::is_text(s),
        bd(s, p),
    ensures
        bd(s, past_directives(s, p)),
        p <= past_directives(s, p) <= s.len(),
    decreases s.len() - p,
{
    lemma_past_directives(s, p);
    if at(s, p) == Some(PERCENT) {
        next_line_in(s, p);
        past_filler_in(s, next_line(s, p));
        lemma_directives_bd(s, past_filler(s, next_line(s, p)));
    }
}

/// A document marker ends on a character boundary.
proof fn lemma_marker_bd(s: Seq<u8>, p: int, c: u8)
    requires
        crate::text::is_text(s),
        doc_marker(s, p, c),
        c == DASH || c == DOT,
        0 <= p,
    ensures
        bd(s, past_marker(s, p)),
        p + 3 <= past_marker(s, p) <= s.len(),
{
    lemma_bd_ascii(s, p);
    lemma_bd_ascii(s, p + 1);
    lemma_bd_ascii(s, p + 2);
}

/// What reading one document adds.
pub(crate) proof fn b_next(s: Seq<u8>, st: St, bare: bool)
    requires
        good(s, st),
        next_document(s, st, bare) is Ok,
    ensures
        ({
            let (o, st1) = next_document(s, st, bare)->Ok_0;
            let p = past_directives(s, past_filler(s, st.p));
            let q = if doc_marker(s, p, DASH) {
                past_marker(s, p)
            } else {
                p
            };
            let st0 = St { p: q, a: Seq::empty(), ..st };
            let st2 = end_of(node(s, st0, 0));
            &&& good(s, st1)
            &&& st.p <= p <= st1.p
            &&& kept(st.t, st1.t, p)
            &&& o is None ==> st1 == st.to(p)
            &&& o is Some ==> {
                &&& good(s, st0)
                &&& p <= q <= st2.p <= st1.p
                &&& read_one(s, st0, st2)
                &&& st1.t == st2.t
            }
            &&& st.t.stack.len() == 0 && forest(st.t) ==> forest(st1.t)
            &&& st.t.stack.len() == 0 ==> st1.t.stack.len() == 0 && st1.t.roots.len() == st.t.roots.len() + (if o is Some {
                1int
            } else {
                0
            })
        }),
{
    reveal(next_document);
    let p = past_directives(s, past_filler(s, st.p));
    past_filler_in(s, st.p);
    lemma_directives_bd(s, past_filler(s, st.p));
    f_sound(s, st, p);
    lemma_kept_same(st.t, p);
    if p < s.len() {
        let q = if doc_marker(s, p, DASH) {
            past_marker(s, p)
        } else {
            p
        };
        if doc_marker(s, p, DASH) {
            lemma_marker_bd(s, p, DASH);
        }
        f_sound(s, st, q);
        let st0 = St { p: q, a: Seq::empty(), ..st };
        b_node(s, st0, 0);
        let (v, st2) = node(s, st0, 0)->Ok_0;
        let r = past_filler(s, st2.p);
        let e = if doc_marker(s, r, DOT) {
            past_marker(s, r)
        } else {
            r
        };
        if doc_marker(s, r, DOT) {
            lemma_marker_bd(s, r, DOT);
        }
        f_sound(s, st2, e);
        lemma_kept_from(st.t, st2.t, q, p);
        if st.t.stack.len() == 0 && forest(st.t) {
            lemma_ended(s, st.t, q);
            n_root(st.t, st2.t, q);
        }
        reveal(grew);
    }
}

/// Where the node of the next document ends.
pub open spec fn doc_end(s: Seq<u8>, st: St) -> int {
    let p = past_directives(s, past_filler(s, st.p));
    let q = if doc_marker(s, p, DASH) {
        past_marker(s, p)
    } else {
        p
    };
    end_of(node(s, St { p: q, a: Seq::empty(), ..st }, 0)).p
}

/// A document that another follows, or nothing, ends before a marker or a directive.
proof fn lemma_doc_low(s: Seq<u8>, st: St, bare: bool)
    requires
        good(s, st),
        next_document(s, st, bare) is Ok,
        ({
            let (o, st1) = next_document(s, st, bare)->Ok_0;
            o is Some && next_document(s, st1, (o->0).1) is Ok
        }),
    ensures
        low(s, doc_end(s, st), 0),
{
    reveal(next_document);
    b_next(s, st, bare);
    let r = past_filler(s, doc_end(s, st));
    past_filler_in(s, doc_end(s, st));
    lemma_filler_twice(s, doc_end(s, st));
}

/// The next document of both streams is the same, up to the scalar.
proof fn s_next(k: Cut, id: int, st: St, bare: bool)
    requires
        k.ok(),
        written(k),
        good(k.s, st),
        next_document(k.s, st, bare) is Ok,
        is_leaf(k.n),
        placed(k, id, st, end_of(next_document(k.s, st, bare))),
        (next_document(k.s, st, bare)->Ok_0).0 is Some ==> low(k.s, doc_end(k.s, st), 0),
    ensures
        ({
            let (o, st1) = next_document(k.s, st, bare)->Ok_0;
            let (o2, st2) = next_document(k.t, moved_st(k, st), bare)->Ok_0;
            &&& next_document(k.t, moved_st(k, st), bare) is Ok
            &&& st2 == moved_st(k, st1)
            &&& match (o, o2) {
                (Some((v, ended)), Some((w, ended2))) => ended2 == ended && if mid(id, st.t, st1.t) {
                    turned_doc(k, st1.t, v, w)
                } else {
                    w == v
                },
                (None, None) => true,
                _ => false,
            }
            &&& id < st1.t.nodes.len() ==> k.later(st1.p) || st1.p == k.s.len()
            &&& k.on(st.p)
            &&& k.on(st1.p)
        }),
{
    reveal(next_document);
    let s = k.s;
    b_next(s, st, bare);
    let (o, st1) = next_document(s, st, bare)->Ok_0;
    let f = past_filler(s, st.p);
    past_filler_in(s, st.p);
    let p = past_directives(s, f);
    lemma_past_directives(s, f);
    if mid(id, st.t, st1.t) {
        lemma_mid(k, id, s, st.to(p), st1);
    }
    assert(p <= k.a || k.later(st.p) || st.p == s.len());
    if k.later(st.p) {
        lemma_later_on(k, st.p, f);
        lemma_later_on(k, st.p, p);
    }
    lemma_filler(k, st.p);
    lemma_directives(k, f);
    lemma_indent(k, p);
    lemma_doc_marker(k, p, DASH);
    if o is Some {
        let q = if doc_marker(s, p, DASH) {
            past_marker(s, p)
        } else {
            p
        };
        let st0 = St { p: q, a: Seq::empty(), ..st };
        let (v, st2) = node(s, st0, 0)->Ok_0;
        if mid(id, st.t, st1.t) {
            lemma_mid(k, id, s, st0, st2);
        }
        assert(q <= k.a || k.later(st.p));
        if k.later(st.p) {
            lemma_later_on(k, st.p, q);
            lemma_later_on(k, st.p, st2.p);
        }
        if doc_marker(s, p, DASH) {
            lemma_past_marker(k, p);
        }
        assert(placed(k, id, st0, st2));
        lemma_col_pos(s, q);
        s_node(k, id, st0, 0);
        let (w, st2b) = node(k.t, moved_st(k, st0), 0)->Ok_0;
        let r = past_filler(s, st2.p);
        past_filler_in(s, st2.p);
        if mid(id, st.t, st1.t) {
            lemma_turned_doc(k, st2.t, v, w);
            lemma_filler_later(k, st2.p);
        } else {
            if k.later(st.p) {
                lemma_later_on(k, st.p, r);
            }
            lemma_filler(k, st2.p);
        }
        lemma_doc_marker(k, r, DOT);
        if doc_marker(s, r, DOT) {
            lemma_past_marker(k, r);
        }
        if id < st1.t.nodes.len() {
            if k.later(r) {
                lemma_later_on(k, r, st1.p);
            }
        }
    }
}

/// Whether from number `n` on only document `d` differs.
pub open spec fn alike(all: Seq<Val>, all2: Seq<Val>, n: int, d: int) -> bool {
    forall|i: int| n <= i < all.len() && i != d ==> #[trigger] all2[i] == all[i]
}

/// The number of the document that node `id` is in, the next one being number `n`.
pub open spec fn doc_of(s: Seq<u8>, id: int, st: St, n: int, bare: bool) -> int
    decreases s.len() - st.p, (if bare { 1int } else { 0 }),
        when 0 <= st.p <= s.len()
{
    match next_document(s, st, bare) {
        Ok((Some((_, ended)), st1)) => if id < st1.t.nodes.len() {
            n
        } else if st.p <= st1.p <= s.len() && (st.p < st1.p || (bare && !ended)) {
            doc_of(s, id, st1, n + 1, ended)
        } else {
            n
        },
        _ => n,
    }
}

/// The documents read so far stay.
proof fn lemma_prefix(s: Seq<u8>, st: St, vs: Seq<Val>, bare: bool)
    requires
        0 <= st.p <= s.len(),
        documents(s, st, vs, bare) is Ok,
    ensures
        ({
            let all = (documents(s, st, vs, bare)->Ok_0).0;
            &&& vs.len() <= all.len()
            &&& forall|i: int| 0 <= i < vs.len() ==> #[trigger] all[i] == vs[i]
        }),
    decreases s.len() - st.p, (if bare { 1int } else { 0 }),
{
    if let Ok((Some((v, ended)), st1)) = next_document(s, st, bare) {
        lemma_prefix(s, st1, vs.push(v), ended);
        let all = (documents(s, st, vs, bare)->Ok_0).0;
        assert forall|i: int| 0 <= i < vs.len() implies #[trigger] all[i] == vs[i] by {
            assert(all[i] == vs.push(v)[i]);
        }
    }
}

/// Two streams that differ in one scalar hold the same documents, up to it.
pub(crate) proof fn s_documents(k: Cut, id: int, st: St, vs: Seq<Val>, vs2: Seq<Val>, bare: bool)
    requires
        k.ok(),
        written(k),
        good(k.s, st),
        documents(k.s, st, vs, bare) is Ok,
        is_leaf(k.n),
        placed(k, id, st, end_of(documents(k.s, st, vs, bare))),
        vs.len() == vs2.len(),
    ensures
        ({
            let (all, end) = documents(k.s, st, vs, bare)->Ok_0;
            let (all2, end2) = documents(k.t, moved_st(k, st), vs2, bare)->Ok_0;
            &&& documents(k.t, moved_st(k, st), vs2, bare) is Ok
            &&& end2 == moved_st(k, end)
            &&& all2.len() == all.len()
            &&& alike(all, all2, vs.len() as int, if id < st.t.nodes.len() {
                vs.len() - 1
            } else {
                doc_of(k.s, id, st, vs.len() as int, bare)
            })
            &&& mid(id, st.t, end.t) ==> {
                let d = doc_of(k.s, id, st, vs.len() as int, bare);
                vs.len() <= d < all.len() && turned_doc(k, end.t, all[d], all2[d])
            }
        }),
    decreases k.s.len() - st.p, (if bare { 1int } else { 0 }),
{
    let s = k.s;
    b_documents(s, st, vs, bare);
    let (all, end) = documents(s, st, vs, bare)->Ok_0;
    b_next(s, st, bare);
    let (o, st1) = next_document(s, st, bare)->Ok_0;
    match o {
        None => {
            s_next(k, id, st, bare);
        },
        Some((v, ended)) => {
            b_documents(s, st1, vs.push(v), ended);
            lemma_kept_len(st.t, st1.t, past_directives(s, past_filler(s, st.p)));
            lemma_part(k, id, st, st, st1, end);
            lemma_doc_low(s, st, bare);
            s_next(k, id, st, bare);
            let (o2, st1b) = next_document(k.t, moved_st(k, st), bare)->Ok_0;
            let (w, ended2) = o2->0;
            lemma_kept_same(end.t, end.p);
            lemma_kept_len(st1.t, end.t, st1.p);
            lemma_part(k, id, st, st1, end, end);
            lemma_order(k, st.p, st1.p);
            if st.p < st1.p {
                lemma_strict(k, st.p, st1.p);
            }
            s_documents(k, id, st1, vs.push(v), vs2.push(w), ended);
            lemma_prefix(s, st1, vs.push(v), ended);
            lemma_prefix(k.t, st1b, vs2.push(w), ended2);
            let n = vs.len() as int;
            let (all2, _) = documents(k.t, moved_st(k, st), vs2, bare)->Ok_0;
            assert(all[n] == v && all2[n] == w) by {
                assert(vs.push(v)[n] == v && vs2.push(w)[n] == w);
            }
            if mid(id, st.t, st1.t) {
                lemma_doc_kept(k, st1.t, end.t, v, w, st1.p);
            }
        },
    }
}

/// What reading the documents of a stream adds.
pub(crate) proof fn b_documents(s: Seq<u8>, st: St, vs: Seq<Val>, bare: bool)
    requires
        good(s, st),
        documents(s, st, vs, bare) is Ok,
    ensures
        ({
            let (all, end) = documents(s, st, vs, bare)->Ok_0;
            &&& good(s, end)
            &&& st.p <= end.p
            &&& kept(st.t, end.t, st.p)
            &&& st.t.stack.len() == 0 && forest(st.t) ==> forest(end.t)
            &&& st.t.stack.len() == 0 ==> end.t.stack.len() == 0 && end.t.roots.len() - st.t.roots.len() == all.len()
                - vs.len()
        }),
    decreases s.len() - st.p, (if bare { 1int } else { 0 }),
{
    b_next(s, st, bare);
    let (o, st1) = next_document(s, st, bare)->Ok_0;
    let p = past_directives(s, past_filler(s, st.p));
    lemma_kept_from(st.t, st1.t, p, st.p);
    if let Some((v, ended)) = o {
        b_documents(s, st1, vs.push(v), ended);
        lemma_kept_trans(st.t, st1.t, end_of(documents(s, st1, vs.push(v), ended)).t, st.p, st1.p);
    }
}

/// Whether `id` is among the nodes that root `j` is made of.
pub open spec fn under_root(t: Tree, id: int, j: int) -> bool {
    &&& 0 <= j < t.roots.len()
    &&& id <= t.roots[j]
    &&& j > 0 ==> t.roots[j - 1] < id
}

/// Roots stay, and each is the last node of its document.
proof fn lemma_roots(s: Seq<u8>, st: St, vs: Seq<Val>, bare: bool)
    requires
        good(s, st),
        st.t.stack.len() == 0,
        documents(s, st, vs, bare) is Ok,
    ensures
        ({
            let end = end_of(documents(s, st, vs, bare));
            &&& st.t.roots.len() <= end.t.roots.len()
            &&& forall|i: int| 0 <= i < st.t.roots.len() ==> #[trigger] end.t.roots[i] == st.t.roots[i]
        }),
    decreases s.len() - st.p, (if bare { 1int } else { 0 }),
{
    b_next(s, st, bare);
    if let Ok((Some((v, ended)), st1)) = next_document(s, st, bare) {
        lemma_next_root(s, st, bare);
        lemma_roots(s, st1, vs.push(v), ended);
        let end = end_of(documents(s, st, vs, bare));
        assert forall|i: int| 0 <= i < st.t.roots.len() implies #[trigger] end.t.roots[i] == st.t.roots[i] by {
            assert(end.t.roots[i] == st1.t.roots[i]);
        }
    }
}

proof fn lemma_next_root(s: Seq<u8>, st: St, bare: bool)
    requires
        good(s, st),
        st.t.stack.len() == 0,
        next_document(s, st, bare) is Ok,
        (next_document(s, st, bare)->Ok_0).0 is Some,
    ensures
        ({
            let st1 = end_of(next_document(s, st, bare));
            st1.t.roots == st.t.roots.push(st1.t.nodes.len() - 1)
        }),
{
    b_next(s, st, bare);
    reveal(grew);
    reveal(one_nested);
}

/// The document that a node is in is that of the root it is under.
pub(crate) proof fn lemma_doc_of(s: Seq<u8>, id: int, st: St, vs: Seq<Val>, bare: bool)
    requires
        good(s, st),
        st.t.stack.len() == 0,
        documents(s, st, vs, bare) is Ok,
        st.t.nodes.len() <= id < end_of(documents(s, st, vs, bare)).t.nodes.len(),
        st.t.roots.len() == vs.len(),
        vs.len() > 0 ==> st.t.roots.last() < st.t.nodes.len(),
    ensures
        under_root(end_of(documents(s, st, vs, bare)).t, id, doc_of(s, id, st, vs.len() as int, bare)),
    decreases s.len() - st.p, (if bare { 1int } else { 0 }),
{
    b_next(s, st, bare);
    if let Ok((Some((v, ended)), st1)) = next_document(s, st, bare) {
        lemma_next_root(s, st, bare);
        lemma_roots(s, st1, vs.push(v), ended);
        let end = end_of(documents(s, st, vs, bare));
        let n = vs.len() as int;
        assert(end.t.roots[n] == st1.t.roots[n]);
        if n > 0 {
            assert(end.t.roots[n - 1] == st1.t.roots[n - 1]);
        }
        if id >= st1.t.nodes.len() {
            lemma_doc_of(s, id, st1, vs.push(v), ended);
        }
    }
}

} // verus!
