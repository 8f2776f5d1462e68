//! What is read around the scalar differs in that scalar alone.
use vstd::prelude::*;
use super::cut::Cut;
use super::ends::lemma_quoted_end;
use super::growth::kept;
use super::words::lemma_quoted_in;
use crate::edit::sink::Tree;
use crate::edit::types::{flat, raw_value, same_type, tagged};
use crate::laws::places::{
    is_leaf, items_changed, lemma_items, lemma_items_last, lemma_items_push, lemma_merged_changed, lemma_pairs,
    lemma_pairs_last, lemma_pairs_push, lemma_part, lemma_part_tag, lemma_tagged_leaf, one_changed, pairs_changed,
    part_changed,
};
use crate::parser::grammar::{with_props, St};
use crate::parser::layout::{bounds, col_at, line_ends, moves, Fail};
use crate::parser::tokens::{escaped, hex_width, quote, quoted, quoted_class, quoted_rest, short_escape, Props};
use crate::text::{at, is_blank, is_break, lemma_run, run, Class, BACKSLASH, DQUOTE, SQUOTE};
use crate::value::{merged, Val};

verus! {

broadcast use {moves, bounds};

/// Whether the scalar of the first source may be read as `o`: what its bytes say if they
/// do wherever they stand, and a value of their type in any case.
pub open spec fn was(k: Cut, o: Val) -> bool {
    let raw = k.s.subrange(k.x, k.y);
    &&& is_leaf(o)
    &&& !(o is Tagged)
    &&& same_type(o, raw_value(raw))
    &&& flat(raw) ==> o == raw_value(raw)
}

/// The scalar of the first source with its tags.
pub open spec fn old_leaf(k: Cut, t: Tree, o: Val) -> Val {
    tagged(t.nodes[k.l].tags, o)
}

/// The scalar of the second source with its tags.
pub open spec fn new_leaf(k: Cut, t: Tree) -> Val {
    tagged(t.nodes[k.l].tags, k.n)
}

/// Whether `v` and `w` are the scalars of the two sources, or are the same up to them.
#[verifier::opaque]
pub open spec fn turned(k: Cut, t: Tree, v: Val, w: Val) -> bool {
    &&& 0 <= k.l < t.nodes.len()
    &&& exists|o: Val| #[trigger]
        was(k, o) && if t.last == Some(k.l) {
            v == old_leaf(k, t, o) && w == new_leaf(k, t)
        } else {
            part_changed(v, w, old_leaf(k, t, o), new_leaf(k, t))
        }
}

/// Whether two lists of items are the same up to the scalar.
#[verifier::opaque]
pub open spec fn turned_items(k: Cut, t: Tree, vs: Seq<Val>, ws: Seq<Val>) -> bool {
    &&& 0 <= k.l < t.nodes.len()
    &&& vs.len() == ws.len()
    &&& exists|o: Val| #[trigger] was(k, o) && items_changed(vs, ws, old_leaf(k, t, o), new_leaf(k, t))
}

/// Whether two lists of entries are the same up to the scalar.
#[verifier::opaque]
pub open spec fn turned_pairs(k: Cut, t: Tree, vs: Seq<(Val, Val)>, ws: Seq<(Val, Val)>) -> bool {
    &&& 0 <= k.l < t.nodes.len()
    &&& vs.len() == ws.len()
    &&& exists|o: Val| #[trigger] was(k, o) && pairs_changed(vs, ws, old_leaf(k, t, o), new_leaf(k, t))
}

/// What differs is one place.
pub(crate) proof fn lemma_turned(k: Cut, t: Tree, v: Val, w: Val) -> (o: Val)
    requires
        turned(k, t, v, w),
    ensures
        0 <= k.l < t.nodes.len(),
        was(k, o),
        one_changed(v, w, old_leaf(k, t, o), new_leaf(k, t)),
{
    reveal(turned);
    let o = choose|o: Val| #[trigger]
        was(k, o) && if t.last == Some(k.l) {
            v == old_leaf(k, t, o) && w == new_leaf(k, t)
        } else {
            part_changed(v, w, old_leaf(k, t, o), new_leaf(k, t))
        };
    let x = old_leaf(k, t, o);
    let y = new_leaf(k, t);
    if t.last == Some(k.l) {
        let ps = Seq::<int>::empty();
        assert(crate::laws::places::found(v, ps) == Some(x) && w == crate::laws::places::put(v, ps, y));
    } else {
        lemma_part(v, w, x, y);
    }
    o
}

/// Whether two documents are the same up to the scalar.
#[verifier::opaque]
pub open spec fn turned_doc(k: Cut, t: Tree, v: Val, w: Val) -> bool {
    &&& 0 <= k.l < t.nodes.len()
    &&& exists|o: Val| #[trigger] was(k, o) && one_changed(v, w, old_leaf(k, t, o), new_leaf(k, t))
}

/// Documents whose nodes are so, when their merges are resolved.
pub(crate) proof fn lemma_turned_doc(k: Cut, t: Tree, v: Val, w: Val)
    requires
        turned(k, t, v, w),
        is_leaf(k.n),
    ensures
        turned_doc(k, t, merged(v), merged(w)),
{
    reveal(turned_doc);
    let o = lemma_turned(k, t, v, w);
    lemma_tagged_leaf(t.nodes[k.l].tags, o);
    lemma_tagged_leaf(t.nodes[k.l].tags, k.n);
    lemma_merged_changed(v, w, old_leaf(k, t, o), new_leaf(k, t));
}

/// Documents that were read stay.
pub(crate) proof fn lemma_doc_kept(k: Cut, t: Tree, t1: Tree, v: Val, w: Val, from: int)
    requires
        turned_doc(k, t, v, w),
        kept(t, t1, from),
    ensures
        turned_doc(k, t1, v, w),
{
    reveal(turned_doc);
    reveal(kept);
    assert(t1.nodes[k.l] == t.nodes[k.l]);
    let o = choose|o: Val| #[trigger] was(k, o) && one_changed(v, w, old_leaf(k, t, o), new_leaf(k, t));
    assert(old_leaf(k, t1, o) == old_leaf(k, t, o));
}

/// The scalars themselves.
pub(crate) proof fn lemma_turned_leaf(k: Cut, t: Tree, v: Val)
    requires
        was(k, v),
        0 <= k.l < t.nodes.len(),
        t.last == Some(k.l),
        t.nodes[k.l].tags.len() == 0,
    ensures
        turned(k, t, v, k.n),
{
    reveal(turned);
    assert(v == old_leaf(k, t, v));
}

/// It does not depend on what stands around the scalar.
pub(crate) proof fn lemma_turned_same(j: Cut, k: Cut, t: Tree, t1: Tree, v: Val, w: Val)
    requires
        turned(j, t, v, w),
        j == k.inner(),
        t1.nodes == t.nodes,
        t1.last == t.last,
    ensures
        turned(k, t1, v, w),
{
    reveal(turned);
    let o = choose|o: Val| #[trigger]
        was(j, o) && if t.last == Some(j.l) {
            v == old_leaf(j, t, o) && w == new_leaf(j, t)
        } else {
            part_changed(v, w, old_leaf(j, t, o), new_leaf(j, t))
        };
    assert(was(k, o));
    assert(old_leaf(k, t1, o) == old_leaf(j, t, o) && new_leaf(k, t1) == new_leaf(j, t));
}

/// A node with its tag.
pub(crate) proof fn lemma_turned_props(k: Cut, x: Props, v: Val, w: Val, st: St)
    requires
        turned(k, st.t, v, w),
        x.anchor is None,
        st.t.last is Some ==> 0 <= st.t.last->0 < st.t.nodes.len(),
    ensures
        turned(k, with_props(x, v, st).1.t, with_props(x, v, st).0, with_props(x, w, st).0),
{
    reveal(turned);
    if let Some(tag) = x.tag {
        reveal(Tree::set_tag);
        let t = st.t;
        let u = t.set_tag(tag);
        let o = choose|o: Val| #[trigger]
            was(k, o) && if t.last == Some(k.l) {
                v == old_leaf(k, t, o) && w == new_leaf(k, t)
            } else {
                part_changed(v, w, old_leaf(k, t, o), new_leaf(k, t))
            };
        if t.last == Some(k.l) {
            let tags = t.nodes[k.l].tags;
            assert(u.nodes[k.l].tags == tags.push(tag));
            assert(tags.push(tag).drop_last() =~= tags);
            assert(with_props(x, v, st).0 == old_leaf(k, u, o));
            assert(with_props(x, w, st).0 == new_leaf(k, u));
        } else {
            assert(u.nodes[k.l] == t.nodes[k.l]);
            lemma_part_tag(tag, v, w, old_leaf(k, t, o), new_leaf(k, t));
            assert(old_leaf(k, u, o) == old_leaf(k, t, o));
        }
    }
}

/// An item with the scalar in it.
pub(crate) proof fn lemma_items_with(k: Cut, t: Tree, vs: Seq<Val>, v: Val, w: Val)
    requires
        turned(k, t, v, w),
    ensures
        turned_items(k, t, vs.push(v), vs.push(w)),
{
    reveal(turned_items);
    let o = lemma_turned(k, t, v, w);
    lemma_items_last(vs, v, w, old_leaf(k, t, o), new_leaf(k, t));
}

/// Later items are the same.
pub(crate) proof fn lemma_items_on(k: Cut, t: Tree, t1: Tree, vs: Seq<Val>, ws: Seq<Val>, v: Val, from: int)
    requires
        turned_items(k, t, vs, ws),
        kept(t, t1, from),
    ensures
        turned_items(k, t1, vs.push(v), ws.push(v)),
{
    reveal(turned_items);
    reveal(kept);
    assert(t1.nodes[k.l] == t.nodes[k.l]);
    let o = choose|o: Val| #[trigger] was(k, o) && items_changed(vs, ws, old_leaf(k, t, o), new_leaf(k, t));
    lemma_items_push(vs, ws, v, old_leaf(k, t, o), new_leaf(k, t));
    assert(old_leaf(k, t1, o) == old_leaf(k, t, o));
}

/// Items that were read stay.
pub(crate) proof fn lemma_items_kept(k: Cut, t: Tree, t1: Tree, vs: Seq<Val>, ws: Seq<Val>, from: int)
    requires
        turned_items(k, t, vs, ws),
        kept(t, t1, from),
    ensures
        turned_items(k, t1, vs, ws),
{
    reveal(turned_items);
    reveal(kept);
    assert(t1.nodes[k.l] == t.nodes[k.l]);
    let o = choose|o: Val| #[trigger] was(k, o) && items_changed(vs, ws, old_leaf(k, t, o), new_leaf(k, t));
    assert(old_leaf(k, t1, o) == old_leaf(k, t, o));
}

/// The sequence of the items.
pub(crate) proof fn lemma_items_close(k: Cut, t: Tree, t1: Tree, vs: Seq<Val>, ws: Seq<Val>)
    requires
        turned_items(k, t, vs, ws),
        t1.nodes.len() >= t.nodes.len(),
        t1.nodes[k.l] == t.nodes[k.l],
        t1.last != Some(k.l),
    ensures
        turned(k, t1, Val::List(vs), Val::List(ws)),
{
    reveal(turned_items);
    reveal(turned);
    let o = choose|o: Val| #[trigger] was(k, o) && items_changed(vs, ws, old_leaf(k, t, o), new_leaf(k, t));
    lemma_items(vs, ws, old_leaf(k, t, o), new_leaf(k, t));
    assert(old_leaf(k, t1, o) == old_leaf(k, t, o));
}

/// An entry with the scalar in its value.
pub(crate) proof fn lemma_pairs_with(k: Cut, t: Tree, vs: Seq<(Val, Val)>, key: Val, v: Val, w: Val)
    requires
        turned(k, t, v, w),
    ensures
        turned_pairs(k, t, vs.push((key, v)), vs.push((key, w))),
{
    reveal(turned_pairs);
    let o = lemma_turned(k, t, v, w);
    lemma_pairs_last(vs, key, v, w, old_leaf(k, t, o), new_leaf(k, t));
}

pub(crate) proof fn lemma_pairs_on(
    k: Cut,
    t: Tree,
    t1: Tree,
    vs: Seq<(Val, Val)>,
    ws: Seq<(Val, Val)>,
    kv: (Val, Val),
    from: int,
)
    requires
        turned_pairs(k, t, vs, ws),
        kept(t, t1, from),
    ensures
        turned_pairs(k, t1, vs.push(kv), ws.push(kv)),
{
    reveal(turned_pairs);
    reveal(kept);
    assert(t1.nodes[k.l] == t.nodes[k.l]);
    let o = choose|o: Val| #[trigger] was(k, o) && pairs_changed(vs, ws, old_leaf(k, t, o), new_leaf(k, t));
    lemma_pairs_push(vs, ws, kv, old_leaf(k, t, o), new_leaf(k, t));
    assert(old_leaf(k, t1, o) == old_leaf(k, t, o));
}

/// Entries that were read stay.
pub(crate) proof fn lemma_pairs_kept(k: Cut, t: Tree, t1: Tree, vs: Seq<(Val, Val)>, ws: Seq<(Val, Val)>, from: int)
    requires
        turned_pairs(k, t, vs, ws),
        kept(t, t1, from),
    ensures
        turned_pairs(k, t1, vs, ws),
{
    reveal(turned_pairs);
    reveal(kept);
    assert(t1.nodes[k.l] == t.nodes[k.l]);
    let o = choose|o: Val| #[trigger] was(k, o) && pairs_changed(vs, ws, old_leaf(k, t, o), new_leaf(k, t));
    assert(old_leaf(k, t1, o) == old_leaf(k, t, o));
}

/// The mapping of the entries.
pub(crate) proof fn lemma_pairs_close(k: Cut, t: Tree, t1: Tree, vs: Seq<(Val, Val)>, ws: Seq<(Val, Val)>)
    requires
        turned_pairs(k, t, vs, ws),
        t1.nodes.len() >= t.nodes.len(),
        t1.nodes[k.l] == t.nodes[k.l],
        t1.last != Some(k.l),
    ensures
        turned(k, t1, Val::Dict(vs), Val::Dict(ws)),
{
    reveal(turned_pairs);
    reveal(turned);
    let o = choose|o: Val| #[trigger] was(k, o) && pairs_changed(vs, ws, old_leaf(k, t, o), new_leaf(k, t));
    lemma_pairs(vs, ws, old_leaf(k, t, o), new_leaf(k, t));
    assert(old_leaf(k, t1, o) == old_leaf(k, t, o));
}

/// The sequence that a bracket or the end of its lines closes.
pub(crate) proof fn lemma_items_end(k: Cut, t: Tree, p: int, s: Seq<u8>, vs: Seq<Val>, ws: Seq<Val>)
    requires
        turned_items(k, t, vs, ws),
        t.stack.len() > 0,
    ensures
        turned(k, t.close(p, s), Val::List(vs), Val::List(ws)),
{
    lemma_closed(t, p, s);
    assert(0 <= k.l < t.nodes.len()) by {
        reveal(turned_items);
    }
    lemma_items_close(k, t, t.close(p, s), vs, ws);
}

/// The mapping that a bracket or the end of its lines closes.
pub(crate) proof fn lemma_pairs_end(k: Cut, t: Tree, p: int, s: Seq<u8>, vs: Seq<(Val, Val)>, ws: Seq<(Val, Val)>)
    requires
        turned_pairs(k, t, vs, ws),
        t.stack.len() > 0,
    ensures
        turned(k, t.close(p, s), Val::Dict(vs), Val::Dict(ws)),
{
    lemma_closed(t, p, s);
    assert(0 <= k.l < t.nodes.len()) by {
        reveal(turned_pairs);
    }
    lemma_pairs_close(k, t, t.close(p, s), vs, ws);
}

/// The bytes of a quoted scalar say what it was read as, if they are on one line.
pub(crate) proof fn lemma_raw_quoted(s: Seq<u8>, a: int, b: int)
    requires
        0 <= a < b <= s.len(),
        s[a] == DQUOTE || s[a] == SQUOTE,
        quoted(s, a, s[a] == DQUOTE) is Ok,
        (quoted(s, a, s[a] == DQUOTE)->Ok_0).1 == b,
    ensures
        ({
            let raw = s.subrange(a, b);
            let v = Val::Str((quoted(s, a, s[a] == DQUOTE)->Ok_0).0);
            &&& same_type(v, raw_value(raw))
            &&& flat(raw) ==> v == raw_value(raw)
        }),
{
    let raw = s.subrange(a, b);
    let double = s[a] == DQUOTE;
    assert(raw[0] == s[a]);
    if flat(raw) {
        assert forall|i: int| a <= i < b implies !is_break(#[trigger] s[i]) by {
            assert(raw[i - a] == s[i]);
        }
        lemma_quoted_sub(s, a, b, a + 1, col_at(s, a), col_at(raw, 0), double, Seq::empty());
    }
}

/// A quoted scalar on one line is read alike where it stands alone.
#[verifier::rlimit(50)]
proof fn lemma_quoted_sub(s: Seq<u8>, a: int, b: int, p: int, indent: int, other: int, double: bool, text: Seq<u8>)
    requires
        0 <= a <= p <= b <= s.len(),
        quoted_rest(s, p, indent, double, text) is Ok,
        (quoted_rest(s, p, indent, double, text)->Ok_0).1 == b,
        forall|i: int| a <= i < b ==> !is_break(#[trigger] s[i]),
    ensures
        quoted_rest(s.subrange(a, b), p - a, other, double, text) == Ok::<_, Fail>(
            ((quoted_rest(s, p, indent, double, text)->Ok_0).0, b - a),
        ),
    decreases s.len() - p,
{
    let raw = s.subrange(a, b);
    lemma_quoted_in(s, p, indent, double, text);
    lemma_quoted_end(s, p, indent, double, text);
    assert(p < b);
    assert(raw[p - a] == s[p]);
    if s[p] == quote(double) {
        if !double && at(s, p + 1) == Some(SQUOTE) {
            lemma_quoted_end(s, p + 2, indent, double, text.push(SQUOTE));
            assert(raw[p + 1 - a] == s[p + 1]);
            lemma_quoted_sub(s, a, b, p + 2, indent, other, double, text.push(SQUOTE));
        }
    } else if double && s[p] == BACKSLASH {
        let (u, q) = escaped(s, p)->Ok_0;
        lemma_quoted_end(s, q, indent, double, text + u);
        lemma_escaped_sub(s, a, b, p);
        lemma_quoted_sub(s, a, b, q, indent, other, double, text + u);
    } else if is_blank(s[p]) {
        let q = run(s, p, Class::Blank);
        lemma_run(s, p, Class::Blank);
        lemma_quoted_end(s, q, indent, double, text);
        lemma_quoted_end(s, q, indent, double, text + s.subrange(p, q));
        lemma_run_sub(s, a, b, p, Class::Blank);
        assert(raw[q - a] == s[q]);
        assert(!line_ends(s, q));
        assert(raw.subrange(p - a, q - a) =~= s.subrange(p, q));
        lemma_quoted_sub(s, a, b, q, indent, other, double, text + s.subrange(p, q));
    } else {
        let c = quoted_class(double);
        let q = run(s, p, c);
        lemma_run(s, p, c);
        lemma_quoted_in(s, q, indent, double, text + s.subrange(p, q));
        lemma_quoted_end(s, q, indent, double, text + s.subrange(p, q));
        lemma_run_sub(s, a, b, p, c);
        assert(raw.subrange(p - a, q - a) =~= s.subrange(p, q));
        lemma_quoted_sub(s, a, b, q, indent, other, double, text + s.subrange(p, q));
    }
}

/// An escape inside a part.
proof fn lemma_escaped_sub(s: Seq<u8>, a: int, b: int, p: int)
    requires
        0 <= a <= p,
        p + 1 < b <= s.len(),
        escaped(s, p) is Ok,
        (escaped(s, p)->Ok_0).1 < b,
        !is_break(s[p + 1]),
    ensures
        escaped(s.subrange(a, b), p - a) == Ok::<_, Fail>(
            ((escaped(s, p)->Ok_0).0, (escaped(s, p)->Ok_0).1 - a),
        ),
        p < (escaped(s, p)->Ok_0).1,
{
    let raw = s.subrange(a, b);
    let c = s[p + 1];
    assert(raw[p + 1 - a] == c);
    if short_escape(c) is None {
        let e = p + 2 + hex_width(c);
        assert(raw.subrange(p + 2 - a, e - a) =~= s.subrange(p + 2, e));
    }
}

/// A run that ends inside a part ends there in it too.
proof fn lemma_run_sub(s: Seq<u8>, a: int, b: int, p: int, c: Class)
    requires
        0 <= a <= p <= b <= s.len(),
        run(s, p, c) < b,
    ensures
        run(s.subrange(a, b), p - a, c) == run(s, p, c) - a,
    decreases b - p,
{
    lemma_run(s, p, c);
    assert(s.subrange(a, b)[p - a] == s[p]);
    if c.holds(s[p]) {
        lemma_run_sub(s, a, b, p + 1, c);
    }
}

/// A node that is closed comes after the others.
pub(crate) proof fn lemma_closed(t: Tree, p: int, s: Seq<u8>)
    requires
        t.stack.len() > 0,
    ensures
        t.close(p, s).nodes.len() == t.nodes.len() + 1,
        t.close(p, s).last == Some(t.nodes.len() as int),
        forall|i: int| 0 <= i < t.nodes.len() ==> #[trigger] t.close(p, s).nodes[i] == t.nodes[i],
{
    reveal(Tree::close);
}

} // verus!
