//! Places in a value, and values that differ in one of them.
use vstd::prelude::*;
use crate::edit::types::{tagged, untagged};
use crate::value::{
    absorbed, absorbed_list, absorbed_merges, absorbed_value, has_key, is_merge_key, merged, merged_pairs,
    own_entries, scalar_text, with_tag, Val,
};

verus! {

/// What stands at a place in a value: the place is the number of an item or of an
/// entry, then a place in that. Tags are passed over on the way.
pub open spec fn found(v: Val, ps: Seq<int>) -> Option<Val>
    decreases v,
{
    if ps.len() == 0 {
        Some(v)
    } else {
        match v {
            Val::List(vs) => if 0 <= ps[0] < vs.len() {
                found(vs[ps[0]], ps.skip(1))
            } else {
                None
            },
            Val::Dict(kvs) => if 0 <= ps[0] < kvs.len() {
                found(kvs[ps[0]].1, ps.skip(1))
            } else {
                None
            },
            Val::Tagged(_, b) => found(*b, ps),
            _ => None,
        }
    }
}

/// The value with something else at a place.
pub open spec fn put(v: Val, ps: Seq<int>, new: Val) -> Val
    decreases v,
{
    if ps.len() == 0 {
        new
    } else {
        match v {
            Val::List(vs) => if 0 <= ps[0] < vs.len() {
                Val::List(vs.update(ps[0], put(vs[ps[0]], ps.skip(1), new)))
            } else {
                v
            },
            Val::Dict(kvs) => if 0 <= ps[0] < kvs.len() {
                Val::Dict(kvs.update(ps[0], (kvs[ps[0]].0, put(kvs[ps[0]].1, ps.skip(1), new))))
            } else {
                v
            },
            Val::Tagged(t, b) => Val::Tagged(t, Box::new(put(*b, ps, new))),
            _ => v,
        }
    }
}

/// Whether `w` is `v` with `new` at a place where `v` has `old`.
pub open spec fn exchanged(v: Val, w: Val, old: Val, new: Val) -> bool {
    exists|ps: Seq<int>| found(v, ps) == Some(old) && w == #[trigger] put(v, ps, new)
}

/// Whether `w` is `v`, or differs from it in that one place holds `new` where `v` has
/// `old`.
pub open spec fn one_changed(v: Val, w: Val, old: Val, new: Val) -> bool {
    v == w || exchanged(v, w, old, new)
}

/// Whether the same holds of two collections: what differs is a part of them.
pub open spec fn part_changed(v: Val, w: Val, old: Val, new: Val) -> bool {
    v == w || exists|ps: Seq<int>| ps.len() > 0 && found(v, ps) == Some(old) && w == #[trigger] put(v, ps, new)
}

/// Whether two lists of entries are the same up to one value.
pub open spec fn pairs_changed(a: Seq<(Val, Val)>, b: Seq<(Val, Val)>, old: Val, new: Val) -> bool {
    a == b || exists|i: int|
        0 <= i < a.len() && exchanged(a[i].1, (#[trigger] b[i]).1, old, new) && b == a.update(i, (a[i].0, b[i].1))
}

/// Whether two lists are the same up to one item.
pub open spec fn items_changed(a: Seq<Val>, b: Seq<Val>, old: Val, new: Val) -> bool {
    a == b || exists|i: int|
        0 <= i < a.len() && exchanged(a[i], #[trigger] b[i], old, new) && b == a.update(i, b[i])
}

/// A list differs where one of its items does.
pub(crate) proof fn lemma_items(a: Seq<Val>, b: Seq<Val>, old: Val, new: Val)
    requires
        items_changed(a, b, old, new),
    ensures
        part_changed(Val::List(a), Val::List(b), old, new),
{
    if a != b {
        let i = choose|i: int|
            0 <= i < a.len() && exchanged(a[i], #[trigger] b[i], old, new) && b == a.update(i, b[i]);
        let qs = choose|qs: Seq<int>| found(a[i], qs) == Some(old) && b[i] == #[trigger] put(a[i], qs, new);
        let ps = seq![i] + qs;
        assert(ps.skip(1) =~= qs);
        assert(found(Val::List(a), ps) == Some(old));
        assert(Val::List(b) == put(Val::List(a), ps, new));
    }
}

/// A mapping differs where one of its values does.
pub(crate) proof fn lemma_pairs(a: Seq<(Val, Val)>, b: Seq<(Val, Val)>, old: Val, new: Val)
    requires
        pairs_changed(a, b, old, new),
    ensures
        part_changed(Val::Dict(a), Val::Dict(b), old, new),
{
    if a != b {
        let i = choose|i: int|
            0 <= i < a.len() && exchanged(a[i].1, (#[trigger] b[i]).1, old, new) && b == a.update(i, (a[i].0, b[i].1));
        let qs = choose|qs: Seq<int>| found(a[i].1, qs) == Some(old) && b[i].1 == #[trigger] put(a[i].1, qs, new);
        let ps = seq![i] + qs;
        assert(ps.skip(1) =~= qs);
        assert(found(Val::Dict(a), ps) == Some(old));
        assert(Val::Dict(b) == put(Val::Dict(a), ps, new));
    }
}

/// Items that both lists have do not matter.
pub(crate) proof fn lemma_items_push(a: Seq<Val>, b: Seq<Val>, v: Val, old: Val, new: Val)
    requires
        items_changed(a, b, old, new),
    ensures
        items_changed(a.push(v), b.push(v), old, new),
{
    if a != b {
        let i = choose|i: int|
            0 <= i < a.len() && exchanged(a[i], #[trigger] b[i], old, new) && b == a.update(i, b[i]);
        assert(b.push(v)[i] == b[i]);
        assert(b.push(v) =~= a.push(v).update(i, b.push(v)[i]));
    }
}

/// Lists of which the last items differ.
pub(crate) proof fn lemma_items_last(a: Seq<Val>, v: Val, w: Val, old: Val, new: Val)
    requires
        one_changed(v, w, old, new),
    ensures
        items_changed(a.push(v), a.push(w), old, new),
{
    if v != w {
        let i = a.len() as int;
        assert(a.push(w)[i] == w && a.push(v)[i] == v);
        assert(a.push(w) =~= a.push(v).update(i, a.push(w)[i]));
    }
}

pub(crate) proof fn lemma_pairs_push(a: Seq<(Val, Val)>, b: Seq<(Val, Val)>, kv: (Val, Val), old: Val, new: Val)
    requires
        pairs_changed(a, b, old, new),
    ensures
        pairs_changed(a.push(kv), b.push(kv), old, new),
{
    if a != b {
        let i = choose|i: int|
            0 <= i < a.len() && exchanged(a[i].1, (#[trigger] b[i]).1, old, new) && b == a.update(i, (a[i].0, b[i].1));
        assert(b.push(kv)[i] == b[i]);
        assert(b.push(kv) =~= a.push(kv).update(i, (a.push(kv)[i].0, b.push(kv)[i].1)));
    }
}

/// Entries of which the values differ.
pub(crate) proof fn lemma_pairs_last(a: Seq<(Val, Val)>, k: Val, v: Val, w: Val, old: Val, new: Val)
    requires
        one_changed(v, w, old, new),
    ensures
        pairs_changed(a.push((k, v)), a.push((k, w)), old, new),
{
    if v != w {
        let i = a.len() as int;
        let b = a.push((k, w));
        assert(b[i] == (k, w) && a.push((k, v))[i] == (k, v));
        assert(b =~= a.push((k, v)).update(i, (a.push((k, v))[i].0, b[i].1)));
    }
}

/// What differs in a part differs in one place.
pub(crate) proof fn lemma_part(v: Val, w: Val, old: Val, new: Val)
    requires
        part_changed(v, w, old, new),
    ensures
        one_changed(v, w, old, new),
{
}

/// A tag leaves a part as it is, or both collections are nothing.
pub(crate) proof fn lemma_part_tag(tag: Seq<u8>, v: Val, w: Val, old: Val, new: Val)
    requires
        part_changed(v, w, old, new),
    ensures
        part_changed(with_tag(tag, v), with_tag(tag, w), old, new),
{
    if v != w {
        let ps = choose|ps: Seq<int>| ps.len() > 0 && found(v, ps) == Some(old) && w == #[trigger] put(v, ps, new);
        assert(scalar_text(v) is None && scalar_text(w) is None);
        assert(v is List || v is Dict || v is Tagged);
        assert(w is List || w is Dict || w is Tagged);
        if with_tag(tag, v) is Tagged && with_tag(tag, v) != v {
            let a = Val::Tagged(tag, Box::new(v));
            assert(found(a, ps) == Some(old));
            assert(put(a, ps, new) == Val::Tagged(tag, Box::new(w)));
        }
        assert(put(v, ps, new) == w);
    }
}

/// Whether a value is a scalar under its tags.
pub open spec fn is_leaf(v: Val) -> bool {
    !(untagged(v) is List) && !(untagged(v) is Dict)
}

pub(crate) proof fn lemma_tagged_leaf(tags: Seq<Seq<u8>>, v: Val)
    requires
        is_leaf(v),
    ensures
        is_leaf(tagged(tags, v)),
    decreases tags.len(),
{
    if tags.len() > 0 {
        lemma_tagged_leaf(tags.drop_last(), v);
    }
}

/// Merges leave a scalar as it is.
pub(crate) proof fn lemma_merged_leaf(v: Val)
    requires
        is_leaf(v),
    ensures
        merged(v) == v,
    decreases v,
{
    if let Val::Tagged(_, b) = v {
        lemma_merged_leaf(*b);
    }
}

/// Entries of lists that are the same up to one value, but for the last ones.
proof fn lemma_pairs_drop(a: Seq<(Val, Val)>, b: Seq<(Val, Val)>, old: Val, new: Val)
    requires
        pairs_changed(a, b, old, new),
        a.len() > 0,
    ensures
        b.len() == a.len(),
        b.last().0 == a.last().0,
        one_changed(a.last().1, b.last().1, old, new),
        a.last() == b.last() ==> pairs_changed(a.drop_last(), b.drop_last(), old, new),
        a.last() != b.last() ==> a.drop_last() == b.drop_last(),
{
    if a != b {
        let i = choose|i: int|
            0 <= i < a.len() && exchanged(a[i].1, (#[trigger] b[i]).1, old, new) && b == a.update(i, (a[i].0, b[i].1));
        if i == a.len() - 1 {
            assert(a.drop_last() =~= b.drop_last());
        } else {
            let c = a.drop_last();
            let d = b.drop_last();
            assert(d[i] == b[i] && c[i] == a[i]);
            assert(d =~= c.update(i, (c[i].0, d[i].1)));
        }
    }
}

proof fn lemma_items_drop(a: Seq<Val>, b: Seq<Val>, old: Val, new: Val)
    requires
        items_changed(a, b, old, new),
        a.len() > 0,
    ensures
        b.len() == a.len(),
        one_changed(a.last(), b.last(), old, new),
        a.last() == b.last() ==> items_changed(a.drop_last(), b.drop_last(), old, new),
        a.last() != b.last() ==> a.drop_last() == b.drop_last(),
{
    if a != b {
        let i = choose|i: int|
            0 <= i < a.len() && exchanged(a[i], #[trigger] b[i], old, new) && b == a.update(i, b[i]);
        if i == a.len() - 1 {
            assert(a.drop_last() =~= b.drop_last());
        } else {
            let c = a.drop_last();
            let d = b.drop_last();
            assert(d[i] == b[i] && c[i] == a[i]);
            assert(d =~= c.update(i, d[i]));
        }
    }
}

/// The keys are the same.
proof fn lemma_keys_same(a: Seq<(Val, Val)>, b: Seq<(Val, Val)>, key: Val, old: Val, new: Val)
    requires
        pairs_changed(a, b, old, new),
    ensures
        a.len() == b.len(),
        has_key(a, key) == has_key(b, key),
{
    if a != b {
        let i = choose|i: int|
            0 <= i < a.len() && exchanged(a[i].1, (#[trigger] b[i]).1, old, new) && b == a.update(i, (a[i].0, b[i].1));
        assert forall|j: int| 0 <= j < a.len() implies (#[trigger] b[j]).0 == a[j].0 by {}
        if has_key(a, key) {
            let j = choose|j: int| 0 <= j < a.len() && (#[trigger] a[j]).0 == key;
            assert(b[j].0 == key);
        }
        if has_key(b, key) {
            let j = choose|j: int| 0 <= j < b.len() && (#[trigger] b[j]).0 == key;
            assert(a[j].0 == key);
        }
    }
}

/// The parts of mappings and sequences that differ in one place.
proof fn lemma_split(v: Val, w: Val, old: Val, new: Val)
    requires
        one_changed(v, w, old, new),
        is_leaf(old),
        is_leaf(new),
    ensures
        v is Dict ==> w is Dict && pairs_changed(v->Dict_0, w->Dict_0, old, new),
        v is List ==> w is List && items_changed(v->List_0, w->List_0, old, new),
        !(v is Dict) && !(v is List) ==> !(w is Dict) && !(w is List),
{
    if v != w {
        let ps = choose|ps: Seq<int>| found(v, ps) == Some(old) && w == #[trigger] put(v, ps, new);
        if ps.len() > 0 {
            let i = ps[0];
            match v {
                Val::Dict(a) => {
                    let b = w->Dict_0;
                    assert(b[i] == (a[i].0, put(a[i].1, ps.skip(1), new)));
                    assert(exchanged(a[i].1, b[i].1, old, new));
                },
                Val::List(a) => {
                    let b = w->List_0;
                    assert(b[i] == put(a[i], ps.skip(1), new));
                    assert(exchanged(a[i], b[i], old, new));
                },
                _ => {},
            }
        }
    }
}

proof fn lemma_absorbed_into(a: Seq<(Val, Val)>, b: Seq<(Val, Val)>, ps: Seq<(Val, Val)>, old: Val, new: Val)
    requires
        pairs_changed(a, b, old, new),
    ensures
        pairs_changed(absorbed(a, ps), absorbed(b, ps), old, new),
    decreases ps.len(),
{
    if ps.len() > 0 {
        lemma_absorbed_into(a, b, ps.drop_last(), old, new);
        let c = absorbed(a, ps.drop_last());
        let d = absorbed(b, ps.drop_last());
        lemma_keys_same(c, d, ps.last().0, old, new);
        lemma_pairs_push(c, d, ps.last(), old, new);
    }
}

proof fn lemma_absorbed_from(acc: Seq<(Val, Val)>, a: Seq<(Val, Val)>, b: Seq<(Val, Val)>, old: Val, new: Val)
    requires
        pairs_changed(a, b, old, new),
    ensures
        pairs_changed(absorbed(acc, a), absorbed(acc, b), old, new),
    decreases a.len(),
{
    if a.len() > 0 {
        lemma_pairs_drop(a, b, old, new);
        let c = absorbed(acc, a.drop_last());
        let d = absorbed(acc, b.drop_last());
        if a.last() == b.last() {
            lemma_absorbed_from(acc, a.drop_last(), b.drop_last(), old, new);
            lemma_keys_same(c, d, a.last().0, old, new);
            lemma_pairs_push(c, d, a.last(), old, new);
        } else {
            lemma_pairs_last(c, a.last().0, a.last().1, b.last().1, old, new);
        }
    } else {
        lemma_keys_same(a, b, Val::Null, old, new);
    }
}

proof fn lemma_list_into(a: Seq<(Val, Val)>, b: Seq<(Val, Val)>, vs: Seq<Val>, old: Val, new: Val)
    requires
        pairs_changed(a, b, old, new),
    ensures
        pairs_changed(absorbed_list(a, vs), absorbed_list(b, vs), old, new),
    decreases vs.len(),
{
    if vs.len() > 0 {
        lemma_list_into(a, b, vs.drop_last(), old, new);
        if let Val::Dict(ps) = vs.last() {
            lemma_absorbed_into(absorbed_list(a, vs.drop_last()), absorbed_list(b, vs.drop_last()), ps, old, new);
        }
    }
}

proof fn lemma_list_from(acc: Seq<(Val, Val)>, vs: Seq<Val>, ws: Seq<Val>, old: Val, new: Val)
    requires
        items_changed(vs, ws, old, new),
        is_leaf(old),
        is_leaf(new),
    ensures
        pairs_changed(absorbed_list(acc, vs), absorbed_list(acc, ws), old, new),
    decreases vs.len(),
{
    if vs.len() > 0 {
        lemma_items_drop(vs, ws, old, new);
        let c = absorbed_list(acc, vs.drop_last());
        if vs.last() == ws.last() {
            lemma_list_from(acc, vs.drop_last(), ws.drop_last(), old, new);
            if let Val::Dict(ps) = vs.last() {
                lemma_absorbed_into(c, absorbed_list(acc, ws.drop_last()), ps, old, new);
            }
        } else {
            lemma_split(vs.last(), ws.last(), old, new);
            if let Val::Dict(ps) = vs.last() {
                lemma_absorbed_from(c, ps, ws.last()->Dict_0, old, new);
            }
        }
    }
}

/// What a merge adds to entries that are the same up to one value.
proof fn lemma_value_into(a: Seq<(Val, Val)>, b: Seq<(Val, Val)>, v: Val, old: Val, new: Val)
    requires
        pairs_changed(a, b, old, new),
    ensures
        pairs_changed(absorbed_value(a, v), absorbed_value(b, v), old, new),
{
    match v {
        Val::Dict(ps) => lemma_absorbed_into(a, b, ps, old, new),
        Val::List(vs) => lemma_list_into(a, b, vs, old, new),
        _ => {},
    }
}

/// What is added by merges that are the same up to one value.
proof fn lemma_value_from(acc: Seq<(Val, Val)>, v: Val, w: Val, old: Val, new: Val)
    requires
        one_changed(v, w, old, new),
        is_leaf(old),
        is_leaf(new),
    ensures
        pairs_changed(absorbed_value(acc, v), absorbed_value(acc, w), old, new),
{
    lemma_split(v, w, old, new);
    match v {
        Val::Dict(ps) => lemma_absorbed_from(acc, ps, w->Dict_0, old, new),
        Val::List(vs) => lemma_list_from(acc, vs, w->List_0, old, new),
        _ => {},
    }
}

/// A mapping's own entries are the same up to one value, or all of them are and its
/// merges are the same up to one.
proof fn lemma_entries(
    a: Seq<(Val, Val)>,
    b: Seq<(Val, Val)>,
    acc: Seq<(Val, Val)>,
    bcc: Seq<(Val, Val)>,
    old: Val,
    new: Val,
)
    requires
        pairs_changed(a, b, old, new),
        is_leaf(old),
        is_leaf(new),
        pairs_changed(acc, bcc, old, new),
        acc == bcc || own_entries(a) != own_entries(b) || a == b,
    ensures
        pairs_changed(own_entries(a), own_entries(b), old, new),
        pairs_changed(absorbed_merges(acc, a), absorbed_merges(bcc, b), old, new),
    decreases a.len(),
{
    lemma_keys_same(a, b, Val::Null, old, new);
    if a.len() > 0 {
        lemma_pairs_drop(a, b, old, new);
        let c = a.drop_last();
        let d = b.drop_last();
        let (key, v) = a.last();
        let w = b.last().1;
        if a.last() == b.last() {
            if own_entries(c) == own_entries(d) {
                assert(own_entries(a) == own_entries(b));
            }
            if a == b {
                assert(c == d);
            }
            lemma_entries(c, d, acc, bcc, old, new);
            lemma_pairs_push(own_entries(c), own_entries(d), a.last(), old, new);
            lemma_value_into(absorbed_merges(acc, c), absorbed_merges(bcc, d), v, old, new);
        } else {
            lemma_entries(c, c, acc, bcc, old, new);
            if is_merge_key(key) {
                assert(own_entries(a) == own_entries(b));
                assert(acc == bcc);
                lemma_value_from(absorbed_merges(acc, c), v, w, old, new);
            } else {
                lemma_pairs_last(own_entries(c), key, v, w, old, new);
            }
        }
    }
}

/// Merges keep a difference in one place.
pub(crate) proof fn lemma_merged_changed(v: Val, w: Val, old: Val, new: Val)
    requires
        one_changed(v, w, old, new),
        is_leaf(old),
        is_leaf(new),
    ensures
        one_changed(merged(v), merged(w), old, new),
        part_changed(v, w, old, new) ==> part_changed(merged(v), merged(w), old, new),
    decreases v,
{
    lemma_merged_leaf(old);
    lemma_merged_leaf(new);
    if v != w {
        let ps = choose|ps: Seq<int>| found(v, ps) == Some(old) && w == #[trigger] put(v, ps, new);
        if ps.len() == 0 {
            assert(found(merged(v), ps) == Some(old) && merged(w) == put(merged(v), ps, new));
            assert(!part_changed(v, w, old, new)) by {
                assert forall|qs: Seq<int>| qs.len() > 0 implies found(v, qs) is None || w != #[trigger] put(
                    v,
                    qs,
                    new,
                ) by {
                    lemma_leaf_found(v, qs);
                }
            }
        } else {
            match v {
                Val::List(a) => {
                    lemma_merged_items(v, w, old, new);
                },
                Val::Dict(a) => {
                    lemma_merged_entries(v, w, old, new);
                },
                Val::Tagged(t, b) => {
                    let c = put(*b, ps, new);
                    assert(part_changed(*b, c, old, new));
                    lemma_merged_changed(*b, c, old, new);
                    let x = merged(*b);
                    let y = merged(c);
                    if x != y {
                        let qs = choose|qs: Seq<int>|
                            qs.len() > 0 && found(x, qs) == Some(old) && y == #[trigger] put(x, qs, new);
                        assert(found(merged(v), qs) == Some(old) && merged(w) == put(merged(v), qs, new));
                    }
                },
                _ => {},
            }
        }
    }
}

/// A scalar has no parts.
proof fn lemma_leaf_found(v: Val, ps: Seq<int>)
    requires
        is_leaf(v),
        ps.len() > 0,
    ensures
        found(v, ps) is None,
    decreases v,
{
    if let Val::Tagged(_, b) = v {
        lemma_leaf_found(*b, ps);
    }
}

proof fn lemma_merged_items(v: Val, w: Val, old: Val, new: Val)
    requires
        v is List,
        one_changed(v, w, old, new),
        is_leaf(old),
        is_leaf(new),
    ensures
        part_changed(merged(v), merged(w), old, new),
    decreases v, 0int,
{
    lemma_split(v, w, old, new);
    let a = v->List_0;
    let b = w->List_0;
    let ma = merged(v)->List_0;
    let mb = merged(w)->List_0;
    if a != b {
        let i = choose|i: int|
            0 <= i < a.len() && exchanged(a[i], #[trigger] b[i], old, new) && b == a.update(i, b[i]);
        lemma_merged_changed(a[i], b[i], old, new);
        assert(mb[i] == merged(b[i]) && ma[i] == merged(a[i]));
        assert(mb =~= ma.update(i, mb[i]));
        assert(ma[i] == mb[i] ==> ma =~= mb);
    }
    lemma_items(ma, mb, old, new);
}

proof fn lemma_merged_entries(v: Val, w: Val, old: Val, new: Val)
    requires
        v is Dict,
        one_changed(v, w, old, new),
        is_leaf(old),
        is_leaf(new),
    ensures
        part_changed(merged(v), merged(w), old, new),
    decreases v, 0int,
{
    lemma_split(v, w, old, new);
    let a = v->Dict_0;
    let b = w->Dict_0;
    let ma = merged_pairs(a);
    let mb = merged_pairs(b);
    if a != b {
        let i = choose|i: int|
            0 <= i < a.len() && exchanged(a[i].1, (#[trigger] b[i]).1, old, new) && b == a.update(i, (a[i].0, b[i].1));
        lemma_merged_changed(a[i].1, b[i].1, old, new);
        assert(mb[i] == (ma[i].0, merged(b[i].1)) && ma[i].1 == merged(a[i].1));
        assert(mb =~= ma.update(i, (ma[i].0, mb[i].1)));
        assert(ma[i].1 == mb[i].1 ==> ma =~= mb);
    }
    assert(pairs_changed(ma, mb, old, new));
    lemma_entries(ma, mb, Seq::empty(), Seq::empty(), old, new);
    lemma_entries(ma, mb, own_entries(ma), own_entries(mb), old, new);
    lemma_pairs(merged(v)->Dict_0, merged(w)->Dict_0, old, new);
}

} // verus!
