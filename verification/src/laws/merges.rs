//! What merge keys bring in.
use vstd::prelude::*;
use crate::value::{
    absorbed, absorbed_list, absorbed_merges, absorbed_value, has_key, is_merge_key, lit, merged, merged_pairs,
    own_entries, Val,
};

verus! {

/// Whether no mapping anywhere in `v` has a merge key.
pub open spec fn no_merge(v: Val) -> bool
    decreases v,
{
    match v {
        Val::List(vs) => no_merge_items(vs),
        Val::Dict(ps) => no_merge_pairs(ps),
        Val::Tagged(_, b) => no_merge(*b),
        _ => true,
    }
}

pub open spec fn no_merge_items(vs: Seq<Val>) -> bool
    decreases vs,
{
    forall|i: int| 0 <= i < vs.len() ==> no_merge(#[trigger] vs[i])
}

pub open spec fn no_merge_pairs(ps: Seq<(Val, Val)>) -> bool
    decreases ps,
{
    forall|i: int|
        0 <= i < ps.len() ==> !is_merge_key((#[trigger] ps[i]).0) && no_merge(ps[i].0) && no_merge(ps[i].1)
}

/// Whether what stands in each entry, merge or not, is free of merge keys.
pub open spec fn clean_inside(ps: Seq<(Val, Val)>) -> bool {
    forall|i: int| 0 <= i < ps.len() ==> no_merge((#[trigger] ps[i]).0) && no_merge(ps[i].1)
}

proof fn lemma_own(ps: Seq<(Val, Val)>)
    requires
        clean_inside(ps),
    ensures
        no_merge_pairs(own_entries(ps)),
    decreases ps.len(),
{
    if ps.len() > 0 {
        let d = ps.drop_last();
        assert forall|i: int| 0 <= i < d.len() implies no_merge((#[trigger] d[i]).0) && no_merge(d[i].1) by {
            assert(d[i] == ps[i]);
        }
        lemma_own(d);
        assert(no_merge(ps[ps.len() - 1].0));
    }
}

proof fn lemma_absorbed(acc: Seq<(Val, Val)>, ps: Seq<(Val, Val)>)
    ensures
        no_merge_pairs(acc) && no_merge_pairs(ps) ==> no_merge_pairs(absorbed(acc, ps)),
        acc.len() <= absorbed(acc, ps).len(),
        absorbed(acc, ps).take(acc.len() as int) == acc,
    decreases ps.len(),
{
    if ps.len() > 0 {
        let d = ps.drop_last();
        if no_merge_pairs(ps) {
            assert forall|i: int| 0 <= i < d.len() implies !is_merge_key((#[trigger] d[i]).0) && no_merge(d[i].0)
                && no_merge(d[i].1) by {
                assert(d[i] == ps[i]);
            }
            assert(no_merge(ps[ps.len() - 1].0));
        }
        lemma_absorbed(acc, d);
        let b = absorbed(acc, d);
        assert(b.push(ps.last()).take(acc.len() as int) =~= b.take(acc.len() as int));
    } else {
        assert(acc.take(acc.len() as int) =~= acc);
    }
}

proof fn lemma_absorbed_list(acc: Seq<(Val, Val)>, vs: Seq<Val>)
    ensures
        no_merge_pairs(acc) && no_merge_items(vs) ==> no_merge_pairs(absorbed_list(acc, vs)),
        acc.len() <= absorbed_list(acc, vs).len(),
        absorbed_list(acc, vs).take(acc.len() as int) == acc,
    decreases vs.len(),
{
    if vs.len() > 0 {
        let d = vs.drop_last();
        if no_merge_items(vs) {
            assert forall|i: int| 0 <= i < d.len() implies no_merge(#[trigger] d[i]) by {
                assert(d[i] == vs[i]);
            }
            assert(no_merge(vs[vs.len() - 1]));
        }
        lemma_absorbed_list(acc, d);
        if let Val::Dict(ps) = vs.last() {
            let b = absorbed_list(acc, d);
            lemma_absorbed(b, ps);
            assert(absorbed(b, ps).take(acc.len() as int) =~= absorbed(b, ps).take(b.len() as int).take(
                acc.len() as int,
            ));
        }
    } else {
        assert(acc.take(acc.len() as int) =~= acc);
    }
}

proof fn lemma_absorbed_merges(acc: Seq<(Val, Val)>, ps: Seq<(Val, Val)>)
    ensures
        no_merge_pairs(acc) && clean_inside(ps) ==> no_merge_pairs(absorbed_merges(acc, ps)),
        acc.len() <= absorbed_merges(acc, ps).len(),
        absorbed_merges(acc, ps).take(acc.len() as int) == acc,
    decreases ps.len(),
{
    if ps.len() > 0 {
        let d = ps.drop_last();
        if clean_inside(ps) {
            assert forall|i: int| 0 <= i < d.len() implies no_merge((#[trigger] d[i]).0) && no_merge(d[i].1) by {
                assert(d[i] == ps[i]);
            }
            assert(no_merge(ps[ps.len() - 1].1));
        }
        lemma_absorbed_merges(acc, d);
        let b = absorbed_merges(acc, d);
        if is_merge_key(ps.last().0) {
            match ps.last().1 {
                Val::Dict(qs) => {
                    lemma_absorbed(b, qs);
                },
                Val::List(vs) => {
                    lemma_absorbed_list(b, vs);
                },
                _ => {
                    assert(b.take(b.len() as int) =~= b);
                },
            }
            let c = absorbed_value(b, ps.last().1);
            assert(c.take(acc.len() as int) =~= c.take(b.len() as int).take(acc.len() as int));
        }
    } else {
        assert(acc.take(acc.len() as int) =~= acc);
    }
}

/// After merging, no merge key is left anywhere.
pub proof fn law_no_merge_key_is_left(v: Val)
    ensures
        no_merge(merged(v)),
    decreases v,
{
    match v {
        Val::List(vs) => {
            let ws = merged(v)->List_0;
            assert forall|i: int| 0 <= i < ws.len() implies no_merge(#[trigger] ws[i]) by {
                assert(decreases_to!(v => vs));
                assert(decreases_to!(vs => vs[i]));
                law_no_merge_key_is_left(vs[i]);
            }
            assert(no_merge_items(ws));
        },
        Val::Dict(ps) => {
            let qs = merged_pairs(ps);
            assert forall|i: int| 0 <= i < qs.len() implies no_merge((#[trigger] qs[i]).0) && no_merge(qs[i].1) by {
                assert(decreases_to!(v => ps));
                assert(decreases_to!(ps => ps[i]));
                assert(decreases_to!(ps[i] => ps[i].0));
                assert(decreases_to!(ps[i] => ps[i].1));
                law_no_merge_key_is_left(ps[i].0);
                law_no_merge_key_is_left(ps[i].1);
            }
            lemma_own(qs);
            lemma_absorbed_merges(own_entries(qs), qs);
        },
        Val::Tagged(_, b) => {
            law_no_merge_key_is_left(*b);
        },
        _ => {},
    }
}

/// A mapping's own entries come first and win over what is merged in: they are
/// what the merged mapping begins with, and no merged entry repeats one of their
/// keys.
pub proof fn law_own_entries_win(ps: Seq<(Val, Val)>)
    ensures
        merged(Val::Dict(ps)) is Dict,
        ({
            let own = own_entries(merged_pairs(ps));
            let all = merged(Val::Dict(ps))->Dict_0;
            own.len() <= all.len() && all.take(own.len() as int) == own
        }),
{
    lemma_absorbed_merges(own_entries(merged_pairs(ps)), merged_pairs(ps));
}

/// Whether the entries from `n` on have keys that none before them has.
pub open spec fn new_from(ps: Seq<(Val, Val)>, n: int) -> bool {
    forall|i: int, j: int| 0 <= i < j && n <= j < ps.len() ==> (#[trigger] ps[i]).0 != (#[trigger] ps[j]).0
}

proof fn lemma_absorbed_new(acc: Seq<(Val, Val)>, ps: Seq<(Val, Val)>, n: int)
    requires
        0 <= n <= acc.len(),
        new_from(acc, n),
    ensures
        new_from(absorbed(acc, ps), n),
        acc.len() <= absorbed(acc, ps).len(),
    decreases ps.len(),
{
    if ps.len() > 0 {
        lemma_absorbed_new(acc, ps.drop_last(), n);
    }
}

proof fn lemma_absorbed_list_new(acc: Seq<(Val, Val)>, vs: Seq<Val>, n: int)
    requires
        0 <= n <= acc.len(),
        new_from(acc, n),
    ensures
        new_from(absorbed_list(acc, vs), n),
        acc.len() <= absorbed_list(acc, vs).len(),
    decreases vs.len(),
{
    if vs.len() > 0 {
        lemma_absorbed_list_new(acc, vs.drop_last(), n);
        if let Val::Dict(ps) = vs.last() {
            lemma_absorbed_new(absorbed_list(acc, vs.drop_last()), ps, n);
        }
    }
}

proof fn lemma_absorbed_merges_new(acc: Seq<(Val, Val)>, ps: Seq<(Val, Val)>, n: int)
    requires
        0 <= n <= acc.len(),
        new_from(acc, n),
    ensures
        new_from(absorbed_merges(acc, ps), n),
        acc.len() <= absorbed_merges(acc, ps).len(),
    decreases ps.len(),
{
    if ps.len() > 0 {
        lemma_absorbed_merges_new(acc, ps.drop_last(), n);
        let b = absorbed_merges(acc, ps.drop_last());
        if is_merge_key(ps.last().0) {
            match ps.last().1 {
                Val::Dict(qs) => {
                    lemma_absorbed_new(b, qs, n);
                },
                Val::List(vs) => {
                    lemma_absorbed_list_new(b, vs, n);
                },
                _ => {},
            }
        }
    }
}

/// What is merged in never repeats a key: neither one of the mapping's own nor
/// one of an earlier source.
pub proof fn law_merged_keys_are_new(ps: Seq<(Val, Val)>)
    ensures
        merged(Val::Dict(ps)) is Dict,
        new_from(merged(Val::Dict(ps))->Dict_0, own_entries(merged_pairs(ps)).len() as int),
{
    let own = own_entries(merged_pairs(ps));
    lemma_absorbed_merges_new(own, merged_pairs(ps), own.len() as int);
}

/// The value of the first entry with the key `k`.
pub open spec fn lookup(ps: Seq<(Val, Val)>, k: Val) -> Option<Val>
    decreases ps.len(),
{
    if ps.len() == 0 {
        None
    } else {
        match lookup(ps.drop_last(), k) {
            Some(v) => Some(v),
            None => if ps.last().0 == k {
                Some(ps.last().1)
            } else {
                None
            },
        }
    }
}

/// The value of `k` in the first of the mappings that has it.
pub open spec fn lookup_among(vs: Seq<Val>, k: Val) -> Option<Val>
    decreases vs.len(),
{
    if vs.len() == 0 {
        None
    } else {
        match (lookup_among(vs.drop_last(), k), vs.last()) {
            (Some(v), _) => Some(v),
            (None, Val::Dict(ps)) => lookup(ps, k),
            _ => None,
        }
    }
}

/// What the first of the merges that has the key `k` brings in for it: a merge of one
/// mapping, or of a list of mappings.
pub open spec fn inherited(ps: Seq<(Val, Val)>, k: Val) -> Option<Val>
    decreases ps.len(),
{
    if ps.len() == 0 {
        None
    } else {
        match (inherited(ps.drop_last(), k), ps.last()) {
            (Some(v), _) => Some(v),
            (None, (Val::Str(name), Val::Dict(qs))) if name == lit("<<") => lookup(qs, k),
            (None, (Val::Str(name), Val::List(vs))) if name == lit("<<") => lookup_among(vs, k),
            _ => None,
        }
    }
}

/// The value of `k` among two lists of entries, the first of which wins.
spec fn either(a: Option<Val>, b: Option<Val>) -> Option<Val> {
    match a {
        Some(v) => Some(v),
        None => b,
    }
}

proof fn lemma_lookup_has(ps: Seq<(Val, Val)>, k: Val)
    ensures
        lookup(ps, k) is Some <==> has_key(ps, k),
    decreases ps.len(),
{
    if ps.len() > 0 {
        let d = ps.drop_last();
        lemma_lookup_has(d, k);
        if has_key(d, k) {
            let i = choose|i: int| 0 <= i < d.len() && (#[trigger] d[i]).0 == k;
            assert(ps[i].0 == k);
        }
        if ps.last().0 == k {
            assert(ps[ps.len() - 1].0 == k);
        }
        if has_key(ps, k) {
            let i = choose|i: int| 0 <= i < ps.len() && (#[trigger] ps[i]).0 == k;
            if i < d.len() {
                assert(d[i].0 == k);
            }
        }
    }
}

proof fn lemma_lookup_absorbed(acc: Seq<(Val, Val)>, ps: Seq<(Val, Val)>, k: Val)
    ensures
        lookup(absorbed(acc, ps), k) == either(lookup(acc, k), lookup(ps, k)),
    decreases ps.len(),
{
    if ps.len() > 0 {
        let b = absorbed(acc, ps.drop_last());
        lemma_lookup_absorbed(acc, ps.drop_last(), k);
        lemma_lookup_has(b, ps.last().0);
        assert(b.push(ps.last()).drop_last() =~= b);
    }
}

proof fn lemma_lookup_list(acc: Seq<(Val, Val)>, vs: Seq<Val>, k: Val)
    ensures
        lookup(absorbed_list(acc, vs), k) == either(lookup(acc, k), lookup_among(vs, k)),
    decreases vs.len(),
{
    if vs.len() > 0 {
        lemma_lookup_list(acc, vs.drop_last(), k);
        if let Val::Dict(ps) = vs.last() {
            lemma_lookup_absorbed(absorbed_list(acc, vs.drop_last()), ps, k);
        }
    }
}

proof fn lemma_lookup_merges(acc: Seq<(Val, Val)>, ps: Seq<(Val, Val)>, k: Val)
    ensures
        lookup(absorbed_merges(acc, ps), k) == either(lookup(acc, k), inherited(ps, k)),
    decreases ps.len(),
{
    if ps.len() > 0 {
        lemma_lookup_merges(acc, ps.drop_last(), k);
        let b = absorbed_merges(acc, ps.drop_last());
        if is_merge_key(ps.last().0) {
            match ps.last().1 {
                Val::Dict(qs) => lemma_lookup_absorbed(b, qs, k),
                Val::List(vs) => lemma_lookup_list(b, vs, k),
                _ => {},
            }
        }
    }
}

proof fn lemma_own_filter(ps: Seq<(Val, Val)>)
    ensures
        own_entries(ps) == ps.filter(|e: (Val, Val)| e.0 != Val::Str(lit("<<"))),
    decreases ps.len(),
{
    reveal(Seq::filter);
    if ps.len() > 0 {
        lemma_own_filter(ps.drop_last());
    }
}

/// Nothing of a merge is lost, and nothing else comes in: of the entries `own` of a
/// mapping, with the merges inside each resolved, those that are no merges come first
/// and in their order. For any key the merged mapping has the value that these have, or
/// else the one that the first merge with that key brings in, or else none.
pub proof fn law_merge_loses_nothing(ps: Seq<(Val, Val)>, own: Seq<(Val, Val)>, k: Val)
    requires
        own.len() == ps.len(),
        forall|i: int| 0 <= i < ps.len() ==> #[trigger] own[i] == (merged(ps[i].0), merged(ps[i].1)),
    ensures
        merged(Val::Dict(ps)) is Dict,
        ({
            let all = merged(Val::Dict(ps))->Dict_0;
            let kept = own.filter(|e: (Val, Val)| e.0 != Val::Str(lit("<<")));
            &&& kept.len() <= all.len() && all.take(kept.len() as int) == kept
            &&& lookup(all, k) == match lookup(kept, k) {
                Some(v) => Some(v),
                None => inherited(own, k),
            }
            &&& forall|i: int, j: int|
                0 <= i < j && kept.len() <= j < all.len() ==> (#[trigger] all[i]).0 != (#[trigger] all[j]).0
        }),
{
    assert(own =~= merged_pairs(ps));
    lemma_own_filter(own);
    law_own_entries_win(ps);
    law_merged_keys_are_new(ps);
    lemma_lookup_merges(own_entries(own), own, k);
}

/// Merges are resolved in every item of a sequence and under every tag, and leave
/// scalars as they are.
pub proof fn law_merged_everywhere(v: Val)
    ensures
        match v {
            Val::List(vs) => {
                &&& merged(v) is List
                &&& merged(v)->List_0.len() == vs.len()
                &&& forall|i: int| 0 <= i < vs.len() ==> #[trigger] merged(v)->List_0[i] == merged(vs[i])
            },
            Val::Dict(_) => merged(v) is Dict,
            Val::Tagged(t, b) => merged(v) == Val::Tagged(t, Box::new(merged(*b))),
            _ => merged(v) == v,
        },
{
}

/// A value without merge keys stays as it is.
pub proof fn law_without_merges_nothing_changes(v: Val)
    requires
        no_merge(v),
    ensures
        merged(v) == v,
    decreases v,
{
    match v {
        Val::List(vs) => {
            assert(no_merge_items(vs));
            assert forall|i: int| 0 <= i < vs.len() implies #[trigger] merged(v)->List_0[i] == vs[i] by {
                assert(no_merge(vs[i]));
                assert(decreases_to!(v => vs));
                assert(decreases_to!(vs => vs[i]));
                law_without_merges_nothing_changes(vs[i]);
            }
            assert(merged(v)->List_0 =~= vs);
        },
        Val::Dict(ps) => {
            let qs = merged_pairs(ps);
            assert(no_merge_pairs(ps));
            assert forall|i: int| 0 <= i < ps.len() implies #[trigger] qs[i] == ps[i] by {
                assert(!is_merge_key(ps[i].0));
                assert(decreases_to!(v => ps));
                assert(decreases_to!(ps => ps[i]));
                assert(decreases_to!(ps[i] => ps[i].0));
                assert(decreases_to!(ps[i] => ps[i].1));
                assert(no_merge(ps[i].0) && no_merge(ps[i].1));
                law_without_merges_nothing_changes(ps[i].0);
                law_without_merges_nothing_changes(ps[i].1);
            }
            assert(qs =~= ps);
            lemma_no_merges_in(ps, ps);
        },
        Val::Tagged(_, b) => law_without_merges_nothing_changes(*b),
        _ => {},
    }
}

proof fn lemma_no_merges_in(acc: Seq<(Val, Val)>, ps: Seq<(Val, Val)>)
    requires
        no_merge_pairs(ps),
    ensures
        own_entries(ps) == ps,
        absorbed_merges(acc, ps) == acc,
    decreases ps.len(),
{
    if ps.len() > 0 {
        let d = ps.drop_last();
        assert forall|i: int| 0 <= i < d.len() implies !is_merge_key((#[trigger] d[i]).0) && no_merge(d[i].0)
            && no_merge(d[i].1) by {
            assert(d[i] == ps[i]);
        }
        lemma_no_merges_in(acc, d);
        assert(!is_merge_key(ps[ps.len() - 1].0));
        assert(d.push(ps.last()) =~= ps);
    }
}

} // verus!
