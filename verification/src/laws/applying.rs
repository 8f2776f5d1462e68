//! What applying the difference between two values does.
use vstd::prelude::*;
use crate::edit::apply::{
    applied, carried_out, diff, diff_entries, diff_items, find_from, new_keys, reordered, shown, steps_path,
    ChangeView, Diff, OpView, StepView,
};
use crate::edit::doc::removed;
use crate::edit::set::{edited, OptsView};
use crate::emitter::float_text;
use crate::error::ErrorView;
use crate::value::{scalar_text, Val};

verus! {

/// The value of the first entry whose key has the text `k`.
pub open spec fn named(ps: Seq<(Val, Val)>, k: Seq<u8>) -> Option<Val>
    decreases ps.len(),
{
    if ps.len() == 0 {
        None
    } else {
        match named(ps.drop_last(), k) {
            Some(v) => Some(v),
            None => if scalar_text(ps.last().0) == Some(k) {
                Some(ps.last().1)
            } else {
                None
            },
        }
    }
}

/// What stands in a value at a path of key texts and indices.
pub open spec fn look(v: Val, path: Seq<StepView>) -> Option<Val>
    decreases path.len(),
{
    if path.len() == 0 {
        Some(v)
    } else {
        match (path[0], v) {
            (StepView::Key(k), Val::Dict(ps)) => match named(ps, k) {
                Some(w) => look(w, path.skip(1)),
                None => None,
            },
            (StepView::Index(n), Val::List(vs)) => if 0 <= n < vs.len() {
                look(vs[n], path.skip(1))
            } else {
                None
            },
            _ => None,
        }
    }
}

/// Whether two values are collections of one kind, whose parts are compared.
pub open spec fn alike_inside(x: Val, y: Val) -> bool {
    (x is Dict && y is Dict) || (x is List && y is List)
}

/// The text that a scalar other than null is assigned as.
pub open spec fn assigned_text(y: Val) -> Option<Seq<u8>> {
    match y {
        Val::Float(t) => Some(float_text(t)),
        _ => scalar_text(y),
    }
}

/// The edit that makes `y` of `x`: a removal if `y` is null, else an assignment of its
/// text.
pub open spec fn turns(x: Val, y: Val, op: OpView) -> bool {
    &&& x != y && !alike_inside(x, y)
    &&& match op {
        OpView::Remove => y is Null,
        OpView::Assign(t) => !(y is Null) && assigned_text(y) == Some(t),
    }
}

/// Whether an edit at `path` is due: what stands there in both values differs, or the
/// entry is gone from `after`.
pub open spec fn is_due(before: Val, after: Val, path: Seq<StepView>, op: OpView) -> bool {
    match (look(before, path), look(after, path)) {
        (Some(x), Some(y)) => turns(x, y, op),
        (Some(_), None) => op is Remove && path.len() > 0 && path.last() is Key && look(
            after,
            path.drop_last(),
        ) is Some && look(after, path.drop_last())->0 is Dict && look(before, path.drop_last()) is Some && look(
            before,
            path.drop_last(),
        )->0 is Dict,
        _ => false,
    }
}

/// Whether no two keys of one mapping have the same text, anywhere in `v`.
pub open spec fn distinct_keys(v: Val) -> bool
    decreases v,
{
    match v {
        Val::List(vs) => forall|i: int| 0 <= i < vs.len() ==> distinct_keys(#[trigger] vs[i]),
        Val::Dict(ps) => {
            &&& forall|i: int| 0 <= i < ps.len() ==> distinct_keys((#[trigger] ps[i]).1)
            &&& forall|i: int, j: int|
                0 <= i < j < ps.len() && scalar_text((#[trigger] ps[i]).0) is Some ==> scalar_text(ps[i].0)
                    != scalar_text((#[trigger] ps[j]).0)
        },
        _ => true,
    }
}

/// Whether something is among the edits.
pub open spec fn among(ops: Seq<(Seq<StepView>, OpView)>, path: Seq<StepView>, op: OpView) -> bool {
    exists|i: int| 0 <= i < ops.len() && #[trigger] ops[i] == (path, op)
}

proof fn lemma_among_left(a: Diff, b: Diff, path: Seq<StepView>, op: OpView)
    requires
        among(a.ops, path, op),
    ensures
        among(a.plus(b).ops, path, op),
{
    let i = choose|i: int| 0 <= i < a.ops.len() && #[trigger] a.ops[i] == (path, op);
    assert(a.plus(b).ops[i] == (path, op));
}

proof fn lemma_among_right(a: Diff, b: Diff, path: Seq<StepView>, op: OpView)
    requires
        among(b.ops, path, op),
    ensures
        among(a.plus(b).ops, path, op),
{
    let i = choose|i: int| 0 <= i < b.ops.len() && #[trigger] b.ops[i] == (path, op);
    assert(a.plus(b).ops[a.ops.len() + i] == (path, op));
}

proof fn lemma_among_split(a: Diff, b: Diff, path: Seq<StepView>, op: OpView)
    requires
        among(a.plus(b).ops, path, op),
    ensures
        among(a.ops, path, op) || among(b.ops, path, op),
{
    let i = choose|i: int| 0 <= i < a.plus(b).ops.len() && #[trigger] a.plus(b).ops[i] == (path, op);
    if i < a.ops.len() {
        assert(a.ops[i] == (path, op));
    } else {
        assert(b.ops[i - a.ops.len()] == (path, op));
    }
}

/// The first entry with a text, counted from the front or from the back.
pub(crate) proof fn lemma_named(ps: Seq<(Val, Val)>, k: Seq<u8>, i: int)
    requires
        0 <= i <= ps.len(),
    ensures
        match find_from(ps, k, i) {
            Some(j) => i <= j < ps.len() && scalar_text(ps[j].0) == Some(k) && forall|m: int|
                i <= m < j ==> scalar_text((#[trigger] ps[m]).0) != Some(k),
            None => forall|m: int| i <= m < ps.len() ==> scalar_text((#[trigger] ps[m]).0) != Some(k),
        },
    decreases ps.len() - i,
{
    if i < ps.len() && scalar_text(ps[i].0) != Some(k) {
        lemma_named(ps, k, i + 1);
    }
}

proof fn lemma_first(ps: Seq<(Val, Val)>, k: Seq<u8>, j: int)
    requires
        0 <= j < ps.len(),
        scalar_text(ps[j].0) == Some(k),
        forall|m: int| 0 <= m < j ==> scalar_text((#[trigger] ps[m]).0) != Some(k),
    ensures
        named(ps, k) == Some(ps[j].1),
    decreases ps.len(),
{
    let d = ps.drop_last();
    if j < d.len() {
        assert(d[j] == ps[j]);
        assert forall|m: int| 0 <= m < j implies scalar_text((#[trigger] d[m]).0) != Some(k) by {
            assert(d[m] == ps[m]);
        }
        lemma_first(d, k, j);
    } else {
        assert forall|m: int| 0 <= m < d.len() implies scalar_text((#[trigger] d[m]).0) != Some(k) by {
            assert(d[m] == ps[m]);
        }
        lemma_unnamed(d, k);
    }
}

proof fn lemma_unnamed(ps: Seq<(Val, Val)>, k: Seq<u8>)
    requires
        forall|m: int| 0 <= m < ps.len() ==> scalar_text((#[trigger] ps[m]).0) != Some(k),
    ensures
        named(ps, k) is None,
    decreases ps.len(),
{
    if ps.len() > 0 {
        let d = ps.drop_last();
        assert forall|m: int| 0 <= m < d.len() implies scalar_text((#[trigger] d[m]).0) != Some(k) by {
            assert(d[m] == ps[m]);
        }
        lemma_unnamed(d, k);
        assert(scalar_text(ps[ps.len() - 1].0) != Some(k));
    }
}

/// Both ways of finding an entry agree.
proof fn lemma_find(ps: Seq<(Val, Val)>, k: Seq<u8>)
    ensures
        match find_from(ps, k, 0) {
            Some(j) => 0 <= j < ps.len() && scalar_text(ps[j].0) == Some(k) && named(ps, k) == Some(ps[j].1),
            None => named(ps, k) is None,
        },
{
    lemma_named(ps, k, 0);
    match find_from(ps, k, 0) {
        Some(j) => lemma_first(ps, k, j),
        None => lemma_unnamed(ps, k),
    }
}

/// The edits for entry `j` are among those for the first `k`, and so are its problems.
proof fn lemma_entry_edits(b: Seq<(Val, Val)>, k: int, a: Seq<(Val, Val)>, path: Seq<StepView>, j: int, p: Seq<StepView>, op: OpView)
    requires
        0 <= j < k <= b.len(),
        scalar_text(b[j].0) is Some,
    ensures
        ({
            let t = scalar_text(b[j].0)->0;
            let here = path.push(StepView::Key(t));
            let one = match find_from(a, t, 0) {
                None => Diff::op(here, OpView::Remove),
                Some(i) => diff(b[j].1, a[i].1, here),
            };
            &&& among(one.ops, p, op) ==> among(diff_entries(b, k, a, path).ops, p, op)
            &&& diff_entries(b, k, a, path).problems.len() == 0 ==> one.problems.len() == 0
        }),
    decreases k,
{
    let (key, value) = b[k - 1];
    let before = diff_entries(b, k - 1, a, path);
    let last = match scalar_text(key) {
        None => Diff::none(),
        Some(t) => match find_from(a, t, 0) {
            None => Diff::op(path.push(StepView::Key(t)), OpView::Remove),
            Some(i) => diff(value, a[i].1, path.push(StepView::Key(t))),
        },
    };
    assert(diff_entries(b, k, a, path) == before.plus(last));
    if j < k - 1 {
        lemma_entry_edits(b, k - 1, a, path, j, p, op);
        if among(before.ops, p, op) {
            lemma_among_left(before, last, p, op);
        }
    } else if among(last.ops, p, op) {
        lemma_among_right(before, last, p, op);
    }
}

proof fn lemma_item_edits(b: Seq<Val>, k: int, a: Seq<Val>, path: Seq<StepView>, j: int, p: Seq<StepView>, op: OpView)
    requires
        0 <= j < k <= b.len(),
    ensures
        ({
            let one = diff(b[j], a[j], path.push(StepView::Index(j)));
            &&& among(one.ops, p, op) ==> among(diff_items(b, k, a, path).ops, p, op)
            &&& diff_items(b, k, a, path).problems.len() == 0 ==> one.problems.len() == 0
        }),
    decreases k,
{
    let before = diff_items(b, k - 1, a, path);
    let last = diff(b[k - 1], a[k - 1], path.push(StepView::Index(k - 1)));
    assert(diff_items(b, k, a, path) == before.plus(last));
    if j < k - 1 {
        lemma_item_edits(b, k - 1, a, path, j, p, op);
        if among(before.ops, p, op) {
            lemma_among_left(before, last, p, op);
        }
    } else if among(last.ops, p, op) {
        lemma_among_right(before, last, p, op);
    }
}

/// An edit that is due is among the edits.
proof fn lemma_due(before: Val, after: Val, root: Seq<StepView>, path: Seq<StepView>, op: OpView)
    requires
        diff(before, after, root).problems.len() == 0,
        is_due(before, after, path, op),
    ensures
        among(diff(before, after, root).ops, root + path, op),
    decreases path.len(),
{
    if path.len() == 0 {
        assert(root + path =~= root);
        assert(before != after);
        let d = diff(before, after, root);
        assert(d.ops.len() == 1 && d.ops[0] == (root, op));
    } else {
        let rest = path.skip(1);
        assert(path.len() > 1 ==> rest.last() == path.last());
        assert(path.len() > 1 ==> rest.drop_last() =~= path.drop_last().skip(1));
        assert(path.len() > 1 ==> path.drop_last()[0] == path[0]);
        assert(path.len() == 1 ==> path.drop_last() =~= Seq::empty());
        assert(path.len() == 1 ==> path.last() == path[0]);
        let here = root.push(path[0]);
        assert(here + rest =~= root + path);
        if before == after {
            assert(false);
        }
        match (path[0], before) {
            (StepView::Key(k), Val::Dict(b)) => {
                lemma_find(b, k);
                let j = find_from(b, k, 0)->0;
                if let Val::Dict(a) = after {
                    lemma_find(a, k);
                    let all = diff_entries(b, b.len() as int, a, root);
                    let new = new_keys(b, a, a.len() as int, root);
                    lemma_entry_edits(b, b.len() as int, a, root, j, root + path, op);
                    match find_from(a, k, 0) {
                        None => {
                            assert(path.len() == 1) by {
                                if path.len() > 1 {
                                    assert(look(after, path.drop_last()) is None);
                                }
                            }
                            let one = Diff::op(here, OpView::Remove);
                            assert(here =~= root + path);
                            assert(one.ops[0] == (root + path, op));
                            assert(among(one.ops, root + path, op));
                        },
                        Some(i) => {
                            assert(all.plus(new).problems.len() == 0);
                            assert(is_due(b[j].1, a[i].1, rest, op));
                            lemma_due(b[j].1, a[i].1, here, rest, op);
                        },
                    }
                    lemma_among_left(all, new, root + path, op);
                } else {
                    assert(look(after, path) is None);
                    assert(false);
                }
            },
            (StepView::Index(n), Val::List(b)) => {
                if let Val::List(a) = after {
                    lemma_item_edits(b, b.len() as int, a, root, n, root + path, op);
                    if path.len() == 1 {
                        assert(look(after, path) is Some);
                    }
                    assert(is_due(b[n], a[n], rest, op));
                    lemma_due(b[n], a[n], here, rest, op);
                } else {
                    assert(look(after, path) is None);
                    assert(false);
                }
            },
            _ => {},
        }
    }
}

/// The edits for one entry of `b`.
spec fn entry_edits(b: Seq<(Val, Val)>, j: int, a: Seq<(Val, Val)>, path: Seq<StepView>) -> Diff {
    match scalar_text(b[j].0) {
        None => Diff::none(),
        Some(t) => match find_from(a, t, 0) {
            None => Diff::op(path.push(StepView::Key(t)), OpView::Remove),
            Some(i) => diff(b[j].1, a[i].1, path.push(StepView::Key(t))),
        },
    }
}

/// Every edit for some entries is one for one of them.
proof fn lemma_from_entry(b: Seq<(Val, Val)>, k: int, a: Seq<(Val, Val)>, path: Seq<StepView>, p: Seq<StepView>, op: OpView) -> (j: int)
    requires
        0 <= k <= b.len(),
        among(diff_entries(b, k, a, path).ops, p, op),
    ensures
        0 <= j < k,
        scalar_text(b[j].0) is Some,
        among(entry_edits(b, j, a, path).ops, p, op),
    decreases k,
{
    if k == 0 {
        0
    } else {
        let before = diff_entries(b, k - 1, a, path);
        let last = entry_edits(b, k - 1, a, path);
        assert(diff_entries(b, k, a, path) == before.plus(last));
        lemma_among_split(before, last, p, op);
        if among(last.ops, p, op) {
            k - 1
        } else {
            lemma_from_entry(b, k - 1, a, path, p, op)
        }
    }
}

/// Every edit for some items is one for one of them.
proof fn lemma_from_item(b: Seq<Val>, k: int, a: Seq<Val>, path: Seq<StepView>, p: Seq<StepView>, op: OpView) -> (j: int)
    requires
        0 <= k <= b.len(),
        among(diff_items(b, k, a, path).ops, p, op),
    ensures
        0 <= j < k,
        among(diff(b[j], a[j], path.push(StepView::Index(j))).ops, p, op),
    decreases k,
{
    if k == 0 {
        0
    } else {
        let before = diff_items(b, k - 1, a, path);
        let last = diff(b[k - 1], a[k - 1], path.push(StepView::Index(k - 1)));
        assert(diff_items(b, k, a, path) == before.plus(last));
        lemma_among_split(before, last, p, op);
        if among(last.ops, p, op) {
            k - 1
        } else {
            lemma_from_item(b, k - 1, a, path, p, op)
        }
    }
}

/// New keys are problems, not edits.
proof fn lemma_no_new_edits(b: Seq<(Val, Val)>, a: Seq<(Val, Val)>, k: int, path: Seq<StepView>)
    ensures
        new_keys(b, a, k, path).ops.len() == 0,
    decreases k,
{
    if 0 < k <= a.len() {
        lemma_no_new_edits(b, a, k - 1, path);
    }
}

/// With distinct keys, an entry is the first with its text.
proof fn lemma_own_name(ps: Seq<(Val, Val)>, j: int)
    requires
        distinct_keys(Val::Dict(ps)),
        0 <= j < ps.len(),
        scalar_text(ps[j].0) is Some,
    ensures
        named(ps, scalar_text(ps[j].0)->0) == Some(ps[j].1),
{
    assert forall|m: int| 0 <= m < j implies scalar_text((#[trigger] ps[m]).0) != scalar_text(ps[j].0) by {
        assert(scalar_text(ps[j].0) is Some);
        if scalar_text(ps[m].0) is Some {
            assert(scalar_text(ps[m].0) != scalar_text(ps[j].0));
        }
    }
    lemma_first(ps, scalar_text(ps[j].0)->0, j);
}

/// What is due inside a part is due in the whole.
proof fn lemma_due_inside(before: Val, after: Val, step: StepView, rest: Seq<StepView>, op: OpView)
    requires
        look(before, seq![step]) is Some,
        look(after, seq![step]) is Some,
        is_due(look(before, seq![step])->0, look(after, seq![step])->0, rest, op),
    ensures
        is_due(before, after, seq![step] + rest, op),
{
    let path = seq![step] + rest;
    lemma_look_step(before, step, rest);
    lemma_look_step(after, step, rest);
    if rest.len() > 0 {
        assert(path.last() == rest.last());
        assert(path.drop_last() =~= seq![step] + rest.drop_last());
        lemma_look_step(before, step, rest.drop_last());
        lemma_look_step(after, step, rest.drop_last());
    }
}

/// Looking up a path goes step by step.
proof fn lemma_look_step(v: Val, step: StepView, rest: Seq<StepView>)
    ensures
        look(v, seq![step] + rest) == (match look(v, seq![step]) {
            Some(w) => look(w, rest),
            None => None,
        }),
{
    let path = seq![step] + rest;
    assert(path.skip(1) =~= rest);
    assert(seq![step].skip(1) =~= Seq::empty());
    assert(path[0] == step);
    match (step, v) {
        (StepView::Key(k), Val::Dict(ps)) => {
            if let Some(w) = named(ps, k) {
                assert(look(w, Seq::empty()) == Some(w));
            }
        },
        (StepView::Index(n), Val::List(vs)) => {
            if 0 <= n < vs.len() {
                assert(look(vs[n], Seq::empty()) == Some(vs[n]));
            }
        },
        _ => {},
    }
}

/// An edit is due where it is made.
proof fn lemma_only_due(before: Val, after: Val, root: Seq<StepView>, p: Seq<StepView>, op: OpView) -> (path: Seq<StepView>)
    requires
        distinct_keys(before),
        among(diff(before, after, root).ops, p, op),
    ensures
        p == root + path,
        is_due(before, after, path, op),
    decreases before,
{
    let d = diff(before, after, root);
    match (before, after) {
        (Val::Dict(b), Val::Dict(a)) => {
            let all = diff_entries(b, b.len() as int, a, root);
            let new = new_keys(b, a, a.len() as int, root);
            assert(d == all.plus(new));
            lemma_no_new_edits(b, a, a.len() as int, root);
            lemma_among_split(all, new, p, op);
            let j = lemma_from_entry(b, b.len() as int, a, root, p, op);
            let t = scalar_text(b[j].0)->0;
            let step = StepView::Key(t);
            lemma_own_name(b, j);
            lemma_find(a, t);
            assert(seq![step].skip(1) =~= Seq::empty());
            match find_from(a, t, 0) {
                None => {
                    let path = seq![step];
                    assert(root + path =~= root.push(step));
                    assert(path.drop_last() =~= Seq::empty());
                    assert(look(before, path) is Some) by {
                        assert(look(b[j].1, path.skip(1)) is Some);
                    }
                    assert(look(after, path) is None);
                    assert(look(before, path.drop_last()) == Some(before));
                    assert(look(after, path.drop_last()) == Some(after));
                    path
                },
                Some(i) => {
                    let rest = lemma_only_due(b[j].1, a[i].1, root.push(step), p, op);
                    let path = seq![step] + rest;
                    assert(root + path =~= root.push(step) + rest);
                    assert(look(b[j].1, seq![step].skip(1)) == Some(b[j].1));
                    assert(look(a[i].1, seq![step].skip(1)) == Some(a[i].1));
                    assert(look(before, seq![step]) == Some(b[j].1));
                    assert(look(after, seq![step]) == Some(a[i].1));
                    lemma_due_inside(before, after, step, rest, op);
                    path
                },
            }
        },
        (Val::List(b), Val::List(a)) => {
            let j = lemma_from_item(b, b.len() as int, a, root, p, op);
            let step = StepView::Index(j);
            let rest = lemma_only_due(b[j], a[j], root.push(step), p, op);
            let path = seq![step] + rest;
            assert(root + path =~= root.push(step) + rest);
            assert(seq![step].skip(1) =~= Seq::empty());
            assert(look(b[j], seq![step].skip(1)) == Some(b[j]));
            assert(look(a[j], seq![step].skip(1)) == Some(a[j]));
            assert(look(before, seq![step]) == Some(b[j]));
            assert(look(after, seq![step]) == Some(a[j]));
            lemma_due_inside(before, after, step, rest, op);
            path
        },
        _ => {
            let path = Seq::<StepView>::empty();
            assert(root + path =~= root);
            assert(d.ops.len() == 1);
            assert(d.ops[0] == (p, op));
            path
        },
    }
}

/// Whether two values can be made of each other by edits: no new key, no other length
/// or order, nothing where there was nothing and no collection in place of a scalar.
pub open spec fn fits(x: Val, y: Val) -> bool {
    ||| x == y
    ||| match (x, y) {
        (Val::Dict(b), Val::Dict(a)) => forall|k: Seq<u8>| named(a, k) is Some ==> #[trigger] named(b, k) is Some,
        (Val::List(b), Val::List(a)) => b.len() == a.len() && !reordered(b, a),
        _ => !(x is Null) && (y is Null || assigned_text(y) is Some),
    }
}

/// No key is new if none is among the problems, and the other way round.
proof fn lemma_new_keys(b: Seq<(Val, Val)>, a: Seq<(Val, Val)>, k: int, path: Seq<StepView>)
    requires
        0 <= k <= a.len(),
    ensures
        new_keys(b, a, k, path).problems.len() == 0 <==> forall|i: int|
            0 <= i < k && scalar_text((#[trigger] a[i]).0) is Some ==> named(b, scalar_text(a[i].0)->0) is Some,
    decreases k,
{
    if k > 0 {
        lemma_new_keys(b, a, k - 1, path);
        if scalar_text(a[k - 1].0) is Some {
            lemma_find(b, scalar_text(a[k - 1].0)->0);
        }
        let before = new_keys(b, a, k - 1, path);
        let p0 = new_keys(b, a, k, path).problems.len() == 0;
        if p0 {
            assert(before.problems.len() == 0);
            assert forall|i: int|
                0 <= i < k && scalar_text((#[trigger] a[i]).0) is Some implies named(b, scalar_text(a[i].0)->0) is Some by {
                if i < k - 1 {
                }
            }
        }
    }
}

/// A text that names an entry is the text of some key.
proof fn lemma_named_key(ps: Seq<(Val, Val)>, k: Seq<u8>) -> (i: int)
    requires
        named(ps, k) is Some,
    ensures
        0 <= i < ps.len(),
        scalar_text(ps[i].0) == Some(k),
{
    lemma_find(ps, k);
    find_from(ps, k, 0)->0
}

/// Without a problem, everything fits.
proof fn lemma_fits(before: Val, after: Val, root: Seq<StepView>, path: Seq<StepView>)
    requires
        diff(before, after, root).problems.len() == 0,
        look(before, path) is Some,
        look(after, path) is Some,
    ensures
        fits(look(before, path)->0, look(after, path)->0),
    decreases path.len(),
{
    if before == after {
    } else if path.len() == 0 {
        if let (Val::Dict(b), Val::Dict(a)) = (before, after) {
            lemma_new_keys(b, a, a.len() as int, root);
            assert forall|k: Seq<u8>| named(a, k) is Some implies #[trigger] named(b, k) is Some by {
                let i = lemma_named_key(a, k);
                assert(scalar_text(a[i].0) is Some);
            }
        }
    } else {
        let here = root.push(path[0]);
        let rest = path.skip(1);
        match (path[0], before, after) {
            (StepView::Key(k), Val::Dict(b), Val::Dict(a)) => {
                lemma_find(b, k);
                lemma_find(a, k);
                let j = find_from(b, k, 0)->0;
                let i = find_from(a, k, 0)->0;
                lemma_entry_edits(b, b.len() as int, a, root, j, here, OpView::Remove);
                lemma_fits(b[j].1, a[i].1, here, rest);
            },
            (StepView::Index(n), Val::List(b), Val::List(a)) => {
                lemma_item_edits(b, b.len() as int, a, root, n, here, OpView::Remove);
                lemma_fits(b[n], a[n], here, rest);
            },
            _ => {},
        }
    }
}

/// Some entry has a problem if some of them have.
proof fn lemma_entry_problem(b: Seq<(Val, Val)>, k: int, a: Seq<(Val, Val)>, path: Seq<StepView>) -> (j: int)
    requires
        0 <= k <= b.len(),
        diff_entries(b, k, a, path).problems.len() > 0,
    ensures
        0 <= j < k,
        entry_edits(b, j, a, path).problems.len() > 0,
    decreases k,
{
    if k == 0 {
        0
    } else if entry_edits(b, k - 1, a, path).problems.len() > 0 {
        k - 1
    } else {
        assert(diff_entries(b, k, a, path) == diff_entries(b, k - 1, a, path).plus(entry_edits(b, k - 1, a, path)));
        lemma_entry_problem(b, k - 1, a, path)
    }
}

proof fn lemma_item_problem(b: Seq<Val>, k: int, a: Seq<Val>, path: Seq<StepView>) -> (j: int)
    requires
        0 <= k <= b.len(),
        diff_items(b, k, a, path).problems.len() > 0,
    ensures
        0 <= j < k,
        diff(b[j], a[j], path.push(StepView::Index(j))).problems.len() > 0,
    decreases k,
{
    let last = diff(b[k - 1], a[k - 1], path.push(StepView::Index(k - 1)));
    if k == 0 {
        0
    } else if last.problems.len() > 0 {
        k - 1
    } else {
        assert(diff_items(b, k, a, path) == diff_items(b, k - 1, a, path).plus(last));
        lemma_item_problem(b, k - 1, a, path)
    }
}

/// Where there is a problem, something does not fit.
proof fn lemma_misfit(before: Val, after: Val, root: Seq<StepView>) -> (path: Seq<StepView>)
    requires
        distinct_keys(before),
        diff(before, after, root).problems.len() > 0,
    ensures
        look(before, path) is Some,
        look(after, path) is Some,
        !fits(look(before, path)->0, look(after, path)->0),
    decreases before,
{
    let d = diff(before, after, root);
    let here = Seq::<StepView>::empty();
    match (before, after) {
        (Val::Dict(b), Val::Dict(a)) => {
            let all = diff_entries(b, b.len() as int, a, root);
            let new = new_keys(b, a, a.len() as int, root);
            assert(d == all.plus(new));
            if all.problems.len() > 0 {
                let j = lemma_entry_problem(b, b.len() as int, a, root);
                let t = scalar_text(b[j].0)->0;
                let step = StepView::Key(t);
                lemma_own_name(b, j);
                lemma_find(a, t);
                let i = find_from(a, t, 0)->0;
                let rest = lemma_misfit(b[j].1, a[i].1, root.push(step));
                lemma_look_step(before, step, rest);
                lemma_look_step(after, step, rest);
                assert(seq![step].skip(1) =~= Seq::empty());
                assert(look(b[j].1, seq![step].skip(1)) == Some(b[j].1));
                assert(look(a[i].1, seq![step].skip(1)) == Some(a[i].1));
                seq![step] + rest
            } else {
                lemma_new_keys(b, a, a.len() as int, root);
                let i = choose|i: int|
                    0 <= i < a.len() && scalar_text((#[trigger] a[i]).0) is Some && !(named(
                        b,
                        scalar_text(a[i].0)->0,
                    ) is Some);
                let t = scalar_text(a[i].0)->0;
                assert(named(a, t) is Some) by {
                    lemma_find(a, t);
                    lemma_named(a, t, 0);
                }
                assert(named(b, t) is None);
                here
            }
        },
        (Val::List(b), Val::List(a)) => {
            if reordered(b, a) || b.len() != a.len() {
                here
            } else {
                let j = lemma_item_problem(b, b.len() as int, a, root);
                let step = StepView::Index(j);
                let rest = lemma_misfit(b[j], a[j], root.push(step));
                lemma_look_step(before, step, rest);
                lemma_look_step(after, step, rest);
                assert(seq![step].skip(1) =~= Seq::empty());
                assert(look(b[j], seq![step].skip(1)) == Some(b[j]));
                assert(look(a[j], seq![step].skip(1)) == Some(a[j]));
                seq![step] + rest
            }
        },
        _ => here,
    }
}

/// Whether a change is an edit of one text into the next.
pub open spec fn made(now: Seq<u8>, next: Seq<u8>, change: ChangeView, path: Seq<StepView>, op: OpView, opts: OptsView) -> bool {
    match op {
        OpView::Assign(t) => {
            &&& edited(now, steps_path(path), t, opts) is Ok
            &&& edited(now, steps_path(path), t, opts)->Ok_0.0 == next
            &&& change == ChangeView::Assigned {
                path: shown(path),
                outcome: edited(now, steps_path(path), t, opts)->Ok_0.1,
            }
        },
        OpView::Remove => removed(now, steps_path(path)) == Ok::<Seq<u8>, ErrorView>(next) && change
            == ChangeView::Removed { path: shown(path) },
    }
}

/// Whether the texts lead from `s` to `out`, one for each change.
pub open spec fn leads(s: Seq<u8>, out: Seq<u8>, texts: Seq<Seq<u8>>, changes: Seq<ChangeView>) -> bool {
    texts.len() == changes.len() + 1 && texts[0] == s && texts.last() == out
}

/// Whether the change at `i` is the edit `op` at `path`.
pub open spec fn is_made(
    texts: Seq<Seq<u8>>,
    changes: Seq<ChangeView>,
    i: int,
    path: Seq<StepView>,
    op: OpView,
    opts: OptsView,
) -> bool {
    0 <= i < changes.len() && made(texts[i], texts[i + 1], changes[i], path, op, opts)
}

/// Whether a change is due somewhere.
pub open spec fn is_called_for(
    before: Val,
    after: Val,
    texts: Seq<Seq<u8>>,
    changes: Seq<ChangeView>,
    i: int,
    opts: OptsView,
) -> bool {
    exists|path: Seq<StepView>, op: OpView|
        is_due(before, after, path, op) && #[trigger] is_made(texts, changes, i, path, op, opts)
}

/// The texts between the edits.
proof fn lemma_carried_out(s: Seq<u8>, ops: Seq<(Seq<StepView>, OpView)>, k: int, opts: OptsView) -> (texts: Seq<Seq<u8>>)
    requires
        0 <= k <= ops.len(),
        carried_out(s, ops, k, opts) is Ok,
    ensures
        ({
            let (out, changes) = carried_out(s, ops, k, opts)->Ok_0;
            &&& leads(s, out, texts, changes)
            &&& changes.len() == k
            &&& forall|i: int| 0 <= i < k ==> is_made(texts, changes, i, (#[trigger] ops[i]).0, ops[i].1, opts)
        }),
    decreases k,
{
    if k == 0 {
        seq![s]
    } else {
        let less = lemma_carried_out(s, ops, k - 1, opts);
        let (now, done) = carried_out(s, ops, k - 1, opts)->Ok_0;
        let (out, changes) = carried_out(s, ops, k, opts)->Ok_0;
        let texts = less.push(out);
        assert forall|i: int| 0 <= i < k implies is_made(texts, changes, i, (#[trigger] ops[i]).0, ops[i].1, opts) by {
            if i < k - 1 {
                assert(is_made(less, done, i, ops[i].0, ops[i].1, opts));
                assert(changes[i] == done[i]);
                assert(texts[i] == less[i] && texts[i + 1] == less[i + 1]);
            } else {
                assert(texts[i] == now && texts[i + 1] == out);
            }
        }
        texts
    }
}

/// Applying a difference makes every edit that is due, and no other: where what stands
/// at a path in both values differs, the source is given the text that `after` has
/// there, an entry that `after` does not have or has as null is removed from it, and
/// every change of the result is one of these edits, made on the text that the changes
/// before it left.
pub proof fn law_apply_makes_what_is_due(
    s: Seq<u8>,
    before: Val,
    after: Val,
    opts: OptsView,
    out: Seq<u8>,
    changes: Seq<ChangeView>,
) -> (texts: Seq<Seq<u8>>)
    requires
        applied(s, before, after, opts) == Ok::<(Seq<u8>, Seq<ChangeView>), ErrorView>((out, changes)),
    ensures
        leads(s, out, texts, changes),
        forall|path: Seq<StepView>, op: OpView| #[trigger]
            is_due(before, after, path, op) ==> exists|i: int| #[trigger] is_made(texts, changes, i, path, op, opts),
        distinct_keys(before) ==> forall|i: int|
            0 <= i < changes.len() ==> #[trigger] is_called_for(before, after, texts, changes, i, opts),
{
    let root = Seq::<StepView>::empty();
    let ops = diff(before, after, root).ops;
    let texts = lemma_carried_out(s, ops, ops.len() as int, opts);
    assert forall|path: Seq<StepView>, op: OpView| #[trigger] is_due(before, after, path, op) implies exists|i: int|
        #[trigger] is_made(texts, changes, i, path, op, opts) by {
        lemma_due(before, after, root, path, op);
        assert(root + path =~= path);
        let i = choose|i: int| 0 <= i < ops.len() && #[trigger] ops[i] == (path, op);
        assert(is_made(texts, changes, i, ops[i].0, ops[i].1, opts));
    }
    if distinct_keys(before) {
        assert forall|i: int| 0 <= i < changes.len() implies #[trigger] is_called_for(
            before,
            after,
            texts,
            changes,
            i,
            opts,
        ) by {
            let (p, op) = ops[i];
            assert(among(ops, p, op));
            let path = lemma_only_due(before, after, root, p, op);
            assert(root + path =~= path);
            assert(is_made(texts, changes, i, ops[i].0, ops[i].1, opts));
        }
    }
    texts
}

/// Whether no path is edited twice.
pub open spec fn once(ops: Seq<(Seq<StepView>, OpView)>) -> bool {
    forall|i: int, j: int| 0 <= i < j < ops.len() ==> (#[trigger] ops[i]).0 != (#[trigger] ops[j]).0
}

/// Edits below two steps are edits of different paths.
proof fn lemma_apart(a: Diff, b: Diff, root: Seq<StepView>, step: StepView)
    requires
        once(a.ops),
        once(b.ops),
        forall|i: int| 0 <= i < a.ops.len() ==> (#[trigger] a.ops[i]).0.len() > root.len() && a.ops[i].0[root.len() as int] != step,
        forall|i: int| 0 <= i < b.ops.len() ==> (#[trigger] b.ops[i]).0.len() > root.len() && b.ops[i].0[root.len() as int] == step,
    ensures
        once(a.plus(b).ops),
{
    let ops = a.plus(b).ops;
    assert forall|i: int, j: int| 0 <= i < j < ops.len() implies (#[trigger] ops[i]).0 != (#[trigger] ops[j]).0 by {
        let n = a.ops.len();
        if j < n {
            assert(ops[i] == a.ops[i] && ops[j] == a.ops[j]);
        } else if i >= n {
            assert(ops[i] == b.ops[i - n] && ops[j] == b.ops[j - n]);
        } else {
            assert(ops[i] == a.ops[i] && ops[j] == b.ops[j - n]);
        }
    }
}

/// Every edit is made once.
proof fn lemma_once(before: Val, after: Val, root: Seq<StepView>)
    requires
        distinct_keys(before),
    ensures
        once(diff(before, after, root).ops),
    decreases before, 0int,
{
    match (before, after) {
        (Val::Dict(b), Val::Dict(a)) => {
            lemma_once_entries(b, b.len() as int, a, root);
            lemma_no_new_edits(b, a, a.len() as int, root);
            let all = diff_entries(b, b.len() as int, a, root);
            assert(all.plus(new_keys(b, a, a.len() as int, root)).ops =~= all.ops);
        },
        (Val::List(b), Val::List(a)) => {
            lemma_once_items(b, b.len() as int, a, root);
        },
        _ => {},
    }
}

/// An edit of an entry begins with its key.
proof fn lemma_below_entry(b: Seq<(Val, Val)>, j: int, a: Seq<(Val, Val)>, root: Seq<StepView>, p: Seq<StepView>, op: OpView)
    requires
        distinct_keys(Val::Dict(b)),
        0 <= j < b.len(),
        scalar_text(b[j].0) is Some,
        among(entry_edits(b, j, a, root).ops, p, op),
    ensures
        p.len() > root.len(),
        p[root.len() as int] == StepView::Key(scalar_text(b[j].0)->0),
{
    let t = scalar_text(b[j].0)->0;
    let here = root.push(StepView::Key(t));
    assert(distinct_keys(b[j].1));
    match find_from(a, t, 0) {
        None => {
            assert(entry_edits(b, j, a, root).ops[0].0 == here);
        },
        Some(i) => {
            let rest = lemma_only_due(b[j].1, a[i].1, here, p, op);
            assert(p == here + rest);
        },
    }
}

proof fn lemma_once_entries(b: Seq<(Val, Val)>, k: int, a: Seq<(Val, Val)>, root: Seq<StepView>)
    requires
        distinct_keys(Val::Dict(b)),
        0 <= k <= b.len(),
    ensures
        once(diff_entries(b, k, a, root).ops),
    decreases b, k,
{
    if k > 0 {
        lemma_once_entries(b, k - 1, a, root);
        let less = diff_entries(b, k - 1, a, root);
        let last = entry_edits(b, k - 1, a, root);
        assert(diff_entries(b, k, a, root) == less.plus(last));
        match scalar_text(b[k - 1].0) {
            None => {
                assert(less.plus(last).ops =~= less.ops);
            },
            Some(t) => {
                assert(distinct_keys(b[k - 1].1));
                if let Some(i) = find_from(a, t, 0) {
                    lemma_once(b[k - 1].1, a[i].1, root.push(StepView::Key(t)));
                }
                let step = StepView::Key(t);
                assert forall|i: int| 0 <= i < less.ops.len() implies (#[trigger] less.ops[i]).0.len() > root.len()
                    && less.ops[i].0[root.len() as int] != step by {
                    let (p, op) = less.ops[i];
                    assert(among(less.ops, p, op));
                    let j = lemma_from_entry(b, k - 1, a, root, p, op);
                    lemma_below_entry(b, j, a, root, p, op);
                    assert(scalar_text(b[j].0) != scalar_text(b[k - 1].0));
                }
                assert forall|i: int| 0 <= i < last.ops.len() implies (#[trigger] last.ops[i]).0.len() > root.len()
                    && last.ops[i].0[root.len() as int] == step by {
                    let (p, op) = last.ops[i];
                    assert(among(last.ops, p, op));
                    lemma_below_entry(b, k - 1, a, root, p, op);
                }
                lemma_apart(less, last, root, step);
            },
        }
    }
}

proof fn lemma_once_items(b: Seq<Val>, k: int, a: Seq<Val>, root: Seq<StepView>)
    requires
        forall|i: int| 0 <= i < b.len() ==> distinct_keys(#[trigger] b[i]),
        0 <= k <= b.len(),
    ensures
        once(diff_items(b, k, a, root).ops),
    decreases b, k,
{
    if k > 0 {
        lemma_once_items(b, k - 1, a, root);
        let step = StepView::Index(k - 1);
        let less = diff_items(b, k - 1, a, root);
        let last = diff(b[k - 1], a[k - 1], root.push(step));
        assert(diff_items(b, k, a, root) == less.plus(last));
        assert(distinct_keys(b[k - 1]));
        lemma_once(b[k - 1], a[k - 1], root.push(step));
        assert forall|i: int| 0 <= i < less.ops.len() implies (#[trigger] less.ops[i]).0.len() > root.len()
            && less.ops[i].0[root.len() as int] != step by {
            let (p, op) = less.ops[i];
            assert(among(less.ops, p, op));
            let j = lemma_from_item(b, k - 1, a, root, p, op);
            assert(distinct_keys(b[j]));
            let rest = lemma_only_due(b[j], a[j], root.push(StepView::Index(j)), p, op);
            assert(p == root.push(StepView::Index(j)) + rest);
        }
        assert forall|i: int| 0 <= i < last.ops.len() implies (#[trigger] last.ops[i]).0.len() > root.len()
            && last.ops[i].0[root.len() as int] == step by {
            let (p, op) = last.ops[i];
            assert(among(last.ops, p, op));
            let rest = lemma_only_due(b[k - 1], a[k - 1], root.push(step), p, op);
            assert(p == root.push(step) + rest);
        }
        lemma_apart(less, last, root, step);
    }
}

/// With distinct keys, the edits are exactly those that are due, each made once.
pub proof fn law_difference_is_what_is_due(before: Val, after: Val)
    requires
        distinct_keys(before),
        diff(before, after, Seq::empty()).problems.len() == 0,
    ensures
        once(diff(before, after, Seq::empty()).ops),
        forall|path: Seq<StepView>, op: OpView| #[trigger]
            is_due(before, after, path, op) <==> among(diff(before, after, Seq::empty()).ops, path, op),
{
    let root = Seq::<StepView>::empty();
    let ops = diff(before, after, root).ops;
    lemma_once(before, after, root);
    assert forall|path: Seq<StepView>, op: OpView| #[trigger] is_due(before, after, path, op) <==> among(
        ops,
        path,
        op,
    ) by {
        assert(root + path =~= path);
        if is_due(before, after, path, op) {
            lemma_due(before, after, root, path, op);
        }
        if among(ops, path, op) {
            let p = lemma_only_due(before, after, root, path, op);
            assert(root + p =~= p);
        }
    }
}

/// A difference is refused as a change of structure exactly where the values do not
/// fit each other somewhere: a key is new, a sequence has another length or another
/// order, a value stands where there was none, or a collection where there was none.
pub proof fn law_apply_refuses_what_does_not_fit(before: Val, after: Val)
    ensures
        diff(before, after, Seq::empty()).problems.len() == 0 ==> forall|path: Seq<StepView>| #[trigger]
            look(before, path) is Some && look(after, path) is Some ==> fits(
                look(before, path)->0,
                look(after, path)->0,
            ),
        distinct_keys(before) && diff(before, after, Seq::empty()).problems.len() > 0 ==> exists|path: Seq<StepView>|
            #[trigger] look(before, path) is Some && look(after, path) is Some && !fits(
                look(before, path)->0,
                look(after, path)->0,
            ),
{
    let root = Seq::<StepView>::empty();
    if diff(before, after, root).problems.len() == 0 {
        assert forall|path: Seq<StepView>| #[trigger] look(before, path) is Some && look(after, path) is Some implies fits(
            look(before, path)->0,
            look(after, path)->0,
        ) by {
            lemma_fits(before, after, root, path);
        }
    } else if distinct_keys(before) {
        let path = lemma_misfit(before, after, root);
        assert(look(before, path) is Some);
    }
}

/// Applying changes nothing only where there is nothing to change: if the list of
/// changes is empty, everything that `before` has stands in `after` too, and as the
/// same value.
pub proof fn law_apply_is_silent_only_on_sameness(
    s: Seq<u8>,
    before: Val,
    after: Val,
    opts: OptsView,
    out: Seq<u8>,
    path: Seq<StepView>,
)
    requires
        applied(s, before, after, opts) == Ok::<(Seq<u8>, Seq<ChangeView>), ErrorView>((out, Seq::empty())),
        look(before, path) is Some,
    ensures
        out == s,
        look(after, path) is Some,
        look(before, path) == look(after, path) || alike_inside(look(before, path)->0, look(after, path)->0),
{
    let texts = law_apply_makes_what_is_due(s, before, after, opts, out, Seq::empty());
    let none = Seq::<ChangeView>::empty();
    assert forall|p: Seq<StepView>, op: OpView| !#[trigger] is_due(before, after, p, op) by {
        if is_due(before, after, p, op) {
            assert(exists|i: int| #[trigger] is_made(texts, none, i, p, op, opts));
        }
    }
    lemma_nothing_due(before, after, path);
}

/// What fits and where no edit is due is the same.
proof fn lemma_nothing_due(before: Val, after: Val, path: Seq<StepView>)
    requires
        diff(before, after, Seq::empty()).problems.len() == 0,
        forall|p: Seq<StepView>, op: OpView| !#[trigger] is_due(before, after, p, op),
        look(before, path) is Some,
    ensures
        look(after, path) is Some,
        look(before, path) == look(after, path) || alike_inside(look(before, path)->0, look(after, path)->0),
    decreases path.len(),
{
    if path.len() > 0 {
        let up = path.drop_last();
        lemma_look_last(before, path);
        lemma_look_last(after, path);
        lemma_nothing_due(before, after, up);
        lemma_fits(before, after, Seq::empty(), up);
        lemma_kept_below(look(before, up)->0, look(after, up)->0, path.last());
        if look(after, path) is None {
            assert(is_due(before, after, path, OpView::Remove));
        }
    }
    lemma_fits(before, after, Seq::empty(), path);
    let x = look(before, path)->0;
    let y = look(after, path)->0;
    if x != y && !alike_inside(x, y) {
        let op = if y is Null {
            OpView::Remove
        } else {
            OpView::Assign(assigned_text(y)->0)
        };
        assert(turns(x, y, op));
        assert(is_due(before, after, path, op));
    }
}

/// Only an entry can be missing from a value that fits.
proof fn lemma_kept_below(x: Val, y: Val, step: StepView)
    requires
        fits(x, y),
        x == y || alike_inside(x, y),
        look(x, seq![step]) is Some,
    ensures
        look(y, seq![step]) is None ==> x is Dict && y is Dict && step is Key,
{
    assert(seq![step].skip(1) =~= Seq::empty());
    if let (StepView::Index(n), Val::List(a)) = (step, y) {
        if 0 <= n < a.len() {
            assert(look(a[n], seq![step].skip(1)) is Some);
        }
    }
}

/// Looking up a path ends with its last step.
proof fn lemma_look_last(v: Val, path: Seq<StepView>)
    requires
        path.len() > 0,
    ensures
        look(v, path) == (match look(v, path.drop_last()) {
            Some(w) => look(w, seq![path.last()]),
            None => None,
        }),
    decreases path.len(),
{
    let up = path.drop_last();
    if path.len() == 1 {
        assert(path =~= seq![path.last()]);
    } else {
        let rest = path.skip(1);
        assert(path =~= seq![path[0]] + rest);
        assert(up =~= seq![path[0]] + rest.drop_last());
        lemma_look_step(v, path[0], rest);
        lemma_look_step(v, path[0], rest.drop_last());
        if let Some(w) = look(v, seq![path[0]]) {
            lemma_look_last(w, rest);
        }
        assert(rest.last() == path.last());
    }
}

} // verus!
