//! Writing the difference between two values back to the source.
use vstd::prelude::*;
use vstd::seq_lib::*;
use vstd::string::*;
use vstd::utf8::*;
use super::doc::{removed, Document};
use super::set::{edited, refused, strict_opts, OptsView, OutcomeView, SetOpts, SetOutcome};
use super::{path_view, Segment, SegmentView};
use crate::emitter::{emit_float, float_text};
use crate::error::{plain_error, Error, ErrorView};
use crate::text::{decimal, put, put_byte, put_decimal, same, DOT};
use crate::value::{
    cow_str, lemma_dict_val, lemma_item_smaller, lemma_list_val, lemma_pair_smaller, lit, pairs_of, scalar_text,
    vals, BorrowedValue, Val,
};

verus! {

/// Changes made by [`apply`](Document::apply), ordered as the edits themselves.
#[derive(Debug)]
pub struct Applied {
    pub changes: Vec<Change>,
}

/// Change on the [`Document`] by [`apply`](Document::apply).
///
/// [`path`](Change::Assigned::path) is dotted, for diagnostics only. Keys containing dots are not
/// escaped, so it is not intended to be used as input or edit definition, only as a result after a
/// completed edit.
#[derive(Debug)]
#[non_exhaustive]
pub enum Change {
    Assigned { path: String, outcome: SetOutcome<'static> },
    Removed { path: String },
}

/// The contents of a [`Change`].
pub enum ChangeView {
    Assigned { path: Seq<u8>, outcome: OutcomeView },
    Removed { path: Seq<u8> },
}

impl View for Change {
    type V = ChangeView;

    open spec fn view(&self) -> ChangeView {
        match self {
            Change::Assigned { path, outcome } => ChangeView::Assigned { path: encode_utf8(path@), outcome: outcome@ },
            Change::Removed { path } => ChangeView::Removed { path: encode_utf8(path@) },
        }
    }
}

/// The contents of a list of changes.
pub open spec fn changes_view(v: Seq<Change>) -> Seq<ChangeView> {
    Seq::new(v.len(), |i: int| v[i]@)
}

/// One level of descent into a value.
pub enum StepView {
    Key(Seq<u8>),
    Index(int),
}

/// An edit that makes one value of another.
pub enum OpView {
    Assign(Seq<u8>),
    Remove,
}

/// The edits that make one value of another, each with its path, and what no
/// edit can make.
pub struct Diff {
    pub ops: Seq<(Seq<StepView>, OpView)>,
    pub problems: Seq<Seq<u8>>,
}

impl Diff {
    pub open spec fn none() -> Diff {
        Diff { ops: Seq::empty(), problems: Seq::empty() }
    }

    pub open spec fn op(path: Seq<StepView>, op: OpView) -> Diff {
        Diff { ops: seq![(path, op)], problems: Seq::empty() }
    }

    pub open spec fn problem(path: Seq<StepView>, what: Seq<u8>) -> Diff {
        Diff { ops: Seq::empty(), problems: seq![shown(path) + what] }
    }

    pub open spec fn plus(self, other: Diff) -> Diff {
        Diff { ops: self.ops + other.ops, problems: self.problems + other.problems }
    }
}

/// One step in a dotted path.
pub open spec fn shown_step(s: StepView) -> Seq<u8> {
    match s {
        StepView::Key(k) => k,
        StepView::Index(n) => decimal(n as nat),
    }
}

/// A dotted rendering of a path, for diagnostics.
pub open spec fn shown(path: Seq<StepView>) -> Seq<u8>
    decreases path.len(),
{
    if path.len() == 0 {
        Seq::empty()
    } else if path.len() == 1 {
        shown_step(path[0])
    } else {
        shown(path.drop_last()).push(DOT) + shown_step(path.last())
    }
}

/// The first entry from `i` on whose key has the text `key`.
pub open spec fn find_from(ps: Seq<(Val, Val)>, key: Seq<u8>, i: int) -> Option<int>
    decreases ps.len() - i,
{
    if !(0 <= i < ps.len()) {
        None
    } else if scalar_text(ps[i].0) == Some(key) {
        Some(i)
    } else {
        find_from(ps, key, i + 1)
    }
}

/// Whether two sequences hold the same items, each as often as the other.
pub open spec fn reordered(b: Seq<Val>, a: Seq<Val>) -> bool {
    b.to_multiset() == a.to_multiset()
}

/// The edits that make `after` of `before` at `path`.
///
/// A scalar is rewritten, an entry that is gone or cleared is removed. Anything
/// else is a problem: a new key, another length, another order of the same items, a
/// value where there was none, or another shape.
pub open spec fn diff(before: Val, after: Val, path: Seq<StepView>) -> Diff
    decreases before, 0int,
{
    if before == after {
        Diff::none()
    } else {
        match (before, after) {
            (Val::Dict(b), Val::Dict(a)) => diff_entries(b, b.len() as int, a, path).plus(
                new_keys(b, a, a.len() as int, path),
            ),
            (Val::List(b), Val::List(a)) => if reordered(b, a) {
                Diff::problem(path, lit(": sequence reordered"))
            } else if b.len() == a.len() {
                diff_items(b, b.len() as int, a, path)
            } else {
                Diff::problem(
                    path,
                    lit(": sequence length ") + decimal(b.len()) + lit(" -> ") + decimal(a.len()),
                )
            },
            (Val::Null, _) => Diff::problem(path, lit(": giving a value to an absent field")),
            (_, Val::Null) => Diff::op(path, OpView::Remove),
            (_, Val::Float(t)) => Diff::op(path, OpView::Assign(float_text(t))),
            _ => match scalar_text(after) {
                Some(t) => Diff::op(path, OpView::Assign(t)),
                None => Diff::problem(path, lit(": shape changed")),
            },
        }
    }
}

/// The edits for the first `k` entries of `b`.
pub open spec fn diff_entries(b: Seq<(Val, Val)>, k: int, a: Seq<(Val, Val)>, path: Seq<StepView>) -> Diff
    decreases b, k,
{
    if !(0 < k <= b.len()) {
        Diff::none()
    } else {
        let (key, value) = b[k - 1];
        diff_entries(b, k - 1, a, path).plus(
            match scalar_text(key) {
                None => Diff::none(),
                Some(t) => match find_from(a, t, 0) {
                    None => Diff::op(path.push(StepView::Key(t)), OpView::Remove),
                    Some(i) => diff(value, a[i].1, path.push(StepView::Key(t))),
                },
            },
        )
    }
}

/// The edits for the first `k` items of `b`.
pub open spec fn diff_items(b: Seq<Val>, k: int, a: Seq<Val>, path: Seq<StepView>) -> Diff
    decreases b, k,
{
    if !(0 < k <= b.len()) {
        Diff::none()
    } else {
        diff_items(b, k - 1, a, path).plus(diff(b[k - 1], a[k - 1], path.push(StepView::Index(k - 1))))
    }
}

/// The problems with keys among the first `k` of `a` that `b` does not have.
pub open spec fn new_keys(b: Seq<(Val, Val)>, a: Seq<(Val, Val)>, k: int, path: Seq<StepView>) -> Diff
    decreases k,
{
    if !(0 < k <= a.len()) {
        Diff::none()
    } else {
        new_keys(b, a, k - 1, path).plus(
            match scalar_text(a[k - 1].0) {
                Some(t) if find_from(b, t, 0) is None => Diff::problem(
                    path.push(StepView::Key(t)),
                    lit(": adding a key"),
                ),
                _ => Diff::none(),
            },
        )
    }
}

/// The problems, separated by semicolons.
pub open spec fn joined(v: Seq<Seq<u8>>) -> Seq<u8>
    decreases v.len(),
{
    if v.len() == 0 {
        Seq::empty()
    } else if v.len() == 1 {
        v[0]
    } else {
        joined(v.drop_last()) + lit("; ") + v.last()
    }
}

/// The segments of a path.
pub open spec fn steps_path(v: Seq<StepView>) -> Seq<SegmentView> {
    Seq::new(
        v.len(),
        |i: int|
            match v[i] {
                StepView::Key(k) => SegmentView::Key(k),
                StepView::Index(n) => SegmentView::Index(n),
            },
    )
}

/// The source and the changes after the first `k` edits, or the error of the
/// first that is refused.
pub open spec fn carried_out(s: Seq<u8>, ops: Seq<(Seq<StepView>, OpView)>, k: int, opts: OptsView) -> Result<
    (Seq<u8>, Seq<ChangeView>),
    ErrorView,
>
    decreases k,
{
    if !(0 < k <= ops.len()) {
        Ok((s, Seq::empty()))
    } else {
        match carried_out(s, ops, k - 1, opts) {
            Err(e) => Err(e),
            Ok((now, done)) => {
                let (path, op) = ops[k - 1];
                match op {
                    OpView::Assign(t) => match edited(now, steps_path(path), t, opts) {
                        Err(e) => Err(e),
                        Ok((text, outcome)) => Ok(
                            (text, done.push(ChangeView::Assigned { path: shown(path), outcome })),
                        ),
                    },
                    OpView::Remove => match removed(now, steps_path(path)) {
                        Err(e) => Err(e),
                        Ok(text) => Ok((text, done.push(ChangeView::Removed { path: shown(path) }))),
                    },
                }
            },
        }
    }
}

/// What applying the difference between two values to the source `s` does: the
/// new source and the changes, or the error.
pub open spec fn applied(s: Seq<u8>, before: Val, after: Val, opts: OptsView) -> Result<
    (Seq<u8>, Seq<ChangeView>),
    ErrorView,
> {
    let d = diff(before, after, Seq::empty());
    if d.problems.len() > 0 {
        Err(plain_error(lit("apply cannot make structural changes: ") + joined(d.problems)))
    } else {
        carried_out(s, d.ops, d.ops.len() as int, opts)
    }
}

/// A path collected before any edit, so it outlives the buffer
pub enum Step {
    Key(String),
    Index(usize),
}

impl Step {
    pub open spec fn v(self) -> StepView {
        match self {
            Step::Key(k) => StepView::Key(encode_utf8(k@)),
            Step::Index(n) => StepView::Index(n as int),
        }
    }

    fn as_segment(&self) -> (r: Segment<'_>)
        ensures
            r@ == (match self.v() {
                StepView::Key(k) => SegmentView::Key(k),
                StepView::Index(n) => SegmentView::Index(n),
            }),
    {
        match self {
            Step::Key(k) => Segment::Key(k.as_str()),
            Step::Index(i) => Segment::Index(*i),
        }
    }

    fn dup(&self) -> (r: Step)
        ensures
            r.v() == self.v(),
    {
        match self {
            Step::Key(k) => Step::Key(k.clone()),
            Step::Index(i) => Step::Index(*i),
        }
    }
}

pub open spec fn steps_view(v: Seq<Step>) -> Seq<StepView> {
    Seq::new(v.len(), |i: int| v[i].v())
}

/// An edit the walk decided on, to be carried out once the whole diff is known.
pub enum Op {
    Assign(String),
    Remove,
}

impl Op {
    pub open spec fn v(self) -> OpView {
        match self {
            Op::Assign(t) => OpView::Assign(encode_utf8(t@)),
            Op::Remove => OpView::Remove,
        }
    }
}

pub open spec fn ops_view(v: Seq<(Vec<Step>, Op)>) -> Seq<(Seq<StepView>, OpView)> {
    Seq::new(v.len(), |i: int| (steps_view(v[i].0@), v[i].1.v()))
}

pub open spec fn texts_view(v: Seq<String>) -> Seq<Seq<u8>> {
    Seq::new(v.len(), |i: int| encode_utf8(v[i]@))
}

/// A copy of a path.
fn steps_dup(path: &Vec<Step>) -> (r: Vec<Step>)
    ensures
        steps_view(r@) == steps_view(path@),
{
    let mut out: Vec<Step> = Vec::new();
    let mut i: usize = 0;
    while i < path.len()
        invariant
            i <= path@.len(),
            out@.len() == i,
            forall|j: int| 0 <= j < i ==> (#[trigger] out@[j]).v() == path@[j].v(),
        decreases path@.len() - i,
    {
        out.push(path[i].dup());
        i = i + 1;
    }
    assert(steps_view(out@) =~= steps_view(path@));
    out
}

/// A dotted rendering of `path`, for diagnostics.
fn show(path: &Vec<Step>) -> (r: String)
    ensures
        encode_utf8(r@) == shown(steps_view(path@)),
{
    let ghost all = steps_view(path@);
    let mut out = String::new();
    let mut i: usize = 0;
    proof {
        assert(encode_utf8(Seq::<char>::empty()) =~= Seq::<u8>::empty());
        assert(all.take(0) =~= Seq::<StepView>::empty());
    }
    while i < path.len()
        invariant
            i <= path@.len(),
            all == steps_view(path@),
            encode_utf8(out@) == shown(all.take(i as int)),
        decreases path@.len() - i,
    {
        proof {
            assert(all.take(i + 1).drop_last() =~= all.take(i as int));
            assert(all.take(i + 1).last() == path@[i as int].v());
            assert(all.take(i + 1).len() == 1 ==> all.take(i + 1)[0] == path@[i as int].v());
        }
        let ghost before = encode_utf8(out@);
        if i > 0 {
            put_byte(&mut out, DOT);
        }
        match &path[i] {
            Step::Key(k) => put(&mut out, k.as_str()),
            Step::Index(n) => put_decimal(&mut out, *n as u64),
        }
        assert(encode_utf8(out@) =~= shown(all.take(i + 1)));
        i = i + 1;
    }
    assert(all.take(i as int) =~= all);
    out
}

/// The entry that `key` maps to, matched on key text rather than source spelling.
fn find(ps: &Vec<(BorrowedValue<'_>, BorrowedValue<'_>)>, key: &str) -> (r: Option<usize>)
    ensures
        match r {
            Some(i) => find_from(pairs_of(ps@), encode_utf8(key@), 0) == Some(i as int) && i < ps@.len(),
            None => find_from(pairs_of(ps@), encode_utf8(key@), 0) is None,
        },
{
    let mut i: usize = 0;
    while i < ps.len()
        invariant
            i <= ps@.len(),
            find_from(pairs_of(ps@), encode_utf8(key@), 0) == find_from(
                pairs_of(ps@),
                encode_utf8(key@),
                i as int,
            ),
        decreases ps@.len() - i,
    {
        assert(pairs_of(ps@)[i as int].0 == ps@[i as int].0.val());
        if let Some(t) = ps[i].0.text() {
            if same(cow_str(&t), key) {
                return Some(i);
            }
        }
        i = i + 1;
    }
    None
}

/// The edits and refusals collected so far.
pub struct Collected {
    pub ops: Vec<(Vec<Step>, Op)>,
    pub problems: Vec<String>,
}

impl Collected {
    pub open spec fn v(self) -> Diff {
        Diff { ops: ops_view(self.ops@), problems: texts_view(self.problems@) }
    }

    fn op(&mut self, path: &Vec<Step>, op: Op)
        ensures
            final(self).v() == old(self).v().plus(Diff::op(steps_view(path@), op.v())),
    {
        self.ops.push((steps_dup(path), op));
        assert(self.v().ops =~= old(self).v().plus(Diff::op(steps_view(path@), op.v())).ops);
        assert(self.v().problems =~= old(self).v().plus(Diff::op(steps_view(path@), op.v())).problems);
    }

    fn problem(&mut self, path: &Vec<Step>, what: &str)
        ensures
            final(self).v() == old(self).v().plus(Diff::problem(steps_view(path@), encode_utf8(what@))),
    {
        let mut msg = show(path);
        put(&mut msg, what);
        self.problems.push(msg);
        let ghost d = Diff::problem(steps_view(path@), encode_utf8(what@));
        assert(self.v().ops =~= old(self).v().plus(d).ops);
        assert(self.v().problems =~= old(self).v().plus(d).problems);
    }
}

proof fn lemma_plus_none(d: Diff)
    ensures
        d.plus(Diff::none()) == d,
        Diff::none().plus(d) == d,
{
    assert(d.plus(Diff::none()).ops =~= d.ops);
    assert(d.plus(Diff::none()).problems =~= d.problems);
    assert(Diff::none().plus(d).ops =~= d.ops);
    assert(Diff::none().plus(d).problems =~= d.problems);
}

proof fn lemma_plus_assoc(a: Diff, b: Diff, c: Diff)
    ensures
        a.plus(b).plus(c) == a.plus(b.plus(c)),
{
    assert(a.plus(b).plus(c).ops =~= a.plus(b.plus(c)).ops);
    assert(a.plus(b).plus(c).problems =~= a.plus(b.plus(c)).problems);
}

/// How often a value is among the items.
fn occurrences(v: &Vec<BorrowedValue<'_>>, x: &BorrowedValue<'_>) -> (n: usize)
    ensures
        n == vals(v@).to_multiset().count(x.val()),
{
    broadcast use group_to_multiset_ensures;

    let ghost items = vals(v@);
    let mut n: usize = 0;
    let mut i: usize = 0;
    assert(items.take(0) =~= Seq::empty());
    while i < v.len()
        invariant
            items == vals(v@),
            n <= i <= v@.len(),
            n == items.take(i as int).to_multiset().count(x.val()),
        decreases v@.len() - i,
    {
        let ghost before = items.take(i as int);
        assert(items.take(i + 1) =~= before.push(items[i as int]));
        proof {
            to_multiset_build(before, items[i as int]);
        }
        assert(items[i as int] == v@[i as int].val());
        if v[i].same(x) {
            n = n + 1;
        }
        i = i + 1;
    }
    assert(items.take(i as int) =~= items);
    n
}

/// Whether every item of `v` is among those of `w` as often as among its own.
fn as_often(v: &Vec<BorrowedValue<'_>>, w: &Vec<BorrowedValue<'_>>) -> (r: bool)
    ensures
        r == (forall|i: int|
            0 <= i < vals(v@).len() ==> vals(v@).to_multiset().count(#[trigger] vals(v@)[i])
                == vals(w@).to_multiset().count(vals(v@)[i])),
{
    let mut i: usize = 0;
    while i < v.len()
        invariant
            i <= v@.len(),
            forall|j: int|
                0 <= j < i ==> vals(v@).to_multiset().count(#[trigger] vals(v@)[j]) == vals(w@).to_multiset().count(
                    vals(v@)[j],
                ),
        decreases v@.len() - i,
    {
        assert(vals(v@)[i as int] == v@[i as int].val());
        if occurrences(v, &v[i]) != occurrences(w, &v[i]) {
            return false;
        }
        i = i + 1;
    }
    true
}

fn is_reordered(b: &Vec<BorrowedValue<'_>>, a: &Vec<BorrowedValue<'_>>) -> (r: bool)
    ensures
        r == reordered(vals(b@), vals(a@)),
{
    broadcast use group_to_multiset_ensures;

    let r = b.len() == a.len() && as_often(b, a) && as_often(a, b);
    proof {
        let bs = vals(b@);
        let qs = vals(a@);
        if r {
            assert forall|x: Val| #[trigger] bs.to_multiset().count(x) == qs.to_multiset().count(x) by {
                if bs.contains(x) {
                    let i = choose|i: int| 0 <= i < bs.len() && bs[i] == x;
                    assert(bs[i] == x);
                }
                if qs.contains(x) {
                    let i = choose|i: int| 0 <= i < qs.len() && qs[i] == x;
                    assert(qs[i] == x);
                }
            }
            assert(bs.to_multiset() =~= qs.to_multiset());
        } else if bs.to_multiset() == qs.to_multiset() {
            assert(bs.len() == bs.to_multiset().len() && qs.len() == qs.to_multiset().len());
        }
    }
    r
}

/// Walk `before` against `after`, recording edits and refusals.
///
/// Both come from the same type, so their shapes match and every difference is
/// deliberate. Anything this cannot express as a scalar splice or a key removal
/// goes to `problems`, which aborts the apply before it writes.
fn collect(before: &BorrowedValue<'_>, after: &BorrowedValue<'_>, path: &mut Vec<Step>, out: &mut Collected)
    ensures
        steps_view(final(path)@) == steps_view(old(path)@),
        final(out).v() == old(out).v().plus(diff(before.val(), after.val(), steps_view(old(path)@))),
    decreases before, 1int,
{
    let ghost p = steps_view(path@);
    let ghost o = out.v();
    proof {
        lemma_plus_none(o);
    }
    // An untouched subtree costs one comparison, which is what keeps this cheap
    // against a struct whose every absent field is present as None.
    if before.same(after) {
        return;
    }
    match (before, after) {
        (BorrowedValue::Mapping(b), BorrowedValue::Mapping(a)) => {
            proof {
                lemma_dict_val(*b);
                lemma_dict_val(*a);
            }
            collect_entries(before, a, path, out);
            collect_new_keys(b, a, path, out);
            proof {
                lemma_plus_assoc(
                    o,
                    diff_entries(pairs_of(b@), b@.len() as int, pairs_of(a@), p),
                    new_keys(pairs_of(b@), pairs_of(a@), a@.len() as int, p),
                );
            }
        },
        (BorrowedValue::Sequence(b), BorrowedValue::Sequence(a)) => {
            proof {
                lemma_list_val(*b);
                lemma_list_val(*a);
            }
            if is_reordered(b, a) {
                out.problem(path, ": sequence reordered");
            } else if b.len() == a.len() {
                collect_items(before, a, path, out);
            } else {
                let mut what = String::new();
                put(&mut what, ": sequence length ");
                put_decimal(&mut what, b.len() as u64);
                put(&mut what, " -> ");
                put_decimal(&mut what, a.len() as u64);
                proof {
                    assert(encode_utf8(Seq::<char>::empty()) =~= Seq::<u8>::empty());
                    assert(encode_utf8(what@) =~= lit(": sequence length ") + decimal(vals(b@).len()) + lit(" -> ")
                        + decimal(vals(a@).len()));
                }
                out.problem(path, what.as_str());
            }
        },
        // Nothing to splice over: the path is absent from the document, so this
        // would fail partway through the apply rather than up front.
        (BorrowedValue::Null, _) => out.problem(path, ": giving a value to an absent field"),
        // Clearing a field reads as removal. There is no way to ask for a
        // literal `null`, which is far rarer than deleting a key.
        (_, BorrowedValue::Null) => out.op(path, Op::Remove),
        // Spelled so that it stays a float
        (_, BorrowedValue::Float(f)) => {
            let mut text = String::new();
            emit_float(cow_str(f), &mut text);
            proof {
                assert(encode_utf8(Seq::<char>::empty()) =~= Seq::<u8>::empty());
                assert(encode_utf8(text@) =~= float_text(encode_utf8(f@)));
            }
            out.op(path, Op::Assign(text));
        },
        (_, a) => match a.text() {
            Some(t) => {
                let text = cow_str(&t).to_owned();
                out.op(path, Op::Assign(text));
            },
            None => out.problem(path, ": shape changed"),
        },
    }
}

/// The edits for the entries of the mapping `before`.
fn collect_entries(
    before: &BorrowedValue<'_>,
    a: &Vec<(BorrowedValue<'_>, BorrowedValue<'_>)>,
    path: &mut Vec<Step>,
    out: &mut Collected,
)
    requires
        before is Mapping,
    ensures
        steps_view(final(path)@) == steps_view(old(path)@),
        final(out).v() == old(out).v().plus(
            diff_entries(
                pairs_of(before->Mapping_0@),
                before->Mapping_0@.len() as int,
                pairs_of(a@),
                steps_view(old(path)@),
            ),
        ),
    decreases before, 0int,
{
    let ghost p = steps_view(path@);
    let ghost o = out.v();
    if let BorrowedValue::Mapping(b) = before {
        let ghost bs = pairs_of(b@);
        let ghost qs = pairs_of(a@);
        let mut i: usize = 0;
        proof {
            lemma_plus_none(o);
        }
        while i < b.len()
            invariant
                *before == BorrowedValue::Mapping(*b),
                bs == pairs_of(b@),
                qs == pairs_of(a@),
                i <= b@.len(),
                steps_view(path@) == p,
                out.v() == o.plus(diff_entries(bs, i as int, qs, p)),
            decreases b@.len() - i,
        {
            let ghost now = out.v();
            let ghost sofar = diff_entries(bs, i as int, qs, p);
            proof {
                lemma_pair_smaller(*before, i as int);
                assert(bs[i as int] == (b@[i as int].0.val(), b@[i as int].1.val()));
                lemma_plus_none(now);
                lemma_plus_none(sofar);
            }
            if let Some(t) = b[i].0.text() {
                let key = cow_str(&t);
                let ghost kp = p.push(StepView::Key(encode_utf8(key@)));
                let owned = key.to_owned();
                let ghost before_push = path@;
                path.push(Step::Key(owned));
                assert(steps_view(path@) =~= kp);
                // Gone from `after`: the field was cleared.
                match find(a, key) {
                    None => {
                        out.op(path, Op::Remove);
                        proof {
                            lemma_plus_assoc(o, sofar, Diff::op(kp, OpView::Remove));
                        }
                    },
                    Some(j) => {
                        assert(qs[j as int].1 == a@[j as int].1.val());
                        collect(&b[i].1, &a[j].1, path, out);
                        proof {
                            lemma_plus_assoc(o, sofar, diff(bs[i as int].1, qs[j as int].1, kp));
                        }
                    },
                }
                let ghost full = steps_view(path@);
                let ghost fp = path@;
                let _last = path.pop();
                assert(steps_view(path@) =~= full.drop_last());
                assert(kp.drop_last() =~= p);
            }
            assert(out.v() == o.plus(diff_entries(bs, i + 1, qs, p)));
            i = i + 1;
        }
    }
}

/// The edits for the items of the sequence `before`.
fn collect_items(
    before: &BorrowedValue<'_>,
    a: &Vec<BorrowedValue<'_>>,
    path: &mut Vec<Step>,
    out: &mut Collected,
)
    requires
        before is Sequence,
        before->Sequence_0@.len() == a@.len(),
    ensures
        steps_view(final(path)@) == steps_view(old(path)@),
        final(out).v() == old(out).v().plus(
            diff_items(
                vals(before->Sequence_0@),
                before->Sequence_0@.len() as int,
                vals(a@),
                steps_view(old(path)@),
            ),
        ),
    decreases before, 0int,
{
    let ghost p = steps_view(path@);
    let ghost o = out.v();
    if let BorrowedValue::Sequence(b) = before {
        let ghost bs = vals(b@);
        let ghost qs = vals(a@);
        let mut i: usize = 0;
        proof {
            lemma_plus_none(o);
        }
        while i < b.len()
            invariant
                *before == BorrowedValue::Sequence(*b),
                b@.len() == a@.len(),
                bs == vals(b@),
                qs == vals(a@),
                i <= b@.len(),
                steps_view(path@) == p,
                out.v() == o.plus(diff_items(bs, i as int, qs, p)),
            decreases b@.len() - i,
        {
            let ghost sofar = diff_items(bs, i as int, qs, p);
            proof {
                lemma_item_smaller(*before, i as int);
                assert(bs[i as int] == b@[i as int].val());
                assert(qs[i as int] == a@[i as int].val());
            }
            let ghost kp = p.push(StepView::Index(i as int));
            path.push(Step::Index(i));
            assert(steps_view(path@) =~= kp);
            collect(&b[i], &a[i], path, out);
            proof {
                lemma_plus_assoc(o, sofar, diff(bs[i as int], qs[i as int], kp));
            }
            let ghost full = steps_view(path@);
            let _last = path.pop();
            assert(steps_view(path@) =~= full.drop_last());
            assert(kp.drop_last() =~= p);
            i = i + 1;
        }
    }
}

/// The problems with keys of `a` that `b` does not have.
fn collect_new_keys(
    b: &Vec<(BorrowedValue<'_>, BorrowedValue<'_>)>,
    a: &Vec<(BorrowedValue<'_>, BorrowedValue<'_>)>,
    path: &mut Vec<Step>,
    out: &mut Collected,
)
    ensures
        steps_view(final(path)@) == steps_view(old(path)@),
        final(out).v() == old(out).v().plus(
            new_keys(pairs_of(b@), pairs_of(a@), a@.len() as int, steps_view(old(path)@)),
        ),
{
    let ghost p = steps_view(path@);
    let ghost o = out.v();
    let ghost bs = pairs_of(b@);
    let ghost qs = pairs_of(a@);
    let mut i: usize = 0;
    proof {
        lemma_plus_none(o);
    }
    while i < a.len()
        invariant
            bs == pairs_of(b@),
            qs == pairs_of(a@),
            i <= a@.len(),
            steps_view(path@) == p,
            out.v() == o.plus(new_keys(bs, qs, i as int, p)),
        decreases a@.len() - i,
    {
        let ghost sofar = new_keys(bs, qs, i as int, p);
        proof {
            assert(qs[i as int].0 == a@[i as int].0.val());
            lemma_plus_none(sofar);
        }
        if let Some(t) = a[i].0.text() {
            let key = cow_str(&t);
            if find(b, key).is_none() {
                let ghost kp = p.push(StepView::Key(encode_utf8(key@)));
                path.push(Step::Key(key.to_owned()));
                assert(steps_view(path@) =~= kp);
                out.problem(path, ": adding a key");
                proof {
                    lemma_plus_assoc(o, sofar, Diff::problem(kp, lit(": adding a key")));
                }
                let ghost full = steps_view(path@);
                let _last = path.pop();
                assert(steps_view(path@) =~= full.drop_last());
                assert(kp.drop_last() =~= p);
            }
        }
        i = i + 1;
    }
}

/// The problems, separated by semicolons, after `head`.
fn join_problems(head: &str, v: &Vec<String>) -> (r: String)
    ensures
        encode_utf8(r@) == encode_utf8(head@) + joined(texts_view(v@)),
{
    let ghost all = texts_view(v@);
    let mut out = String::new();
    put(&mut out, head);
    let mut i: usize = 0;
    proof {
        assert(encode_utf8(Seq::<char>::empty()) =~= Seq::<u8>::empty());
        assert(all.take(0) =~= Seq::<Seq<u8>>::empty());
        assert(encode_utf8(out@) =~= encode_utf8(head@) + joined(all.take(0)));
    }
    while i < v.len()
        invariant
            i <= v@.len(),
            all == texts_view(v@),
            encode_utf8(out@) == encode_utf8(head@) + joined(all.take(i as int)),
        decreases v@.len() - i,
    {
        proof {
            assert(all.take(i + 1).drop_last() =~= all.take(i as int));
            assert(all.take(i + 1).last() == encode_utf8(v@[i as int]@));
            assert(all.take(i + 1).len() == 1 ==> all.take(i + 1)[0] == encode_utf8(v@[i as int]@));
        }
        if i > 0 {
            put(&mut out, "; ");
        }
        put(&mut out, v[i].as_str());
        assert(encode_utf8(out@) =~= encode_utf8(head@) + joined(all.take(i + 1)));
        i = i + 1;
    }
    assert(all.take(i as int) =~= all);
    out
}

/// The segments of a path.
fn segments_of(path: &Vec<Step>) -> (r: Vec<Segment<'_>>)
    ensures
        path_view(r@) == steps_path(steps_view(path@)),
{
    let mut out: Vec<Segment<'_>> = Vec::new();
    let mut i: usize = 0;
    while i < path.len()
        invariant
            i <= path@.len(),
            out@.len() == i,
            forall|j: int| 0 <= j < i ==> (#[trigger] out@[j])@ == steps_path(steps_view(path@))[j],
        decreases path@.len() - i,
    {
        out.push(path[i].as_segment());
        i = i + 1;
    }
    assert(path_view(out@) =~= steps_path(steps_view(path@)));
    out
}

impl Document {
    /// Overwrite source with edited values where the changes produced a diff
    ///
    /// `before` is the document prior to any edits, `after` is with the changes already made, this
    /// way they can be diffed when writing output.
    ///
    /// Needed, because e.g. a field that was not in the document may default to null, but it needs
    /// to be differentiated against fields that were there but had their values removed in the
    /// changes. Comparing `before` and `after` gives back the changes made between them and only
    /// apply the edits to the source at the edited spots.
    ///
    /// Only scalar values are rewritten, and a field cleared to null removes
    /// its key. Anything that is refused leaves the buffer as it is,
    /// so a half-applied document is not possible.
    ///
    /// # Errors
    ///
    /// Refuses when the difference adds a key, changes a sequence's length or the order of its
    /// items, changes a value's shape, or gives a value to a field that had none.
    pub fn apply_with(&mut self, before: &BorrowedValue<'_>, after: &BorrowedValue<'_>, opts: SetOpts) -> (r: Result<
        Applied,
        Error,
    >)
        ensures
            match (r, applied(old(self).text(), before.val(), after.val(), opts@)) {
                (Ok(done), Ok((text, want))) => final(self).text() == text && changes_view(done.changes@) == want,
                (Err(e), Err(want)) => e@ == want && final(self).text() == old(self).text(),
                _ => false,
            },
    {
        let ghost s = self.text();
        let mut got = Collected { ops: Vec::new(), problems: Vec::new() };
        let mut path: Vec<Step> = Vec::new();
        proof {
            assert(steps_view(path@) =~= Seq::empty());
            assert(got.v().ops =~= Seq::empty());
            assert(got.v().problems =~= Seq::empty());
            lemma_plus_none(diff(before.val(), after.val(), Seq::empty()));
        }
        collect(before, after, &mut path, &mut got);
        let ghost d = diff(before.val(), after.val(), Seq::empty());
        assert(got.v() == d);
        // Refuse and interrupt before writing anything, so half-applied document is impossible
        if got.problems.len() > 0 {
            let msg = join_problems("apply cannot make structural changes: ", &got.problems);
            return Err(refused(msg.as_str()));
        }
        // The edits go to a copy, which becomes the document when all are done.
        let mut work = Document::new(self.as_str());
        let mut changes: Vec<Change> = Vec::new();
        let mut i: usize = 0;
        assert(changes_view(changes@) =~= Seq::empty());
        while i < got.ops.len()
            invariant
                s == self.text(),
                *self == *old(self),
                i <= got.ops@.len(),
                ops_view(got.ops@) == d.ops,
                d.problems.len() == 0,
                applied(s, before.val(), after.val(), opts@) == carried_out(s, d.ops, d.ops.len() as int, opts@),
                carried_out(s, d.ops, i as int, opts@) == Ok::<_, ErrorView>((work.text(), changes_view(changes@))),
            decreases got.ops@.len() - i,
        {
            let p = segments_of(&got.ops[i].0);
            let dotted = show(&got.ops[i].0);
            let ghost before_changes = changes_view(changes@);
            assert(d.ops[i as int] == (steps_view(got.ops@[i as int].0@), got.ops@[i as int].1.v()));
            match &got.ops[i].1 {
                Op::Assign(text) => match work.set_with(p.as_slice(), text.as_str(), opts.clone()) {
                    Ok(outcome) => {
                        let change = Change::Assigned { path: dotted, outcome };
                        changes.push(change);
                        assert(changes_view(changes@) =~= before_changes.push(change@));
                    },
                    Err(e) => {
                        proof {
                            lemma_refused(s, d.ops, i + 1, d.ops.len() as int, opts@);
                        }
                        return Err(e);
                    },
                },
                Op::Remove => match work.remove(p.as_slice()) {
                    Ok(_) => {
                        let change = Change::Removed { path: dotted };
                        changes.push(change);
                        assert(changes_view(changes@) =~= before_changes.push(change@));
                    },
                    Err(e) => {
                        proof {
                            lemma_refused(s, d.ops, i + 1, d.ops.len() as int, opts@);
                        }
                        return Err(e);
                    },
                },
            }
            i = i + 1;
        }
        *self = work;
        Ok(Applied { changes })
    }

    /// [`apply_with`](Document::apply_with) default options.
    pub fn apply(&mut self, before: &BorrowedValue<'_>, after: &BorrowedValue<'_>) -> (r: Result<Applied, Error>)
        ensures
            match (r, applied(old(self).text(), before.val(), after.val(), strict_opts())) {
                (Ok(done), Ok((text, want))) => final(self).text() == text && changes_view(done.changes@) == want,
                (Err(e), Err(want)) => e@ == want && final(self).text() == old(self).text(),
                _ => false,
            },
    {
        self.apply_with(before, after, SetOpts::default())
    }
}

/// Once an edit is refused, no later one is carried out.
proof fn lemma_refused(s: Seq<u8>, ops: Seq<(Seq<StepView>, OpView)>, i: int, k: int, opts: OptsView)
    requires
        0 < i <= k <= ops.len(),
        carried_out(s, ops, i, opts) is Err,
    ensures
        carried_out(s, ops, k, opts) == carried_out(s, ops, i, opts),
    decreases k - i,
{
    if i < k {
        lemma_refused(s, ops, i, k - 1, opts);
    }
}

} // verus!
