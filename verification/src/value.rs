//! The value tree a document parses to, standard tags, and merge keys.
use vstd::prelude::*;
use vstd::string::*;
use vstd::utf8::*;
use std::borrow::Cow;
use crate::patterns::{resolve_scalar, resolved};
use crate::text::{decimal, put_byte, put_decimal, same, DASH};

verus! {

/// A parsed YAML value. Text borrows from the source where it can.
///
/// A float is held as its decimal text, so no digit of the source is lost.
#[derive(Debug, PartialEq)]
pub enum BorrowedValue<'a> {
    Null,
    Bool(bool),
    Int(i64),
    Float(Cow<'a, str>),
    String(Cow<'a, str>),
    Sequence(Vec<BorrowedValue<'a>>),
    Mapping(Vec<(BorrowedValue<'a>, BorrowedValue<'a>)>),
    Tagged(Cow<'a, str>, Box<BorrowedValue<'a>>),
}

/// The contents of a [`BorrowedValue`], with text as UTF-8 bytes.
pub enum Val {
    Null,
    Bool(bool),
    Int(int),
    Float(Seq<u8>),
    Str(Seq<u8>),
    List(Seq<Val>),
    Dict(Seq<(Val, Val)>),
    Tagged(Seq<u8>, Box<Val>),
}

/// The UTF-8 bytes of a literal.
pub open spec fn lit(s: &str) -> Seq<u8> {
    encode_utf8(s@)
}

impl<'a> BorrowedValue<'a> {
    pub open spec fn val(self) -> Val
        decreases self,
    {
        match self {
            BorrowedValue::Null => Val::Null,
            BorrowedValue::Bool(b) => Val::Bool(b),
            BorrowedValue::Int(n) => Val::Int(n as int),
            BorrowedValue::Float(c) => Val::Float(encode_utf8(c@)),
            BorrowedValue::String(c) => Val::Str(encode_utf8(c@)),
            BorrowedValue::Sequence(v) => Val::List(
                Seq::new(
                    v@.len(),
                    |i: int|
                        if 0 <= i < v@.len() {
                            v@[i].val()
                        } else {
                            Val::Null
                        },
                ),
            ),
            BorrowedValue::Mapping(v) => Val::Dict(
                Seq::new(
                    v@.len(),
                    |i: int|
                        if 0 <= i < v@.len() {
                            (v@[i].0.val(), v@[i].1.val())
                        } else {
                            (Val::Null, Val::Null)
                        },
                ),
            ),
            BorrowedValue::Tagged(t, b) => Val::Tagged(encode_utf8(t@), Box::new(b.val())),
        }
    }
}

impl<'a> View for BorrowedValue<'a> {
    type V = Val;

    open spec fn view(&self) -> Val {
        self.val()
    }
}

impl<'a> Clone for BorrowedValue<'a> {
    fn clone(&self) -> (r: Self)
        ensures
            r.val() == self.val(),
    {
        self.dup()
    }
}

/// The contents of a list of values.
pub open spec fn vals(v: Seq<BorrowedValue<'_>>) -> Seq<Val> {
    Seq::new(v.len(), |i: int| v[i].val())
}

/// The contents of a list of pairs.
pub open spec fn pairs_of(v: Seq<(BorrowedValue<'_>, BorrowedValue<'_>)>) -> Seq<(Val, Val)> {
    Seq::new(v.len(), |i: int| (v[i].0.val(), v[i].1.val()))
}

pub proof fn lemma_list_val(v: Vec<BorrowedValue<'_>>)
    ensures
        BorrowedValue::Sequence(v).val() == Val::List(vals(v@)),
{
    assert(BorrowedValue::Sequence(v).val()->List_0 =~= vals(v@));
}

pub proof fn lemma_dict_val(v: Vec<(BorrowedValue<'_>, BorrowedValue<'_>)>)
    ensures
        BorrowedValue::Mapping(v).val() == Val::Dict(pairs_of(v@)),
{
    assert(BorrowedValue::Mapping(v).val()->Dict_0 =~= pairs_of(v@));
}

pub proof fn lemma_item_smaller(v: BorrowedValue<'_>, i: int)
    requires
        v is Sequence,
        0 <= i < v->Sequence_0@.len(),
    ensures
        decreases_to!(v => v->Sequence_0@[i]),
{
    assert(decreases_to!(v => v->Sequence_0));
    assert(decreases_to!(v->Sequence_0 => v->Sequence_0@));
    assert(decreases_to!(v->Sequence_0@ => v->Sequence_0@[i]));
}

pub proof fn lemma_pair_smaller(v: BorrowedValue<'_>, i: int)
    requires
        v is Mapping,
        0 <= i < v->Mapping_0@.len(),
    ensures
        decreases_to!(v => v->Mapping_0@[i]),
        decreases_to!(v => v->Mapping_0@[i].0),
        decreases_to!(v => v->Mapping_0@[i].1),
{
    assert(decreases_to!(v => v->Mapping_0));
    assert(decreases_to!(v->Mapping_0 => v->Mapping_0@));
    assert(decreases_to!(v->Mapping_0@ => v->Mapping_0@[i]));
    assert(decreases_to!(v->Mapping_0@[i] => v->Mapping_0@[i].0));
    assert(decreases_to!(v->Mapping_0@[i] => v->Mapping_0@[i].1));
}

/// The text inside a `Cow`.
pub(crate) fn cow_str<'b>(c: &'b Cow<'_, str>) -> (r: &'b str)
    ensures
        r@ == c@,
{
    match c {
        Cow::Borrowed(s) => s,
        Cow::Owned(s) => s.as_str(),
    }
}

/// A copy of `c` that borrows wherever `c` does.
pub(crate) fn cow_dup<'a>(c: &Cow<'a, str>) -> (r: Cow<'a, str>)
    ensures
        r@ == c@,
{
    match c {
        Cow::Borrowed(s) => Cow::Borrowed(s),
        Cow::Owned(s) => Cow::Owned(s.clone()),
    }
}

impl<'a> BorrowedValue<'a> {
    /// A value with the same contents.
    pub(crate) fn dup(&self) -> (r: BorrowedValue<'a>)
        ensures
            r.val() == self.val(),
        decreases self,
    {
        match self {
            BorrowedValue::Null => BorrowedValue::Null,
            BorrowedValue::Bool(b) => BorrowedValue::Bool(*b),
            BorrowedValue::Int(n) => BorrowedValue::Int(*n),
            BorrowedValue::Float(c) => BorrowedValue::Float(cow_dup(c)),
            BorrowedValue::String(c) => BorrowedValue::String(cow_dup(c)),
            BorrowedValue::Sequence(items) => {
                let mut out: Vec<BorrowedValue<'a>> = Vec::new();
                let mut i: usize = 0;
                assert(vals(out@) =~= vals(items@).take(0));
                while i < items.len()
                    invariant
                        i <= items@.len(),
                        vals(out@) == vals(items@).take(i as int),
                        *self == BorrowedValue::Sequence(*items),
                    decreases items@.len() - i,
                {
                    proof {
                        lemma_item_smaller(*self, i as int);
                    }
                    let ghost before = out@;
                    out.push(items[i].dup());
                    assert(vals(out@) =~= vals(before).push(items@[i as int].val()));
                    assert(vals(items@).take(i + 1) =~= vals(items@).take(i as int).push(vals(items@)[i as int]));
                    i = i + 1;
                }
                proof {
                    lemma_list_val(out);
                    lemma_list_val(*items);
                    assert(vals(out@) =~= vals(items@));
                }
                BorrowedValue::Sequence(out)
            },
            BorrowedValue::Mapping(items) => {
                let mut out: Vec<(BorrowedValue<'a>, BorrowedValue<'a>)> = Vec::new();
                let mut i: usize = 0;
                assert(pairs_of(out@) =~= pairs_of(items@).take(0));
                while i < items.len()
                    invariant
                        i <= items@.len(),
                        pairs_of(out@) == pairs_of(items@).take(i as int),
                        *self == BorrowedValue::Mapping(*items),
                    decreases items@.len() - i,
                {
                    proof {
                        lemma_pair_smaller(*self, i as int);
                    }
                    let ghost before = out@;
                    out.push((items[i].0.dup(), items[i].1.dup()));
                    assert(pairs_of(out@) =~= pairs_of(before).push(pairs_of(items@)[i as int]));
                    assert(pairs_of(items@).take(i + 1) =~= pairs_of(items@).take(i as int).push(
                        pairs_of(items@)[i as int],
                    ));
                    i = i + 1;
                }
                proof {
                    lemma_dict_val(out);
                    lemma_dict_val(*items);
                    assert(pairs_of(out@) =~= pairs_of(items@));
                }
                BorrowedValue::Mapping(out)
            },
            BorrowedValue::Tagged(t, b) => BorrowedValue::Tagged(cow_dup(t), Box::new(b.dup())),
        }
    }

    /// A value with the same contents that borrows nothing.
    pub fn to_static(&self) -> (r: BorrowedValue<'static>)
        ensures
            r.val() == self.val(),
        decreases self,
    {
        match self {
            BorrowedValue::Null => BorrowedValue::Null,
            BorrowedValue::Bool(b) => BorrowedValue::Bool(*b),
            BorrowedValue::Int(n) => BorrowedValue::Int(*n),
            BorrowedValue::Float(c) => BorrowedValue::Float(Cow::Owned(cow_str(c).to_owned())),
            BorrowedValue::String(c) => BorrowedValue::String(Cow::Owned(cow_str(c).to_owned())),
            BorrowedValue::Sequence(items) => {
                let mut out: Vec<BorrowedValue<'static>> = Vec::new();
                let mut i: usize = 0;
                assert(vals(out@) =~= vals(items@).take(0));
                while i < items.len()
                    invariant
                        i <= items@.len(),
                        vals(out@) == vals(items@).take(i as int),
                        *self == BorrowedValue::Sequence(*items),
                    decreases items@.len() - i,
                {
                    proof {
                        lemma_item_smaller(*self, i as int);
                    }
                    let ghost before = out@;
                    out.push(items[i].to_static());
                    assert(vals(out@) =~= vals(before).push(items@[i as int].val()));
                    assert(vals(items@).take(i + 1) =~= vals(items@).take(i as int).push(vals(items@)[i as int]));
                    i = i + 1;
                }
                proof {
                    lemma_list_val(out);
                    lemma_list_val(*items);
                    assert(vals(out@) =~= vals(items@));
                }
                BorrowedValue::Sequence(out)
            },
            BorrowedValue::Mapping(items) => {
                let mut out: Vec<(BorrowedValue<'static>, BorrowedValue<'static>)> = Vec::new();
                let mut i: usize = 0;
                assert(pairs_of(out@) =~= pairs_of(items@).take(0));
                while i < items.len()
                    invariant
                        i <= items@.len(),
                        pairs_of(out@) == pairs_of(items@).take(i as int),
                        *self == BorrowedValue::Mapping(*items),
                    decreases items@.len() - i,
                {
                    proof {
                        lemma_pair_smaller(*self, i as int);
                    }
                    let ghost before = out@;
                    out.push((items[i].0.to_static(), items[i].1.to_static()));
                    assert(pairs_of(out@) =~= pairs_of(before).push(pairs_of(items@)[i as int]));
                    assert(pairs_of(items@).take(i + 1) =~= pairs_of(items@).take(i as int).push(
                        pairs_of(items@)[i as int],
                    ));
                    i = i + 1;
                }
                proof {
                    lemma_dict_val(out);
                    lemma_dict_val(*items);
                    assert(pairs_of(out@) =~= pairs_of(items@));
                }
                BorrowedValue::Mapping(out)
            },
            BorrowedValue::Tagged(t, b) => BorrowedValue::Tagged(
                Cow::Owned(cow_str(t).to_owned()),
                Box::new(b.to_static()),
            ),
        }
    }

    /// Whether two values have the same contents.
    pub(crate) fn same(&self, other: &BorrowedValue<'_>) -> (r: bool)
        ensures
            r == (self.val() == other.val()),
        decreases self,
    {
        match (self, other) {
            (BorrowedValue::Null, BorrowedValue::Null) => true,
            (BorrowedValue::Bool(a), BorrowedValue::Bool(b)) => *a == *b,
            (BorrowedValue::Int(a), BorrowedValue::Int(b)) => *a == *b,
            (BorrowedValue::Float(a), BorrowedValue::Float(b)) => same(cow_str(a), cow_str(b)),
            (BorrowedValue::String(a), BorrowedValue::String(b)) => same(cow_str(a), cow_str(b)),
            (BorrowedValue::Sequence(a), BorrowedValue::Sequence(b)) => {
                proof {
                    lemma_list_val(*a);
                    lemma_list_val(*b);
                }
                if a.len() != b.len() {
                    assert(vals(a@).len() != vals(b@).len());
                    return false;
                }
                let mut i: usize = 0;
                while i < a.len()
                    invariant
                        i <= a@.len(),
                        a@.len() == b@.len(),
                        *self == BorrowedValue::Sequence(*a),
                        self.val() == Val::List(vals(a@)),
                        other.val() == Val::List(vals(b@)),
                        forall|j: int| 0 <= j < i ==> vals(a@)[j] == #[trigger] vals(b@)[j],
                    decreases a@.len() - i,
                {
                    proof {
                        lemma_item_smaller(*self, i as int);
                    }
                    if !a[i].same(&b[i]) {
                        assert(vals(a@)[i as int] != vals(b@)[i as int]);
                        return false;
                    }
                    i = i + 1;
                }
                assert(vals(a@) =~= vals(b@));
                true
            },
            (BorrowedValue::Mapping(a), BorrowedValue::Mapping(b)) => {
                proof {
                    lemma_dict_val(*a);
                    lemma_dict_val(*b);
                }
                if a.len() != b.len() {
                    assert(pairs_of(a@).len() != pairs_of(b@).len());
                    return false;
                }
                let mut i: usize = 0;
                while i < a.len()
                    invariant
                        i <= a@.len(),
                        a@.len() == b@.len(),
                        *self == BorrowedValue::Mapping(*a),
                        self.val() == Val::Dict(pairs_of(a@)),
                        other.val() == Val::Dict(pairs_of(b@)),
                        forall|j: int| 0 <= j < i ==> pairs_of(a@)[j] == #[trigger] pairs_of(b@)[j],
                    decreases a@.len() - i,
                {
                    proof {
                        lemma_pair_smaller(*self, i as int);
                    }
                    if !a[i].0.same(&b[i].0) || !a[i].1.same(&b[i].1) {
                        assert(pairs_of(a@)[i as int] != pairs_of(b@)[i as int]);
                        return false;
                    }
                    i = i + 1;
                }
                assert(pairs_of(a@) =~= pairs_of(b@));
                true
            },
            (BorrowedValue::Tagged(t, a), BorrowedValue::Tagged(u, b)) => {
                let x = same(cow_str(t), cow_str(u));
                let y = a.same(b);
                x && y
            },
            _ => false,
        }
    }
}

/// The decimal text of an integer.
pub open spec fn int_text(n: int) -> Seq<u8> {
    if n < 0 {
        seq![DASH] + decimal((-n) as nat)
    } else {
        decimal(n as nat)
    }
}

/// Appends the decimal text of `n`.
pub(crate) fn put_int(out: &mut String, n: i64)
    ensures
        encode_utf8(final(out)@) == encode_utf8(old(out)@) + int_text(n as int),
{
    if n < 0 {
        put_byte(out, DASH);
        let m: u64 = if n == i64::MIN {
            0x8000_0000_0000_0000
        } else {
            (-n) as u64
        };
        put_decimal(out, m);
        assert(encode_utf8(out@) =~= encode_utf8(old(out)@) + int_text(n as int));
    } else {
        put_decimal(out, n as u64);
    }
}

/// The text form of a scalar other than null. Collections have none.
pub open spec fn scalar_text(v: Val) -> Option<Seq<u8>> {
    match v {
        Val::Str(s) => Some(s),
        Val::Bool(b) => Some(
            if b {
                lit("true")
            } else {
                lit("false")
            },
        ),
        Val::Int(n) => Some(int_text(n)),
        Val::Float(t) => Some(t),
        _ => None,
    }
}

impl<'a> BorrowedValue<'a> {
    /// The text form of a scalar other than null.
    pub(crate) fn text(&self) -> (r: Option<Cow<'a, str>>)
        ensures
            match r {
                Some(c) => scalar_text(self.val()) == Some(encode_utf8(c@)),
                None => scalar_text(self.val()) is None,
            },
    {
        match self {
            BorrowedValue::String(c) => Some(cow_dup(c)),
            BorrowedValue::Float(c) => Some(cow_dup(c)),
            BorrowedValue::Bool(b) => Some(
                Cow::Borrowed(
                    if *b {
                        "true"
                    } else {
                        "false"
                    },
                ),
            ),
            BorrowedValue::Int(n) => {
                let mut out = String::new();
                put_int(&mut out, *n);
                assert(encode_utf8(out@) =~= int_text(*n as int)) by {
                    assert(encode_utf8(Seq::<char>::empty()) =~= Seq::<u8>::empty());
                }
                Some(Cow::Owned(out))
            },
            _ => None,
        }
    }
}

/// What a tag makes of the value it stands before.
///
/// A standard tag converts the value where it can and is dropped; any other tag
/// stays on the value.
pub open spec fn with_tag(tag: Seq<u8>, v: Val) -> Val {
    if tag == lit("!!str") {
        match v {
            Val::Null => Val::Str(lit("")),
            _ => match scalar_text(v) {
                Some(t) => Val::Str(t),
                None => v,
            },
        }
    } else if tag == lit("!!int") {
        match v {
            Val::Str(t) if resolved(t) is Int => resolved(t),
            _ => v,
        }
    } else if tag == lit("!!float") {
        match v {
            Val::Int(n) => Val::Float(int_text(n)),
            Val::Str(t) => match resolved(t) {
                Val::Int(n) => Val::Float(int_text(n)),
                Val::Float(u) => Val::Float(u),
                _ => v,
            },
            _ => v,
        }
    } else if tag == lit("!!bool") {
        match v {
            Val::Str(t) if resolved(t) is Bool => resolved(t),
            _ => v,
        }
    } else if tag == lit("!!null") {
        Val::Null
    } else if tag == lit("!!seq") || tag == lit("!!map") {
        v
    } else {
        Val::Tagged(tag, Box::new(v))
    }
}

/// The float that an integer is promoted to.
fn float_of<'a>(n: i64) -> (r: BorrowedValue<'a>)
    ensures
        r.val() == Val::Float(int_text(n as int)),
{
    let mut out = String::new();
    put_int(&mut out, n);
    assert(encode_utf8(out@) =~= int_text(n as int)) by {
        assert(encode_utf8(Seq::<char>::empty()) =~= Seq::<u8>::empty());
    }
    BorrowedValue::Float(Cow::Owned(out))
}

/// What the tag `tag` makes of `v`.
pub(crate) fn apply_tag<'a>(tag: Cow<'a, str>, v: BorrowedValue<'a>) -> (r: BorrowedValue<'a>)
    ensures
        r.val() == with_tag(encode_utf8(tag@), v.val()),
{
    let t = cow_str(&tag);
    if same(t, "!!str") {
        if let BorrowedValue::Null = v {
            return BorrowedValue::String(Cow::Borrowed(""));
        }
        match v.text() {
            Some(c) => BorrowedValue::String(c),
            None => v,
        }
    } else if same(t, "!!int") {
        if let BorrowedValue::String(c) = &v {
            if let BorrowedValue::Int(n) = resolve_scalar(cow_dup(c)) {
                return BorrowedValue::Int(n);
            }
        }
        v
    } else if same(t, "!!float") {
        match &v {
            BorrowedValue::Int(n) => {
                return float_of(*n);
            },
            BorrowedValue::String(c) => match resolve_scalar(cow_dup(c)) {
                BorrowedValue::Int(n) => {
                    return float_of(n);
                },
                BorrowedValue::Float(f) => {
                    return BorrowedValue::Float(f);
                },
                _ => {},
            },
            _ => {},
        }
        v
    } else if same(t, "!!bool") {
        if let BorrowedValue::String(c) = &v {
            if let BorrowedValue::Bool(b) = resolve_scalar(cow_dup(c)) {
                return BorrowedValue::Bool(b);
            }
        }
        v
    } else if same(t, "!!null") {
        BorrowedValue::Null
    } else if same(t, "!!seq") || same(t, "!!map") {
        v
    } else {
        BorrowedValue::Tagged(tag, Box::new(v))
    }
}

/// The key that marks a merge.
pub open spec fn is_merge_key(k: Val) -> bool {
    k == Val::Str(lit("<<"))
}

/// Whether `ps` has an entry for `k`.
pub open spec fn has_key(ps: Seq<(Val, Val)>, k: Val) -> bool {
    exists|i: int| 0 <= i < ps.len() && (#[trigger] ps[i]).0 == k
}

/// `acc`, and of `ps` the entries whose key it does not have yet.
pub open spec fn absorbed(acc: Seq<(Val, Val)>, ps: Seq<(Val, Val)>) -> Seq<(Val, Val)>
    decreases ps.len(),
{
    if ps.len() == 0 {
        acc
    } else {
        let before = absorbed(acc, ps.drop_last());
        if has_key(before, ps.last().0) {
            before
        } else {
            before.push(ps.last())
        }
    }
}

/// `acc`, and what the mappings in `vs` add to it, in order.
pub open spec fn absorbed_list(acc: Seq<(Val, Val)>, vs: Seq<Val>) -> Seq<(Val, Val)>
    decreases vs.len(),
{
    if vs.len() == 0 {
        acc
    } else {
        let before = absorbed_list(acc, vs.drop_last());
        match vs.last() {
            Val::Dict(ps) => absorbed(before, ps),
            _ => before,
        }
    }
}

/// `acc`, and what the value of a merge key adds to it: one mapping, or a list
/// of them of which the earlier win. Anything else adds nothing.
pub open spec fn absorbed_value(acc: Seq<(Val, Val)>, v: Val) -> Seq<(Val, Val)> {
    match v {
        Val::Dict(ps) => absorbed(acc, ps),
        Val::List(vs) => absorbed_list(acc, vs),
        _ => acc,
    }
}

/// The entries of `ps` that are not merges.
pub open spec fn own_entries(ps: Seq<(Val, Val)>) -> Seq<(Val, Val)>
    decreases ps.len(),
{
    if ps.len() == 0 {
        ps
    } else if is_merge_key(ps.last().0) {
        own_entries(ps.drop_last())
    } else {
        own_entries(ps.drop_last()).push(ps.last())
    }
}

/// `acc`, and what the merges among `ps` add to it.
pub open spec fn absorbed_merges(acc: Seq<(Val, Val)>, ps: Seq<(Val, Val)>) -> Seq<(Val, Val)>
    decreases ps.len(),
{
    if ps.len() == 0 {
        acc
    } else {
        let before = absorbed_merges(acc, ps.drop_last());
        if is_merge_key(ps.last().0) {
            absorbed_value(before, ps.last().1)
        } else {
            before
        }
    }
}

/// `v` with every merge key replaced by what it brings in, innermost first.
///
/// A mapping's own entries come first and win over merged ones.
pub open spec fn merged(v: Val) -> Val
    decreases v,
{
    match v {
        Val::List(vs) => Val::List(
            Seq::new(
                vs.len(),
                |i: int|
                    if 0 <= i < vs.len() {
                        merged(vs[i])
                    } else {
                        Val::Null
                    },
            ),
        ),
        Val::Dict(ps) => Val::Dict(absorbed_merges(own_entries(merged_pairs(ps)), merged_pairs(ps))),
        Val::Tagged(t, b) => Val::Tagged(t, Box::new(merged(*b))),
        _ => v,
    }
}

/// The entries `ps` with the merges inside each resolved.
pub open spec fn merged_pairs(ps: Seq<(Val, Val)>) -> Seq<(Val, Val)>
    decreases ps,
{
    Seq::new(
        ps.len(),
        |i: int|
            if 0 <= i < ps.len() {
                (merged(ps[i].0), merged(ps[i].1))
            } else {
                (Val::Null, Val::Null)
            },
    )
}

/// Whether `ps` has an entry for `k`.
fn finds_key(ps: &Vec<(BorrowedValue<'_>, BorrowedValue<'_>)>, k: &BorrowedValue<'_>) -> (r: bool)
    ensures
        r == has_key(pairs_of(ps@), k.val()),
{
    let mut i: usize = 0;
    while i < ps.len()
        invariant
            i <= ps@.len(),
            forall|j: int| 0 <= j < i ==> (#[trigger] pairs_of(ps@)[j]).0 != k.val(),
        decreases ps@.len() - i,
    {
        if ps[i].0.same(k) {
            assert(pairs_of(ps@)[i as int].0 == k.val());
            return true;
        }
        i = i + 1;
    }
    false
}

fn absorb<'a>(
    acc: &mut Vec<(BorrowedValue<'a>, BorrowedValue<'a>)>,
    ps: &Vec<(BorrowedValue<'a>, BorrowedValue<'a>)>,
)
    ensures
        pairs_of(final(acc)@) == absorbed(pairs_of(old(acc)@), pairs_of(ps@)),
{
    let mut i: usize = 0;
    let ghost all = pairs_of(ps@);
    assert(all.take(0) =~= Seq::<(Val, Val)>::empty());
    while i < ps.len()
        invariant
            i <= ps@.len(),
            all == pairs_of(ps@),
            pairs_of(acc@) == absorbed(pairs_of(old(acc)@), all.take(i as int)),
        decreases ps@.len() - i,
    {
        assert(all.take(i + 1).drop_last() =~= all.take(i as int));
        assert(all.take(i + 1).last() == all[i as int]);
        if !finds_key(acc, &ps[i].0) {
            let ghost before = acc@;
            acc.push((ps[i].0.dup(), ps[i].1.dup()));
            assert(pairs_of(acc@) =~= pairs_of(before).push(all[i as int]));
        }
        i = i + 1;
    }
    assert(all.take(i as int) =~= all);
}

fn absorb_value<'a>(acc: &mut Vec<(BorrowedValue<'a>, BorrowedValue<'a>)>, v: &BorrowedValue<'a>)
    ensures
        pairs_of(final(acc)@) == absorbed_value(pairs_of(old(acc)@), v.val()),
{
    match v {
        BorrowedValue::Mapping(ps) => {
            proof {
                lemma_dict_val(*ps);
            }
            absorb(acc, ps);
        },
        BorrowedValue::Sequence(vs) => {
            let ghost all = vals(vs@);
            proof {
                lemma_list_val(*vs);
                assert(all.take(0) =~= Seq::<Val>::empty());
            }
            let mut i: usize = 0;
            while i < vs.len()
                invariant
                    i <= vs@.len(),
                    all == vals(vs@),
                    pairs_of(acc@) == absorbed_list(pairs_of(old(acc)@), all.take(i as int)),
                decreases vs@.len() - i,
            {
                proof {
                    assert(all.take(i + 1).drop_last() =~= all.take(i as int));
                    assert(all.take(i + 1).last() == all[i as int]);
                }
                if let BorrowedValue::Mapping(ps) = &vs[i] {
                    proof {
                        lemma_dict_val(*ps);
                    }
                    absorb(acc, ps);
                }
                i = i + 1;
            }
            assert(all.take(i as int) =~= all);
        },
        _ => {},
    }
}

/// Whether `k` marks a merge.
fn marks_merge(k: &BorrowedValue<'_>) -> (r: bool)
    ensures
        r == is_merge_key(k.val()),
{
    match k {
        BorrowedValue::String(c) => same(cow_str(c), "<<"),
        _ => false,
    }
}

/// The own entries of `ps`, then what its merges add.
fn merge_entries<'a>(ps: &Vec<(BorrowedValue<'a>, BorrowedValue<'a>)>) -> (r: Vec<
    (BorrowedValue<'a>, BorrowedValue<'a>),
>)
    ensures
        pairs_of(r@) == absorbed_merges(own_entries(pairs_of(ps@)), pairs_of(ps@)),
{
    let ghost all = pairs_of(ps@);
    let mut out: Vec<(BorrowedValue<'a>, BorrowedValue<'a>)> = Vec::new();
    let mut i: usize = 0;
    proof {
        assert(all.take(0) =~= Seq::<(Val, Val)>::empty());
        assert(pairs_of(out@) =~= Seq::<(Val, Val)>::empty());
    }
    while i < ps.len()
        invariant
            i <= ps@.len(),
            all == pairs_of(ps@),
            pairs_of(out@) == own_entries(all.take(i as int)),
        decreases ps@.len() - i,
    {
        proof {
            assert(all.take(i + 1).drop_last() =~= all.take(i as int));
            assert(all.take(i + 1).last() == all[i as int]);
        }
        if !marks_merge(&ps[i].0) {
            let ghost before = out@;
            out.push((ps[i].0.dup(), ps[i].1.dup()));
            assert(pairs_of(out@) =~= pairs_of(before).push(all[i as int]));
        }
        i = i + 1;
    }
    let ghost own = pairs_of(out@);
    assert(all.take(i as int) =~= all);
    let mut j: usize = 0;
    while j < ps.len()
        invariant
            j <= ps@.len(),
            all == pairs_of(ps@),
            all.take(0).len() == 0,
            pairs_of(out@) == absorbed_merges(own, all.take(j as int)),
        decreases ps@.len() - j,
    {
        proof {
            assert(all.take(j + 1).drop_last() =~= all.take(j as int));
            assert(all.take(j + 1).last() == all[j as int]);
        }
        if marks_merge(&ps[j].0) {
            absorb_value(&mut out, &ps[j].1);
        }
        j = j + 1;
    }
    assert(all.take(j as int) =~= all);
    out
}

/// `v` with every merge key replaced by what it brings in, innermost first.
pub(crate) fn resolve_merge_keys<'a>(v: &BorrowedValue<'a>) -> (r: BorrowedValue<'a>)
    ensures
        r.val() == merged(v.val()),
    decreases v,
{
    match v {
        BorrowedValue::Sequence(items) => {
            let mut out: Vec<BorrowedValue<'a>> = Vec::new();
            let mut i: usize = 0;
            while i < items.len()
                invariant
                    i <= items@.len(),
                    out@.len() == i,
                    forall|j: int| 0 <= j < i ==> vals(out@)[j] == merged(#[trigger] vals(items@)[j]),
                    *v == BorrowedValue::Sequence(*items),
                decreases items@.len() - i,
            {
                proof {
                    lemma_item_smaller(*v, i as int);
                }
                let ghost before = out@;
                out.push(resolve_merge_keys(&items[i]));
                assert(vals(out@) =~= vals(before).push(merged(items@[i as int].val())));
                i = i + 1;
            }
            proof {
                lemma_list_val(out);
                lemma_list_val(*items);
                assert(vals(out@) =~= merged(v.val())->List_0);
            }
            BorrowedValue::Sequence(out)
        },
        BorrowedValue::Mapping(items) => {
            let mut out: Vec<(BorrowedValue<'a>, BorrowedValue<'a>)> = Vec::new();
            let mut i: usize = 0;
            while i < items.len()
                invariant
                    i <= items@.len(),
                    out@.len() == i,
                    forall|j: int|
                        0 <= j < i ==> pairs_of(out@)[j] == (
                            merged((#[trigger] pairs_of(items@)[j]).0),
                            merged(pairs_of(items@)[j].1),
                        ),
                    *v == BorrowedValue::Mapping(*items),
                decreases items@.len() - i,
            {
                proof {
                    lemma_pair_smaller(*v, i as int);
                }
                let ghost before = out@;
                out.push((resolve_merge_keys(&items[i].0), resolve_merge_keys(&items[i].1)));
                assert(pairs_of(out@) =~= pairs_of(before).push(
                    (merged(items@[i as int].0.val()), merged(items@[i as int].1.val())),
                ));
                i = i + 1;
            }
            let done = merge_entries(&out);
            proof {
                lemma_dict_val(done);
                lemma_dict_val(*items);
                let ps = pairs_of(items@);
                assert(pairs_of(out@) =~= merged_pairs(ps));
            }
            BorrowedValue::Mapping(done)
        },
        BorrowedValue::Tagged(t, b) => BorrowedValue::Tagged(cow_dup(t), Box::new(resolve_merge_keys(b))),
        _ => v.dup(),
    }
}

} // verus!
