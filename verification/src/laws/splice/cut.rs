//! Two sources that differ in one scalar, and how positions in them correspond.
use vstd::prelude::*;
use crate::parser::layout::{
    col_at, doc_bound, doc_marker, gap_at, indent_at, indicator_at, line_at, line_blank, line_comment, line_ends,
    marker_at, moves, next_line, past_break, past_filler, past_filler_in, past_flow_gap, past_flow_gap_in,
    past_marker,
};
use crate::value::Val;
use crate::text::{
    at, is_blank, is_break, lemma_run, run, Class, AMP, BANG, COLON, DASH, DOT, DQUOTE, GREATER, HASH, LBRACE,
    LBRACKET, PERCENT, QUESTION, SQUOTE,
};

verus! {

broadcast use moves;

/// The source `s`, and the source `t` that has the bytes from `a` to `c` where `s`
/// has those from `a` to `b`.
///
/// Of these only the scalar from `x` to `y` differs: it is all of them, or stands
/// in the flow collection that they are.
pub struct Cut {
    pub s: Seq<u8>,
    pub t: Seq<u8>,
    pub a: int,
    pub b: int,
    pub c: int,
    pub x: int,
    pub y: int,
    /// The number of the scalar's node.
    pub l: int,
    /// What the scalar of `t` is read as.
    pub n: Val,
}

/// Whether what stands at `p` begins a scalar or a block scalar: neither white
/// space nor a comment, nor the indicator of an entry or a document.
pub open spec fn word(s: Seq<u8>, p: int) -> bool {
    &&& 0 <= p < s.len()
    &&& !is_blank(s[p]) && !is_break(s[p]) && s[p] != HASH
    &&& !indicator_at(s, p, DASH) && !indicator_at(s, p, QUESTION) && !indicator_at(s, p, COLON)
    &&& !doc_bound(s, p)
}

/// Whether nothing but a comment follows on the line of `p`, at once only if what stands
/// before is `closed`.
pub open spec fn rest_is_filler(s: Seq<u8>, p: int, closed: bool) -> bool {
    let q = run(s, p, Class::Blank);
    line_ends(s, q) || ((closed || p < q) && at(s, q) == Some(HASH))
}

/// Whether a quote or a bracket stands at `p`.
pub open spec fn closes(s: Seq<u8>, p: int) -> bool {
    s[p] == DQUOTE || s[p] == SQUOTE || s[p] == LBRACKET || s[p] == LBRACE
}

/// Whether the scalar between `a` and `b` begins a word, in quotes perhaps right after a
/// tag, and ends its line.
pub open spec fn stands_alone(s: Seq<u8>, a: int, b: int) -> bool {
    &&& 0 <= a < b <= s.len()
    &&& a == 0 || is_blank(s[a - 1]) || is_break(s[a - 1]) || (s[a - 1] == GREATER && (s[a] == DQUOTE || s[a]
        == SQUOTE))
    &&& word(s, a)
    &&& !is_break(s[b - 1])
    &&& rest_is_filler(s, b, closes(s, a))
}

impl Cut {
    /// Where the position `p` of `s` lies in `t`.
    pub open spec fn to(self, p: int) -> int {
        if p <= self.x {
            p
        } else if p < self.y {
            self.y + (self.c - self.b)
        } else {
            p + (self.c - self.b)
        }
    }

    /// Whether `x` is outside what differs.
    pub open spec fn on(self, x: int) -> bool {
        0 <= x <= self.a || self.b <= x <= self.s.len()
    }

    /// Whether both sources are the same around what differs, which begins neither
    /// with white space nor with a comment.
    pub open spec fn base(self) -> bool {
        &&& 0 <= self.a <= self.x < self.y <= self.b <= self.s.len()
        &&& self.x < self.y + (self.c - self.b)
        &&& self.t.len() == self.s.len() + (self.c - self.b)
        &&& forall|i: int| 0 <= i < self.a ==> #[trigger] self.s[i] == self.t[i]
        &&& forall|i: int| self.b <= i < self.s.len() ==> #[trigger] self.s[i] == self.t[i + (self.c - self.b)]
        &&& !is_blank(self.s[self.a]) && !is_break(self.s[self.a]) && self.s[self.a] != HASH
        &&& !is_blank(self.t[self.a]) && !is_break(self.t[self.a]) && self.t[self.a] != HASH
        &&& self.t[self.a] != BANG && self.t[self.a] != AMP
        &&& self.parted()
    }

    /// Whether no name ends where what differs begins.
    pub open spec fn parted(self) -> bool {
        ||| self.a == 0
        ||| is_blank(self.s[self.a - 1])
        ||| is_break(self.s[self.a - 1])
        ||| Class::Name.holds(self.s[self.a]) && Class::Name.holds(self.t[self.a])
    }

    /// Whether what differs stands alone in both sources.
    pub open spec fn ok(self) -> bool {
        &&& self.base()
        &&& stands_alone(self.s, self.a, self.b)
        &&& stands_alone(self.t, self.a, self.c)
        &&& self.t[self.a] != PERCENT
    }

    /// The scalar alone.
    pub open spec fn inner(self) -> Cut {
        Cut { a: self.x, b: self.y, c: self.y + (self.c - self.b), ..self }
    }

    /// Whether the scalar that differs stands in a flow collection.
    pub open spec fn flow(self) -> bool {
        self.a < self.x
    }

    /// Whether a line has ended between the scalar and `x`.
    pub open spec fn later(self, x: int) -> bool {
        self.b <= x <= self.s.len() && exists|i: int| self.b <= i < x && is_break(#[trigger] self.s[i])
    }

    /// Whether `x` is on the line of the scalar before any comment, on a later
    /// line, or at the end.
    pub open spec fn after(self, x: int) -> bool {
        self.b <= x <= run(self.s, self.b, Class::Blank) || self.later(x) || x == self.s.len()
    }
}

proof fn lemma_at(k: Cut, p: int)
    requires
        k.base(),
        0 <= p < k.a || k.b <= p <= k.s.len(),
    ensures
        at(k.t, k.to(p)) == at(k.s, p),
{
}

/// White space ends at the scalar in both sources.
pub(crate) proof fn lemma_white(k: Cut, p: int, c: Class)
    requires
        k.base(),
        k.on(p),
        c == Class::Blank || c == Class::Spaces || c == Class::Gap || c == Class::Breaks,
    ensures
        run(k.t, k.to(p), c) == k.to(run(k.s, p, c)),
        p <= k.a ==> run(k.s, p, c) <= k.a,
        k.on(run(k.s, p, c)),
    decreases k.s.len() - p,
{
    if p < k.s.len() && p != k.a && c.holds(k.s[p]) {
        assert(k.s[p] == k.t[k.to(p)]);
        lemma_white(k, p + 1, c);
    } else if p < k.s.len() && p != k.a {
        assert(k.s[p] == k.t[k.to(p)]);
    }
}

/// A run that ends before the scalar, or begins after it, is the same in both.
pub(crate) proof fn lemma_scan(k: Cut, p: int, c: Class)
    requires
        k.base(),
        k.on(p),
        run(k.s, p, c) < k.a || k.b <= p,
    ensures
        run(k.t, k.to(p), c) == k.to(run(k.s, p, c)),
    decreases k.s.len() - p,
{
    lemma_run(k.s, p, c);
    if p < k.s.len() {
        assert(k.s[p] == k.t[k.to(p)]);
        if c.holds(k.s[p]) {
            lemma_scan(k, p + 1, c);
        }
    }
}

pub(crate) proof fn lemma_ends(k: Cut, p: int)
    requires
        k.base(),
        k.on(p),
    ensures
        line_ends(k.t, k.to(p)) == line_ends(k.s, p),
        gap_at(k.t, k.to(p)) == gap_at(k.s, p),
{
    if p < k.s.len() && p != k.a {
        assert(k.s[p] == k.t[k.to(p)]);
    }
}

pub(crate) proof fn lemma_indicator(k: Cut, p: int, c: u8)
    requires
        k.ok(),
        k.on(p),
        c == DASH || c == QUESTION || c == COLON,
    ensures
        indicator_at(k.t, k.to(p), c) == indicator_at(k.s, p, c),
{
    if p < k.s.len() && p != k.a {
        assert(k.s[p] == k.t[k.to(p)]);
        lemma_ends(k, p + 1);
    }
}

/// A line starts at the same places in both sources.
pub(crate) proof fn lemma_col(k: Cut, x: int)
    requires
        k.base(),
        0 <= x <= k.a || k.later(x),
    ensures
        col_at(k.t, k.to(x)) == col_at(k.s, x),
    decreases x,
{
    if 0 < x {
        if x <= k.a {
            assert(k.s[x - 1] == k.t[x - 1]);
            lemma_col(k, x - 1);
        } else {
            assert(x > k.b);
            assert(k.s[x - 1] == k.t[x - 1 + (k.c - k.b)]);
            if !is_break(k.s[x - 1]) {
                let i = choose|i: int| k.b <= i < x && is_break(#[trigger] k.s[i]);
                assert(k.later(x - 1));
                lemma_col(k, x - 1);
            }
        }
    }
}

/// Lines are counted alike after the scalar.
pub(crate) proof fn lemma_line(k: Cut, x: int)
    requires
        k.base(),
        k.b <= x <= k.s.len(),
    ensures
        line_at(k.t, k.to(x)) - line_at(k.s, x) == line_at(k.t, k.c) - line_at(k.s, k.b),
    decreases x,
{
    if x > k.b {
        assert(k.s[x - 1] == k.t[x - 1 + (k.c - k.b)]);
        lemma_line(k, x - 1);
    }
}

/// Lines are counted alike before the scalar.
pub(crate) proof fn lemma_line_before(k: Cut, x: int)
    requires
        k.base(),
        0 <= x <= k.a,
    ensures
        line_at(k.t, x) == line_at(k.s, x),
    decreases x,
{
    if x > 0 {
        assert(k.s[x - 1] == k.t[x - 1]);
        lemma_line_before(k, x - 1);
    }
}

pub(crate) proof fn lemma_marker(k: Cut, p: int, c: u8)
    requires
        k.ok(),
        0 <= p < k.a || k.b <= p <= k.s.len(),
        c == DASH || c == DOT,
    ensures
        marker_at(k.t, k.to(p), c) == marker_at(k.s, p, c),
{
    if p < k.a {
        assert(k.s[k.a - 1] == k.t[k.a - 1]);
        assert(k.s[p] == k.t[p]);
        if p + 2 < k.a {
            assert(k.s[p + 1] == k.t[p + 1]);
            assert(k.s[p + 2] == k.t[p + 2]);
            lemma_ends(k, p + 3);
        } else if p + 1 < k.a {
            assert(k.s[p + 1] == k.t[p + 1]);
        }
    } else {
        lemma_at(k, p);
        if p + 1 <= k.s.len() {
            lemma_at(k, p + 1);
        }
        if p + 2 <= k.s.len() {
            lemma_at(k, p + 2);
        }
        if p + 3 <= k.s.len() {
            lemma_ends(k, p + 3);
        }
    }
}

/// No document starts or ends on the rest of the scalar's line.
proof fn lemma_rest_no_marker(k: Cut, p: int)
    requires
        k.ok(),
        k.b <= p <= run(k.s, k.b, Class::Blank),
    ensures
        !marker_at(k.s, p, DASH) && !marker_at(k.s, p, DOT),
{
    lemma_run(k.s, k.b, Class::Blank);
    if p < run(k.s, k.b, Class::Blank) {
        assert(Class::Blank.holds(k.s[p]));
    }
}

pub(crate) proof fn lemma_doc_marker(k: Cut, p: int, c: u8)
    requires
        k.ok(),
        0 <= p <= k.a || k.after(p),
        c == DASH || c == DOT,
    ensures
        doc_marker(k.t, k.to(p), c) == doc_marker(k.s, p, c),
{
    if p == k.a {
    } else {
        lemma_run(k.s, k.b, Class::Blank);
        lemma_marker(k, p, c);
        if p < k.a || k.later(p) {
            lemma_col(k, p);
        } else if p < k.s.len() {
            lemma_rest_no_marker(k, p);
        }
    }
}

pub(crate) proof fn lemma_doc_bound(k: Cut, p: int)
    requires
        k.ok(),
        0 <= p <= k.a || k.after(p),
    ensures
        doc_bound(k.t, k.to(p)) == doc_bound(k.s, p),
{
    lemma_doc_marker(k, p, DASH);
    lemma_doc_marker(k, p, DOT);
}

pub(crate) proof fn lemma_break(k: Cut, p: int)
    requires
        k.base(),
        k.on(p),
    ensures
        past_break(k.t, k.to(p)) == k.to(past_break(k.s, p)),
        p <= k.a ==> past_break(k.s, p) <= k.a,
        k.b <= p && past_break(k.s, p) > p ==> k.later(past_break(k.s, p)),
{
    if p < k.s.len() && p != k.a {
        assert(k.s[p] == k.t[k.to(p)]);
        if p + 1 < k.s.len() && p + 1 != k.a {
            assert(k.s[p + 1] == k.t[k.to(p + 1)]);
        }
        if k.b <= p && past_break(k.s, p) > p {
            assert(is_break(k.s[p]));
        }
    }
}

pub(crate) proof fn lemma_filler_line(k: Cut, p: int)
    requires
        k.base(),
        k.on(p),
    ensures
        line_blank(k.t, k.to(p)) == line_blank(k.s, p),
        line_comment(k.t, k.to(p)) == line_comment(k.s, p),
{
    lemma_white(k, p, Class::Blank);
    let q = run(k.s, p, Class::Blank);
    lemma_ends(k, q);
    if q < k.s.len() && q != k.a {
        assert(k.s[q] == k.t[k.to(q)]);
    }
}

/// The next line is the same, if it begins before the scalar or after it.
pub(crate) proof fn lemma_next_line(k: Cut, p: int)
    requires
        k.base(),
        k.on(p),
        next_line(k.s, p) <= k.a || k.b <= p,
    ensures
        next_line(k.t, k.to(p)) == k.to(next_line(k.s, p)),
        k.b <= p ==> k.later(next_line(k.s, p)) || next_line(k.s, p) == k.s.len(),
{
    let q = run(k.s, p, Class::Line);
    lemma_run(k.s, p, Class::Line);
    if p <= k.a && p < k.b {
        assert(q < k.a) by {
            if q >= k.a {
                assert(q == k.a);
                assert(is_break(k.s[q]));
            }
        }
    }
    lemma_scan(k, p, Class::Line);
    lemma_break(k, q);
}

/// A blank line ends before the scalar.
proof fn lemma_blank_ends(k: Cut, p: int)
    requires
        k.base(),
        0 <= p <= k.a,
        line_blank(k.s, p),
    ensures
        next_line(k.s, p) <= k.a,
{
    lemma_white(k, p, Class::Blank);
    let q = run(k.s, p, Class::Blank);
    lemma_run(k.s, p, Class::Blank);
    lemma_run(k.s, p, Class::Line);
    let l = run(k.s, p, Class::Line);
    if l > q {
        assert(Class::Line.holds(k.s[q]));
    }
    lemma_break(k, l);
}

pub(crate) proof fn lemma_filler(k: Cut, p: int)
    requires
        k.base(),
        k.on(p),
        past_filler(k.s, p) <= k.a || k.b <= p,
    ensures
        past_filler(k.t, k.to(p)) == k.to(past_filler(k.s, p)),
    decreases k.s.len() - p,
{
    lemma_filler_line(k, p);
    if p < k.s.len() && (line_blank(k.s, p) || line_comment(k.s, p)) {
        past_filler_in(k.s, next_line(k.s, p));
        lemma_next_line(k, p);
        lemma_filler(k, next_line(k.s, p));
    }
}

/// What follows the filler after the scalar is on a later line, or the end.
pub(crate) proof fn lemma_filler_later(k: Cut, p: int)
    requires
        k.ok(),
        k.after(p),
    ensures
        k.later(past_filler(k.s, p)) || past_filler(k.s, p) == k.s.len(),
    decreases k.s.len() - p,
{
    lemma_run(k.s, k.b, Class::Blank);
    if p < k.s.len() {
        if !k.later(p) {
            lemma_rest_is_filler(k, p);
        }
        if line_blank(k.s, p) || line_comment(k.s, p) {
            lemma_next_line(k, p);
            lemma_filler_later(k, next_line(k.s, p));
        }
    }
}

proof fn lemma_rest_is_filler(k: Cut, p: int)
    requires
        k.ok(),
        k.b <= p <= run(k.s, k.b, Class::Blank),
    ensures
        line_blank(k.s, p) || line_comment(k.s, p),
        run(k.s, p, Class::Blank) == run(k.s, k.b, Class::Blank),
{
    lemma_run(k.s, k.b, Class::Blank);
    crate::text::lemma_run_skip(k.s, k.b, p, Class::Blank);
}

pub(crate) proof fn lemma_indent(k: Cut, p: int)
    requires
        k.base(),
        k.on(p),
    ensures
        indent_at(k.t, k.to(p)) == indent_at(k.s, p),
        p <= k.a && indent_at(k.s, p) is Some ==> p + indent_at(k.s, p)->0 <= k.a,
        indent_at(k.s, p) is Some ==> indent_at(k.s, p)->0 >= 0 && k.to(p) + indent_at(k.s, p)->0 == k.to(p + indent_at(k.s, p)->0),
{
    lemma_white(k, p, Class::Spaces);
    let q = run(k.s, p, Class::Spaces);
    if q < k.s.len() && q != k.a {
        assert(k.s[q] == k.t[k.to(q)]);
    }
}

pub(crate) proof fn lemma_flow_gap(k: Cut, p: int)
    requires
        k.base(),
        k.on(p),
        past_flow_gap(k.s, p) <= k.a || k.b <= p,
    ensures
        past_flow_gap(k.t, k.to(p)) == k.to(past_flow_gap(k.s, p)),
    decreases k.s.len() - p,
{
    lemma_white(k, p, Class::Gap);
    lemma_run(k.s, p, Class::Gap);
    let q = run(k.s, p, Class::Gap);
    if q < k.s.len() && q != k.a {
        assert(k.s[q] == k.t[k.to(q)]);
    }
    if at(k.s, q) == Some(HASH) {
        lemma_run(k.s, q, Class::Line);
        past_flow_gap_in(k.s, run(k.s, q, Class::Line));
        lemma_scan(k, q, Class::Line);
        lemma_flow_gap(k, run(k.s, q, Class::Line));
    }
}

pub(crate) proof fn lemma_past_marker(k: Cut, p: int)
    requires
        k.base(),
        0 <= p,
        p + 3 <= k.a || k.b <= p,
        p + 3 <= k.s.len(),
    ensures
        past_marker(k.t, k.to(p)) == k.to(past_marker(k.s, p)),
        p + 3 <= k.a ==> past_marker(k.s, p) <= k.a,
{
    lemma_white(k, p + 3, Class::Blank);
    lemma_break(k, run(k.s, p + 3, Class::Blank));
}

} // verus!
