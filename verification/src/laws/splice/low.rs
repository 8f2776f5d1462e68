//! How far the line after a node is indented.
use vstd::prelude::*;
use super::cut::Cut;
use super::place::{end_of, mid};
use super::super::unfold::{unfold_map_rest, unfold_seq_rest};
use crate::edit::around::steady;
use crate::parser::grammar::{map_rest, seq_rest, St};
use crate::parser::layout::{
    col_at, doc_bound, indent_at, line_at, line_blank, line_comment, line_ends, moves, next_line, next_line_in,
    past_break, past_filler, past_filler_in,
};
use crate::parser::tokens::{past_blank_lines, plain_goes_on, props_from, props_round, tag_end, token, Props};
use crate::text::{at, is_break, lemma_run, run, Class, AMP, BANG, COLON, GREATER, LF, PERCENT, PIPE};
use crate::value::Val;

verus! {

broadcast use moves;

/// Whether no line break stands between `p` and `q`.
pub open spec fn one_line(s: Seq<u8>, p: int, q: int) -> bool {
    forall|i: int| p <= i < q ==> !is_break(#[trigger] s[i])
}

impl Cut {
    /// Whether a block scalar is replaced by a plain one.
    pub open spec fn unblocks(self) -> bool {
        &&& !self.flow()
        &&& self.s[self.a] == PIPE || self.s[self.a] == GREATER
        &&& !token(self.t, self.a)->Ok_0.quoted
    }
}

/// Whether the next line with content is indented less than `m`, or begins with a
/// directive.
pub open spec fn low(s: Seq<u8>, p: int, m: int) -> bool {
    let q = past_filler(s, p);
    q >= s.len() || doc_bound(s, q) || s[q] == PERCENT || run(s, q, Class::Spaces) - q < m
}

/// Whether, if what was read has a scalar in it that becomes plain, the next line is
/// indented less than `m`.
pub open spec fn eased(k: Cut, id: int, st: St, end: St, m: int) -> bool {
    mid(id, st.t, end.t) && k.unblocks() ==> low(k.s, end.p, m)
}

/// Whether, if what was read has such a scalar in it, it begins in column `n` or
/// later.
pub open spec fn beyond(k: Cut, id: int, st: St, end: St, n: int) -> bool {
    mid(id, st.t, end.t) && k.unblocks() ==> n <= col_at(k.s, st.p)
}

/// Whether, if what was read has such a scalar in it and begins here, it does so no
/// more than a column before `m`.
pub open spec fn sits(k: Cut, id: int, st: St, end: St, m: int) -> bool {
    mid(id, st.t, end.t) && k.unblocks() ==> line_ends(k.s, st.p) || col_at(k.s, st.p) == 0 || m <= col_at(k.s, st.p) + 1
}

/// Filler is passed at once.
pub(crate) proof fn lemma_filler_twice(s: Seq<u8>, p: int)
    requires
        0 <= p <= s.len(),
    ensures
        past_filler(s, past_filler(s, p)) == past_filler(s, p),
    decreases s.len() - p,
{
    if p < s.len() && (line_blank(s, p) || line_comment(s, p)) {
        next_line_in(s, p);
        lemma_filler_twice(s, next_line(s, p));
    }
}

/// What follows an entry is a line that is indented no further, if what follows the
/// mapping is.
pub(crate) proof fn lemma_low_map(s: Seq<u8>, st: St, n: int, kvs: Seq<(Val, Val)>)
    requires
        0 <= st.p <= s.len(),
        map_rest(s, st, n, kvs) is Ok,
        low(s, end_of(map_rest(s, st, n, kvs)).p, n + 1),
    ensures
        low(s, st.p, n + 1),
{
    unfold_map_rest(s, st, n, kvs);
    past_filler_in(s, st.p);
    lemma_filler_twice(s, st.p);
}

pub(crate) proof fn lemma_low_seq(s: Seq<u8>, st: St, n: int, vs: Seq<Val>)
    requires
        0 <= st.p <= s.len(),
        vs.len() > 0,
        seq_rest(s, st, n, vs) is Ok,
        low(s, end_of(seq_rest(s, st, n, vs)).p, n + 1),
    ensures
        low(s, st.p, n + 1),
{
    unfold_seq_rest(s, st, n, vs);
    past_filler_in(s, st.p);
    lemma_filler_twice(s, st.p);
    let p = past_filler(s, st.p);
    if p < s.len() && indent_at(s, p) is Some {
        lemma_col_spaces(s, p);
    }
}

/// On one line the column counts the bytes.
pub(crate) proof fn lemma_col_on(s: Seq<u8>, p: int, q: int)
    requires
        0 <= p <= q <= s.len(),
        one_line(s, p, q),
    ensures
        col_at(s, q) == col_at(s, p) + (q - p),
    decreases q - p,
{
    if p < q {
        lemma_col_on(s, p, q - 1);
    }
}

pub(crate) proof fn lemma_col_pos(s: Seq<u8>, p: int)
    ensures
        col_at(s, p) >= 0,
    decreases p,
{
    if p > 0 {
        lemma_col_pos(s, p - 1);
    }
}

/// An indented line has content no earlier than its indentation.
pub(crate) proof fn lemma_col_spaces(s: Seq<u8>, p: int)
    requires
        0 <= p <= s.len(),
    ensures
        col_at(s, run(s, p, Class::Spaces)) >= run(s, p, Class::Spaces) - p,
{
    let q = run(s, p, Class::Spaces);
    lemma_run(s, p, Class::Spaces);
    assert forall|i: int| p <= i < q implies !is_break(#[trigger] s[i]) by {
        assert(Class::Spaces.holds(s[i]));
    }
    lemma_col_on(s, p, q);
    lemma_col_pos(s, p);
}

/// Blanks are on one line.
pub(crate) proof fn lemma_blank_line(s: Seq<u8>, p: int)
    requires
        0 <= p <= s.len(),
    ensures
        one_line(s, p, run(s, p, Class::Blank)),
        col_at(s, run(s, p, Class::Blank)) >= col_at(s, p),
{
    lemma_run(s, p, Class::Blank);
    assert forall|i: int| p <= i < run(s, p, Class::Blank) implies !is_break(#[trigger] s[i]) by {
        assert(Class::Blank.holds(s[i]));
    }
    lemma_col_on(s, p, run(s, p, Class::Blank));
}

/// After a key and its colon the column is later.
pub(crate) proof fn lemma_key_line(s: Seq<u8>, p: int, q: int)
    requires
        0 <= p <= q < s.len(),
        s[q] == COLON,
        line_at(s, q) == line_at(s, p),
    ensures
        col_at(s, q + 1) > col_at(s, p),
{
    lemma_same_line(s, p, q);
    lemma_col_on(s, q, q + 1);
}

proof fn lemma_name_line(s: Seq<u8>, p: int)
    requires
        0 <= p <= s.len(),
    ensures
        one_line(s, p, run(s, p, Class::Name)),
{
    lemma_run(s, p, Class::Name);
    assert forall|i: int| p <= i < run(s, p, Class::Name) implies !is_break(#[trigger] s[i]) by {
        assert(Class::Name.holds(s[i]));
    }
}

/// Tags and anchors are on one line.
pub(crate) proof fn lemma_props_line(s: Seq<u8>, a: int, p: int, got: Props)
    requires
        steady(s, a),
        0 <= p <= s.len(),
        props_from(s, p, false, got) is Ok,
        (props_from(s, p, false, got)->Ok_0).1 <= a <= s.len(),
    ensures
        ({
            let q = (props_from(s, p, false, got)->Ok_0).1;
            &&& p <= q <= s.len() ==> one_line(s, p, q)
            &&& p <= q <= s.len() ==> col_at(s, q) >= col_at(s, p)
        }),
    decreases s.len() - p,
{
    let tagged = got.tag is None && at(s, p) == Some(BANG);
    let p1 = if tagged {
        run(s, tag_end(s, p), Class::Blank)
    } else {
        p
    };
    assert(props_round(s, p, false, got) is Ok);
    if let Ok(Some((x, q))) = props_round(s, p, false, got) {
        super::words::lemma_props_in(s, q, false, x);
    }
    if tagged {
        assert(p < tag_end(s, p) <= s.len()) by {
            lemma_run(s, p + 1, Class::Name);
            if p + 1 < s.len() {
                lemma_run(s, p + 2, Class::Until(GREATER));
            }
        }
        assert(tag_end(s, p) <= a);
        assert(one_line(s, p, tag_end(s, p))) by {
            lemma_run(s, p, Class::Line);
            assert forall|i: int| p <= i < tag_end(s, p) implies !is_break(#[trigger] s[i]) by {
                assert(Class::Line.holds(s[i]));
            }
        }
        lemma_blank_line(s, tag_end(s, p));
    }
    let anchored = got.anchor is None && at(s, p1) == Some(AMP);
    let e = run(s, p1 + 1, Class::Name);
    if anchored {
        lemma_name_line(s, p1 + 1);
        lemma_blank_line(s, e);
    }
    assert(props_round(s, p, false, got) is Ok);
    if let Ok(Some((x, q))) = props_round(s, p, false, got) {
        assert(p < q <= s.len());
        assert(one_line(s, p, q));
        lemma_props_line(s, a, q, x);
        let z = (props_from(s, q, false, x)->Ok_0).1;
        super::words::lemma_props_in(s, q, false, x);
        assert(one_line(s, p, z));
        lemma_col_on(s, p, z);
    }
}

/// On one line of a source counted by lines.
pub(crate) proof fn lemma_same_line(s: Seq<u8>, p: int, q: int)
    requires
        0 <= p <= q <= s.len(),
        line_at(s, p) == line_at(s, q),
        at(s, q) != Some(LF),
    ensures
        one_line(s, p, q),
        col_at(s, q) == col_at(s, p) + (q - p),
    decreases q - p,
{
    if p < q {
        lemma_line_up(s, p, q - 1);
        assert(!is_break(s[q - 1]));
        lemma_same_line(s, p, q - 1);
    }
}

proof fn lemma_line_up(s: Seq<u8>, p: int, q: int)
    requires
        0 <= p <= q <= s.len(),
    ensures
        line_at(s, p) <= line_at(s, q),
    decreases q - p,
{
    if p < q {
        lemma_line_up(s, p, q - 1);
    }
}

/// The line that a plain scalar would go on with is the next line with content.
pub(crate) proof fn lemma_no_more(s: Seq<u8>, b: int, m: int)
    requires
        0 <= b <= s.len(),
        low(s, b, m),
        at(s, past_filler(s, b)) != Some(PERCENT),
    ensures
        ({
            let y = run(s, b, Class::Blank);
            !plain_goes_on(s, y, past_blank_lines(s, past_break(s, y)), m)
        }),
{
    let y = run(s, b, Class::Blank);
    lemma_run(s, b, Class::Blank);
    let l = past_break(s, y);
    let q = past_blank_lines(s, l);
    if plain_goes_on(s, y, q, m) {
        assert(line_blank(s, b));
        assert forall|i: int| b <= i < y implies Class::Line.holds(#[trigger] s[i]) by {
            assert(Class::Blank.holds(s[i]));
        }
        super::leaf::lemma_run_skip_class(s, b, y, Class::Line);
        assert(run(s, y, Class::Line) == y);
        assert(next_line(s, b) == l);
        lemma_lines_filler(s, l);
        assert(b < s.len());
        assert(past_filler(s, b) == past_filler(s, l));
    }
}

/// Blank lines are filler.
proof fn lemma_lines_filler(s: Seq<u8>, l: int)
    requires
        0 <= l <= s.len(),
    ensures
        past_filler(s, l) == past_filler(s, past_blank_lines(s, l)),
        past_blank_lines(s, l) < s.len() ==> !line_blank(s, past_blank_lines(s, l)),
    decreases s.len() - l,
{
    if l < s.len() && line_blank(s, l) {
        next_line_in(s, l);
        lemma_lines_filler(s, next_line(s, l));
    }
}

} // verus!
