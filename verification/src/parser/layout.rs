//! Lines, columns, indentation and filler, as functions of the source and a
//! position.
//!
//! A source is its UTF-8 bytes. A function that moves takes a position and gives
//! the one after what it passes.
use vstd::prelude::*;
use vstd::utf8::*;
use crate::text::{
    is_text, at, bd, is_blank, is_break, lemma_bd_ascii, lemma_run, lemma_run_bd, run, Class, CR, DASH, DOT, HASH,
    LF, TAB,
};
use crate::value::lit;

verus! {

/// A refusal: what is wrong, and where.
pub struct Fail {
    pub msg: Seq<u8>,
    pub p: int,
}

/// Whether a line break ends with the byte at `p`: a carriage return and the line
/// feed after it are one break.
pub open spec fn break_done(s: Seq<u8>, p: int) -> bool {
    is_break(s[p]) && !(s[p] == CR && at(s, p + 1) == Some(LF))
}

/// How many lines end before `p`.
pub open spec fn line_at(s: Seq<u8>, p: int) -> int
    decreases p,
{
    if p <= 0 || p > s.len() {
        0
    } else if break_done(s, p - 1) {
        line_at(s, p - 1) + 1
    } else {
        line_at(s, p - 1)
    }
}

/// How many bytes of its line stand before `p`.
pub open spec fn col_at(s: Seq<u8>, p: int) -> int
    decreases p,
{
    if p <= 0 || p > s.len() || is_break(s[p - 1]) {
        0
    } else {
        col_at(s, p - 1) + 1
    }
}

/// Whether a line ends at `p`.
pub open spec fn line_ends(s: Seq<u8>, p: int) -> bool {
    match at(s, p) {
        None => true,
        Some(b) => is_break(b),
    }
}

/// Past one line break, if one is there.
pub open spec fn past_break(s: Seq<u8>, p: int) -> int {
    if at(s, p) == Some(CR) {
        if at(s, p + 1) == Some(LF) {
            p + 2
        } else {
            p + 1
        }
    } else if at(s, p) == Some(LF) {
        p + 1
    } else {
        p
    }
}

/// Whether nothing but blanks follows on the line.
pub open spec fn line_blank(s: Seq<u8>, p: int) -> bool {
    line_ends(s, run(s, p, Class::Blank))
}

/// Whether a comment is all that follows on the line.
pub open spec fn line_comment(s: Seq<u8>, p: int) -> bool {
    at(s, run(s, p, Class::Blank)) == Some(HASH)
}

/// The start of the next line.
pub open spec fn next_line(s: Seq<u8>, p: int) -> int {
    past_break(s, run(s, p, Class::Line))
}

pub broadcast proof fn run_in(s: Seq<u8>, p: int, c: Class)
    requires
        0 <= p <= s.len(),
    ensures
        p <= #[trigger] run(s, p, c) <= s.len(),
        p < s.len() && c.holds(s[p]) ==> p < run(s, p, c),
{
    lemma_run(s, p, c);
}

pub broadcast proof fn past_break_in(s: Seq<u8>, p: int)
    requires
        0 <= p <= s.len(),
    ensures
        p <= #[trigger] past_break(s, p) <= s.len(),
        p < s.len() && is_break(s[p]) ==> p < past_break(s, p),
{
}

pub broadcast proof fn next_line_in(s: Seq<u8>, p: int)
    requires
        0 <= p <= s.len(),
    ensures
        p <= #[trigger] next_line(s, p) <= s.len(),
        p < s.len() ==> p < next_line(s, p),
{
    lemma_run(s, p, Class::Line);
}

/// Past every line that is blank or a comment.
pub open spec fn past_filler(s: Seq<u8>, p: int) -> int
    decreases s.len() - p,
        when 0 <= p <= s.len()
{
    if p < s.len() && (line_blank(s, p) || line_comment(s, p)) {
        proof {
            next_line_in(s, p);
        }
        past_filler(s, next_line(s, p))
    } else {
        p
    }
}

pub broadcast proof fn past_filler_in(s: Seq<u8>, p: int)
    requires
        0 <= p <= s.len(),
    ensures
        p <= #[trigger] past_filler(s, p) <= s.len(),
    decreases s.len() - p,
{
    broadcast use next_line_in;

    if p < s.len() && (line_blank(s, p) || line_comment(s, p)) {
        past_filler_in(s, next_line(s, p));
    }
}

/// The indentation of the line that starts at `p`; a tab in it is an error.
pub open spec fn indent_at(s: Seq<u8>, p: int) -> Option<int> {
    let q = run(s, p, Class::Spaces);
    if at(s, q) == Some(TAB) {
        None
    } else {
        Some(q - p)
    }
}

pub open spec fn tab_fail<T>(p: int) -> Result<T, Fail> {
    Err(Fail { msg: lit("parsing failed: illegal indent whitespace using \\t"), p })
}

/// Whether `p` is followed by white space or the end.
pub open spec fn gap_at(s: Seq<u8>, p: int) -> bool {
    match at(s, p) {
        None => true,
        Some(b) => is_blank(b) || is_break(b),
    }
}

/// Whether the block indicator `c` stands at `p`.
pub open spec fn indicator_at(s: Seq<u8>, p: int, c: u8) -> bool {
    at(s, p) == Some(c) && gap_at(s, p + 1)
}

/// Whether three of `c` stand at `p`, followed by white space or the end.
pub open spec fn marker_at(s: Seq<u8>, p: int, c: u8) -> bool {
    at(s, p) == Some(c) && at(s, p + 1) == Some(c) && at(s, p + 2) == Some(c) && gap_at(s, p + 3)
}

/// Whether a document marker made of `c` begins the line at `p`.
pub open spec fn doc_marker(s: Seq<u8>, p: int, c: u8) -> bool {
    col_at(s, p) == 0 && marker_at(s, p, c)
}

/// Whether a document starts or ends at `p`.
pub open spec fn doc_bound(s: Seq<u8>, p: int) -> bool {
    doc_marker(s, p, DASH) || doc_marker(s, p, DOT)
}

/// Past a document marker and its line break.
pub open spec fn past_marker(s: Seq<u8>, p: int) -> int {
    past_break(s, run(s, p + 3, Class::Blank))
}

/// Past white space, line breaks and comments.
pub open spec fn past_flow_gap(s: Seq<u8>, p: int) -> int
    decreases s.len() - p,
        when 0 <= p <= s.len()
{
    let q = run(s, p, Class::Gap);
    if at(s, q) == Some(HASH) {
        proof {
            lemma_run(s, p, Class::Gap);
            lemma_run(s, q, Class::Line);
        }
        past_flow_gap(s, run(s, q, Class::Line))
    } else {
        q
    }
}

pub broadcast proof fn past_flow_gap_in(s: Seq<u8>, p: int)
    requires
        0 <= p <= s.len(),
    ensures
        p <= #[trigger] past_flow_gap(s, p) <= s.len(),
    decreases s.len() - p,
{
    lemma_run(s, p, Class::Gap);
    let q = run(s, p, Class::Gap);
    lemma_run(s, q, Class::Line);
    if at(s, q) == Some(HASH) {
        past_flow_gap_in(s, run(s, q, Class::Line));
    }
}

pub broadcast proof fn run_bd(s: Seq<u8>, p: int, c: Class)
    requires
        is_text(s),
        bd(s, p),
        c.ok(),
    ensures
        bd(s, #[trigger] run(s, p, c)),
{
    lemma_run_bd(s, p, c);
}

pub broadcast proof fn past_break_bd(s: Seq<u8>, p: int)
    requires
        is_text(s),
        bd(s, p),
    ensures
        bd(s, #[trigger] past_break(s, p)),
{
    if p < s.len() && is_break(s[p]) {
        lemma_bd_ascii(s, p);
        if p + 1 < s.len() && s[p + 1] == LF {
            lemma_bd_ascii(s, p + 1);
        }
    }
}

pub broadcast proof fn next_line_bd(s: Seq<u8>, p: int)
    requires
        is_text(s),
        bd(s, p),
    ensures
        bd(s, #[trigger] next_line(s, p)),
{
    lemma_run_bd(s, p, Class::Line);
    past_break_bd(s, run(s, p, Class::Line));
}

pub broadcast proof fn past_filler_bd(s: Seq<u8>, p: int)
    requires
        is_text(s),
        bd(s, p),
    ensures
        bd(s, #[trigger] past_filler(s, p)),
    decreases s.len() - p,
{
    if p < s.len() && (line_blank(s, p) || line_comment(s, p)) {
        next_line_in(s, p);
        next_line_bd(s, p);
        past_filler_bd(s, next_line(s, p));
    }
}

pub broadcast proof fn past_flow_gap_bd(s: Seq<u8>, p: int)
    requires
        is_text(s),
        bd(s, p),
    ensures
        bd(s, #[trigger] past_flow_gap(s, p)),
    decreases s.len() - p,
{
    lemma_run(s, p, Class::Gap);
    lemma_run_bd(s, p, Class::Gap);
    let q = run(s, p, Class::Gap);
    lemma_run(s, q, Class::Line);
    lemma_run_bd(s, q, Class::Line);
    if at(s, q) == Some(HASH) {
        past_flow_gap_bd(s, run(s, q, Class::Line));
    }
}

pub broadcast group bounds {
    run_bd,
    past_break_bd,
    next_line_bd,
    past_filler_bd,
    past_flow_gap_bd,
}

/// Neither the line nor the column number runs ahead of the position.
pub proof fn lemma_place(s: Seq<u8>, p: int)
    requires
        0 <= p <= s.len(),
    ensures
        0 <= line_at(s, p) <= p,
        0 <= col_at(s, p) <= p,
    decreases p,
{
    if p > 0 {
        lemma_place(s, p - 1);
    }
}

/// After a line break a line starts.
pub proof fn lemma_bol(s: Seq<u8>, p: int)
    requires
        0 <= p < s.len(),
        is_break(s[p]),
    ensures
        col_at(s, past_break(s, p)) == 0,
{
}

/// The next line starts in the first column, unless the text ends.
pub proof fn lemma_next_line_bol(s: Seq<u8>, p: int)
    requires
        0 <= p <= s.len(),
    ensures
        next_line(s, p) == s.len() || col_at(s, next_line(s, p)) == 0,
{
    lemma_run(s, p, Class::Line);
    let q = run(s, p, Class::Line);
    if q < s.len() {
        lemma_bol(s, q);
    }
}

/// Along bytes that are no line breaks the column grows.
pub proof fn lemma_col(s: Seq<u8>, p: int, q: int)
    requires
        0 <= p <= q <= s.len(),
        forall|i: int| p <= i < q ==> !is_break(#[trigger] s[i]),
    ensures
        col_at(s, q) == col_at(s, p) + (q - p),
    decreases q - p,
{
    if p < q {
        lemma_col(s, p, q - 1);
        assert(!is_break(s[q - 1]));
    }
}

pub broadcast group moves {
    run_in,
    past_break_in,
    next_line_in,
    past_filler_in,
    past_flow_gap_in,
}

} // verus!
