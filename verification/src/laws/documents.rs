//! Several documents in one stream.
use vstd::prelude::*;
use super::emit::{faithful, lemma_line_start, lemma_merged, lemma_run_to, spaces};
use super::flowing::{flow_form, flow_plain, lemma_flow_whole, Style};
use super::scalars::{holds, lemma_holds_add, lemma_holds_at};
use super::steps::{step_bare, step_content_flow, step_flow_or_map, step_node_below};
use crate::parser::grammar::{at_start, documents, flow_collection, next_document, node, past_directives, stream, St};
use crate::parser::layout::{col_at, doc_marker, moves, past_filler, past_marker, Fail};
use crate::text::{is_break, lemma_run, run, Class, DASH, DOT, HASH, LBRACE, LBRACKET, LF};
use crate::value::Val;

verus! {

broadcast use moves;

/// A way to write the documents of a stream: each after a `---`, with a comment before
/// it, in flow style, and with a `...` after it or none.
pub struct Layout {
    pub style: Style,
    pub note: Seq<u8>,
    pub dots: bool,
}

impl Layout {
    pub open spec fn ok(self) -> bool {
        self.style.ok() && forall|i: int| 0 <= i < self.note.len() ==> !is_break(#[trigger] self.note[i])
    }
}

/// A line of three `c`.
pub open spec fn mark_line(c: u8) -> Seq<u8> {
    seq![c, c, c, LF]
}

/// The line that ends a document, if it has one.
pub open spec fn end_line(y: Layout) -> Seq<u8> {
    if y.dots {
        mark_line(DOT)
    } else {
        Seq::empty()
    }
}

/// The line of a comment.
pub open spec fn note_line(y: Layout) -> Seq<u8> {
    seq![HASH] + y.note + seq![LF]
}

/// The documents from `j` on.
pub open spec fn documents_form(vs: Seq<Val>, j: int, y: Layout) -> Seq<u8>
    decreases vs.len() - j,
{
    if !(0 <= j < vs.len()) {
        Seq::empty()
    } else {
        mark_line(DASH) + (note_line(y) + (flow_form(vs[j], y.style) + (seq![LF] + (end_line(y) + documents_form(
            vs,
            j + 1,
            y,
        )))))
    }
}

/// After a line break a line begins.
proof fn lemma_line_begins(s: Seq<u8>, p: int)
    requires
        0 < p <= s.len(),
        s[p - 1] == LF,
    ensures
        col_at(s, p) == 0,
{
}

/// A comment line is passed over.
proof fn lemma_note(s: Seq<u8>, p: int, y: Layout)
    requires
        y.ok(),
        holds(s, p, note_line(y)),
    ensures
        past_filler(s, p) == past_filler(s, p + note_line(y).len()),
        s[p] == HASH,
        s[p + note_line(y).len() - 1] == LF,
{
    let t = note_line(y);
    let e = p + t.len() - 1;
    lemma_holds_at(s, p, t, 0);
    lemma_holds_at(s, p, t, t.len() - 1);
    assert forall|i: int| p <= i < e implies Class::Line.holds(#[trigger] s[i]) by {
        lemma_holds_at(s, p, t, i - p);
        if i > p {
            assert(t[i - p] == y.note[i - p - 1]);
            assert(!is_break(y.note[i - p - 1]));
        }
    }
    lemma_run_to(s, p, Class::Line, e);
    lemma_run(s, p, Class::Blank);
    assert(run(s, p, Class::Blank) == p);
}

/// A line of marks is a document marker and no filler.
proof fn lemma_mark(s: Seq<u8>, p: int, c: u8)
    requires
        holds(s, p, mark_line(c)),
        col_at(s, p) == 0,
        c == DASH || c == DOT,
    ensures
        doc_marker(s, p, c),
        past_marker(s, p) == p + 4,
        past_filler(s, p) == p,
        past_directives(s, p) == p,
        s[p + 3] == LF,
{
    let t = mark_line(c);
    lemma_holds_at(s, p, t, 0);
    lemma_holds_at(s, p, t, 1);
    lemma_holds_at(s, p, t, 2);
    lemma_holds_at(s, p, t, 3);
    lemma_run(s, p, Class::Blank);
    assert(run(s, p, Class::Blank) == p);
    assert(run(s, p + 3, Class::Blank) == p + 3);
}

/// A collection in flow style is read as a node, from the filler before it on.
proof fn lemma_flow_node_here(v: Val, y: Layout, s: Seq<u8>, st: St, p: int)
    requires
        y.ok(),
        faithful(v),
        flow_plain(v),
        v is List || v is Dict,
        0 <= st.p <= s.len(),
        col_at(s, st.p) == 0,
        s[st.p] == HASH || st.p == p,
        0 <= p <= s.len(),
        past_filler(s, st.p) == past_filler(s, p),
        holds(s, p, flow_form(v, y.style)),
        p + flow_form(v, y.style).len() < s.len(),
        s[p + flow_form(v, y.style).len()] == LF,
    ensures
        node(s, st, 0) is Ok,
        (node(s, st, 0)->Ok_0).0 == v,
        (node(s, st, 0)->Ok_0).1.p == p + flow_form(v, y.style).len(),
{
    let t = flow_form(v, y.style);
    let e = p + t.len();
    lemma_holds_at(s, p, t, 0);
    assert(s[p] == LBRACKET || s[p] == LBRACE);
    let at = st.to(p);
    let outer = at.with(at.t.open(at.p, false));
    lemma_flow_whole(v, y.style, s, outer);
    let (w, st0) = flow_collection(s, outer)->Ok_0;
    assert(run(s, e, Class::Blank) == e) by {
        lemma_run(s, e, Class::Blank);
    }
    step_content_flow(s, at, 0, 0);
    step_flow_or_map(s, at, 0, w, st0);
    step_bare(s, at, 0, 0);
    assert(spaces(0) =~= Seq::empty());
    assert(s.subrange(p, p) =~= spaces(0));
    lemma_line_start(s, p, 0);
    step_node_below(s, st, 0);
}

/// The documents from `j` on are read back.
proof fn lemma_documents(vs: Seq<Val>, j: int, y: Layout, s: Seq<u8>, st: St, bare: bool)
    requires
        y.ok(),
        0 <= j <= vs.len(),
        forall|i: int|
            0 <= i < vs.len() ==> faithful(#[trigger] vs[i]) && flow_plain(vs[i]) && (vs[i] is List || vs[i] is Dict),
        holds(s, st.p, documents_form(vs, j, y)),
        st.p + documents_form(vs, j, y).len() == s.len(),
        col_at(s, st.p) == 0,
    ensures
        documents(s, st, vs.take(j), bare) is Ok,
        (documents(s, st, vs.take(j), bare)->Ok_0).0 == vs,
    decreases vs.len() - j,
{
    let p = st.p;
    reveal(next_document);
    if j == vs.len() {
        assert(past_filler(s, p) == p);
        assert(past_directives(s, p) == p);
        assert(next_document(s, st, bare) == Ok::<_, Fail>((None::<(Val, bool)>, st.to(p))));
        assert(vs.take(j) =~= vs);
    } else {
        let v = vs[j];
        let f = flow_form(v, y.style);
        let more = documents_form(vs, j + 1, y);
        let a = p + 4;
        let b = a + note_line(y).len();
        let c = b + f.len();
        let d = c + 1;
        let e = d + end_line(y).len();
        lemma_holds_add(s, p, mark_line(DASH), note_line(y) + (f + (seq![LF] + (end_line(y) + more))));
        lemma_holds_add(s, a, note_line(y), f + (seq![LF] + (end_line(y) + more)));
        lemma_holds_add(s, b, f, seq![LF] + (end_line(y) + more));
        lemma_holds_add(s, c, seq![LF], end_line(y) + more);
        lemma_holds_add(s, d, end_line(y), more);
        lemma_holds_at(s, c, seq![LF], 0);
        lemma_mark(s, p, DASH);
        lemma_line_begins(s, a);
        lemma_note(s, a, y);
        lemma_line_begins(s, b);
        lemma_line_begins(s, d);
        let st0 = St { p: a, a: Seq::empty(), ..st };
        lemma_flow_node_here(v, y, s, st0, b);
        let (w, st1) = node(s, st0, 0)->Ok_0;
        lemma_merged(v);
        assert(past_filler(s, c) == past_filler(s, d)) by {
            assert(run(s, c, Class::Blank) == c);
            assert(run(s, c, Class::Line) == c);
        }
        if y.dots {
            lemma_mark(s, d, DOT);
            lemma_holds_at(s, d, end_line(y), 3);
            lemma_line_begins(s, e);
            assert(!doc_marker(s, p, DOT));
        } else if j + 1 < vs.len() {
            let after = seq![LF] + (end_line(y) + documents_form(vs, j + 2, y));
            lemma_holds_add(s, e, mark_line(DASH), note_line(y) + (flow_form(vs[j + 1], y.style) + after));
            lemma_mark(s, e, DASH);
            lemma_holds_at(s, e, mark_line(DASH), 0);
        } else {
            assert(past_filler(s, e) == e);
        }
        let st2 = st1.to(e);
        assert(next_document(s, st, bare) == Ok::<_, Fail>((Some((v, y.dots)), st2)));
        assert(vs.take(j).push(v) =~= vs.take(j + 1));
        lemma_documents(vs, j + 1, y, s, st2, y.dots);
    }
}

/// A stream of documents is read back: as many as were written, each with its value, in
/// their order, whatever is noted before them and however they end.
pub proof fn law_documents_read_back(vs: Seq<Val>, y: Layout)
    requires
        y.ok(),
        forall|i: int|
            0 <= i < vs.len() ==> faithful(#[trigger] vs[i]) && flow_plain(vs[i]) && (vs[i] is List || vs[i] is Dict),
    ensures
        stream(documents_form(vs, 0, y)) is Ok,
        (stream(documents_form(vs, 0, y))->Ok_0).0 == vs,
{
    let s = documents_form(vs, 0, y);
    assert(s.subrange(0, s.len() as int) =~= s);
    assert(vs.take(0) =~= Seq::empty());
    lemma_documents(vs, 0, y, s, at_start(), true);
}

} // verus!
