//! What stands between the entries of a mapping is passed over.
use vstd::prelude::*;
use super::emit::{
    faithful, lemma_col_after, lemma_faithful_pair, lemma_line_same, lemma_line_start, lemma_merged,
    lemma_plain_scalar, lemma_plain_start, lemma_run_to, spaces,
};
use super::flowing::{
    can_be_bare, flow_form, flow_plain, lemma_first_of_form, lemma_flow_whole, lemma_one_document_from, Style,
};
use super::lines::{lemma_quoted_unbroken, line_map, on_line};
use super::scalars::{holds, law_double_quoted_reads_back, law_plain_reads_back, lemma_holds_add, lemma_holds_at};
use super::steps::{
    step_bare, step_content_flow, step_content_scalar, step_entry, step_first_entry, step_flow_or_map, step_map_end,
    step_map_from, step_map_more, step_node_below, step_node_here, step_scalar, step_value_here,
};
use crate::edit::sink::Extent;
use crate::emitter::double_quoted;
use crate::parser::grammar::{at_start, content, flow_collection, map_entry, map_rest, map_value, stream, St};
use crate::parser::layout::{
    col_at, doc_bound, indent_at, lemma_col, line_ends, moves, next_line, past_break, past_filler, Fail,
};
use crate::parser::tokens::{past_blank_lines, plain_folded, token, Token};
use crate::text::{at, is_blank, is_break, lemma_run, run, Class, COLON, CR, DQUOTE, HASH, LF, SPACE};
use crate::value::Val;

verus! {

broadcast use moves;

/// A way to write a mapping with an entry on each line: how lines end, a comment on a
/// line of its own before each entry and a blank line after that, and perhaps another
/// comment behind the value.
pub struct Rows {
    pub style: Style,
    pub end: Seq<u8>,
    pub note: Seq<u8>,
    pub blanks: Seq<u8>,
    pub tail: bool,
}

impl Rows {
    pub open spec fn ok(self) -> bool {
        &&& self.style.ok() && on_line(self.style)
        &&& self.end == seq![LF] || self.end == seq![CR, LF] || self.end == seq![CR]
        &&& forall|i: int| 0 <= i < self.note.len() ==> !is_break(#[trigger] self.note[i])
        &&& forall|i: int| 0 <= i < self.blanks.len() ==> is_blank(#[trigger] self.blanks[i])
    }
}

/// A comment.
pub open spec fn remark(y: Rows) -> Seq<u8> {
    seq![HASH] + y.note
}

/// What may stand behind a value.
pub open spec fn behind(y: Rows) -> Seq<u8> {
    if y.tail {
        seq![SPACE] + remark(y)
    } else {
        Seq::empty()
    }
}

/// The line of an entry.
pub open spec fn row_form(kv: (Val, Val), y: Rows) -> Seq<u8> {
    double_quoted(kv.0->Str_0) + (seq![COLON, SPACE] + (flow_form(kv.1, y.style) + (behind(y) + y.end)))
}

/// The entries from `j` on.
pub open spec fn rows_form(ps: Seq<(Val, Val)>, j: int, y: Rows) -> Seq<u8>
    decreases ps.len() - j,
{
    if !(0 <= j < ps.len()) {
        Seq::empty()
    } else {
        remark(y) + (y.end + (y.blanks + (y.end + (row_form(ps[j], y) + rows_form(ps, j + 1, y)))))
    }
}

/// Whether a line ends at `p`, in the way that is asked for.
spec fn ends_here(s: Seq<u8>, p: int, y: Rows) -> bool {
    holds(s, p, y.end) && at(s, p + y.end.len()) != Some(LF)
}

/// A line break is passed over.
proof fn lemma_end(s: Seq<u8>, p: int, y: Rows)
    requires
        y.ok(),
        ends_here(s, p, y),
    ensures
        0 <= p < s.len(),
        is_break(s[p]),
        past_break(s, p) == p + y.end.len(),
        col_at(s, p + y.end.len()) == 0,
        run(s, p, Class::Line) == p,
        run(s, p, Class::Blank) == p,
        line_ends(s, p),
{
    lemma_holds_at(s, p, y.end, 0);
    lemma_holds_at(s, p, y.end, y.end.len() - 1);
}

/// A comment and a blank line are passed over.
proof fn lemma_between(s: Seq<u8>, p: int, y: Rows, rest: Seq<u8>)
    requires
        y.ok(),
        rest.len() > 0,
        rest[0] == DQUOTE,
        holds(s, p, remark(y) + (y.end + (y.blanks + (y.end + rest)))),
    ensures
        ({
            let q = p + remark(y).len() + 2 * y.end.len() + y.blanks.len();
            &&& past_filler(s, p) == q
            &&& holds(s, q, rest)
            &&& col_at(s, q) == 0
            &&& 0 <= p < s.len() && s[p] == HASH
        }),
{
    let a = p + remark(y).len();
    let b = a + y.end.len();
    let c = b + y.blanks.len();
    let q = c + y.end.len();
    lemma_holds_add(s, p, remark(y), y.end + (y.blanks + (y.end + rest)));
    lemma_holds_add(s, a, y.end, y.blanks + (y.end + rest));
    lemma_holds_add(s, b, y.blanks, y.end + rest);
    lemma_holds_add(s, c, y.end, rest);
    lemma_holds_at(s, q, rest, 0);
    lemma_holds_at(s, p, remark(y), 0);
    lemma_holds_at(s, c, y.end, 0);
    if y.blanks.len() > 0 {
        lemma_holds_at(s, b, y.blanks, 0);
        assert(is_blank(y.blanks[0]));
    }
    if y.end == seq![CR] || y.blanks.len() > 0 || y.end != seq![LF] {
        assert(at(s, b) != Some(LF));
    }
    assert forall|i: int| p <= i < a implies Class::Line.holds(#[trigger] s[i]) by {
        lemma_holds_at(s, p, remark(y), i - p);
        if i > p {
            assert(!is_break(y.note[i - p - 1]));
        }
    }
    lemma_holds_at(s, a, y.end, 0);
    lemma_run_to(s, p, Class::Line, a);
    assert(past_break(s, a) == b) by {
        if y.end.len() == 2 {
            lemma_holds_at(s, a, y.end, 1);
        }
    }
    assert(run(s, p, Class::Blank) == p) by {
        lemma_run(s, p, Class::Blank);
    }
    assert(next_line(s, p) == b);
    assert forall|i: int| b <= i < c implies Class::Blank.holds(#[trigger] s[i]) && Class::Line.holds(s[i]) by {
        lemma_holds_at(s, b, y.blanks, i - b);
        assert(is_blank(y.blanks[i - b]));
    }
    lemma_run_to(s, b, Class::Blank, c);
    lemma_run_to(s, b, Class::Line, c);
    lemma_end(s, c, y);
    assert(next_line(s, b) == q);
    assert(past_filler(s, q) == q) by {
        lemma_run(s, q, Class::Blank);
        assert(run(s, q, Class::Blank) == q);
    }
    reveal_with_fuel(past_filler, 3);
}

/// Whether what follows a value does not go on with it: perhaps a comment, then the end
/// of the line, then the text's end or another comment.
spec fn row_over(s: Seq<u8>, e: int, y: Rows) -> bool {
    let x = e + behind(y).len();
    let l = x + y.end.len();
    &&& holds(s, e, behind(y) + y.end)
    &&& l == s.len() || (l < s.len() && s[l] == HASH)
}

/// Where the cursor stops behind a value.
spec fn stop_at(e: int, y: Rows) -> int {
    if y.tail {
        e + 1
    } else {
        e
    }
}

/// Behind a value the line is over.
proof fn lemma_row_over(s: Seq<u8>, e: int, y: Rows)
    requires
        y.ok(),
        row_over(s, e, y),
    ensures
        ({
            let z = stop_at(e, y);
            let l = e + behind(y).len() + y.end.len();
            &&& 0 <= e < s.len()
            &&& run(s, e, Class::Blank) == z
            &&& run(s, z, Class::Blank) == z
            &&& e <= z < s.len()
            &&& y.tail ==> s[z] == HASH
            &&& !y.tail ==> is_break(s[z]) && past_break(s, z) == l
            &&& past_filler(s, z) == past_filler(s, l)
            &&& 0 <= l <= s.len()
        }),
{
    let x = e + behind(y).len();
    let l = x + y.end.len();
    lemma_holds_add(s, e, behind(y), y.end);
    lemma_end(s, x, y);
    if y.tail {
        lemma_holds_add(s, e, seq![SPACE], remark(y));
        lemma_holds_at(s, e, seq![SPACE], 0);
        lemma_holds_at(s, e + 1, remark(y), 0);
        lemma_run_to(s, e, Class::Blank, e + 1);
        assert(run(s, e + 1, Class::Blank) == e + 1);
        assert forall|i: int| e + 1 <= i < x implies Class::Line.holds(#[trigger] s[i]) by {
            lemma_holds_at(s, e + 1, remark(y), i - e - 1);
            if i > e + 1 {
                assert(!is_break(y.note[i - e - 2]));
            }
        }
        lemma_run_to(s, e + 1, Class::Line, x);
        assert(next_line(s, e + 1) == l);
    } else {
        assert(next_line(s, e) == l);
    }
}

/// A value is read, up to what stands behind it.
proof fn lemma_row_content(v: Val, y: Rows, s: Seq<u8>, x: St, n: int)
    requires
        y.ok(),
        faithful(v),
        flow_plain(v),
        holds(s, x.p, flow_form(v, y.style)),
        row_over(s, x.p + flow_form(v, y.style).len(), y),
    ensures
        ({
            let r = content(s, x, n, 1);
            &&& r is Ok
            &&& (r->Ok_0).0 == v
            &&& (r->Ok_0).1.p == stop_at(x.p + flow_form(v, y.style).len(), y)
            &&& (r->Ok_0).1.a == x.a
        }),
{
    let f = flow_form(v, y.style);
    let e = x.p + f.len();
    let z = stop_at(e, y);
    lemma_row_over(s, e, y);
    lemma_first_of_form(v, y.style, s, x.p);
    lemma_holds_at(s, x.p, f, 0);
    if v is List || v is Dict {
        let outer = x.with(x.t.open(x.p, false));
        lemma_flow_whole(v, y.style, s, outer);
        let (w, st0) = flow_collection(s, outer)->Ok_0;
        step_content_flow(s, x, n, 1);
        step_flow_or_map(s, x, n, w, st0);
    } else {
        match v {
            Val::Str(u) if y.style.quotes || !can_be_bare(u) => {
                law_double_quoted_reads_back(s, x.p, u);
            },
            _ => {
                if !(v is Str) {
                    lemma_plain_scalar(v, Seq::empty());
                }
                law_plain_reads_back(s, x.p, f);
                lemma_plain_start(s, x.p, f);
                assert(plain_folded(s, f, z, 1) == Ok::<_, Fail>((f, z))) by {
                    if !y.tail {
                        let l = past_break(s, z);
                        if l < s.len() {
                            lemma_run(s, l, Class::Blank);
                            lemma_run(s, l, Class::Spaces);
                            assert(run(s, l, Class::Blank) == l);
                            assert(run(s, l, Class::Spaces) == l);
                            assert(past_blank_lines(s, l) == l);
                        }
                    }
                }
            },
        }
        step_content_scalar(s, x, n, 1);
        step_scalar(s, x, n, 1, token(s, x.p)->Ok_0);
    }
}

/// An entry is read, up to what stands behind its value.
proof fn lemma_row(kv: (Val, Val), y: Rows, s: Seq<u8>, st: St)
    requires
        y.ok(),
        faithful(kv.1),
        flow_plain(kv.1),
        kv.0 is Str,
        0 <= st.p,
        holds(s, st.p, row_form(kv, y)),
        st.p + row_form(kv, y).len() == s.len() || s[st.p + row_form(kv, y).len()] == HASH,
    ensures
        ({
            let r = map_entry(s, st, 0);
            let st1 = (r->Ok_0).1;
            &&& r is Ok
            &&& (r->Ok_0).0 == kv
            &&& st.p < st1.p <= s.len()
            &&& past_filler(s, st1.p) == past_filler(s, st.p + row_form(kv, y).len())
            &&& st1.a == st.a
            &&& s[st.p] == DQUOTE
        }),
{
    let k = kv.0->Str_0;
    let d = double_quoted(k);
    let f = flow_form(kv.1, y.style);
    let p = st.p;
    let c = p + d.len();
    let e = c + 2 + f.len();
    lemma_holds_add(s, p, d, seq![COLON, SPACE] + (f + (behind(y) + y.end)));
    lemma_holds_add(s, c, seq![COLON, SPACE], f + (behind(y) + y.end));
    lemma_holds_add(s, c + 2, f, behind(y) + y.end);
    lemma_holds_at(s, p, d, 0);
    lemma_holds_at(s, c, seq![COLON, SPACE], 0);
    lemma_holds_at(s, c, seq![COLON, SPACE], 1);
    law_double_quoted_reads_back(s, p, k);
    let tok = token(s, p)->Ok_0;
    assert(tok == Token { quoted: true, text: k, end: c, p: c });
    assert(run(s, c, Class::Blank) == c) by {
        lemma_run(s, c, Class::Blank);
    }
    lemma_quoted_unbroken(k);
    assert forall|i: int| p <= i < c implies !is_break(#[trigger] s[i]) by {
        lemma_holds_at(s, p, d, i - p);
        assert(!is_break(d[i - p]));
    }
    lemma_line_same(s, p, c);
    lemma_col_after(s, c);
    assert(row_over(s, e, y));
    lemma_row_over(s, e, y);
    let st0 = St { p: c + 1, t: st.t.key(Extent { a: p, b: c }, Some(k)), ..st };
    let x = st0.to(c + 2);
    lemma_first_of_form(kv.1, y.style, s, c + 2);
    lemma_col(s, c + 1, c + 2);
    lemma_run_to(s, c + 1, Class::Blank, c + 2);
    step_value_here(s, st0, 0);
    step_node_here(s, x, 1);
    step_bare(s, x, col_at(s, c + 2), 1);
    lemma_row_content(kv.1, y, s, x, col_at(s, c + 2));
    let (v, st1) = map_value(s, st0, 0)->Ok_0;
    step_entry(s, st, 0, tok, v, st1);
}

/// The entries from `j` on are read.
proof fn lemma_rows(ps: Seq<(Val, Val)>, j: int, y: Rows, s: Seq<u8>, st: St, l: int)
    requires
        y.ok(),
        line_map(ps),
        0 < j <= ps.len(),
        0 <= l <= s.len(),
        holds(s, l, rows_form(ps, j, y)),
        l + rows_form(ps, j, y).len() == s.len(),
        0 <= st.p <= s.len(),
        past_filler(s, st.p) == past_filler(s, l),
    ensures
        ({
            let r = map_rest(s, st, 0, ps.take(j));
            r is Ok && (r->Ok_0).0 == ps && (r->Ok_0).1.p == s.len()
        }),
    decreases ps.len() - j,
{
    if j == ps.len() {
        assert(past_filler(s, l) == l);
        step_map_end(s, st, 0, ps);
        assert(ps.take(j) =~= ps);
    } else {
        let rest = row_form(ps[j], y) + rows_form(ps, j + 1, y);
        let q = l + remark(y).len() + 2 * y.end.len() + y.blanks.len();
        let m = q + row_form(ps[j], y).len();
        assert(rest[0] == DQUOTE);
        lemma_between(s, l, y, rest);
        lemma_holds_add(s, q, row_form(ps[j], y), rows_form(ps, j + 1, y));
        lemma_faithful_pair(ps, j);
        assert(flow_plain(ps[j].0) && flow_plain(ps[j].1));
        if j + 1 < ps.len() {
            lemma_holds_at(s, m, rows_form(ps, j + 1, y), 0);
            assert(remark(y)[0] == HASH);
        }
        let at = st.to(q);
        lemma_row(ps[j], y, s, at);
        lemma_quote_line(s, q);
        let (kv, st1) = map_entry(s, at, 0)->Ok_0;
        step_map_more(s, st, 0, ps.take(j), kv, st1);
        assert(ps.take(j).push(kv) =~= ps.take(j + 1));
        lemma_rows(ps, j + 1, y, s, st1, m);
    }
}

/// A line that begins with a quote.
proof fn lemma_quote_line(s: Seq<u8>, p: int)
    requires
        0 <= p < s.len(),
        s[p] == DQUOTE,
    ensures
        indent_at(s, p) == Some(0int),
        !doc_bound(s, p),
        past_filler(s, p) == p,
{
    assert(spaces(0) =~= Seq::empty());
    assert(s.subrange(p, p) =~= spaces(0));
    lemma_line_start(s, p, 0);
}

/// Comments, blank lines and the kind of line break do not count: a mapping is read from
/// its entries, one on each line, whatever is noted between them and behind them.
pub proof fn law_filler_is_passed_over(ps: Seq<(Val, Val)>, y: Rows)
    requires
        y.ok(),
        line_map(ps),
        ps.len() > 0,
    ensures
        stream(rows_form(ps, 0, y)) is Ok,
        (stream(rows_form(ps, 0, y))->Ok_0).0 == seq![Val::Dict(ps)],
{
    let s = rows_form(ps, 0, y);
    let st = at_start();
    let v = Val::Dict(ps);
    assert(s.subrange(0, s.len() as int) =~= s);
    let rest = row_form(ps[0], y) + rows_form(ps, 1, y);
    let q = 0int + remark(y).len() + 2 * y.end.len() + y.blanks.len();
    let m = q + row_form(ps[0], y).len();
    assert(rest[0] == DQUOTE);
    lemma_between(s, 0, y, rest);
    lemma_holds_add(s, q, row_form(ps[0], y), rows_form(ps, 1, y));
    lemma_faithful_pair(ps, 0);
    assert(flow_plain(ps[0].0) && flow_plain(ps[0].1));
    if 1 < ps.len() {
        lemma_holds_at(s, m, rows_form(ps, 1, y), 0);
        assert(remark(y)[0] == HASH);
    }
    let at = st.to(q);
    let inner = at.with(at.t.open(q, false));
    lemma_row(ps[0], y, s, inner);
    let (kv, st1) = map_entry(s, inner, 0)->Ok_0;
    lemma_rows(ps, 1, y, s, st1, m);
    assert(ps.take(1) =~= seq![kv]);
    step_content_scalar(s, at, 0, 0);
    step_first_entry(s, at, 0, 0, kv, st1);
    step_map_from(s, q, st1, 0, seq![kv]);
    step_bare(s, at, 0, 0);
    lemma_quote_line(s, q);
    step_node_below(s, at, 0);
    assert(at.to(q) == at);
    lemma_merged(v);
    lemma_one_document_from(s, q, v);
}

} // verus!
