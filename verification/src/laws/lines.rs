//! Mappings with an entry on each line, and what is left of them when one is removed.
use vstd::prelude::*;
use vstd::utf8::*;
use super::applying::lemma_named;
use super::emit::{
    faithful, faithful_items, faithful_pairs, lemma_col_after, lemma_dq_line, lemma_faithful_pair, lemma_line_same,
    lemma_line_start, lemma_merged, lemma_plain_scalar, lemma_plain_start, lemma_run_to, spaces,
};
use super::flowing::{
    can_be_bare, flow_form, flow_plain, items_form, lemma_first_of_form, lemma_flow_whole, lemma_one_document,
    pairs_form, Style,
};
use super::scalars::{holds, law_double_quoted_reads_back, law_plain_reads_back, lemma_holds_add, lemma_holds_at};
use super::splice::basic::{b_collection, b_entry, b_value, lemma_sound_to, within};
use super::splice::growth::{frame_is, good, kept, lemma_ended, lemma_grow_key, lemma_grow_open};
use super::splice::ends::lemma_token_bd;
use super::steps::{
    step_bare, step_content_flow, step_content_scalar, step_entry, step_first_entry, step_flow_or_map, step_map_end,
    step_map_from, step_map_more, step_node_below, step_node_here, step_scalar, step_value_here,
};
use super::naming::lemma_none_before;
use super::edits::{law_remove_is_exact, law_remove_refuses_nothing_else, leads_its_line, whole_lines};
use super::values::lemma_entry;
use super::streams::lemma_start;
use super::unfold::unfold_flow_collection;
use crate::edit::apply::{
    applied, carried_out, diff, diff_entries, find_from, new_keys, shown, steps_path, ChangeView, Diff, OpView,
    StepView,
};
use crate::edit::doc::removed;
use crate::edit::set::OptsView;
use crate::edit::locate::{descend, entry_from, followed, found_node, in_flow, location, moved, resolved_path};
use crate::edit::sink::{grew, inside, width, EntryView, Extent, ShapeView, Tree};
use crate::edit::SegmentView;
use crate::emitter::{double_quoted, dq_body};
use crate::parser::grammar::{at_start, flow_collection, map_entry, map_rest, map_value, stream, St};
use crate::parser::layout::{bounds, col_at, doc_bound, indent_at, lemma_col, moves, past_break, past_filler, Fail};
use crate::parser::{bom_len, past_bom};
use crate::parser::tokens::{past_blank_lines, plain_folded, token, Token};
use crate::patterns::is_ctrl;
use crate::text::{
    at, is_blank, is_break, is_text, lemma_bd_ascii, lemma_bd_ends, lemma_run, on_char, run, Class, COLON, COMMA,
    DQUOTE, LBRACE, LBRACKET, LF, RBRACE, RBRACKET, SPACE,
};
use crate::error::ErrorView;
use crate::value::{is_merge_key, scalar_text, Val};

verus! {

broadcast use {moves, bounds};

/// Whether nothing of a style breaks a line.
pub open spec fn on_line(y: Style) -> bool {
    forall|i: int| 0 <= i < y.gap.len() ==> is_blank(#[trigger] y.gap[i])
}

/// An entry on a line of its own: its key in quotes, its value in flow style.
pub open spec fn line_form(kv: (Val, Val), y: Style) -> Seq<u8> {
    double_quoted(kv.0->Str_0) + (seq![COLON, SPACE] + (flow_form(kv.1, y) + seq![LF]))
}

/// The entries from `j` on.
pub open spec fn lines_form(ps: Seq<(Val, Val)>, j: int, y: Style) -> Seq<u8>
    decreases ps.len() - j,
{
    if !(0 <= j < ps.len()) {
        Seq::empty()
    } else {
        line_form(ps[j], y) + lines_form(ps, j + 1, y)
    }
}

/// Whether the entries can be written so: each has a string of its own as its key.
pub open spec fn line_map(ps: Seq<(Val, Val)>) -> bool {
    &&& faithful(Val::Dict(ps)) && flow_plain(Val::Dict(ps))
    &&& forall|i: int| 0 <= i < ps.len() ==> (#[trigger] ps[i]).0 is Str
    &&& forall|i: int, j: int| 0 <= i < j < ps.len() ==> (#[trigger] ps[i]).0 != (#[trigger] ps[j]).0
}

/// Whether no byte of `t` breaks a line.
pub open spec fn unbroken(t: Seq<u8>) -> bool {
    forall|i: int| 0 <= i < t.len() ==> !is_break(#[trigger] t[i])
}

proof fn lemma_unbroken_add(a: Seq<u8>, b: Seq<u8>)
    requires
        unbroken(a),
        unbroken(b),
    ensures
        unbroken(a + b),
{
    assert forall|i: int| 0 <= i < (a + b).len() implies !is_break(#[trigger] (a + b)[i]) by {
        if i < a.len() {
            assert(!is_break(a[i]));
        } else {
            assert(!is_break(b[i - a.len()]));
        }
    }
}

pub(crate) proof fn lemma_quoted_unbroken(t: Seq<u8>)
    ensures
        unbroken(double_quoted(t)),
{
    lemma_dq_line(t);
    lemma_unbroken_add(seq![DQUOTE], dq_body(t));
    lemma_unbroken_add(seq![DQUOTE] + dq_body(t), seq![DQUOTE]);
}

/// A value in such a style is on one line.
pub(crate) proof fn lemma_unbroken(v: Val, y: Style)
    requires
        on_line(y),
        faithful(v),
        flow_plain(v),
    ensures
        unbroken(flow_form(v, y)),
    decreases v, 0int, 0int,
{
    let t = flow_form(v, y);
    match v {
        Val::List(vs) => {
            assert(decreases_to!(v => vs));
            assert(faithful_items(vs));
            assert forall|i: int| 0 <= i < vs.len() implies faithful(#[trigger] vs[i]) && flow_plain(vs[i]) by {}
            lemma_items_unbroken(vs, 0, y);
            lemma_unbroken_add(seq![LBRACKET], items_form(vs, 0, y));
        },
        Val::Dict(ps) => {
            assert(decreases_to!(v => ps));
            lemma_pairs_unbroken(ps, 0, y);
            lemma_unbroken_add(seq![LBRACE], pairs_form(ps, 0, y));
        },
        Val::Str(x) if y.quotes || !can_be_bare(x) => {
            lemma_quoted_unbroken(x);
        },
        _ => {
            if !(v is Str) {
                lemma_plain_scalar(v, Seq::empty());
            }
            assert forall|i: int| 0 <= i < t.len() implies !is_break(#[trigger] t[i]) by {
                assert(!is_ctrl(t[i]));
                assert(t.contains(t[i]));
            }
        },
    }
}

proof fn lemma_items_unbroken(vs: Seq<Val>, j: int, y: Style)
    requires
        on_line(y),
        0 <= j <= vs.len(),
        forall|i: int| 0 <= i < vs.len() ==> faithful(#[trigger] vs[i]) && flow_plain(vs[i]),
    ensures
        unbroken(items_form(vs, j, y)),
    decreases vs, 0int, vs.len() - j,
{
    let g = y.gap;
    assert(unbroken(g)) by {
        assert forall|i: int| 0 <= i < g.len() implies !is_break(#[trigger] g[i]) by {
            assert(is_blank(g[i]));
        }
    }
    if j == vs.len() {
        lemma_unbroken_add(g, seq![RBRACKET]);
    } else {
        let f = flow_form(vs[j], y);
        assert(decreases_to!(vs => vs[j]));
        lemma_unbroken(vs[j], y);
        lemma_items_unbroken(vs, j + 1, y);
        lemma_unbroken_add(seq![COMMA], items_form(vs, j + 1, y));
        let rest = if j + 1 == vs.len() && !y.trail {
            seq![RBRACKET]
        } else {
            seq![COMMA] + items_form(vs, j + 1, y)
        };
        lemma_unbroken_add(g, f);
        lemma_unbroken_add(g + f, g);
        lemma_unbroken_add(g + f + g, rest);
    }
}

proof fn lemma_pairs_unbroken(ps: Seq<(Val, Val)>, j: int, y: Style)
    requires
        on_line(y),
        0 <= j <= ps.len(),
        faithful(Val::Dict(ps)),
        flow_plain(Val::Dict(ps)),
    ensures
        unbroken(pairs_form(ps, j, y)),
    decreases ps, 0int, ps.len() - j,
{
    let g = y.gap;
    assert(unbroken(g)) by {
        assert forall|i: int| 0 <= i < g.len() implies !is_break(#[trigger] g[i]) by {
            assert(is_blank(g[i]));
        }
    }
    if j == ps.len() {
        lemma_unbroken_add(g, seq![RBRACE]);
    } else {
        let a = flow_form(ps[j].0, y);
        let b = flow_form(ps[j].1, y);
        lemma_faithful_pair(ps, j);
        assert(flow_plain(ps[j].0) && flow_plain(ps[j].1));
        assert(decreases_to!(ps => ps[j]));
        assert(decreases_to!(ps[j] => ps[j].0));
        assert(decreases_to!(ps[j] => ps[j].1));
        lemma_unbroken(ps[j].0, y);
        lemma_unbroken(ps[j].1, y);
        lemma_pairs_unbroken(ps, j + 1, y);
        lemma_unbroken_add(seq![COMMA], pairs_form(ps, j + 1, y));
        let rest = if j + 1 == ps.len() && !y.trail {
            seq![RBRACE]
        } else {
            seq![COMMA] + pairs_form(ps, j + 1, y)
        };
        let c = seq![COLON, SPACE];
        assert(unbroken(c));
        lemma_unbroken_add(g, a);
        lemma_unbroken_add(g + a, g);
        lemma_unbroken_add(g + a + g, c);
        lemma_unbroken_add(g + a + g + c, g);
        lemma_unbroken_add(g + a + g + c + g, b);
        lemma_unbroken_add(g + a + g + c + g + b, g);
        lemma_unbroken_add(g + a + g + c + g + b + g, rest);
    }
}

/// Whether the node finished last has no anchor.
spec fn unanchored(t: Tree) -> bool {
    t.last is Some && 0 <= t.last->0 < t.nodes.len() && t.nodes[t.last->0].anchor is None
}

proof fn lemma_close_unanchored(t: Tree, p: int, s: Seq<u8>)
    requires
        t.stack.len() > 0,
    ensures
        unanchored(t.close(p, s)),
{
    reveal(Tree::close);
}

/// Whether what follows a line does not go on with it.
spec fn line_over(s: Seq<u8>, e: int) -> bool {
    &&& 0 <= e < s.len()
    &&& s[e] == LF
    &&& e + 1 == s.len() || s[e + 1] == DQUOTE
}

/// A scalar after a key is read.
proof fn lemma_scalar_there(v: Val, y: Style, s: Seq<u8>, x: St, n: int)
    requires
        y.ok(),
        faithful(v),
        flow_plain(v),
        !(v is List || v is Dict),
        holds(s, x.p, flow_form(v, y)),
        line_over(s, x.p + flow_form(v, y).len()),
    ensures
        ({
            let r = crate::parser::grammar::content(s, x, n, 1);
            &&& r is Ok
            &&& (r->Ok_0).0 == v
            &&& (r->Ok_0).1.p == x.p + flow_form(v, y).len()
            &&& (r->Ok_0).1.a == x.a
            &&& unanchored((r->Ok_0).1.t)
        }),
{
    let f = flow_form(v, y);
    let e = x.p + f.len();
    lemma_first_of_form(v, y, s, x.p);
    lemma_holds_at(s, x.p, f, 0);
    assert(run(s, e, Class::Blank) == e) by {
        lemma_run(s, e, Class::Blank);
    }
    assert(x.t.open(x.p, false).stack.len() > 0) by {
        reveal(Tree::open);
    }
    lemma_close_unanchored(x.t.open(x.p, false), e, s);
    match v {
        Val::Str(u) if y.quotes || !can_be_bare(u) => {
            law_double_quoted_reads_back(s, x.p, u);
            step_content_scalar(s, x, n, 1);
            step_scalar(s, x, n, 1, token(s, x.p)->Ok_0);
        },
        _ => {
            if !(v is Str) {
                lemma_plain_scalar(v, Seq::empty());
            }
            law_plain_reads_back(s, x.p, f);
            lemma_plain_start(s, x.p, f);
            assert(plain_folded(s, f, e, 1) == Ok::<_, Fail>((f, e))) by {
                assert(past_break(s, e) == e + 1);
                if e + 1 < s.len() {
                    lemma_run(s, e + 1, Class::Blank);
                    lemma_run(s, e + 1, Class::Spaces);
                    assert(run(s, e + 1, Class::Blank) == e + 1);
                    assert(run(s, e + 1, Class::Spaces) == e + 1);
                    assert(past_blank_lines(s, e + 1) == e + 1);
                }
            }
            step_content_scalar(s, x, n, 1);
            step_scalar(s, x, n, 1, token(s, x.p)->Ok_0);
        },
    }
}

/// A collection after a key is read.
proof fn lemma_flow_there(v: Val, y: Style, s: Seq<u8>, x: St, n: int)
    requires
        y.ok(),
        faithful(v),
        flow_plain(v),
        v is List || v is Dict,
        good(s, x),
        holds(s, x.p, flow_form(v, y)),
        line_over(s, x.p + flow_form(v, y).len()),
    ensures
        ({
            let r = crate::parser::grammar::content(s, x, n, 1);
            &&& r is Ok
            &&& (r->Ok_0).0 == v
            &&& (r->Ok_0).1.p == x.p + flow_form(v, y).len()
            &&& (r->Ok_0).1.a == x.a
            &&& unanchored((r->Ok_0).1.t)
        }),
{
    let f = flow_form(v, y);
    let e = x.p + f.len();
    lemma_holds_at(s, x.p, f, 0);
    assert(run(s, e, Class::Blank) == e) by {
        lemma_run(s, e, Class::Blank);
    }
    let outer = x.with(x.t.open(x.p, false));
    lemma_grow_open(s, x, false);
    lemma_flow_whole(v, y, s, outer);
    let (w, st0) = flow_collection(s, outer)->Ok_0;
    b_collection(s, outer);
    unfold_flow_collection(s, outer);
    step_content_flow(s, x, n, 1);
    step_flow_or_map(s, x, n, w, st0);
    reveal(grew);
    reveal(Tree::open);
    reveal(Tree::close);
    reveal(Tree::dissolve);
}

/// The value of a line is read.
proof fn lemma_line_value(v: Val, y: Style, s: Seq<u8>, st: St)
    requires
        y.ok(),
        faithful(v),
        flow_plain(v),
        good(s, st),
        0 <= st.p < s.len(),
        s[st.p] == SPACE,
        col_at(s, st.p) > 0,
        holds(s, st.p + 1, flow_form(v, y)),
        line_over(s, st.p + 1 + flow_form(v, y).len()),
    ensures
        ({
            let r = map_value(s, st, 0);
            &&& r is Ok
            &&& (r->Ok_0).0 == v
            &&& (r->Ok_0).1.p == st.p + 1 + flow_form(v, y).len()
            &&& (r->Ok_0).1.a == st.a
            &&& unanchored((r->Ok_0).1.t)
        }),
{
    let x = st.to(st.p + 1);
    lemma_first_of_form(v, y, s, x.p);
    lemma_bd_ascii(s, st.p);
    lemma_sound_to(s, st, st.p + 1);
    lemma_col(s, st.p, st.p + 1);
    lemma_run_to(s, st.p, Class::Blank, st.p + 1);
    step_value_here(s, st, 0);
    step_node_here(s, x, 1);
    let n = col_at(s, x.p);
    step_bare(s, x, n, 1);
    if v is List || v is Dict {
        lemma_flow_there(v, y, s, x, n);
    } else {
        lemma_scalar_there(v, y, s, x, n);
    }
}

/// Where the parts of a line stand.
proof fn lemma_line_spots(kv: (Val, Val), y: Style, s: Seq<u8>, p: int)
    requires
        holds(s, p, line_form(kv, y)),
    ensures
        ({
            let d = double_quoted(kv.0->Str_0);
            let c = p + d.len();
            let e = p + line_form(kv, y).len() - 1;
            &&& holds(s, p, d)
            &&& 0 <= p < c && c + 1 < s.len() && s[c] == COLON && s[c + 1] == SPACE
            &&& holds(s, c + 2, flow_form(kv.1, y))
            &&& e == c + 2 + flow_form(kv.1, y).len()
            &&& e < s.len() && s[e] == LF
            &&& s[p] == DQUOTE
        }),
{
    let d = double_quoted(kv.0->Str_0);
    let f = flow_form(kv.1, y);
    let c = p + d.len();
    lemma_holds_add(s, p, d, seq![COLON, SPACE] + (f + seq![LF]));
    lemma_holds_add(s, c, seq![COLON, SPACE], f + seq![LF]);
    lemma_holds_add(s, c + 2, f, seq![LF]);
    lemma_holds_at(s, p, d, 0);
    lemma_holds_at(s, c, seq![COLON, SPACE], 0);
    lemma_holds_at(s, c, seq![COLON, SPACE], 1);
    lemma_holds_at(s, c + 2 + f.len(), seq![LF], 0);
}

/// The entry that a line adds.
spec fn added(t: Tree, t1: Tree, p: int, c: int, k: Seq<u8>) -> bool {
    &&& unanchored(t1)
    &&& t.stack.len() > 0 && t1.stack.len() > 0
    &&& t1.stack.last().kind == t.stack.last().kind
    &&& t1.stack.last().entries == t.stack.last().entries.push(
        EntryView {
            key: Extent { a: p, b: c },
            text: Some(k),
            value: t1.last->0,
            span: Extent { a: p, b: t1.nodes[t1.last->0].span.b },
        },
    )
}

/// A line is read as one entry.
proof fn lemma_line_entry(kv: (Val, Val), y: Style, s: Seq<u8>, t0: Tree, start: int, st: St, entries: bool)
    requires
        y.ok(),
        faithful(kv.1),
        flow_plain(kv.1),
        kv.0 is Str,
        within(s, t0, start, st, false, entries),
        width(st.t) == 0,
        holds(s, st.p, line_form(kv, y)),
        line_over(s, st.p + line_form(kv, y).len() - 1),
    ensures
        ({
            let r = map_entry(s, st, 0);
            let st1 = (r->Ok_0).1;
            let c = st.p + double_quoted(kv.0->Str_0).len();
            &&& r is Ok
            &&& (r->Ok_0).0 == kv
            &&& st1.p == st.p + line_form(kv, y).len() - 1
            &&& st1.a == st.a
            &&& added(st.t, st1.t, st.p, c, kv.0->Str_0)
            &&& within(s, t0, start, st1, false, true)
            &&& kept(st.t, st1.t, st.p)
            &&& c < st1.p
        }),
{
    let k = kv.0->Str_0;
    let d = double_quoted(k);
    let p = st.p;
    let c = p + d.len();
    lemma_line_spots(kv, y, s, p);
    law_double_quoted_reads_back(s, p, k);
    let tok = token(s, p)->Ok_0;
    assert(tok == Token { quoted: true, text: k, end: c, p: c });
    assert(run(s, c, Class::Blank) == c) by {
        lemma_run(s, c, Class::Blank);
    }
    lemma_quoted_unbroken(k);
    assert forall|i: int| p <= i < c implies !is_break(#[trigger] s[i]) by {
        lemma_holds_at(s, p, d, i - p);
        assert(!is_break(d[i - p]));
    }
    lemma_line_same(s, p, c);
    lemma_col_after(s, c);
    lemma_bd_ascii(s, c);
    lemma_token_bd(s, p);
    lemma_sound_to(s, st, c + 1);
    let ext = Extent { a: p, b: c };
    lemma_grow_key(s, t0, start, st.to(c + 1), ext, Some(k), false, entries);
    let st0 = St { p: c + 1, t: st.t.key(ext, Some(k)), ..st };
    assert(st0 == st.to(c + 1).with(st.t.key(ext, Some(k))));
    lemma_line_value(kv.1, y, s, st0);
    let (v, st1) = map_value(s, st0, 0)->Ok_0;
    step_entry(s, st, 0, tok, v, st1);
    b_entry(s, t0, start, st, 0, entries);
    b_value(s, st0, 0);
    reveal(grew);
    reveal(Tree::key);
    reveal(inside);
}

/// Where line `j` begins.
pub open spec fn line_place(ps: Seq<(Val, Val)>, j: int, y: Style) -> int {
    lines_form(ps, 0, y).len() - lines_form(ps, j, y).len()
}

/// The lines from `j` on stand at the place of line `j`.
proof fn lemma_place_of(ps: Seq<(Val, Val)>, j: int, y: Style)
    requires
        0 <= j <= ps.len(),
    ensures
        holds(lines_form(ps, 0, y), line_place(ps, j, y), lines_form(ps, j, y)),
        j < ps.len() ==> line_place(ps, j + 1, y) == line_place(ps, j, y) + line_form(ps[j], y).len(),
        j < ps.len() ==> holds(lines_form(ps, 0, y), line_place(ps, j, y), line_form(ps[j], y)),
        j > 0 ==> line_place(ps, j, y) > 0 && lines_form(ps, 0, y)[line_place(ps, j, y) - 1] == LF,
    decreases j,
{
    let s = lines_form(ps, 0, y);
    let p = line_place(ps, j, y);
    if j == 0 {
        assert(s.subrange(0, s.len() as int) =~= s);
    } else {
        lemma_place_of(ps, j - 1, y);
        let q = line_place(ps, j - 1, y);
        let f = line_form(ps[j - 1], y);
        lemma_holds_add(s, q, f, lines_form(ps, j, y));
        lemma_line_spots(ps[j - 1], y, s, q);
    }
    if j < ps.len() {
        lemma_holds_add(s, p, line_form(ps[j], y), lines_form(ps, j + 1, y));
    }
}

/// A line ends before the next one, which begins with a quote.
proof fn lemma_line_over(ps: Seq<(Val, Val)>, j: int, y: Style)
    requires
        0 <= j < ps.len(),
    ensures
        line_over(lines_form(ps, 0, y), line_place(ps, j + 1, y) - 1),
{
    let s = lines_form(ps, 0, y);
    lemma_place_of(ps, j, y);
    lemma_line_spots(ps[j], y, s, line_place(ps, j, y));
    if j + 1 < ps.len() {
        lemma_place_of(ps, j + 1, y);
        lemma_line_spots(ps[j + 1], y, s, line_place(ps, j + 1, y));
    }
}

/// Whether entry `i` is that of line `i`.
spec fn entry_of(t: Tree, e: EntryView, ps: Seq<(Val, Val)>, i: int, y: Style) -> bool {
    &&& e.key.a == line_place(ps, i, y)
    &&& e.text == Some(ps[i].0->Str_0)
    &&& 0 <= e.value < t.nodes.len()
    &&& t.nodes[e.value].anchor is None
    &&& t.nodes[e.value].span.b < line_place(ps, i + 1, y)
    &&& e.key.a < e.key.b
    &&& forall|m: int|
        0 <= m < t.nodes.len() ==> (#[trigger] t.nodes[m]).span.b <= e.key.a || t.nodes[m].span.a >= e.key.a
}

/// Whether the first `j` lines have been read into the innermost open node.
spec fn entered(t: Tree, ps: Seq<(Val, Val)>, j: int, y: Style) -> bool {
    &&& t.stack.len() > 0
    &&& t.stack.last().kind is Literal
    &&& t.stack.last().entries.len() == j
    &&& forall|i: int| 0 <= i < j ==> entry_of(t, #[trigger] t.stack.last().entries[i], ps, i, y)
}

/// One more line has been read.
proof fn lemma_entered(ps: Seq<(Val, Val)>, j: int, y: Style, s: Seq<u8>, st: St, st1: St, c: int)
    requires
        0 <= j < ps.len(),
        entered(st.t, ps, j, y),
        good(s, st),
        good(s, st1),
        st.p == line_place(ps, j, y),
        st1.p == line_place(ps, j + 1, y) - 1,
        st.p < c,
        added(st.t, st1.t, st.p, c, ps[j].0->Str_0),
        kept(st.t, st1.t, st.p),
    ensures
        entered(st1.t, ps, j + 1, y),
{
    let es = st.t.stack.last().entries;
    let fs = st1.t.stack.last().entries;
    reveal(kept);
    lemma_ended(s, st.t, st.p);
    lemma_ended(s, st1.t, st1.p);
    assert forall|i: int| 0 <= i < j + 1 implies entry_of(st1.t, #[trigger] fs[i], ps, i, y) by {
        if i < j {
            assert(fs[i] == es[i]);
            assert(entry_of(st.t, es[i], ps, i, y));
            lemma_places_rise(ps, i, j, y);
            assert forall|m: int| 0 <= m < st1.t.nodes.len() implies (#[trigger] st1.t.nodes[m]).span.b <= es[i].key.a
                || st1.t.nodes[m].span.a >= es[i].key.a by {
                if m < st.t.nodes.len() {
                    assert(st1.t.nodes[m] == st.t.nodes[m]);
                }
            }
            assert(st1.t.nodes[es[i].value] == st.t.nodes[es[i].value]);
        } else {
            assert(st1.t.nodes[fs[j].value].span.b <= st1.p);
            assert forall|m: int| 0 <= m < st1.t.nodes.len() implies (#[trigger] st1.t.nodes[m]).span.b <= fs[j].key.a
                || st1.t.nodes[m].span.a >= fs[j].key.a by {
                if m < st.t.nodes.len() {
                    assert(st1.t.nodes[m] == st.t.nodes[m]);
                    assert(st.t.nodes[m].span.b <= st.p);
                }
            }
        }
    }
}

proof fn lemma_places_rise(ps: Seq<(Val, Val)>, i: int, j: int, y: Style)
    requires
        0 <= i <= j <= ps.len(),
    ensures
        line_place(ps, i, y) <= line_place(ps, j, y),
    decreases j - i,
{
    if i < j {
        lemma_place_of(ps, j - 1, y);
        lemma_places_rise(ps, i, j - 1, y);
    }
}

/// The lines from `j` on are read.
proof fn lemma_lines_rest(ps: Seq<(Val, Val)>, j: int, y: Style, t0: Tree, st: St)
    requires
        y.ok(),
        line_map(ps),
        0 < j <= ps.len(),
        within(lines_form(ps, 0, y), t0, 0, st, false, true),
        entered(st.t, ps, j, y),
        st.p == line_place(ps, j, y) - 1,
    ensures
        ({
            let s = lines_form(ps, 0, y);
            let r = map_rest(s, st, 0, ps.take(j));
            let st1 = (r->Ok_0).1;
            &&& r is Ok
            &&& (r->Ok_0).0 == ps
            &&& st1.p == s.len()
            &&& st1.a == st.a
            &&& entered(st1.t, ps, ps.len() as int, y)
            &&& within(s, t0, 0, st1, false, true)
        }),
    decreases ps.len() - j,
{
    let s = lines_form(ps, 0, y);
    let p = line_place(ps, j, y);
    lemma_place_of(ps, j, y);
    assert(s[p - 1] == LF);
    assert(past_filler(s, st.p) == past_filler(s, p)) by {
        assert(run(s, st.p, Class::Blank) == st.p);
        assert(run(s, st.p, Class::Line) == st.p);
    }
    lemma_bd_ascii(s, p - 1);
    lemma_sound_to(s, st, p);
    let at = st.to(p);
    if j == ps.len() {
        assert(past_filler(s, p) == p);
        step_map_end(s, st, 0, ps);
        assert(ps.take(j) =~= ps);
    } else {
        lemma_line_spots(ps[j], y, s, p);
        lemma_line_over(ps, j, y);
        lemma_faithful_pair(ps, j);
        assert(flow_plain(ps[j].0) && flow_plain(ps[j].1));
        lemma_start_line(s, p);
        lemma_line_entry(ps[j], y, s, t0, 0, at, true);
        let (kv, st1) = map_entry(s, at, 0)->Ok_0;
        step_map_more(s, st, 0, ps.take(j), kv, st1);
        assert(ps.take(j).push(kv) =~= ps.take(j + 1));
        lemma_entered(ps, j, y, s, at, st1, p + double_quoted(ps[j].0->Str_0).len());
        lemma_lines_rest(ps, j + 1, y, t0, st1);
    }
}

/// A line that begins with a quote.
proof fn lemma_start_line(s: Seq<u8>, p: int)
    requires
        0 <= p < s.len(),
        s[p] == DQUOTE,
    ensures
        past_filler(s, p) == p,
        indent_at(s, p) == Some(0int),
        !doc_bound(s, p),
{
    assert(spaces(0) =~= Seq::empty());
    assert(s.subrange(p, p) =~= spaces(0));
    lemma_line_start(s, p, 0);
}

/// What lines are read as, and the tree of it.
proof fn lemma_lines(ps: Seq<(Val, Val)>, y: Style) -> (t: Tree)
    requires
        y.ok(),
        line_map(ps),
        ps.len() > 0,
        is_text(lines_form(ps, 0, y)),
    ensures
        ({
            let s = lines_form(ps, 0, y);
            let u = (stream(s)->Ok_0).1.t;
            &&& stream(s) is Ok
            &&& (stream(s)->Ok_0).0 == seq![Val::Dict(ps)]
            &&& entered(t, ps, ps.len() as int, y)
            &&& u == t.close(s.len() as int, s)
            &&& t.stack.len() == 1 && t.roots.len() == 0
            &&& !t.stack.last().delimited
        }),
{
    let s = lines_form(ps, 0, y);
    let st = at_start();
    let v = Val::Dict(ps);
    lemma_place_of(ps, 0, y);
    lemma_line_spots(ps[0], y, s, 0);
    lemma_line_over(ps, 0, y);
    lemma_faithful_pair(ps, 0);
    assert(flow_plain(ps[0].0) && flow_plain(ps[0].1));
    lemma_start(s);
    lemma_grow_open(s, st, false);
    let inner = st.with(st.t.open(0, false));
    assert(inner.t.stack.len() == 1 && inner.t.stack.last().kind is Literal && inner.t.stack.last().entries.len() == 0) by {
        reveal(Tree::open);
    }
    lemma_line_entry(ps[0], y, s, st.t, 0, inner, false);
    let (kv, st1) = map_entry(s, inner, 0)->Ok_0;
    lemma_entered(ps, 0, y, s, inner, st1, double_quoted(ps[0].0->Str_0).len() as int);
    lemma_lines_rest(ps, 1, y, st.t, st1);
    assert(ps.take(1) =~= seq![kv]);
    let (all, st2) = map_rest(s, st1, 0, seq![kv])->Ok_0;
    step_content_scalar(s, st, 0, 0);
    step_first_entry(s, st, 0, 0, kv, st1);
    step_map_from(s, 0, st1, 0, seq![kv]);
    step_bare(s, st, 0, 0);
    lemma_start_line(s, 0);
    assert(st.to(0) == st);
    step_node_below(s, st, 0);
    lemma_merged(v);
    lemma_one_document(s, v);
    reveal(inside);
    reveal(frame_is);
    st2.t
}

/// Without entry `i`, the lines are those before it and those after it.
proof fn lemma_without(ps: Seq<(Val, Val)>, i: int, j: int, y: Style)
    requires
        0 <= j <= i < ps.len(),
    ensures
        lines_form(ps.remove(i), j, y) == lines_form(ps, 0, y).subrange(
            line_place(ps, j, y),
            line_place(ps, i, y),
        ) + lines_form(ps, i + 1, y),
    decreases i - j,
{
    let qs = ps.remove(i);
    let s = lines_form(ps, 0, y);
    lemma_place_of(ps, j, y);
    lemma_places_rise(ps, j, i, y);
    if j == i {
        lemma_same_rest(ps, i, i, y);
        assert(s.subrange(line_place(ps, j, y), line_place(ps, i, y)) =~= Seq::empty());
    } else {
        lemma_without(ps, i, j + 1, y);
        lemma_places_rise(ps, j + 1, i, y);
        assert(qs[j] == ps[j]);
        let a = line_place(ps, j, y);
        let b = line_place(ps, j + 1, y);
        let c = line_place(ps, i, y);
        lemma_place_of(ps, i, y);
        assert(s.subrange(a, c) =~= s.subrange(a, b) + s.subrange(b, c));
    }
}

proof fn lemma_same_rest(ps: Seq<(Val, Val)>, i: int, j: int, y: Style)
    requires
        0 <= i <= j < ps.len(),
    ensures
        lines_form(ps.remove(i), j, y) == lines_form(ps, j + 1, y),
    decreases ps.len() - j,
{
    if j + 1 < ps.len() {
        lemma_same_rest(ps, i, j + 1, y);
        assert(ps.remove(i)[j] == ps[j + 1]);
    }
}

/// Without one of its entries, a mapping of lines is one still.
proof fn lemma_line_map_without(ps: Seq<(Val, Val)>, i: int)
    requires
        line_map(ps),
        0 <= i < ps.len(),
    ensures
        line_map(ps.remove(i)),
{
    let qs = ps.remove(i);
    assert forall|j: int| 0 <= j < qs.len() implies faithful((#[trigger] qs[j]).0) && faithful(qs[j].1)
        && !is_merge_key(qs[j].0) && flow_plain(qs[j].0) && flow_plain(qs[j].1) && qs[j].0 is Str by {
        let m = if j < i {
            j
        } else {
            j + 1
        };
        assert(qs[j] == ps[m]);
        lemma_faithful_pair(ps, m);
        assert(flow_plain(ps[m].0));
    }
    assert(faithful_pairs(qs));
    assert(faithful(Val::Dict(qs)));
    assert(flow_plain(Val::Dict(qs)));
    assert forall|a: int, b: int| 0 <= a < b < qs.len() implies (#[trigger] qs[a]).0 != (#[trigger] qs[b]).0 by {
        let m = if a < i {
            a
        } else {
            a + 1
        };
        let n = if b < i {
            b
        } else {
            b + 1
        };
        assert(qs[a] == ps[m] && qs[b] == ps[n]);
    }
}

/// The path to an entry leads to that of its line.
proof fn lemma_path_to_line(ps: Seq<(Val, Val)>, i: int, y: Style, t: Tree, u: Tree)
    requires
        line_map(ps),
        0 <= i < ps.len(),
        entered(t, ps, ps.len() as int, y),
        u == t.close(lines_form(ps, 0, y).len() as int, lines_form(ps, 0, y)),
        t.stack.len() == 1,
        t.roots.len() == 0,
        !t.stack.last().delimited,
    ensures
        ({
            let f = resolved_path(u, seq![SegmentView::Key(ps[i].0->Str_0)], false);
            let e = t.stack.last().entries[i];
            &&& f is Some
            &&& (f->0).node == Some(e.value)
            &&& !(f->0).truncated
            &&& (f->0).located.anchor is None
            &&& (f->0).enclosing is None
            &&& (f->0).key == Some(e.key)
            &&& (f->0).located.span == t.nodes[e.value].span
            &&& !in_flow(u, e.key)
        }),
{
    let s = lines_form(ps, 0, y);
    let k = ps[i].0->Str_0;
    let path = seq![SegmentView::Key(k)];
    let es = t.stack.last().entries;
    reveal(Tree::close);
    let root = t.nodes.len() as int;
    assert(u.roots[0] == root);
    assert(u.nodes[root].shape == ShapeView::Entries(es));
    assert(followed(u, root) == Some(root));
    assert(entry_of(t, es[i], ps, i, y));
    lemma_none_before(es, k, 0);
    lemma_entry(es, k, 0);
    if let Some(j) = entry_from(es, k, 0) {
        assert(entry_of(t, es[j], ps, j, y));
        if j != i {
            assert(ps[j].0 is Str && ps[i].0 is Str);
            assert(ps[j].0 != ps[i].0);
        }
    }
    assert(entry_from(es, k, 0) == Some(i));
    assert(path.skip(1) =~= Seq::empty());
    assert(u.nodes[es[i].value] == t.nodes[es[i].value]);
    assert(descend(u, es[i].value, path.skip(1), false, None, Some(es[i].key)) == Some(
        found_node(u, es[i].value, None, Some(es[i].key), false),
    ));
    if in_flow(u, es[i].key) {
        let m = choose|m: int|
            0 <= m < u.nodes.len() && (#[trigger] u.nodes[m]).delimited && u.nodes[m].span.a < es[i].key.a && es[i].key.b
                < u.nodes[m].span.b;
        if m < root {
            assert(u.nodes[m] == t.nodes[m]);
        }
    }
}

/// A mapping with an entry on each line is read as that mapping, and removing an entry
/// from it leaves the same text without that entry's line, which is read as the mapping
/// without that entry: every other entry keeps its key, its value and its place.
pub proof fn law_remove_leaves_the_others(ps: Seq<(Val, Val)>, i: int, y: Style)
    requires
        y.ok(),
        on_line(y),
        line_map(ps),
        0 <= i < ps.len(),
        ps.len() > 1,
        is_text(lines_form(ps, 0, y)),
    ensures
        ({
            let s = lines_form(ps, 0, y);
            let out = lines_form(ps.remove(i), 0, y);
            &&& stream(s) is Ok
            &&& (stream(s)->Ok_0).0 == seq![Val::Dict(ps)]
            &&& removed(s, seq![SegmentView::Key(ps[i].0->Str_0)]) == Ok::<_, ErrorView>(out)
            &&& stream(out) is Ok
            &&& (stream(out)->Ok_0).0 == seq![Val::Dict(ps.remove(i))]
        }),
{
    lemma_removed_line(ps, i, y);
    lemma_line_map_without(ps, i);
    lemma_text_without(ps, i, y);
    let t = lemma_lines(ps.remove(i), y);
}

/// Without one of its lines, a text is a text still.
proof fn lemma_text_without(ps: Seq<(Val, Val)>, i: int, y: Style)
    requires
        0 <= i < ps.len(),
        is_text(lines_form(ps, 0, y)),
    ensures
        is_text(lines_form(ps.remove(i), 0, y)),
{
    let s = lines_form(ps, 0, y);
    let p = line_place(ps, i, y);
    let q = line_place(ps, i + 1, y);
    lemma_place_of(ps, i, y);
    lemma_place_of(ps, i + 1, y);
    lemma_bd_ends(s);
    lemma_bd_ascii(s, q - 1);
    if i > 0 {
        lemma_bd_ascii(s, p - 1);
    }
    lemma_without(ps, i, 0, y);
    reveal(is_text);
    reveal(on_char);
    valid_utf8_split(s, p);
    valid_utf8_split(s, q);
    valid_utf8_concat(s.subrange(0, p), s.subrange(q, s.len() as int));
}

/// Nothing stands before the start of a line.
proof fn lemma_leads(s: Seq<u8>, p: int)
    requires
        bom_len(s) == 0,
        0 <= p <= s.len(),
        p == 0 || is_break(s[p - 1]),
    ensures
        leads_its_line(s, p),
{
    let before = s[p - 1];
    assert(p == bom_len(s) || is_break(s[p - 1]));
}

/// The lines from that of the key to that of the value are line `i`.
proof fn lemma_cut_line(ps: Seq<(Val, Val)>, i: int, y: Style, a: int, p: int, e: int, b: int)
    requires
        on_line(y),
        line_map(ps),
        0 <= i < ps.len(),
        p == line_place(ps, i, y),
        p < e < line_place(ps, i + 1, y),
        bom_len(lines_form(ps, 0, y)) == 0,
        whole_lines(lines_form(ps, 0, y), a, p, e, b),
    ensures
        a == p,
        b == line_place(ps, i + 1, y),
{
    let s = lines_form(ps, 0, y);
    let q = line_place(ps, i + 1, y);
    lemma_place_of(ps, i, y);
    lemma_place_of(ps, i + 1, y);
    if a < p {
        assert(s[p - 1] == SPACE);
    }
    assert(s[q - 1] == LF);
    if b < q {
        assert(is_break(s[b - 1]));
        lemma_line_unbroken(ps, i, y, b - 1);
    } else if b > q {
        assert(is_break(s[q - 1]));
    }
}

/// Whether `out` is `s` without the lines from that of `p` to that of `e`.
spec fn cut_from(s: Seq<u8>, out: Seq<u8>, p: int, e: int) -> bool {
    exists|a: int, b: int| #[trigger] whole_lines(s, a, p, e, b) && out == s.take(a) + s.skip(b)
}

/// An entry of a line is removed, with the lines that it lies on.
proof fn lemma_removes(ps: Seq<(Val, Val)>, i: int, y: Style) -> (r: (Seq<u8>, int))
    requires
        y.ok(),
        line_map(ps),
        0 <= i < ps.len(),
        is_text(lines_form(ps, 0, y)),
    ensures
        stream(lines_form(ps, 0, y)) is Ok,
        (stream(lines_form(ps, 0, y))->Ok_0).0 == seq![Val::Dict(ps)],
        removed(lines_form(ps, 0, y), seq![SegmentView::Key(ps[i].0->Str_0)]) == Ok::<_, ErrorView>(r.0),
        cut_from(lines_form(ps, 0, y), r.0, line_place(ps, i, y), r.1),
        line_place(ps, i, y) < r.1 < line_place(ps, i + 1, y),
        bom_len(lines_form(ps, 0, y)) == 0,
{
    let s = lines_form(ps, 0, y);
    let path = seq![SegmentView::Key(ps[i].0->Str_0)];
    let t = lemma_lines(ps, y);
    let u = (stream(s)->Ok_0).1.t;
    lemma_path_to_line(ps, i, y, t, u);
    let e = t.stack.last().entries[i];
    assert(entry_of(t, e, ps, i, y));
    let p = line_place(ps, i, y);
    lemma_place_of(ps, 0, y);
    lemma_line_spots(ps[0], y, s, 0);
    assert(bom_len(s) == 0);
    assert(past_bom(s) =~= s);
    lemma_place_of(ps, i, y);
    lemma_line_spots(ps[i], y, s, p);
    lemma_leads(s, p);
    law_remove_refuses_nothing_else(s, path);
    let out = removed(s, path)->Ok_0;
    assert(removed(s, path) is Ok);
    law_remove_is_exact(s, path, out);
    let value = (location(s, path)->Ok_0->0).span;
    assert(moved(e.key, 0) == e.key);
    assert(value.b == t.nodes[e.value].span.b);
    assert(cut_from(s, out, p, value.b));
    (out, value.b)
}

/// What is removed is one line.
proof fn lemma_removed_line(ps: Seq<(Val, Val)>, i: int, y: Style)
    requires
        y.ok(),
        on_line(y),
        line_map(ps),
        0 <= i < ps.len(),
        is_text(lines_form(ps, 0, y)),
    ensures
        stream(lines_form(ps, 0, y)) is Ok,
        (stream(lines_form(ps, 0, y))->Ok_0).0 == seq![Val::Dict(ps)],
        removed(lines_form(ps, 0, y), seq![SegmentView::Key(ps[i].0->Str_0)]) == Ok::<_, ErrorView>(
            lines_form(ps.remove(i), 0, y),
        ),
{
    let (out, e) = lemma_removes(ps, i, y);
    lemma_cut_out(ps, i, y, out, e);
}

proof fn lemma_cut_out(ps: Seq<(Val, Val)>, i: int, y: Style, out: Seq<u8>, e: int)
    requires
        on_line(y),
        line_map(ps),
        0 <= i < ps.len(),
        cut_from(lines_form(ps, 0, y), out, line_place(ps, i, y), e),
        line_place(ps, i, y) < e < line_place(ps, i + 1, y),
        bom_len(lines_form(ps, 0, y)) == 0,
    ensures
        out == lines_form(ps.remove(i), 0, y),
{
    let s = lines_form(ps, 0, y);
    let p = line_place(ps, i, y);
    let q = line_place(ps, i + 1, y);
    let (a, b) = choose|a: int, b: int| #[trigger] whole_lines(s, a, p, e, b) && out == s.take(a) + s.skip(b);
    lemma_cut_line(ps, i, y, a, p, e, b);
    lemma_place_of(ps, i, y);
    lemma_place_of(ps, i + 1, y);
    lemma_without(ps, i, 0, y);
    assert(s.take(p) =~= s.subrange(line_place(ps, 0, y), p));
    assert(s.skip(q) =~= s.subrange(q, s.len() as int));
}

/// No line is broken before its end.
proof fn lemma_line_unbroken(ps: Seq<(Val, Val)>, i: int, y: Style, x: int)
    requires
        on_line(y),
        line_map(ps),
        0 <= i < ps.len(),
        line_place(ps, i, y) <= x < line_place(ps, i + 1, y) - 1,
    ensures
        !is_break(lines_form(ps, 0, y)[x]),
{
    let s = lines_form(ps, 0, y);
    let p = line_place(ps, i, y);
    let d = double_quoted(ps[i].0->Str_0);
    let c = seq![COLON, SPACE];
    let f = flow_form(ps[i].1, y);
    lemma_place_of(ps, i, y);
    lemma_faithful_pair(ps, i);
    assert(flow_plain(ps[i].0) && flow_plain(ps[i].1));
    lemma_quoted_unbroken(ps[i].0->Str_0);
    lemma_unbroken(ps[i].1, y);
    assert(unbroken(c));
    lemma_unbroken_add(d, c);
    lemma_unbroken_add(d + c, f);
    assert(line_form(ps[i], y) =~= d + c + f + seq![LF]);
    lemma_holds_at(s, p, line_form(ps[i], y), x - p);
    assert(line_form(ps[i], y)[x - p] == (d + c + f)[x - p]);
}

/// The entries among the first `j` that stay.
pub open spec fn staying(ps: Seq<(Val, Val)>, stay: Seq<bool>, j: int) -> Seq<(Val, Val)>
    decreases j,
{
    if j <= 0 {
        Seq::empty()
    } else if stay[j - 1] {
        staying(ps, stay, j - 1).push(ps[j - 1])
    } else {
        staying(ps, stay, j - 1)
    }
}

/// The removals of those among the first `j` that do not.
spec fn removals(ps: Seq<(Val, Val)>, stay: Seq<bool>, j: int) -> Seq<(Seq<StepView>, OpView)>
    decreases j,
{
    if j <= 0 {
        Seq::empty()
    } else if stay[j - 1] {
        removals(ps, stay, j - 1)
    } else {
        removals(ps, stay, j - 1).push((seq![StepView::Key(ps[j - 1].0->Str_0)], OpView::Remove))
    }
}

/// The entries when the first `j` have been dealt with.
spec fn midway(ps: Seq<(Val, Val)>, stay: Seq<bool>, j: int) -> Seq<(Val, Val)> {
    staying(ps, stay, j) + ps.skip(j)
}

/// Whether an entry is one of the first `j`, and stays.
spec fn came_from(ps: Seq<(Val, Val)>, stay: Seq<bool>, j: int, e: (Val, Val)) -> bool {
    exists|m: int| 0 <= m < j && stay[m] && #[trigger] ps[m] == e
}

/// What stays was there.
proof fn lemma_staying(ps: Seq<(Val, Val)>, stay: Seq<bool>, j: int)
    requires
        0 <= j <= ps.len(),
        ps.len() == stay.len(),
    ensures
        forall|i: int|
            0 <= i < staying(ps, stay, j).len() ==> came_from(ps, stay, j, #[trigger] staying(ps, stay, j)[i]),
        forall|m: int| 0 <= m < j && stay[m] ==> staying(ps, stay, j).contains(#[trigger] ps[m]),
    decreases j,
{
    if j > 0 {
        lemma_staying(ps, stay, j - 1);
        let less = staying(ps, stay, j - 1);
        let more = staying(ps, stay, j);
        assert forall|i: int| 0 <= i < more.len() implies came_from(ps, stay, j, #[trigger] more[i]) by {
            if i < less.len() {
                assert(more[i] == less[i]);
                assert(came_from(ps, stay, j - 1, less[i]));
                let m = choose|m: int| 0 <= m < j - 1 && stay[m] && #[trigger] ps[m] == less[i];
                assert(ps[m] == more[i]);
            } else {
                assert(more[i] == ps[j - 1]);
            }
        }
        assert forall|m: int| 0 <= m < j && stay[m] implies more.contains(#[trigger] ps[m]) by {
            if m < j - 1 {
                let i = choose|i: int| 0 <= i < less.len() && less[i] == ps[m];
                assert(more[i] == ps[m]);
            } else {
                assert(more[more.len() - 1] == ps[m]);
            }
        }
    }
}

/// One entry is dealt with.
proof fn lemma_midway(ps: Seq<(Val, Val)>, stay: Seq<bool>, j: int)
    requires
        0 <= j < ps.len(),
        ps.len() == stay.len(),
    ensures
        ({
            let i = staying(ps, stay, j).len() as int;
            &&& 0 <= i < midway(ps, stay, j).len()
            &&& midway(ps, stay, j)[i] == ps[j]
            &&& midway(ps, stay, j + 1) == if stay[j] {
                midway(ps, stay, j)
            } else {
                midway(ps, stay, j).remove(i)
            }
        }),
{
    let now = midway(ps, stay, j);
    let next = midway(ps, stay, j + 1);
    let i = staying(ps, stay, j).len() as int;
    assert(now[i] == ps.skip(j)[0]);
    if stay[j] {
        assert(next =~= now);
    } else {
        assert(next =~= now.remove(i));
    }
}

/// One removal more.
proof fn lemma_carry_one(
    s: Seq<u8>,
    ops: Seq<(Seq<StepView>, OpView)>,
    k: int,
    opts: OptsView,
    now: Seq<u8>,
    done: Seq<ChangeView>,
    key: Seq<u8>,
    out: Seq<u8>,
)
    requires
        0 <= k < ops.len(),
        carried_out(s, ops, k, opts) == Ok::<_, ErrorView>((now, done)),
        ops[k] == (seq![StepView::Key(key)], OpView::Remove),
        removed(now, seq![SegmentView::Key(key)]) == Ok::<_, ErrorView>(out),
    ensures
        carried_out(s, ops, k + 1, opts) == Ok::<_, ErrorView>(
            (out, done.push(ChangeView::Removed { path: shown(seq![StepView::Key(key)]) })),
        ),
{
    assert(steps_path(seq![StepView::Key(key)]) =~= seq![SegmentView::Key(key)]);
}

/// The first `j` entries are dealt with, and the text is that of the others.
proof fn lemma_dealt_with(
    ps: Seq<(Val, Val)>,
    stay: Seq<bool>,
    j: int,
    y: Style,
    opts: OptsView,
    ops: Seq<(Seq<StepView>, OpView)>,
) -> (changes: Seq<ChangeView>)
    requires
        y.ok(),
        on_line(y),
        line_map(ps),
        ps.len() == stay.len(),
        0 <= j <= ps.len(),
        is_text(lines_form(ps, 0, y)),
        removals(ps, stay, j).len() <= ops.len(),
        ops.take(removals(ps, stay, j).len() as int) == removals(ps, stay, j),
    ensures
        line_map(midway(ps, stay, j)),
        is_text(lines_form(midway(ps, stay, j), 0, y)),
        carried_out(lines_form(ps, 0, y), ops, removals(ps, stay, j).len() as int, opts) == Ok::<_, ErrorView>(
            (lines_form(midway(ps, stay, j), 0, y), changes),
        ),
        changes.len() == removals(ps, stay, j).len(),
    decreases j,
{
    if j == 0 {
        assert(midway(ps, stay, 0) =~= ps);
        Seq::empty()
    } else {
        let k = removals(ps, stay, j - 1).len() as int;
        let now = midway(ps, stay, j - 1);
        let rs = removals(ps, stay, j);
        assert(ops.take(k) =~= removals(ps, stay, j - 1)) by {
            assert(ops.take(k) =~= ops.take(rs.len() as int).take(k));
            assert(rs.take(k) =~= removals(ps, stay, j - 1));
        }
        let before = lemma_dealt_with(ps, stay, j - 1, y, opts, ops);
        lemma_midway(ps, stay, j - 1);
        if stay[j - 1] {
            before
        } else {
            let i = staying(ps, stay, j - 1).len() as int;
            let key = ps[j - 1].0->Str_0;
            let path = seq![StepView::Key(key)];
            assert(ops[k] == ops.take(k + 1)[k]);
            assert(ops[k] == (path, OpView::Remove));
            lemma_removed_line(now, i, y);
            lemma_line_map_without(now, i);
            lemma_text_without(now, i, y);
            lemma_carry_one(
                lines_form(ps, 0, y),
                ops,
                k,
                opts,
                lines_form(now, 0, y),
                before,
                key,
                lines_form(now.remove(i), 0, y),
            );
            before.push(ChangeView::Removed { path: shown(path) })
        }
    }
}

/// The difference to what stays is the removals of what does not.
proof fn lemma_drops(ps: Seq<(Val, Val)>, stay: Seq<bool>, j: int)
    requires
        line_map(ps),
        ps.len() == stay.len(),
        0 <= j <= ps.len(),
    ensures
        diff_entries(ps, j, staying(ps, stay, ps.len() as int), Seq::empty()) == (Diff {
            ops: removals(ps, stay, j),
            problems: Seq::empty(),
        }),
    decreases j,
{
    let a = staying(ps, stay, ps.len() as int);
    if j > 0 {
        lemma_drops(ps, stay, j - 1);
        let key = ps[j - 1].0->Str_0;
        let here = Seq::<StepView>::empty().push(StepView::Key(key));
        assert(here =~= seq![StepView::Key(key)]);
        assert(ps[j - 1].0 is Str);
        lemma_staying(ps, stay, ps.len() as int);
        lemma_named(a, key, 0);
        match find_from(a, key, 0) {
            Some(i) => {
                assert(came_from(ps, stay, ps.len() as int, a[i]));
                let m = choose|m: int| 0 <= m < ps.len() && stay[m] && #[trigger] ps[m] == a[i];
                assert(ps[m].0 is Str);
                assert(m == j - 1);
                assert(diff(ps[j - 1].1, a[i].1, here) == Diff::none());
            },
            None => {
                if stay[j - 1] {
                    assert(a.contains(ps[j - 1]));
                    let i = choose|i: int| 0 <= i < a.len() && a[i] == ps[j - 1];
                    assert(scalar_text(a[i].0) != Some(key));
                }
            },
        }
        let less = diff_entries(ps, j - 1, a, Seq::empty());
        assert(less.ops + Seq::empty() =~= less.ops);
        assert(less.problems + Seq::empty() =~= Seq::empty());
        assert(less.ops + seq![(here, OpView::Remove)] =~= less.ops.push((here, OpView::Remove)));
    }
}

/// No key of what stays is new.
proof fn lemma_none_new(ps: Seq<(Val, Val)>, stay: Seq<bool>, k: int)
    requires
        line_map(ps),
        ps.len() == stay.len(),
        0 <= k <= staying(ps, stay, ps.len() as int).len(),
    ensures
        new_keys(ps, staying(ps, stay, ps.len() as int), k, Seq::empty()) == Diff::none(),
    decreases k,
{
    let a = staying(ps, stay, ps.len() as int);
    if k > 0 {
        lemma_none_new(ps, stay, k - 1);
        lemma_staying(ps, stay, ps.len() as int);
        assert(came_from(ps, stay, ps.len() as int, a[k - 1]));
        let m = choose|m: int| 0 <= m < ps.len() && stay[m] && #[trigger] ps[m] == a[k - 1];
        assert(ps[m].0 is Str);
        lemma_named(ps, ps[m].0->Str_0, 0);
        assert(Seq::<(Seq<StepView>, OpView)>::empty() + Seq::empty() =~= Seq::empty());
        assert(Seq::<Seq<u8>>::empty() + Seq::empty() =~= Seq::empty());
    }
}

/// Applying the difference to a mapping with fewer entries leaves exactly the lines of
/// that mapping, with one change for each entry that is gone: the new text is read as
/// that mapping.
pub proof fn law_apply_leaves_what_stays(ps: Seq<(Val, Val)>, stay: Seq<bool>, y: Style, opts: OptsView)
    requires
        y.ok(),
        on_line(y),
        line_map(ps),
        ps.len() == stay.len(),
        is_text(lines_form(ps, 0, y)),
    ensures
        ({
            let after = staying(ps, stay, ps.len() as int);
            let r = applied(lines_form(ps, 0, y), Val::Dict(ps), Val::Dict(after), opts);
            let out = (r->Ok_0).0;
            &&& r is Ok
            &&& out == lines_form(after, 0, y)
            &&& (r->Ok_0).1.len() == ps.len() - after.len()
            &&& after.len() > 0 ==> stream(out) is Ok && (stream(out)->Ok_0).0 == seq![Val::Dict(after)]
        }),
{
    let n = ps.len() as int;
    let after = staying(ps, stay, n);
    let ops = removals(ps, stay, n);
    lemma_drops(ps, stay, n);
    lemma_none_new(ps, stay, after.len() as int);
    lemma_how_many(ps, stay, n);
    assert(ops.take(ops.len() as int) =~= ops);
    let changes = lemma_dealt_with(ps, stay, n, y, opts, ops);
    assert(midway(ps, stay, n) =~= after);
    let d = diff(Val::Dict(ps), Val::Dict(after), Seq::empty());
    if ps == after {
        assert(ops.len() == 0);
        assert(carried_out(lines_form(ps, 0, y), d.ops, 0, opts) == Ok::<_, ErrorView>(
            (lines_form(ps, 0, y), Seq::<ChangeView>::empty()),
        ));
    } else {
        assert(d.ops =~= ops);
        assert(d.problems =~= Seq::empty());
    }
    if after.len() > 0 {
        let t = lemma_lines(after, y);
    }
}

/// Every entry stays or is removed.
proof fn lemma_how_many(ps: Seq<(Val, Val)>, stay: Seq<bool>, j: int)
    requires
        0 <= j,
    ensures
        staying(ps, stay, j).len() + removals(ps, stay, j).len() == j,
    decreases j,
{
    if j > 0 {
        lemma_how_many(ps, stay, j - 1);
    }
}

} // verus!
