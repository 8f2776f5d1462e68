//! A block collection may stand at any indentation below its key.
use vstd::prelude::*;
use super::emit::{
    faithful, faithful_items, faithful_pairs, lemma_col_after, lemma_faithful_pair, lemma_line_same,
    lemma_line_start, lemma_merged, lemma_plain_scalar, lemma_plain_start, lemma_run_to, spaces,
};
use super::flowing::{
    can_be_bare, flow_form, flow_plain, lemma_first_of_form, lemma_flow_whole, lemma_one_document, Style,
};
use super::lines::{lemma_quoted_unbroken, line_map};
use super::scalars::{holds, law_double_quoted_reads_back, law_plain_reads_back, lemma_holds_add, lemma_holds_at};
use super::steps::{
    step_bare, step_content_flow, step_content_scalar, step_content_seq, step_entry, step_first_entry,
    step_flow_or_map, step_map_end, step_map_from, step_map_more, step_node_below, step_node_here, step_scalar,
    step_seq, step_seq_end, step_seq_more, step_value_below, step_value_here,
};
use super::unfold::unfold_map_value;
use crate::edit::sink::Extent;
use crate::emitter::double_quoted;
use crate::parser::grammar::{
    at_start, content, flow_collection, map_entry, map_rest, map_value, node, seq_rest, stream, St,
};
use crate::parser::layout::{col_at, doc_bound, indent_at, lemma_col, moves, next_line, past_break, past_filler, Fail};
use crate::parser::tokens::{past_blank_lines, plain_folded, token, Token};
use crate::text::{at, is_blank, is_break, lemma_run, run, Class, COLON, DASH, DQUOTE, LF, SPACE};
use crate::value::{is_merge_key, merged, Val};

verus! {

broadcast use moves;

/// The items from `j` on, each on a line of its own after `d` spaces and a dash.
pub open spec fn dashes_form(vs: Seq<Val>, j: int, d: nat, y: Style) -> Seq<u8>
    decreases vs.len() - j,
{
    if !(0 <= j < vs.len()) {
        Seq::empty()
    } else {
        spaces(d as int) + (seq![DASH, SPACE] + (flow_form(vs[j], y) + (seq![LF] + dashes_form(vs, j + 1, d, y))))
    }
}

/// Whether what follows an item or an entry does not go on with it: the text ends with
/// the line, or the next line is indented by `d` and begins with `b`.
spec fn item_over(s: Seq<u8>, e: int, d: nat, b: u8) -> bool {
    &&& 0 <= e < s.len()
    &&& s[e] == LF
    &&& e + 1 == s.len() || (holds(s, e + 1, spaces(d as int)) && at(s, e + 1 + d) == Some(b))
}

/// An item is read where it stands.
proof fn lemma_item_there(v: Val, y: Style, s: Seq<u8>, x: St, n: int, d: nat, b: u8)
    requires
        y.ok(),
        b == DASH || b == DQUOTE,
        faithful(v),
        flow_plain(v),
        holds(s, x.p, flow_form(v, y)),
        item_over(s, x.p + flow_form(v, y).len(), d, b),
    ensures
        ({
            let r = content(s, x, n, d as int + 1);
            &&& r is Ok
            &&& (r->Ok_0).0 == v
            &&& (r->Ok_0).1.p == x.p + flow_form(v, y).len()
            &&& (r->Ok_0).1.a == x.a
        }),
{
    let f = flow_form(v, y);
    let e = x.p + f.len();
    let m = d as int + 1;
    lemma_first_of_form(v, y, s, x.p);
    lemma_holds_at(s, x.p, f, 0);
    assert(run(s, e, Class::Blank) == e) by {
        lemma_run(s, e, Class::Blank);
    }
    if v is List || v is Dict {
        let outer = x.with(x.t.open(x.p, false));
        lemma_flow_whole(v, y, s, outer);
        let (w, st0) = flow_collection(s, outer)->Ok_0;
        step_content_flow(s, x, n, m);
        step_flow_or_map(s, x, n, w, st0);
    } else {
        match v {
            Val::Str(u) if y.quotes || !can_be_bare(u) => {
                law_double_quoted_reads_back(s, x.p, u);
            },
            _ => {
                if !(v is Str) {
                    lemma_plain_scalar(v, Seq::empty());
                }
                law_plain_reads_back(s, x.p, f);
                lemma_plain_start(s, x.p, f);
                lemma_no_more(s, f, e, d, b);
            },
        }
        step_content_scalar(s, x, n, m);
        step_scalar(s, x, n, m, token(s, x.p)->Ok_0);
    }
}

/// A plain item does not go on in the next line.
proof fn lemma_no_more(s: Seq<u8>, f: Seq<u8>, e: int, d: nat, b: u8)
    requires
        b == DASH || b == DQUOTE,
        item_over(s, e, d, b),
    ensures
        plain_folded(s, f, e, d as int + 1) == Ok::<_, Fail>((f, e)),
{
    assert(past_break(s, e) == e + 1);
    if e + 1 < s.len() {
        lemma_indent(s, e + 1, d, b);
        assert(past_blank_lines(s, e + 1) == e + 1);
    }
}

/// A line of an item begins with its indentation.
proof fn lemma_indent(s: Seq<u8>, l: int, d: nat, b: u8)
    requires
        b == DASH || b == DQUOTE,
        0 <= l,
        holds(s, l, spaces(d as int)),
        at(s, l + d) == Some(b),
    ensures
        run(s, l, Class::Spaces) == l + d,
        run(s, l, Class::Blank) == l + d,
        indent_at(s, l) == Some(d as int),
        past_filler(s, l) == l,
{
    assert forall|i: int| l <= i < l + d implies Class::Spaces.holds(#[trigger] s[i]) && Class::Blank.holds(s[i]) by {
        lemma_holds_at(s, l, spaces(d as int), i - l);
    }
    lemma_run_to(s, l, Class::Spaces, l + d);
    lemma_run_to(s, l, Class::Blank, l + d);
}

/// Where the parts of an item stand.
proof fn lemma_item_spots(vs: Seq<Val>, j: int, d: nat, y: Style, s: Seq<u8>, l: int)
    requires
        y.ok(),
        0 <= j < vs.len(),
        forall|i: int| 0 <= i < vs.len() ==> faithful(#[trigger] vs[i]) && flow_plain(vs[i]),
        0 <= l,
        holds(s, l, dashes_form(vs, j, d, y)),
        l + dashes_form(vs, j, d, y).len() == s.len(),
        col_at(s, l) == 0,
    ensures
        ({
            let x = l + d;
            let e = x + 2 + flow_form(vs[j], y).len();
            &&& holds(s, l, spaces(d as int))
            &&& x + 2 < s.len() && s[x] == DASH && s[x + 1] == SPACE
            &&& holds(s, x + 2, flow_form(vs[j], y))
            &&& item_over(s, e, d, DASH)
            &&& holds(s, e + 1, dashes_form(vs, j + 1, d, y))
            &&& e + 1 + dashes_form(vs, j + 1, d, y).len() == s.len()
            &&& col_at(s, x) == d
            &&& col_at(s, x + 2) == d + 2
            &&& col_at(s, e + 1) == 0
            &&& !is_blank(s[x + 2]) && !is_break(s[x + 2])
        }),
{
    let pad = spaces(d as int);
    let f = flow_form(vs[j], y);
    let rest = dashes_form(vs, j + 1, d, y);
    let x = l + d;
    let e = x + 2 + f.len();
    lemma_holds_add(s, l, pad, seq![DASH, SPACE] + (f + (seq![LF] + rest)));
    lemma_holds_add(s, x, seq![DASH, SPACE], f + (seq![LF] + rest));
    lemma_holds_add(s, x + 2, f, seq![LF] + rest);
    lemma_holds_add(s, e, seq![LF], rest);
    lemma_holds_at(s, x, seq![DASH, SPACE], 0);
    lemma_holds_at(s, x, seq![DASH, SPACE], 1);
    lemma_holds_at(s, e, seq![LF], 0);
    lemma_first_of_form(vs[j], y, s, x + 2);
    if j + 1 < vs.len() {
        let next = dashes_form(vs, j + 2, d, y);
        lemma_holds_add(s, e + 1, pad, seq![DASH, SPACE] + (flow_form(vs[j + 1], y) + (seq![LF] + next)));
        lemma_holds_add(s, e + 1 + d, seq![DASH, SPACE], flow_form(vs[j + 1], y) + (seq![LF] + next));
        lemma_holds_at(s, e + 1 + d, seq![DASH, SPACE], 0);
    }
    assert forall|i: int| l <= i < x + 2 implies !is_break(#[trigger] s[i]) by {
        if i < x {
            lemma_holds_at(s, l, pad, i - l);
        }
    }
    lemma_col(s, l, x);
    lemma_col(s, l, x + 2);
}

/// The items from `j` on are read.
proof fn lemma_dashes(vs: Seq<Val>, j: int, d: nat, y: Style, s: Seq<u8>, st: St, l: int)
    requires
        y.ok(),
        0 <= j <= vs.len(),
        forall|i: int| 0 <= i < vs.len() ==> faithful(#[trigger] vs[i]) && flow_plain(vs[i]),
        0 <= l,
        holds(s, l, dashes_form(vs, j, d, y)),
        l + dashes_form(vs, j, d, y).len() == s.len(),
        col_at(s, l) == 0,
        0 <= st.p <= s.len(),
        if j == 0 {
            st.p == l + d && vs.len() > 0
        } else {
            st.p == l - 1 && s[l - 1] == LF
        },
    ensures
        ({
            let r = seq_rest(s, st, d as int, vs.take(j));
            &&& r is Ok
            &&& (r->Ok_0).0 == vs
            &&& (r->Ok_0).1.p == s.len()
            &&& (r->Ok_0).1.a == st.a
        }),
    decreases vs.len() - j,
{
    let n = d as int;
    if j > 0 {
        assert(past_filler(s, l - 1) == past_filler(s, l)) by {
            assert(run(s, l - 1, Class::Blank) == l - 1);
            assert(run(s, l - 1, Class::Line) == l - 1);
            assert(next_line(s, l - 1) == l);
        }
    }
    if j == vs.len() {
        assert(past_filler(s, l) == l);
        step_seq_end(s, st, n, vs);
        assert(vs.take(j) =~= vs);
    } else {
        lemma_item_spots(vs, j, d, y, s, l);
        let x = l + d;
        let e = x + 2 + flow_form(vs[j], y).len();
        lemma_indent(s, l, d, DASH);
        lemma_run_to(s, x + 1, Class::Blank, x + 2);
        if j == 0 {
            assert(run(s, x, Class::Blank) == x && run(s, x, Class::Spaces) == x) by {
                lemma_run(s, x, Class::Blank);
                lemma_run(s, x, Class::Spaces);
            }
            assert(past_filler(s, x) == x);
            assert(indent_at(s, x) == Some(0int));
        }
        let at = st.to(x + 2);
        step_node_here(s, at, n + 1);
        step_bare_item(s, at, y, vs[j], n);
        lemma_item_there(vs[j], y, s, at, col_at(s, at.p), d, DASH);
        let (v, st1) = node(s, at, n + 1)->Ok_0;
        step_seq_more(s, st, n, vs.take(j), v, st1);
        assert(vs.take(j).push(v) =~= vs.take(j + 1));
        lemma_dashes(vs, j + 1, d, y, s, st1, e + 1);
    }
}

/// An item has neither tag nor anchor.
proof fn step_bare_item(s: Seq<u8>, at: St, y: Style, v: Val, n: int)
    requires
        y.ok(),
        faithful(v),
        flow_plain(v),
        holds(s, at.p, flow_form(v, y)),
    ensures
        crate::parser::grammar::node_here(s, at, col_at(s, at.p), n + 1) == content(s, at, col_at(s, at.p), n + 1),
{
    lemma_first_of_form(v, y, s, at.p);
    step_bare(s, at, col_at(s, at.p), n + 1);
}

/// A sequence below its key is read as its items, in their order, however far its dashes
/// are indented, or not at all.
pub proof fn law_items_stand_at_any_indent(key: Seq<u8>, vs: Seq<Val>, d: nat, y: Style)
    requires
        y.ok(),
        vs.len() > 0,
        forall|i: int| 0 <= i < vs.len() ==> faithful(#[trigger] vs[i]) && flow_plain(vs[i]),
        !is_merge_key(Val::Str(key)),
    ensures
        ({
            let s = double_quoted(key) + (seq![COLON, LF] + dashes_form(vs, 0, d, y));
            &&& stream(s) is Ok
            &&& (stream(s)->Ok_0).0 == seq![Val::Dict(seq![(Val::Str(key), Val::List(vs))])]
        }),
{
    let body = dashes_form(vs, 0, d, y);
    let s = double_quoted(key) + (seq![COLON, LF] + body);
    let c = double_quoted(key).len() as int;
    let inner = at_start().with(at_start().t.open(0, false));
    let st0 = St { p: c + 1, t: inner.t.key(Extent { a: 0, b: c }, Some(key)), ..inner };
    assert(s.subrange(0, s.len() as int) =~= s);
    lemma_holds_add(s, 0, double_quoted(key), seq![COLON, LF] + body);
    lemma_holds_add(s, c, seq![COLON, LF], body);
    lemma_holds_at(s, c, seq![COLON, LF], 1);
    lemma_sequence_below(vs, d, y, s, st0);
    lemma_one_entry(key, vs);
    lemma_key_and_below(key, body, Val::List(vs));
}

/// A key and what is read below it are one document.
proof fn lemma_key_and_below(key: Seq<u8>, body: Seq<u8>, v: Val)
    requires
        ({
            let s = double_quoted(key) + (seq![COLON, LF] + body);
            let c = double_quoted(key).len() as int;
            let inner = at_start().with(at_start().t.open(0, false));
            let r = map_value(s, St { p: c + 1, t: inner.t.key(Extent { a: 0, b: c }, Some(key)), ..inner }, 0);
            let w = Val::Dict(seq![(Val::Str(key), v)]);
            &&& r is Ok
            &&& (r->Ok_0).0 == v
            &&& (r->Ok_0).1.p == s.len()
            &&& merged(w) == w
        }),
    ensures
        ({
            let s = double_quoted(key) + (seq![COLON, LF] + body);
            &&& stream(s) is Ok
            &&& (stream(s)->Ok_0).0 == seq![Val::Dict(seq![(Val::Str(key), v)])]
        }),
{
    let q = double_quoted(key);
    let s = q + (seq![COLON, LF] + body);
    let c = q.len() as int;
    let st = at_start();
    assert(s.subrange(0, s.len() as int) =~= s);
    lemma_holds_add(s, 0, q, seq![COLON, LF] + body);
    lemma_holds_add(s, c, seq![COLON, LF], body);
    lemma_holds_at(s, 0, q, 0);
    lemma_holds_at(s, c, seq![COLON, LF], 0);
    lemma_holds_at(s, c, seq![COLON, LF], 1);
    law_double_quoted_reads_back(s, 0, key);
    let tok = token(s, 0)->Ok_0;
    assert(tok == Token { quoted: true, text: key, end: c, p: c });
    assert(run(s, c, Class::Blank) == c) by {
        lemma_run(s, c, Class::Blank);
    }
    lemma_quoted_unbroken(key);
    assert forall|i: int| 0 <= i < c implies !is_break(#[trigger] s[i]) by {
        lemma_holds_at(s, 0, q, i);
        assert(!is_break(q[i]));
    }
    lemma_line_same(s, 0, c);
    let inner = st.with(st.t.open(0, false));
    let st0 = St { p: c + 1, t: inner.t.key(Extent { a: 0, b: c }, Some(key)), ..inner };
    let (u, st1) = map_value(s, st0, 0)->Ok_0;
    let kv = (Val::Str(key), v);
    step_entry(s, inner, 0, tok, u, st1);
    assert(past_filler(s, st1.p) == st1.p);
    step_map_end(s, st1, 0, seq![kv]);
    step_content_scalar(s, st, 0, 0);
    step_first_entry(s, st, 0, 0, kv, st1);
    step_map_from(s, 0, st1, 0, seq![kv]);
    step_bare(s, st, 0, 0);
    assert(spaces(0) =~= Seq::empty());
    assert(s.subrange(0, 0) =~= spaces(0));
    lemma_line_start(s, 0, 0);
    assert(st.to(0) == st);
    step_node_below(s, st, 0);
    lemma_one_document(s, Val::Dict(seq![kv]));
}

/// Such a mapping holds nothing to merge.
proof fn lemma_one_entry(key: Seq<u8>, vs: Seq<Val>)
    requires
        forall|i: int| 0 <= i < vs.len() ==> faithful(#[trigger] vs[i]),
        !is_merge_key(Val::Str(key)),
    ensures
        ({
            let v = Val::Dict(seq![(Val::Str(key), Val::List(vs))]);
            merged(v) == v
        }),
{
    let kv = (Val::Str(key), Val::List(vs));
    assert(faithful_items(vs));
    assert(faithful(Val::List(vs)));
    assert(faithful_pairs(seq![kv]));
    assert(faithful(Val::Dict(seq![kv])));
    lemma_merged(Val::Dict(seq![kv]));
}

/// A sequence on the lines below a key is its value.
proof fn lemma_sequence_below(vs: Seq<Val>, d: nat, y: Style, s: Seq<u8>, st: St)
    requires
        y.ok(),
        vs.len() > 0,
        forall|i: int| 0 <= i < vs.len() ==> faithful(#[trigger] vs[i]) && flow_plain(vs[i]),
        0 <= st.p < s.len(),
        s[st.p] == LF,
        holds(s, st.p + 1, dashes_form(vs, 0, d, y)),
        st.p + 1 + dashes_form(vs, 0, d, y).len() == s.len(),
    ensures
        ({
            let r = map_value(s, st, 0);
            &&& r is Ok
            &&& (r->Ok_0).0 == Val::List(vs)
            &&& (r->Ok_0).1.p == s.len()
        }),
{
    let l = st.p + 1;
    let n = d as int;
    assert(col_at(s, l) == 0);
    lemma_item_spots(vs, 0, d, y, s, l);
    lemma_indent(s, l, d, DASH);
    let at = st.to(l + d);
    let open = at.with(at.t.open(l + d, false));
    lemma_dashes(vs, 0, d, y, s, open, l);
    assert(vs.take(0) =~= Seq::empty());
    step_seq(s, at, n);
    assert(run(s, st.p, Class::Blank) == st.p);
    assert(past_filler(s, st.p) == l) by {
        assert(run(s, st.p, Class::Line) == st.p);
        assert(next_line(s, st.p) == l);
    }
    if d == 0 {
        unfold_map_value(s, st, 0);
    } else {
        step_value_below(s, st, 0);
        step_content_seq(s, at, n, 1);
    }
}

/// The entries from `j` on, each on a line of its own after `d` spaces.
pub open spec fn entries_form(ps: Seq<(Val, Val)>, j: int, d: nat, y: Style) -> Seq<u8>
    decreases ps.len() - j,
{
    if !(0 <= j < ps.len()) {
        Seq::empty()
    } else {
        spaces(d as int) + (double_quoted(ps[j].0->Str_0) + (seq![COLON, SPACE] + (flow_form(ps[j].1, y) + (seq![LF]
            + entries_form(ps, j + 1, d, y)))))
    }
}

/// Where the parts of an entry stand.
proof fn lemma_entry_spots(ps: Seq<(Val, Val)>, j: int, d: nat, y: Style, s: Seq<u8>, l: int)
    requires
        0 <= j < ps.len(),
        0 <= l,
        holds(s, l, entries_form(ps, j, d, y)),
        l + entries_form(ps, j, d, y).len() == s.len(),
        col_at(s, l) == 0,
    ensures
        ({
            let x = l + d;
            let c = x + double_quoted(ps[j].0->Str_0).len();
            let e = c + 2 + flow_form(ps[j].1, y).len();
            &&& holds(s, l, spaces(d as int))
            &&& holds(s, x, double_quoted(ps[j].0->Str_0))
            &&& x < c && c + 2 < s.len() && s[x] == DQUOTE && s[c] == COLON && s[c + 1] == SPACE
            &&& holds(s, c + 2, flow_form(ps[j].1, y))
            &&& item_over(s, e, d, DQUOTE)
            &&& holds(s, e + 1, entries_form(ps, j + 1, d, y))
            &&& e + 1 + entries_form(ps, j + 1, d, y).len() == s.len()
            &&& col_at(s, x) == d
            &&& col_at(s, e + 1) == 0
        }),
{
    let pad = spaces(d as int);
    let q = double_quoted(ps[j].0->Str_0);
    let f = flow_form(ps[j].1, y);
    let rest = entries_form(ps, j + 1, d, y);
    let x = l + d;
    let c = x + q.len();
    let e = c + 2 + f.len();
    lemma_holds_add(s, l, pad, q + (seq![COLON, SPACE] + (f + (seq![LF] + rest))));
    lemma_holds_add(s, x, q, seq![COLON, SPACE] + (f + (seq![LF] + rest)));
    lemma_holds_add(s, c, seq![COLON, SPACE], f + (seq![LF] + rest));
    lemma_holds_add(s, c + 2, f, seq![LF] + rest);
    lemma_holds_add(s, e, seq![LF], rest);
    lemma_holds_at(s, x, q, 0);
    lemma_holds_at(s, c, seq![COLON, SPACE], 0);
    lemma_holds_at(s, c, seq![COLON, SPACE], 1);
    lemma_holds_at(s, e, seq![LF], 0);
    if j + 1 < ps.len() {
        let p = double_quoted(ps[j + 1].0->Str_0);
        let more = seq![COLON, SPACE] + (flow_form(ps[j + 1].1, y) + (seq![LF] + entries_form(ps, j + 2, d, y)));
        lemma_holds_add(s, e + 1, pad, p + more);
        lemma_holds_add(s, e + 1 + d, p, more);
        lemma_holds_at(s, e + 1 + d, p, 0);
    }
    assert forall|i: int| l <= i < x implies !is_break(#[trigger] s[i]) by {
        lemma_holds_at(s, l, pad, i - l);
    }
    lemma_col(s, l, x);
}

/// An entry is read where it stands.
proof fn lemma_entry_there(ps: Seq<(Val, Val)>, j: int, d: nat, y: Style, s: Seq<u8>, st: St, l: int)
    requires
        y.ok(),
        line_map(ps),
        0 <= j < ps.len(),
        0 <= l,
        holds(s, l, entries_form(ps, j, d, y)),
        l + entries_form(ps, j, d, y).len() == s.len(),
        col_at(s, l) == 0,
        st.p == l + d,
    ensures
        ({
            let r = map_entry(s, st, d as int);
            let e = st.p + double_quoted(ps[j].0->Str_0).len() + 2 + flow_form(ps[j].1, y).len();
            &&& r is Ok
            &&& (r->Ok_0).0 == ps[j]
            &&& (r->Ok_0).1.p == e
            &&& (r->Ok_0).1.a == st.a
        }),
{
    let n = d as int;
    let k = ps[j].0->Str_0;
    let q = double_quoted(k);
    let x = l + d;
    let c = x + q.len();
    lemma_entry_spots(ps, j, d, y, s, l);
    lemma_faithful_pair(ps, j);
    assert(flow_plain(ps[j].0) && flow_plain(ps[j].1) && ps[j].0 is Str);
    law_double_quoted_reads_back(s, x, k);
    let tok = token(s, x)->Ok_0;
    assert(tok == Token { quoted: true, text: k, end: c, p: c });
    assert(run(s, c, Class::Blank) == c) by {
        lemma_run(s, c, Class::Blank);
    }
    lemma_quoted_unbroken(k);
    assert forall|i: int| x <= i < c implies !is_break(#[trigger] s[i]) by {
        lemma_holds_at(s, x, q, i - x);
        assert(!is_break(q[i - x]));
    }
    lemma_line_same(s, x, c);
    lemma_col_after(s, c);
    let st0 = St { p: c + 1, t: st.t.key(Extent { a: x, b: c }, Some(k)), ..st };
    let at = st0.to(c + 2);
    lemma_first_of_form(ps[j].1, y, s, c + 2);
    lemma_col(s, c + 1, c + 2);
    lemma_run_to(s, c + 1, Class::Blank, c + 2);
    step_value_here(s, st0, n);
    step_node_here(s, at, n + 1);
    step_bare_item(s, at, y, ps[j].1, n);
    lemma_item_there(ps[j].1, y, s, at, col_at(s, at.p), d, DQUOTE);
    let (v, st1) = map_value(s, st0, n)->Ok_0;
    step_entry(s, st, n, tok, v, st1);
}

/// The entries from `j` on are read.
proof fn lemma_entries(ps: Seq<(Val, Val)>, j: int, d: nat, y: Style, s: Seq<u8>, st: St, l: int)
    requires
        y.ok(),
        line_map(ps),
        0 < j <= ps.len(),
        0 <= l,
        holds(s, l, entries_form(ps, j, d, y)),
        l + entries_form(ps, j, d, y).len() == s.len(),
        col_at(s, l) == 0,
        st.p == l - 1,
        0 <= st.p < s.len(),
        s[l - 1] == LF,
    ensures
        ({
            let r = map_rest(s, st, d as int, ps.take(j));
            &&& r is Ok
            &&& (r->Ok_0).0 == ps
            &&& (r->Ok_0).1.p == s.len()
        }),
    decreases ps.len() - j,
{
    let n = d as int;
    assert(past_filler(s, l - 1) == past_filler(s, l)) by {
        assert(run(s, l - 1, Class::Blank) == l - 1);
        assert(run(s, l - 1, Class::Line) == l - 1);
        assert(next_line(s, l - 1) == l);
    }
    if j == ps.len() {
        assert(past_filler(s, l) == l);
        step_map_end(s, st, n, ps);
        assert(ps.take(j) =~= ps);
    } else {
        lemma_entry_spots(ps, j, d, y, s, l);
        lemma_indent(s, l, d, DQUOTE);
        assert(!doc_bound(s, l)) by {
            if d > 0 {
                lemma_holds_at(s, l, spaces(n), 0);
            }
        }
        let at = st.to(l + d);
        lemma_entry_there(ps, j, d, y, s, at, l);
        let (kv, st1) = map_entry(s, at, n)->Ok_0;
        step_map_more(s, st, n, ps.take(j), kv, st1);
        assert(ps.take(j).push(kv) =~= ps.take(j + 1));
        lemma_entries(ps, j + 1, d, y, s, st1, st1.p + 1);
    }
}

/// A mapping on the lines below a key is its value.
proof fn lemma_mapping_below(ps: Seq<(Val, Val)>, d: nat, y: Style, s: Seq<u8>, st: St)
    requires
        y.ok(),
        line_map(ps),
        ps.len() > 0,
        d > 0,
        0 <= st.p < s.len(),
        s[st.p] == LF,
        holds(s, st.p + 1, entries_form(ps, 0, d, y)),
        st.p + 1 + entries_form(ps, 0, d, y).len() == s.len(),
    ensures
        ({
            let r = map_value(s, st, 0);
            &&& r is Ok
            &&& (r->Ok_0).0 == Val::Dict(ps)
            &&& (r->Ok_0).1.p == s.len()
        }),
{
    let l = st.p + 1;
    let n = d as int;
    assert(col_at(s, l) == 0);
    lemma_entry_spots(ps, 0, d, y, s, l);
    lemma_indent(s, l, d, DQUOTE);
    let at = st.to(l + d);
    let open = at.with(at.t.open(l + d, false));
    lemma_entry_there(ps, 0, d, y, s, open, l);
    let (kv, st1) = map_entry(s, open, n)->Ok_0;
    lemma_entries(ps, 1, d, y, s, st1, st1.p + 1);
    assert(ps.take(1) =~= seq![kv]);
    assert(run(s, st.p, Class::Blank) == st.p);
    assert(past_filler(s, st.p) == l) by {
        assert(run(s, st.p, Class::Line) == st.p);
        assert(next_line(s, st.p) == l);
    }
    step_value_below(s, st, 0);
    step_content_scalar(s, at, n, 1);
    step_first_entry(s, at, n, 1, kv, st1);
    step_map_from(s, l + d, st1, n, seq![kv]);
}

/// A mapping below its key is read as its entries, in their order, however far it is
/// indented.
pub proof fn law_entries_stand_at_any_indent(key: Seq<u8>, ps: Seq<(Val, Val)>, d: nat, y: Style)
    requires
        y.ok(),
        line_map(ps),
        ps.len() > 0,
        d > 0,
        !is_merge_key(Val::Str(key)),
    ensures
        ({
            let s = double_quoted(key) + (seq![COLON, LF] + entries_form(ps, 0, d, y));
            &&& stream(s) is Ok
            &&& (stream(s)->Ok_0).0 == seq![Val::Dict(seq![(Val::Str(key), Val::Dict(ps))])]
        }),
{
    let body = entries_form(ps, 0, d, y);
    let s = double_quoted(key) + (seq![COLON, LF] + body);
    let c = double_quoted(key).len() as int;
    let inner = at_start().with(at_start().t.open(0, false));
    let st0 = St { p: c + 1, t: inner.t.key(Extent { a: 0, b: c }, Some(key)), ..inner };
    assert(s.subrange(0, s.len() as int) =~= s);
    lemma_holds_add(s, 0, double_quoted(key), seq![COLON, LF] + body);
    lemma_holds_add(s, c, seq![COLON, LF], body);
    lemma_holds_at(s, c, seq![COLON, LF], 1);
    lemma_mapping_below(ps, d, y, s, st0);
    let kv = (Val::Str(key), Val::Dict(ps));
    assert(faithful_pairs(seq![kv]));
    assert(faithful(Val::Dict(seq![kv])));
    lemma_merged(Val::Dict(seq![kv]));
    lemma_key_and_below(key, body, Val::Dict(ps));
}

} // verus!
