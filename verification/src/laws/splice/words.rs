//! Scalars, tags and anchors outside the scalar that differs are the same in both
//! sources.
use vstd::prelude::*;
use super::cut::{
    lemma_break, lemma_doc_bound, lemma_ends, lemma_filler_line, lemma_flow_gap, lemma_indicator, lemma_next_line,
    lemma_scan, lemma_white, Cut,
};
use crate::parser::layout::{
    col_at, doc_bound, gap_at, indicator_at, line_blank, line_ends, moves, next_line, next_line_in, past_break,
    past_flow_gap_in, Fail,
};
use crate::parser::tokens::{
    blank_lines, block_depth, block_header, block_lines, block_scalar, escaped, fold_from, fold_from_in, line_fold,
    past_blank_lines, past_blank_lines_in, past_blanks, past_blanks_in, past_spaces, past_spaces_in, plain_end,
    plain_folded, plain_glue, plain_goes_on, plain_rest, plain_rest_in, plain_stop, plain_text, props_from,
    props_round, quote, quoted, quoted_class, quoted_rest, short_escape, tag_end, token, Block, Props, Token,
};
use crate::edit::sink::Extent;
use crate::text::{
    at, back, is_blank, is_break, lemma_back_stop, lemma_run, run, Class, AMP, BACKSLASH, BANG, COLON, DQUOTE,
    GREATER, HASH, LESS, SPACE, SQUOTE,
};

verus! {

broadcast use moves;

/// The same bytes.
pub(crate) proof fn lemma_sub(k: Cut, x: int, y: int)
    requires
        k.base(),
        0 <= x <= y <= k.s.len(),
        y <= k.a || k.b <= x,
    ensures
        k.t.subrange(k.to(x), k.to(y)) == k.s.subrange(x, y),
{
    assert(k.t.subrange(k.to(x), k.to(y)) =~= k.s.subrange(x, y)) by {
        assert forall|i: int| 0 <= i < y - x implies k.t.subrange(k.to(x), k.to(y))[i] == k.s.subrange(x, y)[i] by {
            assert(k.s[x + i] == k.t[k.to(x) + i]);
        }
    }
}

pub(crate) proof fn lemma_back_cut(k: Cut, p: int, q: int, c: Class)
    requires
        k.base(),
        0 <= p <= q <= k.s.len(),
        q <= k.a || k.b <= p,
    ensures
        back(k.t, k.to(p), k.to(q), c) == k.to(back(k.s, p, q, c)),
    decreases q - p,
{
    if p < q {
        assert(k.s[q - 1] == k.t[k.to(q) - 1]);
        if c.holds(k.s[q - 1]) {
            lemma_back_cut(k, p, q - 1, c);
        }
    }
}

proof fn lemma_plain_rest(k: Cut, p: int, flow: bool)
    requires
        k.base(),
        k.on(p),
        plain_rest(k.s, p, flow) < k.a || k.b <= p,
    ensures
        plain_rest(k.t, k.to(p), flow) == k.to(plain_rest(k.s, p, flow)),
    decreases k.s.len() - p,
{
    plain_rest_in(k.s, p, flow);
    if p < k.s.len() {
        assert(k.s[p] == k.t[k.to(p)]);
        lemma_ends(k, p + 1);
        if p + 1 < k.s.len() && p + 1 != k.a {
            assert(k.s[p + 1] == k.t[k.to(p + 1)]);
        }
        assert(at(k.t, k.to(p) + 1) == Some(HASH) <==> at(k.s, p + 1) == Some(HASH));
        plain_rest_in(k.s, p + 1, flow);
        if plain_rest(k.s, p, flow) != p {
            lemma_plain_rest(k, p + 1, flow);
        }
    }
}

/// A plain scalar in block context does not stop right before a word.
proof fn lemma_plain_strict(k: Cut, p: int)
    requires
        k.ok(),
        0 <= p <= k.a,
        plain_rest(k.s, p, false) <= k.a,
    ensures
        plain_rest(k.s, p, false) < k.a,
    decreases k.a - p,
{
    if p < k.a {
        if plain_rest(k.s, p, false) != p {
            lemma_plain_strict(k, p + 1);
        }
    } else {
        plain_rest_in(k.s, p + 1, false);
        assert(plain_rest(k.s, p, false) == plain_rest(k.s, p + 1, false) || plain_rest(k.s, p, false) == p);
        if k.s[p] == COLON {
            assert(!gap_at(k.s, p + 1));
        }
    }
}

/// A plain scalar before or after.
pub(crate) proof fn lemma_plain_word(k: Cut, p: int, flow: bool)
    requires
        k.base(),
        k.on(p),
        p != k.a,
        plain_stop(k.s, p, flow) < k.a || (k.ok() && !flow && plain_stop(k.s, p, flow) <= k.a) || k.b <= p,
    ensures
        plain_stop(k.t, k.to(p), flow) == k.to(plain_stop(k.s, p, flow)),
        plain_end(k.t, k.to(p), flow) == k.to(plain_end(k.s, p, flow)),
        plain_text(k.t, k.to(p), flow) == plain_text(k.s, p, flow),
        p <= plain_end(k.s, p, flow) <= plain_stop(k.s, p, flow) <= k.s.len(),
{
    if p < k.s.len() {
        assert(k.s[p] == k.t[k.to(p)]);
    }
    plain_rest_in(k.s, p, flow);
    let stop = plain_stop(k.s, p, flow);
    if at(k.s, p) != Some(HASH) {
        if p < k.a && !flow && k.ok() {
            lemma_plain_strict(k, p);
        }
        lemma_plain_rest(k, p, flow);
    }
    lemma_back_stop(k.s, p, stop, Class::Blank);
    lemma_back_cut(k, p, stop, Class::Blank);
    lemma_sub(k, p, plain_end(k.s, p, flow));
}

/// Blank lines end before a word.
pub(crate) proof fn lemma_blank_lines_cut(k: Cut, q: int)
    requires
        k.base(),
        k.on(q),
    ensures
        past_blank_lines(k.t, k.to(q)) == k.to(past_blank_lines(k.s, q)),
        blank_lines(k.t, k.to(q)) == blank_lines(k.s, q),
        q <= k.a ==> past_blank_lines(k.s, q) <= k.a,
        k.on(past_blank_lines(k.s, q)),
        k.later(q) ==> k.later(past_blank_lines(k.s, q)),
    decreases k.s.len() - q,
{
    lemma_filler_line(k, q);
    if q < k.s.len() && line_blank(k.s, q) {
        if q <= k.a {
            lemma_blank_ends(k, q);
        }
        lemma_next_line(k, q);
        if k.later(q) {
            let i = choose|i: int| k.b <= i < q && is_break(#[trigger] k.s[i]);
            assert(k.later(next_line(k.s, q)));
        }
        lemma_blank_lines_cut(k, next_line(k.s, q));
    }
}

proof fn lemma_blank_ends(k: Cut, p: int)
    requires
        k.base(),
        0 <= p <= k.a,
        line_blank(k.s, p),
    ensures
        next_line(k.s, p) <= k.a,
{
    lemma_white(k, p, Class::Blank);
    let q = run(k.s, p, Class::Blank);
    lemma_run(k.s, p, Class::Line);
    lemma_run(k.s, p, Class::Blank);
    let l = run(k.s, p, Class::Line);
    if l > q {
        assert(Class::Line.holds(k.s[q]));
    }
    lemma_break(k, l);
}

/// How far a plain scalar with its continuation lines reaches.
pub(crate) proof fn lemma_folded_in(s: Seq<u8>, text: Seq<u8>, p: int, m: int)
    requires
        0 <= p <= s.len(),
    ensures
        match plain_folded(s, text, p, m) {
            Ok((_, e)) => p <= e <= s.len(),
            Err(_) => true,
        },
    decreases s.len() - p,
{
    let l = past_break(s, p);
    let q = past_blank_lines(s, l);
    past_blank_lines_in(s, l);
    if plain_goes_on(s, p, q, m) {
        let c = run(s, q, Class::Blank);
        plain_rest_in(s, c, false);
        let e = run(s, plain_stop(s, c, false), Class::Blank);
        if !indicator_at(s, e, COLON) {
            lemma_folded_in(s, text + plain_glue(blank_lines(s, l)) + plain_text(s, c, false), e, m);
        }
    }
}

/// Whether a plain scalar goes on is told alike.
pub(crate) proof fn lemma_goes_on(k: Cut, p: int, m: int)
    requires
        k.ok(),
        k.on(p),
    ensures
        ({
            let q = past_blank_lines(k.s, past_break(k.s, p));
            let r = past_blank_lines(k.t, past_break(k.t, k.to(p)));
            &&& r == k.to(q)
            &&& k.on(q)
            &&& p <= k.a ==> q <= k.a
            &&& blank_lines(k.t, past_break(k.t, k.to(p))) == blank_lines(k.s, past_break(k.s, p))
            &&& plain_goes_on(k.t, k.to(p), r, m) == plain_goes_on(k.s, p, q, m)
        }),
{
    let l = past_break(k.s, p);
    lemma_break(k, p);
    lemma_blank_lines_cut(k, l);
    let q = past_blank_lines(k.s, l);
    lemma_ends(k, p);
    if p < k.s.len() && is_break(k.s[p]) {
        lemma_doc_bound(k, q);
        lemma_white(k, q, Class::Spaces);
        lemma_filler_line(k, q);
    }
}

/// A plain scalar with its continuation lines.
pub(crate) proof fn lemma_folded(k: Cut, text: Seq<u8>, p: int, m: int)
    requires
        k.ok(),
        k.on(p),
        plain_folded(k.s, text, p, m) is Ok,
        (plain_folded(k.s, text, p, m)->Ok_0).1 <= k.a || k.b <= p,
    ensures
        plain_folded(k.t, text, k.to(p), m) == Ok::<_, Fail>(
            (
                (plain_folded(k.s, text, p, m)->Ok_0).0,
                k.to((plain_folded(k.s, text, p, m)->Ok_0).1),
            ),
        ),
        p <= (plain_folded(k.s, text, p, m)->Ok_0).1 <= k.s.len(),
    decreases k.s.len() - p,
{
    let l = past_break(k.s, p);
    let q = past_blank_lines(k.s, l);
    lemma_folded_in(k.s, text, p, m);
    past_blank_lines_in(k.s, l);
    lemma_goes_on(k, p, m);
    if plain_goes_on(k.s, p, q, m) {
        let c = run(k.s, q, Class::Blank);
        lemma_white(k, q, Class::Blank);
        plain_rest_in(k.s, c, false);
        let stop = plain_stop(k.s, c, false);
        let e = run(k.s, stop, Class::Blank);
        let more = text + plain_glue(blank_lines(k.s, l)) + plain_text(k.s, c, false);
        lemma_folded_in(k.s, more, e, m);
        if p <= k.a {
            assert(e <= k.a);
            if c == k.a {
                lemma_plain_strict(k, c);
            }
        }
        lemma_plain_word(k, c, false);
        lemma_white(k, stop, Class::Blank);
        lemma_indicator(k, e, COLON);
        lemma_folded(k, more, e, m);
    }
}

proof fn lemma_past_blanks(k: Cut, p: int, n: int)
    requires
        k.base(),
        k.on(p),
    ensures
        past_blanks(k.t, k.to(p), n) == k.to(past_blanks(k.s, p, n)),
        p <= k.a ==> past_blanks(k.s, p, n) <= k.a,
        k.on(past_blanks(k.s, p, n)),
    decreases n,
{
    if p < k.s.len() && p != k.a {
        assert(k.s[p] == k.t[k.to(p)]);
    }
    if n > 0 && p < k.s.len() && is_blank(k.s[p]) {
        lemma_past_blanks(k, p + 1, n - 1);
    }
}

proof fn lemma_past_spaces_cut(k: Cut, p: int, n: int)
    requires
        k.base(),
        k.on(p),
    ensures
        past_spaces(k.t, k.to(p), n) == k.to(past_spaces(k.s, p, n)),
        p <= k.a ==> past_spaces(k.s, p, n) <= k.a,
        k.on(past_spaces(k.s, p, n)),
    decreases n,
{
    if p < k.s.len() && p != k.a {
        assert(k.s[p] == k.t[k.to(p)]);
    }
    if n > 0 && p < k.s.len() && k.s[p] == SPACE {
        lemma_past_spaces_cut(k, p + 1, n - 1);
    }
}

proof fn lemma_fold(k: Cut, q: int, indent: int, n: int)
    requires
        k.base(),
        k.on(q),
    ensures
        fold_from(k.t, k.to(q), indent, n) == (
            fold_from(k.s, q, indent, n).0,
            k.to(fold_from(k.s, q, indent, n).1),
        ),
        q <= k.a ==> fold_from(k.s, q, indent, n).1 <= k.a,
        k.on(fold_from(k.s, q, indent, n).1),
    decreases k.s.len() - q,
{
    lemma_past_blanks(k, q, indent);
    past_blanks_in(k.s, q, indent);
    past_blanks_in(k.t, k.to(q), indent);
    let r = past_blanks(k.s, q, indent);
    if r < k.s.len() && r != k.a {
        assert(k.s[r] == k.t[k.to(r)]);
    }
    if r < k.s.len() && is_break(k.s[r]) {
        lemma_break(k, r);
        lemma_fold(k, past_break(k.s, r), indent, n + 1);
    }
}

proof fn lemma_escaped(k: Cut, p: int)
    requires
        k.base(),
        0 <= p < k.s.len(),
        escaped(k.s, p) is Ok,
        (escaped(k.s, p)->Ok_0).1 <= k.a || k.b <= p,
        p < k.a || k.b <= p,
    ensures
        escaped(k.t, k.to(p)) == Ok::<_, Fail>(((escaped(k.s, p)->Ok_0).0, k.to((escaped(k.s, p)->Ok_0).1))),
        p + 1 < (escaped(k.s, p)->Ok_0).1 <= k.s.len(),
{
    let e = (escaped(k.s, p)->Ok_0).1;
    let c = k.s[p + 1];
    assert(p + 1 < k.s.len());
    if is_break(c) && short_escape(c) is None {
        lemma_break(k, p + 1);
        lemma_white(k, past_break(k.s, p + 1), Class::Blank);
    }
    assert(p + 2 <= e);
    assert(k.s[p + 1] == k.t[k.to(p) + 1]);
    if short_escape(c) is None && !is_break(c) {
        lemma_sub(k, p + 2, e);
    }
}

/// How far a quoted scalar reaches.
pub(crate) proof fn lemma_quoted_in(s: Seq<u8>, p: int, indent: int, double: bool, text: Seq<u8>)
    requires
        0 <= p <= s.len(),
    ensures
        match quoted_rest(s, p, indent, double, text) {
            Ok((_, e)) => p < e <= s.len(),
            Err(_) => true,
        },
    decreases s.len() - p,
{
    if p < s.len() {
        if s[p] == quote(double) {
            if !double && at(s, p + 1) == Some(SQUOTE) {
                lemma_quoted_in(s, p + 2, indent, double, text.push(SQUOTE));
            }
        } else if double && s[p] == BACKSLASH {
            if let Ok((t, q)) = escaped(s, p) {
                if p < q <= s.len() {
                    lemma_quoted_in(s, q, indent, double, text + t);
                } else {
                    assert(false) by {
                        if is_break(s[p + 1]) && short_escape(s[p + 1]) is None {
                        }
                    }
                }
            }
        } else if is_break(s[p]) {
            let (t, q) = line_fold(s, p, indent);
            fold_from_in(s, past_break(s, p), indent, 0);
            lemma_quoted_in(s, q, indent, double, text + t);
        } else if is_blank(s[p]) {
            let q = run(s, p, Class::Blank);
            lemma_quoted_in(s, q, indent, double, text);
            lemma_quoted_in(s, q, indent, double, text + s.subrange(p, q));
        } else {
            let q = run(s, p, quoted_class(double));
            lemma_quoted_in(s, q, indent, double, text + s.subrange(p, q));
        }
    }
}

/// Whether a quoted scalar that ends at `e` lies before what differs.
pub open spec fn quoted_before(k: Cut, e: int) -> bool {
    e < k.a || (k.ok() && e <= k.a)
}

#[verifier::rlimit(50)]
pub(crate) proof fn lemma_quoted_word(k: Cut, p: int, indent: int, double: bool, text: Seq<u8>)
    requires
        k.base(),
        k.on(p),
        quoted_rest(k.s, p, indent, double, text) is Ok,
        quoted_before(k, (quoted_rest(k.s, p, indent, double, text)->Ok_0).1) || k.b <= p,
    ensures
        quoted_rest(k.t, k.to(p), indent, double, text) == Ok::<_, Fail>(
            (
                (quoted_rest(k.s, p, indent, double, text)->Ok_0).0,
                k.to((quoted_rest(k.s, p, indent, double, text)->Ok_0).1),
            ),
        ),
    decreases k.s.len() - p,
{
    let e = (quoted_rest(k.s, p, indent, double, text)->Ok_0).1;
    lemma_quoted_in(k.s, p, indent, double, text);
    assert(k.s[p] == k.t[k.to(p)]);
    if k.s[p] == quote(double) {
        if !double && at(k.s, p + 1) == Some(SQUOTE) {
            lemma_quoted_in(k.s, p + 2, indent, double, text.push(SQUOTE));
            assert(k.s[p + 1] == k.t[k.to(p) + 1]);
            lemma_quoted_word(k, p + 2, indent, double, text.push(SQUOTE));
        } else {
            if p < k.a {
                assert(p + 1 != k.a);
            }
            if p + 1 < k.s.len() {
                assert(k.s[p + 1] == k.t[k.to(p) + 1]);
            }
        }
    } else if double && k.s[p] == BACKSLASH {
        let (u, q) = escaped(k.s, p)->Ok_0;
        lemma_quoted_in(k.s, q, indent, double, text + u);
        lemma_escaped(k, p);
        lemma_quoted_word(k, q, indent, double, text + u);
    } else if is_break(k.s[p]) {
        let (u, q) = line_fold(k.s, p, indent);
        lemma_break(k, p);
        lemma_fold(k, past_break(k.s, p), indent, 0);
        fold_from_in(k.s, past_break(k.s, p), indent, 0);
        lemma_quoted_word(k, q, indent, double, text + u);
    } else if is_blank(k.s[p]) {
        let q = run(k.s, p, Class::Blank);
        lemma_white(k, p, Class::Blank);
        lemma_ends(k, q);
        lemma_sub(k, p, q);
        if line_ends(k.s, q) {
            lemma_quoted_word(k, q, indent, double, text);
        } else {
            lemma_quoted_word(k, q, indent, double, text + k.s.subrange(p, q));
        }
    } else {
        let c = quoted_class(double);
        let q = run(k.s, p, c);
        lemma_quoted_in(k.s, q, indent, double, text + k.s.subrange(p, q));
        lemma_scan(k, p, c);
        lemma_sub(k, p, q);
        lemma_quoted_word(k, q, indent, double, text + k.s.subrange(p, q));
    }
}

/// How far a token reaches.
pub(crate) proof fn lemma_token_in(s: Seq<u8>, p: int)
    requires
        0 <= p <= s.len(),
    ensures
        match token(s, p) {
            Ok(x) => p <= x.end <= x.p <= s.len(),
            Err(_) => true,
        },
{
    plain_rest_in(s, p, false);
    lemma_back_stop(s, p, plain_stop(s, p, false), Class::Blank);
    if p < s.len() {
        lemma_quoted_in(s, p + 1, col_at(s, p), true, Seq::empty());
        lemma_quoted_in(s, p + 1, col_at(s, p), false, Seq::empty());
    }
}

/// A token before or after.
pub(crate) proof fn lemma_token(k: Cut, p: int)
    requires
        k.ok(),
        0 <= p < k.a || k.later(p),
        token(k.s, p) is Ok,
        token(k.s, p)->Ok_0.p <= k.a || k.b <= p,
    ensures
        ({
            let x = token(k.s, p)->Ok_0;
            token(k.t, k.to(p)) == Ok::<_, Fail>(
                Token { quoted: x.quoted, text: x.text, end: k.to(x.end), p: k.to(x.p) },
            )
        }),
{
    if p < k.s.len() {
        assert(k.s[p] == k.t[k.to(p)]);
    }
    super::cut::lemma_col(k, p);
    lemma_token_in(k.s, p);
    if at(k.s, p) == Some(DQUOTE) || at(k.s, p) == Some(SQUOTE) {
        lemma_quoted_word(k, p + 1, col_at(k.s, p), at(k.s, p) == Some(DQUOTE), Seq::empty());
    } else {
        lemma_plain_word(k, p, false);
    }
}

/// A quoted scalar before or after.
pub(crate) proof fn lemma_quoted_cut(k: Cut, p: int, double: bool)
    requires
        k.base(),
        0 <= p < k.a || k.later(p),
        p < k.s.len(),
        quoted(k.s, p, double) is Ok,
        quoted_before(k, (quoted(k.s, p, double)->Ok_0).1) || k.b <= p,
    ensures
        quoted(k.t, k.to(p), double) == Ok::<_, Fail>(
            ((quoted(k.s, p, double)->Ok_0).0, k.to((quoted(k.s, p, double)->Ok_0).1)),
        ),
        p < (quoted(k.s, p, double)->Ok_0).1 <= k.s.len(),
{
    super::cut::lemma_col(k, p);
    lemma_quoted_in(k.s, p + 1, col_at(k.s, p), double, Seq::empty());
    lemma_quoted_word(k, p + 1, col_at(k.s, p), double, Seq::empty());
}

/// How far the lines of a block scalar reach.
pub(crate) proof fn lemma_lines_in(s: Seq<u8>, l: int, d: int, folded: bool, b: Block)
    requires
        0 <= l <= s.len(),
    ensures
        l <= block_lines(s, l, d, folded, b).1 <= s.len(),
    decreases s.len() - l,
{
    if l < s.len() {
        let q = past_spaces(s, l, d);
        past_spaces_in(s, l, d);
        let more = is_blank(s[q]);
        let e = run(s, q, Class::Line);
        lemma_lines_in(s, next_line(s, l), d, folded, Block { empties: b.empties + 1, ..b });
        lemma_lines_in(
            s,
            next_line(s, l),
            d,
            folded,
            Block {
                text: b.text + crate::parser::tokens::block_glue(b, folded, more) + s.subrange(q, e),
                empties: 0,
                any: true,
                more,
            },
        );
    }
}

proof fn lemma_lines(k: Cut, l: int, d: int, folded: bool, b: Block)
    requires
        k.ok(),
        0 <= l <= k.a || k.later(l) || l == k.s.len(),
        block_lines(k.s, l, d, folded, b).1 <= k.a || k.b <= l,
    ensures
        block_lines(k.t, k.to(l), d, folded, b) == (
            block_lines(k.s, l, d, folded, b).0,
            k.to(block_lines(k.s, l, d, folded, b).1),
        ),
    decreases k.s.len() - l,
{
    let q = past_spaces(k.s, l, d);
    lemma_lines_in(k.s, l, d, folded, b);
    lemma_past_spaces_cut(k, l, d);
    past_spaces_in(k.s, l, d);
    if l < k.s.len() {
        lemma_ends(k, q);
        lemma_filler_line(k, q);
        lemma_doc_bound(k, l);
        let n = next_line(k.s, l);
        next_line_in(k.s, l);
        if line_ends(k.s, q) || (q - l < d && line_blank(k.s, q)) {
            let c = Block { empties: b.empties + 1, ..b };
            lemma_lines_in(k.s, n, d, folded, c);
            lemma_next_line(k, l);
            lemma_lines(k, n, d, folded, c);
        } else if q - l < d || doc_bound(k.s, l) {
        } else {
            let more = is_blank(k.s[q]);
            let e = run(k.s, q, Class::Line);
            let c = Block {
                text: b.text + crate::parser::tokens::block_glue(b, folded, more) + k.s.subrange(q, e),
                empties: 0,
                any: true,
                more,
            };
            lemma_lines_in(k.s, n, d, folded, c);
            lemma_next_line(k, l);
            lemma_spaces_line(k.s, l, d);
            lemma_run(k.s, l, Class::Line);
            assert(run(k.s, l, Class::Line) == e);
            if l <= k.a {
                assert(e <= n);
                if e >= k.a {
                    assert(e == k.a);
                    assert(is_break(k.s[e]));
                }
                if q == k.a {
                    assert(e > q);
                }
            }
            lemma_scan(k, q, Class::Line);
            lemma_sub(k, q, e);
            assert(k.s[q] == k.t[k.to(q)]);
            lemma_lines(k, n, d, folded, c);
        }
    }
}

/// Spaces are part of their line.
proof fn lemma_spaces_line(s: Seq<u8>, l: int, d: int)
    requires
        0 <= l <= s.len(),
    ensures
        run(s, past_spaces(s, l, d), Class::Line) == run(s, l, Class::Line),
        past_spaces(s, l, d) <= run(s, l, Class::Line),
    decreases d,
{
    if d > 0 && l < s.len() && s[l] == SPACE {
        lemma_spaces_line(s, l + 1, d - 1);
    }
}

proof fn lemma_header(k: Cut, p: int)
    requires
        k.base(),
        0 <= p <= k.s.len(),
        block_header(k.s, p).2 < k.a || k.b <= p,
    ensures
        block_header(k.t, k.to(p)) == (
            block_header(k.s, p).0,
            block_header(k.s, p).1,
            k.to(block_header(k.s, p).2),
        ),
        p <= block_header(k.s, p).2 <= k.s.len(),
{
    if p < k.s.len() {
        assert(k.s[p] == k.t[k.to(p)]);
        if p + 1 < k.s.len() && p + 1 != k.a {
            assert(k.s[p + 1] == k.t[k.to(p) + 1]);
        }
    }
}

/// How far a block scalar reaches.
pub(crate) proof fn lemma_block_in(s: Seq<u8>, p: int, m: int)
    requires
        0 <= p < s.len(),
    ensures
        match block_scalar(s, p, m) {
            Ok((_, e)) => p < e <= s.len(),
            Err(_) => true,
        },
{
    let (chomp, asked, h) = block_header(s, p + 1);
    let q = run(s, h, Class::Blank);
    let e = if at(s, q) == Some(HASH) && h < q {
        run(s, q, Class::Line)
    } else {
        q
    };
    let l = past_break(s, e);
    lemma_lines_in(
        s,
        l,
        block_depth(s, l, asked, m),
        at(s, p) == Some(GREATER),
        Block { text: Seq::empty(), empties: 0, any: false, more: false },
    );
}

/// A block scalar before or after.
pub(crate) proof fn lemma_block_cut(k: Cut, p: int, m: int)
    requires
        k.ok(),
        0 <= p < k.a || k.later(p),
        p < k.s.len(),
        block_scalar(k.s, p, m) is Ok,
        (block_scalar(k.s, p, m)->Ok_0).1 <= k.a || k.b <= p,
    ensures
        block_scalar(k.t, k.to(p), m) == Ok::<_, Fail>(
            ((block_scalar(k.s, p, m)->Ok_0).0, k.to((block_scalar(k.s, p, m)->Ok_0).1)),
        ),
        p < (block_scalar(k.s, p, m)->Ok_0).1 <= k.s.len(),
{
    lemma_block_in(k.s, p, m);
    assert(k.s[p] == k.t[k.to(p)]);
    let (chomp, asked, h) = block_header(k.s, p + 1);
    let q = run(k.s, h, Class::Blank);
    let e = if at(k.s, q) == Some(HASH) && h < q {
        run(k.s, q, Class::Line)
    } else {
        q
    };
    let l = past_break(k.s, e);
    let d = block_depth(k.s, l, asked, m);
    let b = Block { text: Seq::empty(), empties: 0, any: false, more: false };
    let r = block_lines(k.s, l, d, at(k.s, p) == Some(GREATER), b).1;
    lemma_lines_in(k.s, l, d, at(k.s, p) == Some(GREATER), b);
    if p < k.a {
        assert(e <= l <= r <= k.a);
        assert(e < k.a) by {
            if e == k.a {
                assert(line_ends(k.s, e));
            }
        }
        assert(h < k.a);
    }
    lemma_header(k, p + 1);
    lemma_white(k, h, Class::Blank);
    if q < k.s.len() && q != k.a {
        assert(k.s[q] == k.t[k.to(q)]);
    }
    if at(k.s, q) == Some(HASH) && h < q {
        lemma_scan(k, q, Class::Line);
    }
    lemma_ends(k, e);
    lemma_break(k, e);
    lemma_blank_lines_cut(k, l);
    lemma_white(k, past_blank_lines(k.s, l), Class::Spaces);
    if k.b <= p {
        if l == e {
            assert(l == k.s.len());
        }
    }
    lemma_lines(k, l, d, at(k.s, p) == Some(GREATER), b);
}

/// A name ends before the blank that comes before a word.
pub(crate) proof fn lemma_name(k: Cut, p: int)
    requires
        k.base(),
        0 <= p,
        p < k.a || k.b <= p <= k.s.len(),
        run(k.s, p, Class::Name) <= k.a || k.b <= p,
    ensures
        run(k.t, k.to(p), Class::Name) == k.to(run(k.s, p, Class::Name)),
        p < k.a ==> run(k.s, p, Class::Name) < k.a,
{
    lemma_run(k.s, p, Class::Name);
    if p < k.a && run(k.s, p, Class::Name) == k.a {
        assert(Class::Name.holds(k.s[k.a - 1]));
    }
    lemma_scan(k, p, Class::Name);
}

proof fn lemma_tag_cut(k: Cut, p: int)
    requires
        k.base(),
        0 <= p < k.a || k.b <= p,
        at(k.s, p) == Some(BANG),
        tag_end(k.s, p) <= k.a || k.b <= p,
    ensures
        tag_end(k.t, k.to(p)) == k.to(tag_end(k.s, p)),
        p < tag_end(k.s, p) <= k.s.len(),
        p < k.a ==> tag_end(k.s, p) <= k.a,
{
    assert(k.s[p] == k.t[k.to(p)]);
    if p < k.a {
        assert(p + 1 < k.a) by {
            if p + 1 == k.a {
                assert(k.s[k.a - 1] == BANG);
                lemma_run(k.s, p + 1, Class::Name);
                lemma_run(k.s, p + 2, Class::Until(GREATER));
            }
        }
    }
    if p + 1 < k.s.len() {
        assert(k.s[p + 1] == k.t[k.to(p) + 1]);
    }
    if at(k.s, p + 1) == Some(LESS) {
        let q = run(k.s, p + 2, Class::Until(GREATER));
        lemma_run(k.s, p + 2, Class::Until(GREATER));
        lemma_scan(k, p + 2, Class::Until(GREATER));
        if q < k.s.len() {
            assert(k.s[q] == GREATER);
        }
    } else {
        lemma_name(k, p + 1);
    }
}

/// A tag or an anchor moves the cursor.
proof fn lemma_round_in(s: Seq<u8>, p: int, flow: bool, got: Props)
    requires
        0 <= p <= s.len(),
    ensures
        match props_round(s, p, flow, got) {
            Ok(Some((_, q))) => p < q <= s.len(),
            _ => true,
        },
{
    let tagged = got.tag is None && at(s, p) == Some(BANG);
    if tagged {
        if at(s, p + 1) == Some(LESS) {
            lemma_run(s, p + 2, Class::Until(GREATER));
        } else {
            lemma_run(s, p + 1, Class::Name);
        }
    }
}

/// How far tags and anchors reach.
pub(crate) proof fn lemma_props_in(s: Seq<u8>, p: int, flow: bool, got: Props)
    requires
        0 <= p <= s.len(),
    ensures
        match props_from(s, p, flow, got) {
            Ok((x, q)) => p <= q <= s.len() && (x != got ==> p < q),
            Err(_) => true,
        },
    decreases s.len() - p,
{
    lemma_round_in(s, p, flow, got);
    if let Ok(Some((x, q))) = props_round(s, p, flow, got) {
        lemma_props_in(s, q, flow, x);
    }
}

/// Tags and anchors, with the places of the anchors moved.
pub open spec fn moved_props(k: Cut, x: Props) -> Props {
    Props {
        tag: x.tag,
        anchor: match x.anchor {
            Some((name, e)) => Some((name, Extent { a: k.to(e.a), b: k.to(e.b) })),
            None => None,
        },
    }
}

/// An anchor before or after.
proof fn lemma_anchor_cut(k: Cut, p: int)
    requires
        k.base(),
        k.on(p),
        at(k.s, p) == Some(AMP),
        run(k.s, p + 1, Class::Name) <= k.a || k.b <= p,
    ensures
        ({
            let e = run(k.s, p + 1, Class::Name);
            &&& p != k.a
            &&& at(k.t, k.to(p)) == Some(AMP)
            &&& run(k.t, k.to(p) + 1, Class::Name) == k.to(e)
            &&& k.t.subrange(k.to(p) + 1, k.to(e)) == k.s.subrange(p + 1, e)
            &&& run(k.t, k.to(e), Class::Blank) == k.to(run(k.s, e, Class::Blank))
            &&& p < e <= k.s.len()
            &&& p < k.a ==> e < k.a
            &&& k.to(p + 1) == k.to(p) + 1
        }),
{
    lemma_run(k.s, p + 1, Class::Name);
    assert(k.s[p] == k.t[k.to(p)]);
    if p < k.a {
        assert(p + 1 < k.a) by {
            if p + 1 == k.a {
                assert(k.s[k.a - 1] == AMP);
                lemma_run(k.s, p + 2, Class::Name);
            }
        }
    }
    let e = run(k.s, p + 1, Class::Name);
    lemma_name(k, p + 1);
    lemma_white(k, e, Class::Blank);
    lemma_sub(k, p + 1, e);
}

proof fn lemma_round(k: Cut, p: int, flow: bool, got: Props)
    requires
        k.base(),
        k.on(p),
        match props_round(k.s, p, flow, got) {
            Ok(Some((_, q))) => q <= k.a || k.b <= p,
            Ok(None) => true,
            Err(_) => false,
        },
    ensures
        match props_round(k.s, p, flow, got) {
            Ok(Some((x, q))) => props_round(k.t, k.to(p), flow, moved_props(k, got)) == Ok::<_, Fail>(
                Some((moved_props(k, x), k.to(q))),
            ),
            _ => props_round(k.t, k.to(p), flow, moved_props(k, got)) == Ok::<Option<(Props, int)>, Fail>(None),
        },
{
    lemma_round_in(k.s, p, flow, got);
    if p < k.s.len() && p != k.a {
        assert(k.s[p] == k.t[k.to(p)]);
    }
    let tagged = got.tag is None && at(k.s, p) == Some(BANG);
    let te = tag_end(k.s, p);
    let p1 = if tagged {
        run(k.s, te, Class::Blank)
    } else {
        p
    };
    if tagged {
        if at(k.s, p + 1) == Some(LESS) {
            lemma_run(k.s, p + 2, Class::Until(GREATER));
        } else {
            lemma_run(k.s, p + 1, Class::Name);
        }
        lemma_run(k.s, te, Class::Blank);
        assert(p < te <= p1);
    }
    let anchored = got.anchor is None && at(k.s, p1) == Some(AMP);
    let e = run(k.s, p1 + 1, Class::Name);
    let p2 = if anchored {
        run(k.s, e, Class::Blank)
    } else {
        p1
    };
    if anchored {
        lemma_run(k.s, p1 + 1, Class::Name);
        lemma_run(k.s, e, Class::Blank);
    }
    past_flow_gap_in(k.s, p2);
    if tagged {
        lemma_tag_cut(k, p);
        lemma_white(k, te, Class::Blank);
        lemma_sub(k, p, te);
    }
    if p1 < k.s.len() && p1 != k.a {
        assert(k.s[p1] == k.t[k.to(p1)]);
    }
    if anchored {
        lemma_anchor_cut(k, p1);
    }
    if flow && (tagged || anchored) {
        lemma_flow_gap(k, p2);
    }
}

pub(crate) proof fn lemma_props(k: Cut, p: int, flow: bool, got: Props)
    requires
        k.base(),
        k.on(p),
        props_from(k.s, p, flow, got) is Ok,
        ({
            let q = (props_from(k.s, p, flow, got)->Ok_0).1;
            q <= k.a || k.b <= p
        }),
    ensures
        ({
            let (x, q) = props_from(k.s, p, flow, got)->Ok_0;
            props_from(k.t, k.to(p), flow, moved_props(k, got)) == Ok::<_, Fail>((moved_props(k, x), k.to(q)))
        }),
    decreases k.s.len() - p,
{
    lemma_round_in(k.s, p, flow, got);
    if let Ok(Some((x, q))) = props_round(k.s, p, flow, got) {
        lemma_props_in(k.s, q, flow, x);
        lemma_round(k, p, flow, got);
        lemma_props(k, q, flow, x);
    } else {
        lemma_round(k, p, flow, got);
    }
}

} // verus!
