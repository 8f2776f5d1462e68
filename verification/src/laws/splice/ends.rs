//! What is read ends between two characters.
use vstd::prelude::*;
use super::words::lemma_quoted_in;
use crate::parser::layout::{bounds, col_at, indicator_at, moves, next_line, past_break};
use crate::parser::tokens::{
    blank_lines, block_depth, block_glue, block_header, block_lines, block_scalar, escaped, fold_from_in,
    lemma_blank_lines_bd, lemma_plain, line_fold, past_blank_lines, past_blank_lines_in, past_spaces, past_spaces_in,
    plain_folded, plain_glue, plain_goes_on, plain_stop, plain_text, props_from, props_round, quote, quoted,
    quoted_class, quoted_rest, short_escape, tag_end, token, Block, Props,
};
use crate::text::{
    at, bd, is_blank, is_break, is_text, lemma_bd_ascii, lemma_run, run, Class, AMP, BACKSLASH, BANG, COLON, GREATER,
    HASH, LESS, PIPE, SQUOTE,
};

verus! {

broadcast use {moves, bounds};

pub(crate) proof fn lemma_quoted_end(s: Seq<u8>, p: int, indent: int, double: bool, text: Seq<u8>)
    requires
        0 <= p <= s.len(),
    ensures
        match quoted_rest(s, p, indent, double, text) {
            Ok((_, e)) => p < e <= s.len() && s[e - 1] == quote(double),
            Err(_) => true,
        },
    decreases s.len() - p,
{
    lemma_quoted_in(s, p, indent, double, text);
    if p < s.len() {
        if s[p] == quote(double) {
            if !double && at(s, p + 1) == Some(SQUOTE) {
                lemma_quoted_end(s, p + 2, indent, double, text.push(SQUOTE));
            }
        } else if double && s[p] == BACKSLASH {
            if let Ok((t, q)) = escaped(s, p) {
                if p < q <= s.len() {
                    lemma_quoted_end(s, q, indent, double, text + t);
                } else {
                    assert(false) by {
                        if is_break(s[p + 1]) && short_escape(s[p + 1]) is None {
                        }
                    }
                }
            }
        } else if is_break(s[p]) {
            let (t, q) = line_fold(s, p, indent);
            fold_from_in(s, past_break(s, p), indent, 0);
            lemma_quoted_end(s, q, indent, double, text + t);
        } else if is_blank(s[p]) {
            let q = run(s, p, Class::Blank);
            lemma_quoted_end(s, q, indent, double, text);
            lemma_quoted_end(s, q, indent, double, text + s.subrange(p, q));
        } else {
            let q = run(s, p, quoted_class(double));
            lemma_quoted_end(s, q, indent, double, text + s.subrange(p, q));
        }
    }
}

pub(crate) proof fn lemma_quoted_bd(s: Seq<u8>, p: int, double: bool)
    requires
        is_text(s),
        0 <= p < s.len(),
    ensures
        match quoted(s, p, double) {
            Ok((_, e)) => p < e <= s.len() && bd(s, e),
            Err(_) => true,
        },
{
    lemma_quoted_end(s, p + 1, col_at(s, p), double, Seq::empty());
    if let Ok((_, e)) = quoted(s, p, double) {
        lemma_bd_ascii(s, e - 1);
    }
}

pub(crate) proof fn lemma_token_bd(s: Seq<u8>, p: int)
    requires
        is_text(s),
        bd(s, p),
    ensures
        match token(s, p) {
            Ok(x) => p <= x.end <= x.p <= s.len() && bd(s, x.end) && bd(s, x.p),
            Err(_) => true,
        },
{
    lemma_plain(s, p, false);
    if p < s.len() {
        lemma_quoted_bd(s, p, true);
        lemma_quoted_bd(s, p, false);
    }
}

pub(crate) proof fn lemma_folded_bd(s: Seq<u8>, text: Seq<u8>, p: int, m: int)
    requires
        is_text(s),
        bd(s, p),
    ensures
        match plain_folded(s, text, p, m) {
            Ok((_, e)) => p <= e <= s.len() && bd(s, e),
            Err(_) => true,
        },
    decreases s.len() - p,
{
    let l = past_break(s, p);
    let q = past_blank_lines(s, l);
    past_blank_lines_in(s, l);
    lemma_blank_lines_bd(s, l);
    if plain_goes_on(s, p, q, m) {
        let c = run(s, q, Class::Blank);
        lemma_plain(s, c, false);
        let e = run(s, plain_stop(s, c, false), Class::Blank);
        if !indicator_at(s, e, COLON) {
            lemma_folded_bd(s, text + plain_glue(blank_lines(s, l)) + plain_text(s, c, false), e, m);
        }
    }
}

proof fn lemma_lines_bd(s: Seq<u8>, l: int, d: int, folded: bool, b: Block)
    requires
        is_text(s),
        bd(s, l),
    ensures
        l <= block_lines(s, l, d, folded, b).1 <= s.len(),
        bd(s, block_lines(s, l, d, folded, b).1),
    decreases s.len() - l,
{
    if l < s.len() {
        let q = past_spaces(s, l, d);
        past_spaces_in(s, l, d);
        let more = is_blank(s[q]);
        let e = run(s, q, Class::Line);
        lemma_lines_bd(s, next_line(s, l), d, folded, Block { empties: b.empties + 1, ..b });
        lemma_lines_bd(
            s,
            next_line(s, l),
            d,
            folded,
            Block { text: b.text + block_glue(b, folded, more) + s.subrange(q, e), empties: 0, any: true, more },
        );
    }
}

pub(crate) proof fn lemma_block_bd(s: Seq<u8>, p: int, m: int)
    requires
        is_text(s),
        0 <= p < s.len(),
        s[p] == PIPE || s[p] == GREATER,
    ensures
        match block_scalar(s, p, m) {
            Ok((_, e)) => p < e <= s.len() && bd(s, e),
            Err(_) => true,
        },
{
    lemma_bd_ascii(s, p);
    let (chomp, asked, h) = block_header(s, p + 1);
    if p + 1 < s.len() && s[p + 1] < 0x80 {
        lemma_bd_ascii(s, p + 1);
        if p + 2 < s.len() && s[p + 2] < 0x80 {
            lemma_bd_ascii(s, p + 2);
        }
    }
    assert(bd(s, h));
    let q = run(s, h, Class::Blank);
    let e = if at(s, q) == Some(HASH) && h < q {
        run(s, q, Class::Line)
    } else {
        q
    };
    let l = past_break(s, e);
    lemma_lines_bd(
        s,
        l,
        block_depth(s, l, asked, m),
        at(s, p) == Some(GREATER),
        Block { text: Seq::empty(), empties: 0, any: false, more: false },
    );
}

proof fn lemma_tag_bd(s: Seq<u8>, p: int)
    requires
        is_text(s),
        bd(s, p),
        at(s, p) == Some(BANG),
    ensures
        p < tag_end(s, p) <= s.len(),
        bd(s, tag_end(s, p)),
{
    lemma_bd_ascii(s, p);
    if at(s, p + 1) == Some(LESS) {
        lemma_bd_ascii(s, p + 1);
        let q = run(s, p + 2, Class::Until(GREATER));
        lemma_run(s, p + 2, Class::Until(GREATER));
        if q < s.len() {
            lemma_bd_ascii(s, q);
        }
    }
}

proof fn lemma_round_bd(s: Seq<u8>, p: int, flow: bool, got: Props)
    requires
        is_text(s),
        bd(s, p),
    ensures
        match props_round(s, p, flow, got) {
            Ok(Some((_, q))) => p < q <= s.len() && bd(s, q),
            _ => true,
        },
{
    let tagged = got.tag is None && at(s, p) == Some(BANG);
    if tagged {
        lemma_tag_bd(s, p);
    }
    let p1 = if tagged {
        run(s, tag_end(s, p), Class::Blank)
    } else {
        p
    };
    if at(s, p1) == Some(AMP) {
        lemma_bd_ascii(s, p1);
    }
}

pub(crate) proof fn lemma_props_bd(s: Seq<u8>, p: int, flow: bool, got: Props)
    requires
        is_text(s),
        bd(s, p),
    ensures
        match props_from(s, p, flow, got) {
            Ok((x, q)) => p <= q <= s.len() && bd(s, q) && (x != got ==> p < q),
            Err(_) => true,
        },
    decreases s.len() - p,
{
    lemma_round_bd(s, p, flow, got);
    if let Ok(Some((x, q))) = props_round(s, p, flow, got) {
        lemma_props_bd(s, q, flow, x);
    }
}

} // verus!
