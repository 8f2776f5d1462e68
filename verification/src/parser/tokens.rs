//! Scalars, tags and anchors, as functions of the source and a position.
use vstd::prelude::*;
use vstd::utf8::*;
use super::layout::{
    col_at, doc_bound, gap_at, indicator_at, line_blank, line_comment, line_ends, moves, next_line, next_line_bd,
    next_line_in, past_break, past_flow_gap, Fail,
};
use crate::edit::sink::Extent;
use crate::patterns::number;
use crate::text::{
    is_text, at, back, bd, is_blank, is_break, is_flow_mark, lemma_back, lemma_bd_ascii, lemma_bd_ends, run, Class,
    AMP, BACKSLASH, BANG, COLON, DASH, DQUOTE, GREATER, HASH, LESS, LF, PLUS, SPACE, SQUOTE, TAB,
};
use crate::value::lit;

verus! {

broadcast use moves;

/// `n` line feeds.
pub open spec fn breaks(n: int) -> Seq<u8> {
    Seq::new(n as nat, |i: int| LF)
}

/// Where a plain scalar that began before `p` stops: at a line break, at a colon
/// that ends a key, before a comment, and in flow context at any flow mark or
/// colon.
pub open spec fn plain_rest(s: Seq<u8>, p: int, flow: bool) -> int
    decreases s.len() - p,
{
    if !(0 <= p < s.len()) || is_break(s[p]) || (s[p] == COLON && (flow || gap_at(s, p + 1))) || (flow && is_flow_mark(
        s[p],
    )) || (is_blank(s[p]) && at(s, p + 1) == Some(HASH)) {
        p
    } else {
        plain_rest(s, p + 1, flow)
    }
}

/// Where a plain scalar that begins at `p` stops.
pub open spec fn plain_stop(s: Seq<u8>, p: int, flow: bool) -> int {
    if at(s, p) == Some(HASH) {
        p
    } else {
        plain_rest(s, p, flow)
    }
}

/// Where the text of a plain scalar that begins at `p` ends.
pub open spec fn plain_end(s: Seq<u8>, p: int, flow: bool) -> int {
    back(s, p, plain_stop(s, p, flow), Class::Blank)
}

/// The text of a plain scalar that begins at `p`.
pub open spec fn plain_text(s: Seq<u8>, p: int, flow: bool) -> Seq<u8> {
    s.subrange(p, plain_end(s, p, flow))
}

pub broadcast proof fn plain_rest_in(s: Seq<u8>, p: int, flow: bool)
    requires
        0 <= p <= s.len(),
    ensures
        p <= #[trigger] plain_rest(s, p, flow) <= s.len(),
    decreases s.len() - p,
{
    if p < s.len() && plain_rest(s, p, flow) != p {
        plain_rest_in(s, p + 1, flow);
    }
}

pub proof fn lemma_plain(s: Seq<u8>, p: int, flow: bool)
    requires
        is_text(s),
        bd(s, p),
    ensures
        p <= plain_end(s, p, flow) <= plain_stop(s, p, flow) <= s.len(),
        bd(s, plain_stop(s, p, flow)),
        bd(s, plain_end(s, p, flow)),
{
    lemma_plain_rest_bd(s, p, flow);
    plain_rest_in(s, p, flow);
    lemma_back(s, p, plain_stop(s, p, flow), Class::Blank);
}

proof fn lemma_plain_rest_bd(s: Seq<u8>, p: int, flow: bool)
    requires
        is_text(s),
        0 <= p <= s.len(),
    ensures
        bd(s, plain_rest(s, p, flow)),
    decreases s.len() - p,
{
    reveal_with_fuel(plain_rest, 2);
    if p == s.len() {
        lemma_bd_ends(s);
    } else if plain_rest(s, p, flow) == p {
        plain_rest_in(s, p + 1, flow);
        lemma_bd_ascii(s, p);
    } else {
        lemma_plain_rest_bd(s, p + 1, flow);
    }
}

/// Past the blank lines from line start `q` on.
pub open spec fn past_blank_lines(s: Seq<u8>, q: int) -> int
    decreases s.len() - q,
        when 0 <= q <= s.len()
{
    if q < s.len() && line_blank(s, q) {
        past_blank_lines(s, next_line(s, q))
    } else {
        q
    }
}

/// How many blank lines there are from line start `q` on.
pub open spec fn blank_lines(s: Seq<u8>, q: int) -> int
    decreases s.len() - q,
        when 0 <= q <= s.len()
{
    if q < s.len() && line_blank(s, q) {
        blank_lines(s, next_line(s, q)) + 1
    } else {
        0
    }
}

pub broadcast proof fn past_blank_lines_in(s: Seq<u8>, q: int)
    requires
        0 <= q <= s.len(),
    ensures
        q <= #[trigger] past_blank_lines(s, q) <= s.len(),
    decreases s.len() - q,
{
    if q < s.len() && line_blank(s, q) {
        past_blank_lines_in(s, next_line(s, q));
    }
}

pub proof fn lemma_blank_lines_bd(s: Seq<u8>, q: int)
    requires
        is_text(s),
        bd(s, q),
    ensures
        bd(s, past_blank_lines(s, q)),
    decreases s.len() - q,
{
    if q < s.len() && line_blank(s, q) {
        next_line_bd(s, q);
        lemma_blank_lines_bd(s, next_line(s, q));
    }
}

/// Whether a plain scalar that stopped at `p` goes on at line start `q`.
pub open spec fn plain_goes_on(s: Seq<u8>, p: int, q: int, m: int) -> bool {
    &&& p < s.len() && is_break(s[p])
    &&& q < s.len() && !doc_bound(s, q)
    &&& run(s, q, Class::Spaces) - q >= m
    &&& !line_comment(s, q)
}

/// What joins the lines of a plain scalar: a space, or what is left of the line
/// breaks when blank lines stand between them.
pub open spec fn plain_glue(blanks: int) -> Seq<u8> {
    if blanks == 0 {
        seq![SPACE]
    } else {
        breaks(blanks)
    }
}

/// A plain scalar of text `text` that stopped at `p`, with the lines that go on
/// at an indentation of at least `m`.
pub open spec fn plain_folded(s: Seq<u8>, text: Seq<u8>, p: int, m: int) -> Result<(Seq<u8>, int), Fail>
    decreases s.len() - p,
        when 0 <= p <= s.len()
{
    let l = past_break(s, p);
    let q = past_blank_lines(s, l);
    if plain_goes_on(s, p, q, m) {
        let c = run(s, q, Class::Blank);
        let e = run(s, plain_stop(s, c, false), Class::Blank);
        if indicator_at(s, e, COLON) {
            Err(Fail { msg: lit("mapping values are not allowed here"), p: e })
        } else {
            proof {
                past_blank_lines_in(s, l);
                plain_rest_in(s, c, false);
            }
            plain_folded(s, text + plain_glue(blank_lines(s, l)) + plain_text(s, c, false), e, m)
        }
    } else {
        Ok((text, p))
    }
}

/// Past at most `n` blanks.
pub open spec fn past_blanks(s: Seq<u8>, p: int, n: int) -> int
    decreases n,
{
    if n > 0 && 0 <= p < s.len() && is_blank(s[p]) {
        past_blanks(s, p + 1, n - 1)
    } else {
        p
    }
}

pub broadcast proof fn past_blanks_in(s: Seq<u8>, p: int, n: int)
    requires
        0 <= p <= s.len(),
    ensures
        p <= #[trigger] past_blanks(s, p, n) <= s.len(),
    decreases n,
{
    if n > 0 && p < s.len() && is_blank(s[p]) {
        past_blanks_in(s, p + 1, n - 1);
    }
}

/// What a line break inside a quoted scalar stands for, when `n` empty lines came
/// before line start `q`, and the position after it.
///
/// Each line loses at most `indent` blanks.
pub open spec fn fold_from(s: Seq<u8>, q: int, indent: int, n: int) -> (Seq<u8>, int)
    decreases s.len() - q,
        when 0 <= q <= s.len()
{
    let r = past_blanks(s, q, indent);
    proof {
        past_blanks_in(s, q, indent);
    }
    if r < s.len() && is_break(s[r]) {
        fold_from(s, past_break(s, r), indent, n + 1)
    } else if n > 0 {
        (breaks(n), r)
    } else if r < s.len() && is_blank(s[r]) {
        (seq![LF], r)
    } else {
        (seq![SPACE], r)
    }
}

/// What the line break at `p` inside a quoted scalar stands for.
pub open spec fn line_fold(s: Seq<u8>, p: int, indent: int) -> (Seq<u8>, int) {
    fold_from(s, past_break(s, p), indent, 0)
}

pub broadcast proof fn fold_from_in(s: Seq<u8>, q: int, indent: int, n: int)
    requires
        0 <= q <= s.len(),
    ensures
        q <= (#[trigger] fold_from(s, q, indent, n)).1 <= s.len(),
    decreases s.len() - q,
{
    let r = past_blanks(s, q, indent);
    past_blanks_in(s, q, indent);
    if r < s.len() && is_break(s[r]) {
        fold_from_in(s, past_break(s, r), indent, n + 1);
    }
}

/// The character that a one-letter escape stands for.
pub open spec fn short_escape(c: u8) -> Option<u32> {
    if c == 0x30 {
        Some(0)
    } else if c == 0x61 {
        Some(0x07)
    } else if c == 0x62 {
        Some(0x08)
    } else if c == 0x74 || c == TAB {
        Some(0x09)
    } else if c == 0x6e {
        Some(0x0a)
    } else if c == 0x76 {
        Some(0x0b)
    } else if c == 0x66 {
        Some(0x0c)
    } else if c == 0x72 {
        Some(0x0d)
    } else if c == 0x65 {
        Some(0x1b)
    } else if c == SPACE || c == DQUOTE || c == 0x2f || c == BACKSLASH {
        Some(c as u32)
    } else if c == 0x4e {
        Some(0x85)
    } else if c == 0x5f {
        Some(0xa0)
    } else if c == 0x4c {
        Some(0x2028)
    } else if c == 0x50 {
        Some(0x2029)
    } else {
        None
    }
}

/// How many hexadecimal digits an escape takes.
pub open spec fn hex_width(c: u8) -> int {
    if c == 0x78 {
        2
    } else if c == 0x75 {
        4
    } else if c == 0x55 {
        8
    } else {
        0
    }
}

/// What the escape at `p`, where its backslash stands, is replaced by.
pub open spec fn escaped(s: Seq<u8>, p: int) -> Result<(Seq<u8>, int), Fail> {
    match at(s, p + 1) {
        None => Err(Fail { msg: lit("unterminated double-quoted string"), p: p + 1 }),
        Some(c) => match short_escape(c) {
            Some(u) => Ok((encode_scalar(u), p + 2)),
            None => if is_break(c) {
                Ok((Seq::empty(), run(s, past_break(s, p + 1), Class::Blank)))
            } else if hex_width(c) > 0 {
                let e = p + 2 + hex_width(c);
                if e <= s.len() {
                    match number(s.subrange(p + 2, e), 16) {
                        Some(n) if n <= 0x10ffff && is_scalar(n as u32) => Ok((encode_scalar(n as u32), e)),
                        _ => Err(Fail { msg: lit("invalid escape sequence"), p }),
                    }
                } else {
                    Err(Fail { msg: lit("invalid escape sequence"), p })
                }
            } else {
                Err(Fail { msg: lit("unknown escape sequence"), p })
            },
        },
    }
}

/// The quote that encloses a scalar.
pub open spec fn quote(double: bool) -> u8 {
    if double {
        DQUOTE
    } else {
        SQUOTE
    }
}

/// The bytes of a quoted scalar that stand for themselves, blanks aside.
pub open spec fn quoted_class(double: bool) -> Class {
    if double {
        Class::Double
    } else {
        Class::Single
    }
}

/// The rest of a quoted scalar from `p` on, appended to `text`, and the position
/// after its closing quote.
pub open spec fn quoted_rest(s: Seq<u8>, p: int, indent: int, double: bool, text: Seq<u8>) -> Result<
    (Seq<u8>, int),
    Fail,
>
    decreases s.len() - p,
        when 0 <= p <= s.len()
{
    if p >= s.len() {
        Err(
            Fail {
                msg: if double {
                    lit("unterminated double-quoted string")
                } else {
                    lit("unterminated single-quoted string")
                },
                p,
            },
        )
    } else if s[p] == quote(double) {
        if !double && at(s, p + 1) == Some(SQUOTE) {
            quoted_rest(s, p + 2, indent, double, text.push(SQUOTE))
        } else {
            Ok((text, p + 1))
        }
    } else if double && s[p] == BACKSLASH {
        match escaped(s, p) {
            Ok((t, q)) => if p < q <= s.len() {
                quoted_rest(s, q, indent, double, text + t)
            } else {
                Ok((text, q))
            },
            Err(f) => Err(f),
        }
    } else if is_break(s[p]) {
        let (t, q) = line_fold(s, p, indent);
        proof {
            fold_from_in(s, past_break(s, p), indent, 0);
        }
        quoted_rest(s, q, indent, double, text + t)
    } else if is_blank(s[p]) {
        let q = run(s, p, Class::Blank);
        if line_ends(s, q) {
            quoted_rest(s, q, indent, double, text)
        } else {
            quoted_rest(s, q, indent, double, text + s.subrange(p, q))
        }
    } else {
        let q = run(s, p, quoted_class(double));
        quoted_rest(s, q, indent, double, text + s.subrange(p, q))
    }
}

/// A quoted scalar whose opening quote stands at `p`.
pub open spec fn quoted(s: Seq<u8>, p: int, double: bool) -> Result<(Seq<u8>, int), Fail> {
    quoted_rest(s, p + 1, col_at(s, p), double, Seq::empty())
}

/// A scalar as it is written: whether it is quoted, its text, and where it ends.
pub struct Token {
    pub quoted: bool,
    pub text: Seq<u8>,
    pub end: int,
    /// Where the cursor stands after it.
    pub p: int,
}

/// The scalar that begins at `p` in block context.
pub open spec fn token(s: Seq<u8>, p: int) -> Result<Token, Fail> {
    if at(s, p) == Some(DQUOTE) || at(s, p) == Some(SQUOTE) {
        match quoted(s, p, at(s, p) == Some(DQUOTE)) {
            Ok((text, q)) => Ok(Token { quoted: true, text, end: q, p: q }),
            Err(f) => Err(f),
        }
    } else {
        Ok(
            Token {
                quoted: false,
                text: plain_text(s, p, false),
                end: plain_end(s, p, false),
                p: plain_stop(s, p, false),
            },
        )
    }
}

/// How the line breaks that end a block scalar are kept.
#[derive(Clone, Copy, PartialEq, Eq, Structural)]
pub enum Chomp {
    Clip,
    Strip,
    Keep,
}

/// The chomping that an indicator asks for.
pub open spec fn chomp_of(b: Option<u8>) -> Option<Chomp> {
    match b {
        Some(c) => if c == DASH {
            Some(Chomp::Strip)
        } else if c == PLUS {
            Some(Chomp::Keep)
        } else {
            None
        },
        None => None,
    }
}

/// The indentation that an indicator asks for.
pub open spec fn depth_of(b: Option<u8>) -> Option<int> {
    match b {
        Some(c) => if 0x31 <= c <= 0x39 {
            Some(c - 0x30)
        } else {
            None
        },
        None => None,
    }
}

/// The indicators of a block scalar after its `|` or `>`: chomping, indentation,
/// and the position after them.
pub open spec fn block_header(s: Seq<u8>, p: int) -> (Chomp, Option<int>, int) {
    match (chomp_of(at(s, p)), depth_of(at(s, p))) {
        (Some(c), _) => match depth_of(at(s, p + 1)) {
            Some(d) => (c, Some(d), p + 2),
            None => (c, None, p + 1),
        },
        (None, Some(d)) => match chomp_of(at(s, p + 1)) {
            Some(c) => (c, Some(d), p + 2),
            None => (Chomp::Clip, Some(d), p + 1),
        },
        (None, None) => (Chomp::Clip, None, p),
    }
}

/// What has been read of a block scalar: its text up to the last line with
/// content, the empty lines after it, whether there was such a line and whether
/// it was indented further than the rest.
pub struct Block {
    pub text: Seq<u8>,
    pub empties: int,
    pub any: bool,
    pub more: bool,
}

/// Past at most `n` spaces.
pub open spec fn past_spaces(s: Seq<u8>, p: int, n: int) -> int
    decreases n,
{
    if n > 0 && 0 <= p < s.len() && s[p] == SPACE {
        past_spaces(s, p + 1, n - 1)
    } else {
        p
    }
}

pub broadcast proof fn past_spaces_in(s: Seq<u8>, p: int, n: int)
    requires
        0 <= p <= s.len(),
    ensures
        p <= #[trigger] past_spaces(s, p, n) <= s.len(),
    decreases n,
{
    if n > 0 && p < s.len() && s[p] == SPACE {
        past_spaces_in(s, p + 1, n - 1);
    }
}

/// What joins a line to the text before it.
pub open spec fn block_glue(b: Block, folded: bool, more: bool) -> Seq<u8> {
    if !b.any {
        breaks(b.empties)
    } else if folded && !b.more && !more {
        if b.empties == 0 {
            seq![SPACE]
        } else {
            breaks(b.empties)
        }
    } else {
        breaks(b.empties + 1)
    }
}

/// The lines of a block scalar from line start `l` on, and the position after
/// them.
pub open spec fn block_lines(s: Seq<u8>, l: int, depth: int, folded: bool, b: Block) -> (Block, int)
    decreases s.len() - l,
        when 0 <= l <= s.len()
{
    let q = past_spaces(s, l, depth);
    if l >= s.len() {
        (b, l)
    } else if line_ends(s, q) || (q - l < depth && line_blank(s, q)) {
        block_lines(s, next_line(s, l), depth, folded, Block { empties: b.empties + 1, ..b })
    } else if q - l < depth || doc_bound(s, l) {
        (b, l)
    } else {
        let more = is_blank(s[q]);
        let e = run(s, q, Class::Line);
        block_lines(
            s,
            next_line(s, l),
            depth,
            folded,
            Block { text: b.text + block_glue(b, folded, more) + s.subrange(q, e), empties: 0, any: true, more },
        )
    }
}

/// No line is indented by more than the length of the text, so no greater depth
/// makes a difference.
pub proof fn lemma_depth_cap(s: Seq<u8>, l: int, d: int, folded: bool, b: Block)
    requires
        0 <= l <= s.len(),
        s.len() <= d,
    ensures
        block_lines(s, l, d, folded, b) == block_lines(s, l, s.len() as int, folded, b),
    decreases s.len() - l,
{
    lemma_spaces_cap(s, l, d, s.len() as int);
    past_spaces_in(s, l, d);
    lemma_spaces_count(s, l, d);
    let q = past_spaces(s, l, d);
    if l < s.len() && (line_ends(s, q) || (q - l < d && line_blank(s, q))) {
        next_line_in(s, l);
        lemma_depth_cap(s, next_line(s, l), d, folded, Block { empties: b.empties + 1, ..b });
        assert(q - l < s.len() || line_ends(s, q));
    }
}

proof fn lemma_spaces_count(s: Seq<u8>, p: int, n: int)
    requires
        0 <= p <= s.len(),
        0 <= n,
    ensures
        past_spaces(s, p, n) - p <= n,
    decreases n,
{
    if n > 0 && p < s.len() && s[p] == SPACE {
        lemma_spaces_count(s, p + 1, n - 1);
    }
}

proof fn lemma_spaces_cap(s: Seq<u8>, p: int, n: int, m: int)
    requires
        0 <= p <= s.len(),
        s.len() - p <= n,
        s.len() - p <= m,
    ensures
        past_spaces(s, p, n) == past_spaces(s, p, m),
    decreases n,
{
    if p < s.len() && s[p] == SPACE {
        lemma_spaces_cap(s, p + 1, n - 1, m - 1);
    }
}

/// The text of a block scalar, its last line breaks chomped.
pub open spec fn chomped(b: Block, chomp: Chomp) -> Seq<u8> {
    if !b.any {
        if chomp == Chomp::Keep {
            breaks(b.empties)
        } else {
            Seq::empty()
        }
    } else {
        match chomp {
            Chomp::Strip => b.text,
            Chomp::Clip => b.text.push(LF),
            Chomp::Keep => b.text + breaks(b.empties + 1),
        }
    }
}

/// The indentation of a block scalar's lines: what the header asks for beyond
/// the parent's, or that of the first line with content, which is at least `m`.
pub open spec fn block_depth(s: Seq<u8>, l: int, asked: Option<int>, m: int) -> int {
    match asked {
        Some(d) => if m > 0 {
            m - 1 + d
        } else {
            d
        },
        None => {
            let q = past_blank_lines(s, l);
            let n = run(s, q, Class::Spaces) - q;
            if n < m {
                m
            } else {
                n
            }
        },
    }
}

/// A block scalar whose `|` or `>` stands at `p`, in a place where content is
/// indented by at least `m`.
pub open spec fn block_scalar(s: Seq<u8>, p: int, m: int) -> Result<(Seq<u8>, int), Fail> {
    let (chomp, asked, h) = block_header(s, p + 1);
    let q = run(s, h, Class::Blank);
    let e = if at(s, q) == Some(HASH) && h < q {
        run(s, q, Class::Line)
    } else {
        q
    };
    if !line_ends(s, e) {
        Err(Fail { msg: lit("invalid block scalar header"), p: e })
    } else {
        let l = past_break(s, e);
        let (b, r) = block_lines(
            s,
            l,
            block_depth(s, l, asked, m),
            at(s, p) == Some(GREATER),
            Block { text: Seq::empty(), empties: 0, any: false, more: false },
        );
        Ok((chomped(b, chomp), r))
    }
}

/// Where the tag whose `!` stands at `p` ends.
pub open spec fn tag_end(s: Seq<u8>, p: int) -> int {
    if at(s, p + 1) == Some(LESS) {
        let q = run(s, p + 2, Class::Until(GREATER));
        if q < s.len() {
            q + 1
        } else {
            q
        }
    } else {
        run(s, p + 1, Class::Name)
    }
}

/// What can stand before a node: a tag, and an anchor with the place of its
/// `&name`.
pub struct Props {
    pub tag: Option<Seq<u8>>,
    pub anchor: Option<(Seq<u8>, Extent)>,
}

/// One tag, one anchor or both at `p`, unless there is one already, and the
/// position after them; nothing if neither is there.
pub open spec fn props_round(s: Seq<u8>, p: int, flow: bool, got: Props) -> Result<Option<(Props, int)>, Fail> {
    let tagged = got.tag is None && at(s, p) == Some(BANG);
    let p1 = if tagged {
        run(s, tag_end(s, p), Class::Blank)
    } else {
        p
    };
    let tag = if tagged {
        Some(s.subrange(p, tag_end(s, p)))
    } else {
        got.tag
    };
    let anchored = got.anchor is None && at(s, p1) == Some(AMP);
    let e = run(s, p1 + 1, Class::Name);
    let p2 = if anchored {
        run(s, e, Class::Blank)
    } else {
        p1
    };
    let anchor = if anchored {
        Some((s.subrange(p1 + 1, e), Extent { a: p1, b: e }))
    } else {
        got.anchor
    };
    if anchored && e == p1 + 1 {
        Err(Fail { msg: lit("empty anchor name"), p: e })
    } else if tagged || anchored {
        Ok(
            Some(
                (
                    Props { tag, anchor },
                    if flow {
                        past_flow_gap(s, p2)
                    } else {
                        p2
                    },
                ),
            ),
        )
    } else {
        Ok(None)
    }
}

/// The tags and anchors from `p` on, at most one of each, in either order.
pub open spec fn props_from(s: Seq<u8>, p: int, flow: bool, got: Props) -> Result<(Props, int), Fail>
    decreases s.len() - p,
        when 0 <= p <= s.len()
{
    match props_round(s, p, flow, got) {
        Err(f) => Err(f),
        Ok(None) => Ok((got, p)),
        Ok(Some((x, q))) => if p < q <= s.len() {
            props_from(s, q, flow, x)
        } else {
            Ok((x, q))
        },
    }
}

/// The tags and anchors from `p` on.
pub open spec fn props(s: Seq<u8>, p: int, flow: bool) -> Result<(Props, int), Fail> {
    props_from(s, p, flow, Props { tag: None, anchor: None })
}

} // verus!
