//! What stands around a value that is replaced, and would be read otherwise.
use vstd::prelude::*;
use vstd::utf8::*;
use super::locate::moved;
use super::plan::is_leaf;
use super::set::shift_range;
use super::sink::{sound, sound_node, Extent, Span, SpanSink, Tree};
use crate::parser::layout::{bounds, moves, past_filler};
use crate::parser::tokens::{tag_end, token};
use crate::parser::{bom_len, past_bom, Parser};
use crate::text::{
    at, is_text, lemma_bd_ascii, lemma_text, run, same, scan, Class, BANG, DQUOTE, GREATER, LESS, PERCENT, PIPE,
    SQUOTE,
};

verus! {

broadcast use {moves, bounds};

/// Whether node `i` is a quoted scalar of several lines that begins after `x` on its
/// line. What it reads of its other lines depends on the column it begins in.
pub open spec fn leans_on(s: Seq<u8>, t: Tree, x: Extent, i: int) -> bool {
    let y = moved(t.nodes[i].span, bom_len(s));
    &&& t.nodes[i].shape is Leaf
    &&& x.b <= y.a < y.b
    &&& s[y.a] == DQUOTE || s[y.a] == SQUOTE
    &&& run(s, x.b, Class::Line) >= y.a
    &&& run(s, y.a, Class::Line) < y.b
}

/// Whether the quoted scalar at `p` of one text reads like the one at `q` of another.
pub open spec fn reads_alike(s: Seq<u8>, p: int, t: Seq<u8>, q: int) -> bool {
    let x = token(s, p)->Ok_0;
    let y = token(t, q)->Ok_0;
    &&& 0 <= q < t.len() && t[q] == s[p]
    &&& token(s, p) is Ok && token(t, q) is Ok
    &&& x.text == y.text
    &&& x.end - p == y.end - q
}

/// Whether node `i`, which lies as far from the end of `out` as from that of `s`, reads
/// in both alike.
pub open spec fn stays_read(s: Seq<u8>, t: Tree, i: int, out: Seq<u8>) -> bool {
    let p = t.nodes[i].span.a;
    reads_alike(past_bom(s), p, past_bom(out), p + past_bom(out).len() - past_bom(s).len())
}

/// Whether such a scalar is read otherwise in `out`, in which something else stands in
/// place of the bytes `x`.
pub open spec fn disturbs(s: Seq<u8>, t: Tree, x: Extent, out: Seq<u8>) -> bool {
    exists|i: int| 0 <= i < t.nodes.len() && #[trigger] leans_on(s, t, x, i) && !stays_read(s, t, i, out)
}

/// Whether tags that end before `a` end on the line that they begin on.
pub open spec fn steady(s: Seq<u8>, a: int) -> bool {
    forall|p: int|
        0 <= p < a && s[p] == BANG && #[trigger] tag_end(s, p) <= a ==> run(s, p, Class::Line) >= tag_end(s, p)
}

/// Whether what replaces `x` has to stand in quotes, if `x` is a block scalar: a
/// directive comes next, which a plain scalar would take in, or a tag goes on over
/// lines before it, and it does not show how far in a plain scalar may go on.
pub open spec fn fenced(s: Seq<u8>, x: Extent) -> bool {
    &&& at(s, x.a) == Some(PIPE) || at(s, x.a) == Some(GREATER)
    &&& at(s, past_filler(s, x.b)) == Some(PERCENT) || !steady(s, x.a)
}

fn is_read_alike(src: &str, p: usize, out: &str) -> (r: bool)
    requires
        p < past_bom(encode_utf8(src@)).len(),
        past_bom(encode_utf8(src@))[p as int] == DQUOTE || past_bom(encode_utf8(src@))[p as int] == SQUOTE,
    ensures
        ({
            let s = past_bom(encode_utf8(src@));
            let t = past_bom(encode_utf8(out@));
            r == reads_alike(s, p as int, t, p + t.len() - s.len())
        }),
{
    let mut a = Parser::new(src);
    let mut b = Parser::new(out);
    let ghost s = past_bom(encode_utf8(src@));
    let ghost t = past_bom(encode_utf8(out@));
    let left: usize = a.bytes().len() - p;
    let n: usize = b.bytes().len();
    if left > n {
        return false;
    }
    let q: usize = n - left;
    a.jump(p);
    b.jump(q);
    proof {
        lemma_bd_ascii(s, p as int);
    }
    match (a.peek(), b.peek()) {
        (Some(x), Some(y)) => {
            if x != y {
                return false;
            }
        },
        _ => {
            return false;
        },
    }
    proof {
        lemma_bd_ascii(t, q as int);
    }
    match (a.read_scalar_token(), b.read_scalar_token()) {
        (Ok((x, e)), Ok((y, f))) => same(x.as_text(), y.as_text()) && e - p == f - q,
        _ => false,
    }
}

/// Whether with `out` for the source a quoted scalar that begins after the bytes `x` on
/// their line is read otherwise.
pub(crate) fn moves_lines(
    sink: &SpanSink<'_>,
    src: &str,
    x: Span,
    out: &str,
    bom: usize,
    Ghost(p): Ghost<int>,
) -> (r: bool)
    requires
        sound(sink@, past_bom(encode_utf8(src@)), p),
        is_text(past_bom(encode_utf8(src@))),
        bom == bom_len(encode_utf8(src@)),
        p <= past_bom(encode_utf8(src@)).len(),
        x.start <= x.end <= encode_utf8(src@).len(),
    ensures
        r == disturbs(encode_utf8(src@), sink@, x.v(), encode_utf8(out@)),
{
    let ghost s = encode_utf8(src@);
    let b = src.as_bytes();
    let _len: usize = b.len();
    proof {
        lemma_text(src@);
    }
    let line_end: usize = scan(b, x.end, Class::Line);
    let n: usize = sink.node_count();
    let mut i: usize = 0;
    while i < n
        invariant
            n == sink@.nodes.len(),
            i <= n,
            s == encode_utf8(src@),
            b@ == s,
            is_text(s),
            s.len() <= usize::MAX,
            sound(sink@, past_bom(s), p),
            is_text(past_bom(s)),
            bom == bom_len(s),
            p <= past_bom(s).len(),
            line_end == run(s, x.end as int, Class::Line),
            x.start <= x.end <= s.len(),
            forall|j: int|
                0 <= j < i && #[trigger] leans_on(s, sink@, x.v(), j) ==> stays_read(
                    s,
                    sink@,
                    j,
                    encode_utf8(out@),
                ),
        decreases n - i,
    {
        proof {
            reveal(sound);
            assert(sound_node(sink@.nodes[i as int], i as int, past_bom(s), p));
        }
        let y = shift_range(sink.node(i).span, bom, Ghost(s), Ghost(p));
        if is_leaf(sink, i) && x.end <= y.start && y.start < y.end && (b[y.start] == DQUOTE || b[y.start] == SQUOTE)
            && line_end >= y.start && scan(b, y.start, Class::Line) < y.end {
            assert(leans_on(s, sink@, x.v(), i as int));
            assert(past_bom(s)[y.start - bom] == s[y.start as int]);
            if !is_read_alike(src, sink.node(i).span.start, out) {
                assert(!stays_read(s, sink@, i as int, encode_utf8(out@)));
                return true;
            }
        }
        i = i + 1;
    }
    false
}

fn is_steady(b: &[u8], a: usize) -> (r: bool)
    requires
        a <= b@.len(),
    ensures
        r == steady(b@, a as int),
{
    let mut i: usize = 0;
    while i < a
        invariant
            i <= a <= b@.len(),
            forall|p: int|
                0 <= p < i && b@[p] == BANG && #[trigger] tag_end(b@, p) <= a ==> run(b@, p, Class::Line) >= tag_end(
                    b@,
                    p,
                ),
        decreases a - i,
    {
        if b[i] == BANG {
            let n: usize = b.len();
            let e: usize = if i + 1 < n && b[i + 1] == LESS {
                let q: usize = scan(b, i + 2, Class::Until(GREATER));
                if q < n {
                    q + 1
                } else {
                    q
                }
            } else {
                scan(b, i + 1, Class::Name)
            };
            assert(e == tag_end(b@, i as int));
            if e <= a && scan(b, i, Class::Line) < e {
                return false;
            }
        }
        i = i + 1;
    }
    true
}

/// Whether what replaces `x`, which leaves the byte order mark out, has to stand in
/// quotes.
pub(crate) fn is_fenced(src: &str, x: Span) -> (r: bool)
    requires
        x.start <= x.end <= past_bom(encode_utf8(src@)).len(),
        crate::text::bd(past_bom(encode_utf8(src@)), x.end as int),
    ensures
        r == fenced(past_bom(encode_utf8(src@)), x.v()),
{
    let mut q = Parser::new(src);
    let b = q.bytes();
    if x.start >= b.len() || (b[x.start] != PIPE && b[x.start] != GREATER) {
        return false;
    }
    if !is_steady(b, x.start) {
        return true;
    }
    q.jump(x.end);
    q.skip_blank_and_comment_lines();
    q.peek() == Some(PERCENT)
}

} // verus!
