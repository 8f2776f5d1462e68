//! Every path has a written form.
use vstd::prelude::*;
use super::scalars::{holds, lemma_decimal, lemma_holds_add, lemma_holds_at};
use crate::edit::path::{digits, segments, segments_from};
use crate::edit::SegmentView;
use crate::parser::layout::{moves, Fail};
use crate::patterns::number;
use crate::text::{decimal, is_digit, lemma_run, run, Class, DOT, DQUOTE, HASH, LBRACKET, RBRACKET, SQUOTE};

verus! {

broadcast use moves;

/// The quote that a key is written in.
pub open spec fn key_quote(k: Seq<u8>) -> u8 {
    if k.contains(DQUOTE) {
        SQUOTE
    } else {
        DQUOTE
    }
}

/// One segment as it is written; `sep` tells whether a key needs a dot before it.
pub open spec fn segment_text(x: SegmentView, sep: bool) -> Seq<u8> {
    match x {
        SegmentView::Key(k) => (if sep {
            seq![DOT]
        } else {
            Seq::empty()
        }) + seq![key_quote(k)] + k + seq![key_quote(k)],
        SegmentView::Index(n) => seq![LBRACKET] + decimal(n as nat) + seq![RBRACKET],
        SegmentView::Doc(n) => Seq::empty(),
    }
}

/// The segments from `i` on as they are written.
pub open spec fn tail_text(path: Seq<SegmentView>, i: int, sep: bool) -> Seq<u8>
    decreases path.len() - i,
{
    if !(0 <= i < path.len()) {
        Seq::empty()
    } else {
        segment_text(path[i], sep) + tail_text(path, i + 1, true)
    }
}

/// A path as it is written: every key quoted, every index in brackets, and the
/// document number first.
pub open spec fn path_text(path: Seq<SegmentView>) -> Seq<u8> {
    if path.len() > 0 && path[0] is Doc {
        seq![HASH] + decimal(path[0]->Doc_0 as nat) + (if path.len() > 1 {
            seq![DOT] + tail_text(path, 1, false)
        } else {
            Seq::empty()
        })
    } else {
        tail_text(path, 0, false)
    }
}

/// Whether a path can be written: a document number only comes first, numbers
/// fit, and no key holds both kinds of quotes.
pub open spec fn can_write(path: Seq<SegmentView>) -> bool {
    forall|i: int|
        0 <= i < path.len() ==> match #[trigger] path[i] {
            SegmentView::Doc(n) => i == 0 && 0 <= n <= usize::MAX,
            SegmentView::Index(n) => 0 <= n <= usize::MAX,
            SegmentView::Key(k) => !k.contains(DQUOTE) || !k.contains(SQUOTE),
        }
}

proof fn lemma_run_upto(s: Seq<u8>, p: int, c: Class, e: int)
    requires
        0 <= p <= e <= s.len(),
        forall|i: int| p <= i < e ==> c.holds(#[trigger] s[i]),
        e == s.len() || !c.holds(s[e]),
    ensures
        run(s, p, c) == e,
    decreases e - p,
{
    if p < e {
        lemma_run_upto(s, p + 1, c, e);
    }
}

/// The digits of a number are read back.
proof fn lemma_digits(s: Seq<u8>, p: int, n: int)
    requires
        0 <= n <= usize::MAX,
        holds(s, p, decimal(n as nat)),
        p + decimal(n as nat).len() == s.len() || !is_digit(s[p + decimal(n as nat).len()]),
    ensures
        run(s, p, Class::Digits) == p + decimal(n as nat).len(),
        digits(s, p, run(s, p, Class::Digits)) == Some(n),
{
    let d = decimal(n as nat);
    lemma_decimal(n as nat);
    assert forall|i: int| p <= i < p + d.len() implies Class::Digits.holds(#[trigger] s[i]) by {
        lemma_holds_at(s, p, d, i - p);
        assert(is_digit(d[i - p]));
    }
    lemma_run_upto(s, p, Class::Digits, p + d.len());
}

proof fn lemma_tail(path: Seq<SegmentView>, i: int, s: Seq<u8>, p: int, segs: Seq<SegmentView>, sep: bool)
    requires
        can_write(path),
        0 <= i <= path.len(),
        i > 0 || !(path.len() > 0 && path[0] is Doc),
        holds(s, p, tail_text(path, i, sep)),
        p + tail_text(path, i, sep).len() == s.len(),
        segs == path.take(i),
    ensures
        segments_from(s, p, segs, sep) == Ok::<_, Fail>(path),
    decreases path.len() - i,
{
    if i == path.len() {
        assert(path.take(i) =~= path);
    } else {
        let x = path[i];
        let t = segment_text(x, sep);
        let rest = tail_text(path, i + 1, true);
        lemma_holds_add(s, p, t, rest);
        assert(path.take(i).push(x) =~= path.take(i + 1));
        match x {
            SegmentView::Key(k) => {
                let q = key_quote(k);
                let dot: Seq<u8> = if sep {
                    seq![DOT]
                } else {
                    Seq::empty()
                };
                assert(t =~= dot + (seq![q] + (k + seq![q])));
                lemma_holds_add(s, p, dot, seq![q] + (k + seq![q]));
                let a = p + dot.len();
                lemma_holds_add(s, a, seq![q], k + seq![q]);
                lemma_holds_add(s, a + 1, k, seq![q]);
                lemma_holds_at(s, a, seq![q], 0);
                let e = a + 1 + k.len();
                lemma_holds_at(s, e, seq![q], 0);
                assert forall|j: int| a + 1 <= j < e implies Class::Until(q).holds(#[trigger] s[j]) by {
                    lemma_holds_at(s, a + 1, k, j - (a + 1));
                    assert(k.contains(k[j - (a + 1)]));
                }
                lemma_run_upto(s, a + 1, Class::Until(q), e);
                assert(s.subrange(a + 1, e) == k);
                lemma_tail(path, i + 1, s, e + 1, path.take(i + 1), true);
                assert(segments_from(s, a, segs, false) == segments_from(s, e + 1, segs.push(x), true));
                if sep {
                    lemma_holds_at(s, p, dot, 0);
                    assert(segments_from(s, p, segs, true) == segments_from(s, a, segs, false));
                }
            },
            SegmentView::Index(n) => {
                let d = decimal(n as nat);
                assert(t =~= seq![LBRACKET] + (d + seq![RBRACKET]));
                lemma_holds_add(s, p, seq![LBRACKET], d + seq![RBRACKET]);
                lemma_holds_add(s, p + 1, d, seq![RBRACKET]);
                lemma_holds_at(s, p, seq![LBRACKET], 0);
                lemma_holds_at(s, p + 1 + d.len(), seq![RBRACKET], 0);
                lemma_digits(s, p + 1, n);
                lemma_tail(path, i + 1, s, p + 1 + d.len() + 1, path.take(i + 1), true);
            },
            SegmentView::Doc(n) => {
                assert(i == 0);
            },
        }
    }
}

/// A path is read back from its written form.
pub proof fn law_path_reads_back(path: Seq<SegmentView>)
    requires
        can_write(path),
    ensures
        segments(path_text(path)) == Ok::<_, Fail>(path),
{
    let s = path_text(path);
    assert(s.subrange(0, s.len() as int) =~= s);
    if path.len() > 0 && path[0] is Doc {
        let n = path[0]->Doc_0;
        let d = decimal(n as nat);
        let rest: Seq<u8> = if path.len() > 1 {
            seq![DOT] + tail_text(path, 1, false)
        } else {
            Seq::empty()
        };
        assert(s =~= seq![HASH] + (d + rest));
        lemma_holds_add(s, 0, seq![HASH], d + rest);
        lemma_holds_add(s, 1, d, rest);
        let e = 1 + d.len() as int;
        if path.len() > 1 {
            lemma_holds_add(s, e, seq![DOT], tail_text(path, 1, false));
            lemma_holds_at(s, e, seq![DOT], 0);
            lemma_digits(s, 1, n);
            assert(path.take(1) =~= seq![SegmentView::Doc(n)]);
            lemma_tail(path, 1, s, e + 1, path.take(1), false);
            lemma_tail_nonempty(path, 1, false);
        } else {
            lemma_digits(s, 1, n);
            assert(path =~= seq![SegmentView::Doc(n)]);
        }
    } else {
        assert(path.take(0) =~= Seq::empty());
        lemma_tail(path, 0, s, 0, Seq::empty(), false);
        if path.len() > 0 {
            assert(s[0] != HASH) by {
                let t = segment_text(path[0], false);
                assert(s[0] == t[0]);
            }
        }
    }
}

proof fn lemma_tail_nonempty(path: Seq<SegmentView>, i: int, sep: bool)
    requires
        can_write(path),
        0 < i < path.len(),
    ensures
        tail_text(path, i, sep).len() > 0,
{
    assert(!(path[i] is Doc));
    assert(segment_text(path[i], sep).len() > 0);
}

/// Whether a key can be written without quotes: it is not empty, and holds neither a
/// dot nor a bracket nor a quote.
pub open spec fn bare_key(k: Seq<u8>) -> bool {
    k.len() > 0 && forall|i: int|
        0 <= i < k.len() ==> #[trigger] k[i] != DOT && k[i] != LBRACKET && k[i] != RBRACKET && k[i] != DQUOTE && k[i]
            != SQUOTE
}

/// One segment as it may be written, a key without quotes if `bare` holds.
pub open spec fn spelled(x: SegmentView, sep: bool, bare: bool) -> Seq<u8> {
    match x {
        SegmentView::Key(k) if bare => (if sep {
            seq![DOT]
        } else {
            Seq::empty()
        }) + k,
        _ => segment_text(x, sep),
    }
}

/// The segments from `i` on as they may be written: `bare` tells which keys have no
/// quotes.
pub open spec fn tail_spelled(path: Seq<SegmentView>, i: int, sep: bool, bare: Seq<bool>) -> Seq<u8>
    decreases path.len() - i,
{
    if !(0 <= i < path.len()) {
        Seq::empty()
    } else {
        spelled(path[i], sep, bare[i]) + tail_spelled(path, i + 1, true, bare)
    }
}

/// A path as it may be written.
pub open spec fn path_spelled(path: Seq<SegmentView>, bare: Seq<bool>) -> Seq<u8> {
    if path.len() > 0 && path[0] is Doc {
        seq![HASH] + decimal(path[0]->Doc_0 as nat) + (if path.len() > 1 {
            seq![DOT] + tail_spelled(path, 1, false, bare)
        } else {
            Seq::empty()
        })
    } else {
        tail_spelled(path, 0, false, bare)
    }
}

/// Whether the keys without quotes can be written so. At the start of a path a number
/// sign stands for a document.
pub open spec fn can_spell(path: Seq<SegmentView>, bare: Seq<bool>) -> bool {
    &&& bare.len() == path.len()
    &&& forall|i: int|
        0 <= i < path.len() ==> match #[trigger] path[i] {
            SegmentView::Doc(n) => i == 0 && 0 <= n <= usize::MAX,
            SegmentView::Index(n) => 0 <= n <= usize::MAX,
            SegmentView::Key(k) => if bare[i] {
                bare_key(k) && (i == 0 ==> k[0] != HASH)
            } else {
                !k.contains(DQUOTE) || !k.contains(SQUOTE)
            },
        }
}

/// What comes after a segment begins with a dot or a bracket.
proof fn lemma_tail_mark(path: Seq<SegmentView>, i: int, bare: Seq<bool>)
    requires
        can_spell(path, bare),
        0 < i < path.len(),
    ensures
        tail_spelled(path, i, true, bare).len() > 0,
        tail_spelled(path, i, true, bare)[0] == DOT || tail_spelled(path, i, true, bare)[0] == LBRACKET,
{
    let t = spelled(path[i], true, bare[i]);
    assert(!(path[i] is Doc));
    assert(t.len() > 0 && (t[0] == DOT || t[0] == LBRACKET));
}

proof fn lemma_tail_spelled(
    path: Seq<SegmentView>,
    i: int,
    s: Seq<u8>,
    p: int,
    segs: Seq<SegmentView>,
    sep: bool,
    bare: Seq<bool>,
)
    requires
        can_spell(path, bare),
        0 <= i <= path.len(),
        i > 0 || !(path.len() > 0 && path[0] is Doc),
        holds(s, p, tail_spelled(path, i, sep, bare)),
        p + tail_spelled(path, i, sep, bare).len() == s.len(),
        segs == path.take(i),
    ensures
        segments_from(s, p, segs, sep) == Ok::<_, Fail>(path),
    decreases path.len() - i,
{
    if i == path.len() {
        assert(path.take(i) =~= path);
    } else {
        let x = path[i];
        let t = spelled(x, sep, bare[i]);
        let rest = tail_spelled(path, i + 1, true, bare);
        lemma_holds_add(s, p, t, rest);
        assert(path.take(i).push(x) =~= path.take(i + 1));
        let dot: Seq<u8> = if sep {
            seq![DOT]
        } else {
            Seq::empty()
        };
        let a = p + dot.len();
        match x {
            SegmentView::Key(k) if bare[i] => {
                assert(t =~= dot + k);
                lemma_holds_add(s, p, dot, k);
                let e = a + k.len();
                assert forall|j: int| a <= j < e implies Class::PathKey.holds(#[trigger] s[j]) by {
                    lemma_holds_at(s, a, k, j - a);
                }
                if i + 1 < path.len() {
                    lemma_tail_mark(path, i + 1, bare);
                    lemma_holds_at(s, e, rest, 0);
                }
                lemma_run_upto(s, a, Class::PathKey, e);
                lemma_holds_at(s, a, k, 0);
                assert(s.subrange(a, e) == k);
                lemma_tail_spelled(path, i + 1, s, e, path.take(i + 1), true, bare);
                assert(segments_from(s, a, segs, false) == segments_from(s, e, segs.push(x), true));
            },
            SegmentView::Key(k) => {
                let q = key_quote(k);
                assert(t =~= dot + (seq![q] + (k + seq![q])));
                lemma_holds_add(s, p, dot, seq![q] + (k + seq![q]));
                lemma_holds_add(s, a, seq![q], k + seq![q]);
                lemma_holds_add(s, a + 1, k, seq![q]);
                lemma_holds_at(s, a, seq![q], 0);
                let e = a + 1 + k.len();
                lemma_holds_at(s, e, seq![q], 0);
                assert forall|j: int| a + 1 <= j < e implies Class::Until(q).holds(#[trigger] s[j]) by {
                    lemma_holds_at(s, a + 1, k, j - (a + 1));
                    assert(k.contains(k[j - (a + 1)]));
                }
                lemma_run_upto(s, a + 1, Class::Until(q), e);
                assert(s.subrange(a + 1, e) == k);
                lemma_tail_spelled(path, i + 1, s, e + 1, path.take(i + 1), true, bare);
                assert(segments_from(s, a, segs, false) == segments_from(s, e + 1, segs.push(x), true));
            },
            SegmentView::Index(n) => {
                let d = decimal(n as nat);
                assert(t =~= seq![LBRACKET] + (d + seq![RBRACKET]));
                lemma_holds_add(s, p, seq![LBRACKET], d + seq![RBRACKET]);
                lemma_holds_add(s, p + 1, d, seq![RBRACKET]);
                lemma_holds_at(s, p, seq![LBRACKET], 0);
                lemma_holds_at(s, p + 1 + d.len(), seq![RBRACKET], 0);
                lemma_digits(s, p + 1, n);
                lemma_tail_spelled(path, i + 1, s, p + 1 + d.len() + 1, path.take(i + 1), true, bare);
            },
            SegmentView::Doc(n) => {
                assert(i == 0);
            },
        }
        if sep && x is Key {
            lemma_holds_at(s, p, dot, 0);
            assert(segments_from(s, p, segs, true) == segments_from(s, a, segs, false));
        }
    }
}

/// A path is read back however its keys are written: in quotes, or bare where they are
/// not empty and hold no dot, bracket or quote.
pub proof fn law_every_spelling_reads_back(path: Seq<SegmentView>, bare: Seq<bool>)
    requires
        can_spell(path, bare),
    ensures
        segments(path_spelled(path, bare)) == Ok::<_, Fail>(path),
{
    let s = path_spelled(path, bare);
    assert(s.subrange(0, s.len() as int) =~= s);
    if path.len() > 0 && path[0] is Doc {
        let n = path[0]->Doc_0;
        let d = decimal(n as nat);
        let rest: Seq<u8> = if path.len() > 1 {
            seq![DOT] + tail_spelled(path, 1, false, bare)
        } else {
            Seq::empty()
        };
        assert(s =~= seq![HASH] + (d + rest));
        lemma_holds_add(s, 0, seq![HASH], d + rest);
        lemma_holds_add(s, 1, d, rest);
        let e = 1 + d.len() as int;
        if path.len() > 1 {
            lemma_holds_add(s, e, seq![DOT], tail_spelled(path, 1, false, bare));
            lemma_holds_at(s, e, seq![DOT], 0);
            lemma_digits(s, 1, n);
            assert(path.take(1) =~= seq![SegmentView::Doc(n)]);
            lemma_tail_spelled(path, 1, s, e + 1, path.take(1), false, bare);
            assert(!(path[1] is Doc));
            assert(spelled(path[1], false, bare[1]).len() > 0);
        } else {
            lemma_digits(s, 1, n);
            assert(path =~= seq![SegmentView::Doc(n)]);
        }
    } else {
        assert(path.take(0) =~= Seq::empty());
        lemma_tail_spelled(path, 0, s, 0, Seq::empty(), false, bare);
        if path.len() > 0 {
            assert(s[0] != HASH) by {
                let t = spelled(path[0], false, bare[0]);
                assert(t.len() > 0);
                assert(s[0] == t[0]);
            }
        }
    }
}

/// Whether `t` is a run of decimal digits that stand for `n`.
pub open spec fn counts(t: Seq<u8>, n: int) -> bool {
    &&& t.len() > 0
    &&& forall|i: int| 0 <= i < t.len() ==> is_digit(#[trigger] t[i])
    &&& number(t, 10) == Some(n)
    &&& n <= usize::MAX
}

/// Whether `t` spells a segment, without the dot before it: a key bare or in quotes of
/// either kind, an index in brackets, a document number after a number sign.
pub open spec fn spells(t: Seq<u8>, x: SegmentView) -> bool {
    match x {
        SegmentView::Key(k) => {
            ||| t == k && bare_key(k)
            ||| t == seq![DQUOTE] + k + seq![DQUOTE] && !k.contains(DQUOTE)
            ||| t == seq![SQUOTE] + k + seq![SQUOTE] && !k.contains(SQUOTE)
        },
        SegmentView::Index(n) => t.len() > 2 && t[0] == LBRACKET && t.last() == RBRACKET && counts(
            t.subrange(1, t.len() - 1),
            n,
        ),
        SegmentView::Doc(n) => t.len() > 1 && t[0] == HASH && counts(t.skip(1), n),
    }
}

/// Whether `t` spells the segment `j` of a path, with a dot before it if it comes after
/// another; before an index the dot may be left out, but not after a document number.
pub open spec fn spells_at(t: Seq<u8>, path: Seq<SegmentView>, j: int) -> bool {
    let dotted = t.len() > 0 && t[0] == DOT && spells(t.skip(1), path[j]);
    if j == 0 {
        spells(t, path[j])
    } else if path[j] is Key || (j == 1 && path[0] is Doc) {
        dotted && !(path[j] is Doc)
    } else {
        (dotted || spells(t, path[j])) && !(path[j] is Doc)
    }
}

/// Whether the text from `cuts[0]` on is cut into the segments from `j` on.
pub open spec fn cut_up(s: Seq<u8>, path: Seq<SegmentView>, j: int, cuts: Seq<int>) -> bool {
    &&& cuts.len() == path.len() - j + 1
    &&& cuts.last() == s.len()
    &&& forall|i: int|
        0 <= i < path.len() - j ==> 0 <= #[trigger] cuts[i] <= cuts[i + 1] <= s.len() && spells_at(
            s.subrange(cuts[i], cuts[i + 1]),
            path,
            j + i,
        )
}

/// One more segment in front.
proof fn lemma_cut_more(s: Seq<u8>, path: Seq<SegmentView>, j: int, cuts: Seq<int>, b: int)
    requires
        0 <= j < path.len(),
        cut_up(s, path, j + 1, cuts),
        0 <= b <= cuts[0] <= s.len(),
        spells_at(s.subrange(b, cuts[0]), path, j),
    ensures
        cut_up(s, path, j, seq![b] + cuts),
{
    let more = seq![b] + cuts;
    assert forall|i: int| 0 <= i < path.len() - j implies 0 <= #[trigger] more[i] <= more[i + 1] <= s.len()
        && spells_at(s.subrange(more[i], more[i + 1]), path, j + i) by {
        if i > 0 {
            assert(more[i] == cuts[i - 1]);
            assert(more[i + 1] == cuts[i]);
            assert(0 <= cuts[i - 1]);
        } else {
            assert(more[1] == cuts[0]);
        }
    }
}

/// What was read stays read.
proof fn lemma_segments_keep(s: Seq<u8>, i: int, segs: Seq<SegmentView>, sep: bool)
    requires
        0 <= i <= s.len(),
        segments_from(s, i, segs, sep) is Ok,
    ensures
        segs.len() <= (segments_from(s, i, segs, sep)->Ok_0).len(),
        (segments_from(s, i, segs, sep)->Ok_0).take(segs.len() as int) == segs,
    decreases s.len() - i,
{
    if i >= s.len() {
        assert(segs.take(segs.len() as int) =~= segs);
    } else {
        let path = segments_from(s, i, segs, sep)->Ok_0;
        if s[i] == DOT {
            lemma_segments_keep(s, i + 1, segs, false);
        } else {
            let (q, x) = if s[i] == LBRACKET {
                let e = run(s, i + 1, Class::Digits);
                (e + 1, SegmentView::Index(digits(s, i + 1, e)->0))
            } else if s[i] == DQUOTE || s[i] == SQUOTE {
                let e = run(s, i + 1, Class::Until(s[i]));
                (e + 1, SegmentView::Key(s.subrange(i + 1, e)))
            } else {
                let e = run(s, i, Class::PathKey);
                (e, SegmentView::Key(s.subrange(i, e)))
            };
            lemma_segments_keep(s, q, segs.push(x), true);
            assert(path.take(segs.len() as int) =~= path.take(segs.len() as int + 1).drop_last());
            assert(segs.push(x).drop_last() =~= segs);
        }
    }
}

/// A run of digits counts what it is read as.
proof fn lemma_counts(s: Seq<u8>, a: int)
    requires
        0 <= a <= s.len(),
        digits(s, a, run(s, a, Class::Digits)) is Some,
    ensures
        a < run(s, a, Class::Digits) <= s.len(),
        counts(s.subrange(a, run(s, a, Class::Digits)), digits(s, a, run(s, a, Class::Digits))->0),
{
    let e = run(s, a, Class::Digits);
    lemma_run(s, a, Class::Digits);
    let t = s.subrange(a, e);
    assert forall|i: int| 0 <= i < t.len() implies is_digit(#[trigger] t[i]) by {
        assert(Class::Digits.holds(s[a + i]));
    }
}

/// Where the segments of an accepted text begin and end. A dot may stand before `i`.
proof fn lemma_cuts(s: Seq<u8>, b: int, i: int, segs: Seq<SegmentView>, sep: bool) -> (cuts: Seq<int>)
    requires
        0 <= b <= i <= s.len(),
        segments_from(s, i, segs, sep) is Ok,
        b == i || (b == i - 1 && s[b] == DOT && !sep && segs.len() > 0 && i < s.len()),
        sep ==> segs.len() > 0 && !(segs.len() == 1 && segs[0] is Doc),
        !sep && b == i ==> segs.len() == 0,
    ensures
        cut_up(s, segments_from(s, i, segs, sep)->Ok_0, segs.len() as int, cuts),
        cuts[0] == b,
    decreases s.len() - i,
{
    let path = segments_from(s, i, segs, sep)->Ok_0;
    let j = segs.len() as int;
    lemma_segments_keep(s, i, segs, sep);
    assert(j > 0 ==> path[0] == path.take(j)[0]);
    if i >= s.len() {
        seq![b]
    } else if s[i] == DOT {
        lemma_cuts(s, b, i + 1, segs, false)
    } else {
        let (q, x) = if s[i] == LBRACKET {
            let e = run(s, i + 1, Class::Digits);
            lemma_counts(s, i + 1);
            let n = digits(s, i + 1, e)->0;
            let t = s.subrange(i, e + 1);
            assert(t.subrange(1, t.len() - 1) =~= s.subrange(i + 1, e));
            (e + 1, SegmentView::Index(n))
        } else if s[i] == DQUOTE || s[i] == SQUOTE {
            let e = run(s, i + 1, Class::Until(s[i]));
            lemma_run(s, i + 1, Class::Until(s[i]));
            let k = s.subrange(i + 1, e);
            assert(s.subrange(i, e + 1) =~= seq![s[i]] + k + seq![s[i]]) by {
                assert(s[e] == s[i]);
            }
            assert(!k.contains(s[i])) by {
                if k.contains(s[i]) {
                    let m = choose|m: int| 0 <= m < k.len() && k[m] == s[i];
                    assert(Class::Until(s[i]).holds(s[i + 1 + m]));
                }
            }
            (e + 1, SegmentView::Key(k))
        } else {
            let e = run(s, i, Class::PathKey);
            lemma_run(s, i, Class::PathKey);
            let k = s.subrange(i, e);
            assert forall|m: int| 0 <= m < k.len() implies #[trigger] k[m] != DOT && k[m] != LBRACKET && k[m] != RBRACKET
                && k[m] != DQUOTE && k[m] != SQUOTE by {
                assert(Class::PathKey.holds(s[i + m]));
            }
            (e, SegmentView::Key(k))
        };
        assert(spells(s.subrange(i, q), x));
        let more = segs.push(x);
        assert(segments_from(s, q, more, true) == Ok::<_, Fail>(path));
        lemma_segments_keep(s, q, more, true);
        assert(path[j] == path.take(j + 1)[j]);
        assert(!(more.len() == 1 && more[0] is Doc));
        let cuts = lemma_cuts(s, q, q, more, true);
        let t = s.subrange(b, q);
        if b < i {
            assert(t.skip(1) =~= s.subrange(i, q));
            assert(t[0] == DOT);
        }
        assert(spells_at(t, path, j));
        lemma_cut_more(s, path, j, cuts, b);
        seq![b] + cuts
    }
}

/// Only what spells a path is read as one: a text that is accepted can be cut into the
/// spellings of its segments, one after the other, with nothing between them or after.
pub proof fn law_only_spellings_are_read(s: Seq<u8>) -> (cuts: Seq<int>)
    requires
        segments(s) is Ok,
    ensures
        cuts[0] == 0,
        cut_up(s, segments(s)->Ok_0, 0, cuts),
{
    let path = segments(s)->Ok_0;
    if s.len() > 0 && s[0] == HASH {
        let e = run(s, 1, Class::Digits);
        lemma_counts(s, 1);
        let n = digits(s, 1, e)->0;
        let x = SegmentView::Doc(n);
        assert(s.subrange(0, e).skip(1) =~= s.subrange(1, e));
        if e == s.len() {
            assert(cut_up(s, path, 1, seq![e]));
            lemma_cut_more(s, path, 0, seq![e], 0);
            seq![0int] + seq![e]
        } else {
            lemma_segments_keep(s, e + 1, seq![x], false);
            assert(path[0] == path.take(1)[0]);
            let cuts = lemma_cuts(s, e, e + 1, seq![x], false);
            lemma_cut_more(s, path, 0, cuts, 0);
            seq![0int] + cuts
        }
    } else {
        lemma_cuts(s, 0, 0, Seq::empty(), false)
    }
}

} // verus!
