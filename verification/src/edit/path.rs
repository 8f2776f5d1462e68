//! Path expressions.
use vstd::prelude::*;
use vstd::string::*;
use vstd::utf8::*;
use super::{path_view, Segment, SegmentView};
use crate::error::{Error, ErrorView};
use crate::parser::layout::{bounds, moves, Fail};
use crate::patterns::{number, read_number};
use crate::text::{
    at, bd, decimal, is_text, lemma_bd_ascii, lemma_bd_ends, lemma_text, put, put_byte, put_decimal, run, scan,
    slice, Class, DOT, DQUOTE, HASH, LBRACKET, RBRACKET, SQUOTE,
};
use crate::value::lit;

verus! {

broadcast use {moves, bounds};

/// The quoted form of a text in messages.
pub uninterp spec fn debug_text(s: Seq<char>) -> Seq<char>;

/// Formats `s` with the `Debug` of `str`, which depends on `s` alone; what it
/// writes for each character is left unsaid.
#[verifier::external_body]
fn debug_of(s: &str) -> (r: String)
    ensures
        r@ == debug_text(s@),
{
    format!("{s:?}")
}

/// The number that the digits from `a` to `e` stand for, if there are any and it
/// fits.
pub open spec fn digits(s: Seq<u8>, a: int, e: int) -> Option<int> {
    if a < e {
        match number(s.subrange(a, e), 10) {
            Some(n) if n <= usize::MAX => Some(n),
            _ => None,
        }
    } else {
        None
    }
}

/// A byte that is missing at `p`.
pub open spec fn missing<T>(b: u8, p: int) -> Result<T, Fail> {
    Err(Fail { msg: lit("expected ") + seq![b] + lit(" at position ") + decimal(p as nat), p })
}

/// The segments of the path `s` from `i` on, after `segs`. Before the next key
/// there has to be a dot if `sep` holds.
pub open spec fn segments_from(s: Seq<u8>, i: int, segs: Seq<SegmentView>, sep: bool) -> Result<Seq<SegmentView>, Fail>
    decreases s.len() - i,
        when 0 <= i <= s.len()
{
    if i >= s.len() {
        Ok(segs)
    } else if s[i] == DOT {
        if !sep {
            Err(Fail { msg: lit("empty path segment"), p: i })
        } else if i + 1 == s.len() {
            Err(Fail { msg: lit("trailing '.' in path"), p: i + 1 })
        } else {
            segments_from(s, i + 1, segs, false)
        }
    } else if s[i] == LBRACKET {
        let e = run(s, i + 1, Class::Digits);
        match digits(s, i + 1, e) {
            None => Err(Fail { msg: lit("expected an index"), p: i + 1 }),
            Some(n) => if at(s, e) == Some(RBRACKET) {
                segments_from(s, e + 1, segs.push(SegmentView::Index(n)), true)
            } else {
                missing(RBRACKET, e)
            },
        }
    } else if (s[i] == DQUOTE || s[i] == SQUOTE) && !sep {
        let e = run(s, i + 1, Class::Until(s[i]));
        if e >= s.len() {
            Err(Fail { msg: lit("unterminated quoted path segment"), p: i + 1 })
        } else {
            segments_from(s, e + 1, segs.push(SegmentView::Key(s.subrange(i + 1, e))), true)
        }
    } else if !sep {
        let e = run(s, i, Class::PathKey);
        if e == i {
            Err(Fail { msg: lit("empty path segment"), p: i })
        } else {
            segments_from(s, e, segs.push(SegmentView::Key(s.subrange(i, e))), true)
        }
    } else if s[i] == RBRACKET {
        Err(Fail { msg: lit("unmatched ']'"), p: i })
    } else {
        Err(Fail { msg: lit("expected '.' between segments"), p: i })
    }
}

/// The segments of the path `s`.
pub open spec fn segments(s: Seq<u8>) -> Result<Seq<SegmentView>, Fail> {
    if at(s, 0) == Some(HASH) {
        let e = run(s, 1, Class::Digits);
        match digits(s, 1, e) {
            None => Err(Fail { msg: lit("expected a document number after '#'"), p: 1 }),
            Some(n) => if e == s.len() {
                Ok(seq![SegmentView::Doc(n)])
            } else if s[e] != DOT {
                missing(DOT, e)
            } else if e + 1 == s.len() {
                Err(Fail { msg: lit("trailing '.' in path"), p: e + 1 })
            } else {
                segments_from(s, e + 1, seq![SegmentView::Doc(n)], false)
            },
        }
    } else {
        segments_from(s, 0, Seq::empty(), false)
    }
}

/// How a refusal of the path `path` is reported.
pub open spec fn path_report(path: Seq<char>, f: Fail) -> ErrorView {
    ErrorView {
        msg: f.msg + lit(" in path ") + encode_utf8(debug_text(path)),
        line: None,
        col: Some(f.p),
    }
}

fn err(path: &str, at: usize, msg: &str) -> (r: Error)
    ensures
        r@ == path_report(path@, Fail { msg: encode_utf8(msg@), p: at as int }),
{
    let mut out = String::new();
    put(&mut out, msg);
    put(&mut out, " in path ");
    put(&mut out, debug_of(path).as_str());
    proof {
        assert(encode_utf8(Seq::<char>::empty()) =~= Seq::<u8>::empty());
        assert(encode_utf8(out@) =~= encode_utf8(msg@) + lit(" in path ") + encode_utf8(debug_text(path@)));
    }
    Error { msg: out, line: None, col: Some(at) }
}

fn missing_err(path: &str, at: usize, b: u8) -> (r: Error)
    requires
        b < 0x80,
    ensures
        missing::<()>(b, at as int) is Err,
        r@ == path_report(path@, missing::<()>(b, at as int)->Err_0),
{
    let mut msg = String::new();
    put(&mut msg, "expected ");
    put_byte(&mut msg, b);
    put(&mut msg, " at position ");
    put_decimal(&mut msg, at as u64);
    proof {
        assert(encode_utf8(Seq::<char>::empty()) =~= Seq::<u8>::empty());
        assert(encode_utf8(msg@) =~= lit("expected ") + seq![b] + lit(" at position ") + decimal(at as nat));
    }
    err(path, at, msg.as_str())
}

/// The number that the digits at `a` stand for, and where they end.
fn read_digits(b: &[u8], a: usize) -> (r: (Option<usize>, usize))
    requires
        a <= b@.len(),
    ensures
        r.1 == run(b@, a as int, Class::Digits),
        a <= r.1 <= b@.len(),
        match r.0 {
            Some(n) => digits(b@, a as int, r.1 as int) == Some(n as int),
            None => digits(b@, a as int, r.1 as int) is None,
        },
{
    let e: usize = scan(b, a, Class::Digits);
    if e == a {
        return (None, e);
    }
    let (n, all) = read_number(b, a, e, 10);
    if !all {
        return (None, e);
    }
    match n {
        Some(v) => if v <= usize::MAX as u64 {
            (Some(v as usize), e)
        } else {
            (None, e)
        },
        None => (None, e),
    }
}

/// Parse a path expression into segments
///
/// Keys are dot-separated, indices are bracketed, and a key containing '.',
/// '[' or a quote is written quoted. A leading '#N' selects a document.
pub fn parse_path(path: &str) -> (r: Result<Vec<Segment<'_>>, Error>)
    ensures
        match (r, segments(encode_utf8(path@))) {
            (Ok(v), Ok(w)) => path_view(v@) == w,
            (Err(e), Err(f)) => e@ == path_report(path@, f),
            _ => false,
        },
{
    let b = path.as_bytes();
    let ghost s = encode_utf8(path@);
    let mut segs: Vec<Segment<'_>> = Vec::new();
    let mut i: usize = 0;
    let mut sep = false;
    proof {
        lemma_text(path@);
        lemma_bd_ends(s);
        assert(path_view(segs@) =~= Seq::empty());
    }
    if b.len() > 0 && b[0] == HASH {
        proof {
            lemma_bd_ascii(s, 0);
        }
        let (n, e) = read_digits(b, 1);
        match n {
            None => {
                return Err(err(path, 1, "expected a document number after '#'"));
            },
            Some(n) => {
                segs.push(Segment::Doc(n));
                assert(path_view(segs@) =~= seq![SegmentView::Doc(n as int)]);
            },
        }
        if e == b.len() {
            return Ok(segs);
        }
        if b[e] != DOT {
            return Err(missing_err(path, e, DOT));
        }
        if e + 1 == b.len() {
            return Err(err(path, e + 1, "trailing '.' in path"));
        }
        proof {
            lemma_bd_ascii(s, e as int);
        }
        i = e + 1;
    }
    while i < b.len()
        invariant
            b@ == s,
            s == encode_utf8(path@),
            is_text(s),
            i <= s.len(),
            bd(s, i as int),
            segments(s) == segments_from(s, i as int, path_view(segs@), sep),
        decreases s.len() - i,
    {
        let c = b[i];
        let ghost before = path_view(segs@);
        if c == DOT {
            if !sep {
                return Err(err(path, i, "empty path segment"));
            }
            if i + 1 == b.len() {
                return Err(err(path, i + 1, "trailing '.' in path"));
            }
            proof {
                lemma_bd_ascii(s, i as int);
            }
            i = i + 1;
            sep = false;
        } else if c == LBRACKET {
            proof {
                lemma_bd_ascii(s, i as int);
            }
            let (n, e) = read_digits(b, i + 1);
            match n {
                None => {
                    return Err(err(path, i + 1, "expected an index"));
                },
                Some(n) => {
                    if e >= b.len() || b[e] != RBRACKET {
                        return Err(missing_err(path, e, RBRACKET));
                    }
                    proof {
                        lemma_bd_ascii(s, e as int);
                    }
                    segs.push(Segment::Index(n));
                    assert(path_view(segs@) =~= before.push(SegmentView::Index(n as int)));
                    i = e + 1;
                    sep = true;
                },
            }
        } else if (c == DQUOTE || c == SQUOTE) && !sep {
            proof {
                lemma_bd_ascii(s, i as int);
            }
            let e: usize = scan(b, i + 1, Class::Until(c));
            if e >= b.len() {
                return Err(err(path, i + 1, "unterminated quoted path segment"));
            }
            proof {
                crate::text::lemma_run(s, i + 1, Class::Until(c));
                lemma_bd_ascii(s, e as int);
            }
            segs.push(Segment::Key(slice(path, i + 1, e)));
            assert(path_view(segs@) =~= before.push(SegmentView::Key(s.subrange(i + 1, e as int))));
            i = e + 1;
            sep = true;
        } else if !sep {
            let e: usize = scan(b, i, Class::PathKey);
            if e == i {
                return Err(err(path, i, "empty path segment"));
            }
            segs.push(Segment::Key(slice(path, i, e)));
            assert(path_view(segs@) =~= before.push(SegmentView::Key(s.subrange(i as int, e as int))));
            i = e;
            sep = true;
        } else if c == RBRACKET {
            return Err(err(path, i, "unmatched ']'"));
        } else {
            return Err(err(path, i, "expected '.' between segments"));
        }
    }
    Ok(segs)
}

} // verus!
