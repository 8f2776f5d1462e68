//! Escapes in double-quoted scalars.
use vstd::prelude::*;
use vstd::utf8::*;
use super::layout::{bounds, moves, Fail};
use super::tokens::{escaped, short_escape};
use super::Parser;
use crate::patterns::{number, read_number};
use crate::text::{is_text, bd, lemma_bd_ascii, lemma_encode_push, scan, Class, BACKSLASH, CR, DQUOTE, LF, SPACE, TAB};
use crate::value::lit;

verus! {

broadcast use {moves, bounds};

/// A refusal at a position that the cursor has not moved to yet.
pub struct Refusal {
    pub msg: &'static str,
    pub p: usize,
}

impl Refusal {
    pub open spec fn v(self) -> Fail {
        Fail { msg: lit(self.msg), p: self.p as int }
    }
}

/// `char::from_u32` gives the character of a Unicode scalar value, and nothing
/// for any other number.
pub assume_specification[ std::primitive::char::from_u32 ](i: u32) -> (r: Option<char>)
    ensures
        match r {
            Some(c) => is_scalar(i) && c as u32 == i,
            None => !is_scalar(i),
        },
;

/// Appends the character of the scalar value `u`.
pub(crate) fn put_scalar(out: &mut String, u: u32)
    requires
        is_scalar(u),
    ensures
        encode_utf8(final(out)@) == encode_utf8(old(out)@) + encode_scalar(u),
{
    if let Some(c) = char::from_u32(u) {
        out.push(c);
        proof {
            lemma_encode_push(old(out)@, c);
        }
    }
}

/// The character that a one-letter escape stands for.
fn short_value(c: u8) -> (r: Option<u32>)
    ensures
        r == short_escape(c),
        r is Some ==> is_scalar(r->0),
{
    if c == 0x30 {
        Some(0)
    } else if c == 0x61 {
        Some(0x07)
    } else if c == 0x62 {
        Some(0x08)
    } else if c == 0x74 || c == TAB {
        Some(0x09)
    } else if c == 0x6e {
        Some(0x0a)
    } else if c == 0x76 {
        Some(0x0b)
    } else if c == 0x66 {
        Some(0x0c)
    } else if c == 0x72 {
        Some(0x0d)
    } else if c == 0x65 {
        Some(0x1b)
    } else if c == SPACE || c == DQUOTE || c == 0x2f || c == BACKSLASH {
        Some(c as u32)
    } else if c == 0x4e {
        Some(0x85)
    } else if c == 0x5f {
        Some(0xa0)
    } else if c == 0x4c {
        Some(0x2028)
    } else if c == 0x50 {
        Some(0x2029)
    } else {
        None
    }
}

/// Digits are ASCII.
proof fn lemma_digits_bd(s: Seq<u8>, a: int, e: int)
    requires
        is_text(s),
        0 <= a < e <= s.len(),
        number(s.subrange(a, e), 16) is Some,
    ensures
        bd(s, e),
{
    assert(s.subrange(a, e).last() == s[e - 1]);
    lemma_bd_ascii(s, e - 1);
}

impl<'a> Parser<'a> {
    /// Appends what the escape at `p` stands for, and gives the position after it.
    pub(crate) fn unescape(&self, p: usize, out: &mut String) -> (r: Result<usize, Refusal>)
        requires
            self.settled(),
            p < self.source().len(),
            bd(self.source(), p as int),
            self.source()[p as int] == BACKSLASH,
        ensures
            match (r, escaped(self.source(), p as int)) {
                (Ok(q), Ok((t, e))) => q == e && p < q <= self.source().len() && bd(self.source(), q as int)
                    && encode_utf8(final(out)@) == encode_utf8(old(out)@) + t,
                (Err(x), Err(f)) => x.v() == f && p <= x.p <= self.source().len() && bd(self.source(), x.p as int),
                _ => false,
            },
    {
        let ghost s = self.source();
        let b = self.src.as_bytes();
        proof {
            lemma_bd_ascii(s, p as int);
            assert forall|x: Seq<u8>| #[trigger] (x + Seq::<u8>::empty()) == x by {
                assert(x + Seq::<u8>::empty() =~= x);
            }
        }
        if p + 1 >= b.len() {
            return Err(Refusal { msg: "unterminated double-quoted string", p: p + 1 });
        }
        let c = b[p + 1];
        if let Some(u) = short_value(c) {
            put_scalar(out, u);
            proof {
                lemma_bd_ascii(s, p + 1);
            }
            return Ok(p + 2);
        }
        if c == LF || c == CR {
            let q: usize = self.break_from(p + 1);
            return Ok(scan(b, q, Class::Blank));
        }
        let w: usize = if c == 0x78 {
            2
        } else if c == 0x75 {
            4
        } else if c == 0x55 {
            8
        } else {
            return Err(Refusal { msg: "unknown escape sequence", p });
        };
        if b.len() - p - 2 < w {
            return Err(Refusal { msg: "invalid escape sequence", p });
        }
        let (n, _all) = read_number(b, p + 2, p + 2 + w, 16);
        if !_all {
            return Err(Refusal { msg: "invalid escape sequence", p });
        }
        if let Some(v) = n {
            if v <= 0x10ffff && !(0xd800 <= v && v <= 0xdfff) {
                proof {
                    lemma_digits_bd(s, p + 2, p + 2 + w);
                }
                put_scalar(out, v as u32);
                return Ok(p + 2 + w);
            }
        }
        Err(Refusal { msg: "invalid escape sequence", p })
    }
}

} // verus!
