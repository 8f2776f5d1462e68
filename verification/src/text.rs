//! UTF-8 text as bytes: byte classes, scans, and slices on character boundaries.
use vstd::prelude::*;
use vstd::string::*;
use vstd::utf8::*;

verus! {

pub const TAB: u8 = 0x09;

pub const LF: u8 = 0x0a;

pub const CR: u8 = 0x0d;

pub const SPACE: u8 = 0x20;

pub const BANG: u8 = 0x21;

pub const DQUOTE: u8 = 0x22;

pub const HASH: u8 = 0x23;

pub const PERCENT: u8 = 0x25;

pub const AMP: u8 = 0x26;

pub const SQUOTE: u8 = 0x27;

pub const STAR: u8 = 0x2a;

pub const PLUS: u8 = 0x2b;

pub const COMMA: u8 = 0x2c;

pub const DASH: u8 = 0x2d;

pub const DOT: u8 = 0x2e;

pub const COLON: u8 = 0x3a;

pub const LESS: u8 = 0x3c;

pub const GREATER: u8 = 0x3e;

pub const QUESTION: u8 = 0x3f;

pub const LBRACKET: u8 = 0x5b;

pub const BACKSLASH: u8 = 0x5c;

pub const RBRACKET: u8 = 0x5d;

pub const LBRACE: u8 = 0x7b;

pub const PIPE: u8 = 0x7c;

pub const RBRACE: u8 = 0x7d;

/// A set of bytes that a scan runs over.
///
/// Of each set, either every member or every non-member is ASCII, so a scan
/// that starts on a character boundary ends on one.
#[derive(Clone, Copy, PartialEq, Eq, Structural)]
pub enum Class {
    /// Space and tab.
    Blank,
    /// Space alone.
    Spaces,
    /// Everything but a line break.
    Line,
    /// Everything that can stand in an anchor, alias or tag name.
    Name,
    /// Space, tab and line breaks.
    Gap,
    /// Line breaks.
    Breaks,
    /// ASCII digits.
    Digits,
    /// Everything that stands for itself in a double-quoted scalar, blanks aside.
    Double,
    /// Everything that stands for itself in a single-quoted scalar, blanks aside.
    Single,
    /// Everything that can stand in an unquoted key of a path.
    PathKey,
    /// Everything that needs no escape in a double-quoted scalar.
    Printable,
    /// Everything but this ASCII byte.
    Until(u8),
}

pub open spec fn is_break(b: u8) -> bool {
    b == LF || b == CR
}

pub open spec fn is_blank(b: u8) -> bool {
    b == SPACE || b == TAB
}

pub open spec fn is_digit(b: u8) -> bool {
    0x30 <= b <= 0x39
}

pub open spec fn is_flow_mark(b: u8) -> bool {
    b == COMMA || b == LBRACKET || b == RBRACKET || b == LBRACE || b == RBRACE
}

impl Class {
    /// Whether `b` belongs to the set.
    pub open spec fn holds(self, b: u8) -> bool {
        match self {
            Class::Blank => is_blank(b),
            Class::Spaces => b == SPACE,
            Class::Line => !is_break(b),
            Class::Name => !is_blank(b) && !is_break(b) && !is_flow_mark(b),
            Class::Gap => is_blank(b) || is_break(b),
            Class::Breaks => is_break(b),
            Class::Digits => is_digit(b),
            Class::Double => !is_blank(b) && !is_break(b) && b != DQUOTE && b != BACKSLASH,
            Class::Single => !is_blank(b) && !is_break(b) && b != SQUOTE,
            Class::PathKey => b != DOT && b != LBRACKET && b != RBRACKET && b != DQUOTE && b != SQUOTE,
            Class::Printable => b >= 0x20 && b != 0x7f && b != DQUOTE && b != BACKSLASH,
            Class::Until(c) => b != c,
        }
    }

    /// A set is usable when its excluded byte, if it names one, is ASCII.
    pub open spec fn ok(self) -> bool {
        match self {
            Class::Until(c) => c < 0x80,
            _ => true,
        }
    }

    pub(crate) fn has(self, b: u8) -> (r: bool)
        ensures
            r == self.holds(b),
    {
        match self {
            Class::Blank => b == SPACE || b == TAB,
            Class::Spaces => b == SPACE,
            Class::Line => b != LF && b != CR,
            Class::Name => b != SPACE && b != TAB && b != LF && b != CR && b != COMMA && b
                != LBRACKET && b != RBRACKET && b != LBRACE && b != RBRACE,
            Class::Gap => b == SPACE || b == TAB || b == LF || b == CR,
            Class::Breaks => b == LF || b == CR,
            Class::Digits => 0x30 <= b && b <= 0x39,
            Class::Double => b != SPACE && b != TAB && b != LF && b != CR && b != DQUOTE && b != BACKSLASH,
            Class::Single => b != SPACE && b != TAB && b != LF && b != CR && b != SQUOTE,
            Class::PathKey => b != DOT && b != LBRACKET && b != RBRACKET && b != DQUOTE && b != SQUOTE,
            Class::Printable => b >= 0x20 && b != 0x7f && b != DQUOTE && b != BACKSLASH,
            Class::Until(c) => b != c,
        }
    }
}

/// The byte at `p`, if the text reaches that far.
pub open spec fn at(s: Seq<u8>, p: int) -> Option<u8> {
    if 0 <= p < s.len() {
        Some(s[p])
    } else {
        None
    }
}

/// The first position from `p` on whose byte is outside `c`, or the end.
pub open spec fn run(s: Seq<u8>, p: int, c: Class) -> int
    decreases s.len() - p,
{
    if 0 <= p < s.len() && c.holds(s[p]) {
        run(s, p + 1, c)
    } else {
        p
    }
}

/// Whether `p` lies between two characters of `s`, or at one of its ends.
pub open spec fn bd(s: Seq<u8>, p: int) -> bool {
    0 <= p <= s.len() && on_char(s, p)
}

#[verifier::opaque]
pub open spec fn on_char(s: Seq<u8>, p: int) -> bool {
    is_char_boundary(s, p)
}

/// Whether `s` is the encoding of some text.
#[verifier::opaque]
pub open spec fn is_text(s: Seq<u8>) -> bool {
    valid_utf8(s)
}

/// The bytes of a text are the encoding of some text.
pub proof fn lemma_text(c: Seq<char>)
    ensures
        is_text(encode_utf8(c)),
{
    reveal(is_text);
    encode_utf8_valid_utf8(c);
}

pub proof fn lemma_run(s: Seq<u8>, p: int, c: Class)
    requires
        0 <= p <= s.len(),
    ensures
        p <= run(s, p, c) <= s.len(),
        forall|i: int| p <= i < run(s, p, c) ==> c.holds(#[trigger] s[i]),
        run(s, p, c) < s.len() ==> !c.holds(s[run(s, p, c)]),
    decreases s.len() - p,
{
    if p < s.len() && c.holds(s[p]) {
        lemma_run(s, p + 1, c);
    }
}

/// A scan that has reached `q` through members of the set goes on from there.
pub proof fn lemma_run_skip(s: Seq<u8>, p: int, q: int, c: Class)
    requires
        0 <= p <= q <= s.len(),
        forall|i: int| p <= i < q ==> c.holds(#[trigger] s[i]),
    ensures
        run(s, p, c) == run(s, q, c),
    decreases q - p,
{
    if p < q {
        assert(c.holds(s[p]));
        lemma_run_skip(s, p + 1, q, c);
    }
}

pub proof fn lemma_bd_ends(s: Seq<u8>)
    requires
        is_text(s),
    ensures
        bd(s, 0),
        bd(s, s.len() as int),
{
    reveal(is_text);
    reveal(on_char);
    is_char_boundary_start_end_of_seq(s);
}

/// Both sides of an ASCII byte are character boundaries.
pub proof fn lemma_bd_ascii(s: Seq<u8>, p: int)
    requires
        is_text(s),
        0 <= p < s.len(),
        s[p] < 0x80,
    ensures
        bd(s, p),
        bd(s, p + 1),
{
    reveal(is_text);
    reveal(on_char);
    is_char_boundary_iff_not_is_continuation_byte(s, p);
    if p + 1 == s.len() {
        lemma_bd_ends(s);
    } else {
        reveal_with_fuel(valid_utf8, 3);
        valid_utf8_split(s, p);
        let t = s.subrange(p, s.len() as int);
        assert(t[0] == s[p]);
        assert(pop_first_scalar(t) =~= s.subrange(p + 1, s.len() as int));
        let u = pop_first_scalar(t);
        assert(valid_first_scalar(u));
        assert(u[0] == s[p + 1]);
        is_char_boundary_iff_not_is_continuation_byte(s, p + 1);
    }
}

/// A scan that starts on a boundary ends on one.
pub proof fn lemma_run_bd(s: Seq<u8>, p: int, c: Class)
    requires
        is_text(s),
        bd(s, p),
        c.ok(),
    ensures
        bd(s, run(s, p, c)),
    decreases s.len() - p,
{
    lemma_run(s, p, c);
    let q = run(s, p, c);
    if q == p {
    } else if q == s.len() {
        lemma_bd_ends(s);
    } else if c is Blank || c is Spaces || c is Gap || c is Breaks || c is Digits {
        assert(c.holds(s[q - 1]));
        lemma_bd_ascii(s, q - 1);
    } else {
        lemma_bd_ascii(s, q);
    }
}

/// Encoding distributes over concatenation.
pub proof fn lemma_encode_add(a: Seq<char>, b: Seq<char>)
    ensures
        encode_utf8(a + b) == encode_utf8(a) + encode_utf8(b),
    decreases a.len(),
{
    if a.len() == 0 {
        assert(a + b =~= b);
        assert(encode_utf8(a) + encode_utf8(b) =~= encode_utf8(b));
    } else {
        assert((a + b).drop_first() =~= a.drop_first() + b);
        lemma_encode_add(a.drop_first(), b);
        assert(encode_utf8(a + b) =~= encode_utf8(a) + encode_utf8(b));
    }
}

/// Encoding keeps different texts apart.
pub proof fn lemma_encode_inj(a: Seq<char>, b: Seq<char>)
    requires
        encode_utf8(a) == encode_utf8(b),
    ensures
        a == b,
{
    encode_utf8_decode_utf8(a);
    encode_utf8_decode_utf8(b);
}

/// Appending one character appends its encoding.
pub proof fn lemma_encode_push(a: Seq<char>, c: char)
    ensures
        encode_utf8(a.push(c)) == encode_utf8(a) + encode_scalar(c as u32),
{
    assert(a.push(c) =~= a + seq![c]);
    lemma_encode_add(a, seq![c]);
    assert(seq![c].drop_first() =~= Seq::<char>::empty());
    assert(encode_utf8(seq![c]) =~= encode_scalar(c as u32)) by {
        reveal_with_fuel(encode_utf8, 2);
    }
}

/// An ASCII character encodes to its own value.
pub proof fn lemma_encode_ascii(b: u8)
    requires
        b < 0x80,
    ensures
        encode_scalar((b as char) as u32) == seq![b],
{
    let c = (b as char) as u32;
    assert(c == b);
    assert(leading_byte_width_1(c) == b) by {
        assert(c < 0x80 ==> (c & 0x7f) as u8 == c) by (bit_vector);
    }
    assert(encode_scalar(c) =~= seq![b]);
}

/// The first position from `p` on whose byte is outside `c`, or the end.
pub(crate) fn scan(b: &[u8], p: usize, c: Class) -> (q: usize)
    requires
        p <= b@.len(),
    ensures
        q == run(b@, p as int, c),
        p <= q <= b@.len(),
{
    proof {
        lemma_run(b@, p as int, c);
    }
    let mut q: usize = p;
    while q < b.len() && c.has(b[q])
        invariant
            p <= q <= b@.len(),
            run(b@, p as int, c) == run(b@, q as int, c),
        decreases b@.len() - q,
    {
        q = q + 1;
    }
    q
}

/// The last position from `p` back to `a` whose preceding byte is outside `c`.
pub open spec fn back(s: Seq<u8>, a: int, p: int, c: Class) -> int
    decreases p - a,
{
    if 0 <= a < p <= s.len() && c.holds(s[p - 1]) {
        back(s, a, p - 1, c)
    } else {
        p
    }
}

pub proof fn lemma_back(s: Seq<u8>, a: int, p: int, c: Class)
    requires
        a <= p <= s.len(),
        0 <= a,
    ensures
        a <= back(s, a, p, c) <= p,
        is_text(s) && bd(s, p) && (c == Class::Blank || c == Class::Breaks) ==> bd(s, back(s, a, p, c)),
    decreases p - a,
{
    if a < p && c.holds(s[p - 1]) {
        if is_text(s) && (c == Class::Blank || c == Class::Breaks) {
            reveal(is_text);
            reveal(on_char);
            is_char_boundary_iff_not_is_continuation_byte(s, p - 1);
            let b = s[p - 1];
            assert(b < 0x80u8 ==> !(0x80u8 <= b && b <= 0xbfu8));
        }
        lemma_back(s, a, p - 1, c);
    }
}

/// A scan back to the start of a line stops on a boundary.
pub proof fn lemma_back_line(s: Seq<u8>, a: int, p: int)
    requires
        is_text(s),
        0 <= a <= p <= s.len(),
        bd(s, a),
        bd(s, p),
    ensures
        bd(s, back(s, a, p, Class::Line)),
        a <= back(s, a, p, Class::Line) <= p,
{
    lemma_back_stop(s, a, p, Class::Line);
    let q = back(s, a, p, Class::Line);
    if a < q {
        lemma_bd_ascii(s, q - 1);
    }
}

/// Where a scan back stops, and what it passes.
pub proof fn lemma_back_stop(s: Seq<u8>, a: int, p: int, c: Class)
    requires
        0 <= a <= p <= s.len(),
    ensures
        a <= back(s, a, p, c) <= p,
        a < back(s, a, p, c) ==> !c.holds(s[back(s, a, p, c) - 1]),
        forall|i: int| back(s, a, p, c) <= i < p ==> c.holds(#[trigger] s[i]),
    decreases p - a,
{
    if a < p && c.holds(s[p - 1]) {
        lemma_back_stop(s, a, p - 1, c);
    }
}

/// The last position from `p` back to `a` whose preceding byte is outside `c`.
pub(crate) fn scan_back(b: &[u8], a: usize, p: usize, c: Class) -> (q: usize)
    requires
        a <= p <= b@.len(),
    ensures
        q == back(b@, a as int, p as int, c),
        a <= q <= p,
{
    let mut q: usize = p;
    while q > a && c.has(b[q - 1])
        invariant
            a <= q <= p <= b@.len(),
            back(b@, a as int, p as int, c) == back(b@, a as int, q as int, c),
        decreases q,
    {
        q = q - 1;
    }
    q
}

/// Whether two texts are the same.
pub(crate) fn same(a: &str, b: &str) -> (r: bool)
    ensures
        r == (encode_utf8(a@) == encode_utf8(b@)),
        r == (a@ == b@),
{
    let x = a.as_bytes();
    let y = b.as_bytes();
    proof {
        if encode_utf8(a@) == encode_utf8(b@) {
            lemma_encode_inj(a@, b@);
        }
    }
    if x.len() != y.len() {
        return false;
    }
    let mut i: usize = 0;
    while i < x.len()
        invariant
            x@.len() == y@.len(),
            i <= x@.len(),
            forall|j: int| 0 <= j < i ==> x@[j] == y@[j],
            x@ == encode_utf8(a@),
            y@ == encode_utf8(b@),
            encode_utf8(a@) == encode_utf8(b@) ==> a@ == b@,
        decreases x@.len() - i,
    {
        if x[i] != y[i] {
            return false;
        }
        i = i + 1;
    }
    assert(x@ =~= y@);
    true
}

/// The part of `src` from byte `a` up to byte `b`.
pub(crate) fn slice<'a>(src: &'a str, a: usize, b: usize) -> (r: &'a str)
    requires
        a <= b,
        bd(encode_utf8(src@), a as int),
        bd(encode_utf8(src@), b as int),
    ensures
        encode_utf8(r@) == encode_utf8(src@).subrange(a as int, b as int),
        r@ == decode_utf8(encode_utf8(src@).subrange(a as int, b as int)),
{
    let ghost s = encode_utf8(src@);
    proof {
        reveal(is_text);
        reveal(on_char);
        encode_utf8_valid_utf8(src@);
    }
    let (left, _right) = src.split_at(b);
    proof {
        let t = s.subrange(0, b as int);
        encode_utf8_valid_utf8(left@);
        assert(encode_utf8(left@) == t);
        if a == b {
            lemma_bd_ends(t);
        } else {
            assert(t[a as int] == s[a as int]);
            is_char_boundary_iff_not_is_continuation_byte(s, a as int);
            is_char_boundary_iff_not_is_continuation_byte(t, a as int);
        }
    }
    let (_skip, mid) = left.split_at(a);
    proof {
        assert(encode_utf8(mid@) =~= s.subrange(a as int, b as int));
        encode_utf8_decode_utf8(mid@);
    }
    mid
}

/// Appends `part`.
pub(crate) fn put(out: &mut String, part: &str)
    ensures
        final(out)@ == old(out)@ + part@,
        encode_utf8(final(out)@) == encode_utf8(old(out)@) + encode_utf8(part@),
{
    out.append(part);
    proof {
        lemma_encode_add(old(out)@, part@);
    }
}

/// Appends the part of `src` from byte `a` up to byte `b`.
pub(crate) fn put_slice(out: &mut String, src: &str, a: usize, b: usize)
    requires
        a <= b,
        bd(encode_utf8(src@), a as int),
        bd(encode_utf8(src@), b as int),
    ensures
        encode_utf8(final(out)@) == encode_utf8(old(out)@) + encode_utf8(src@).subrange(
            a as int,
            b as int,
        ),
{
    put(out, slice(src, a, b));
}

/// `String::push` appends one character.
pub assume_specification[std::string::String::push](s: &mut String, c: char)
    ensures
        final(s)@ == old(s)@.push(c),
;

/// Appends one ASCII byte.
pub(crate) fn put_byte(out: &mut String, b: u8)
    requires
        b < 0x80,
    ensures
        encode_utf8(final(out)@) == encode_utf8(old(out)@).push(b),
{
    let c = b as char;
    out.push(c);
    proof {
        lemma_encode_push(old(out)@, c);
        lemma_encode_ascii(b);
        assert(encode_utf8(old(out)@) + seq![b] =~= encode_utf8(old(out)@).push(b));
    }
}

/// The decimal digits of `n`.
pub open spec fn decimal(n: nat) -> Seq<u8>
    decreases n,
{
    if n < 10 {
        seq![(0x30 + n) as u8]
    } else {
        decimal(n / 10).push((0x30 + n % 10) as u8)
    }
}

/// Appends the decimal digits of `n`.
pub(crate) fn put_decimal(out: &mut String, n: u64)
    ensures
        encode_utf8(final(out)@) == encode_utf8(old(out)@) + decimal(n as nat),
    decreases n,
{
    if n >= 10 {
        put_decimal(out, n / 10);
    }
    put_byte(out, 0x30 + (n % 10) as u8);
    proof {
        assert(encode_utf8(out@) =~= encode_utf8(old(out)@) + decimal(n as nat));
    }
}

} // verus!
