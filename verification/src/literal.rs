//! The size in bytes of a string literal as the assembler stores it.
use vstd::prelude::*;
use vstd::utf8::{encode_utf8, encode_scalar, char_is_scalar};

verus! {

/// The number of bytes in the UTF-8 encoding of a character.
pub open spec fn utf8_width(c: char) -> nat {
    if (c as u32) < 0x80 {
        1
    } else if (c as u32) < 0x800 {
        2
    } else if (c as u32) < 0x10000 {
        3
    } else {
        4
    }
}

/// True for the hexadecimal digits.
pub open spec fn is_hex_digit(c: char) -> bool {
    ('0' <= c <= '9') || ('a' <= c <= 'f') || ('A' <= c <= 'F')
}

/// True for the octal digits.
pub open spec fn is_octal_digit(c: char) -> bool {
    '0' <= c <= '7'
}

/// The number of hexadecimal digits that `s` begins with.
pub open spec fn hex_run(s: Seq<char>) -> nat
    decreases s.len(),
{
    if s.len() > 0 && is_hex_digit(s[0]) {
        1 + hex_run(s.drop_first())
    } else {
        0
    }
}

/// The number of octal digits, at most three, that `s` begins with.
pub open spec fn octal_run(s: Seq<char>) -> nat {
    if s.len() > 0 && is_octal_digit(s[0]) {
        if s.len() > 1 && is_octal_digit(s[1]) {
            if s.len() > 2 && is_octal_digit(s[2]) {
                3
            } else {
                2
            }
        } else {
            1
        }
    } else {
        0
    }
}

/// A run of hexadecimal digits lies within the sequence.
pub proof fn lemma_hex_run(s: Seq<char>)
    ensures
        hex_run(s) <= s.len(),
    decreases s.len(),
{
    if s.len() > 0 && is_hex_digit(s[0]) {
        lemma_hex_run(s.drop_first());
    }
}

/// The number of characters an escape takes after its backslash, `e` being what follows the
/// backslash: `x` and all the hexadecimal digits after it, one to three octal digits, or one
/// character.
pub open spec fn escape_length(e: Seq<char>) -> int {
    if e[0] == 'x' || e[0] == 'X' {
        1 + hex_run(e.drop_first()) as int
    } else if is_octal_digit(e[0]) {
        octal_run(e) as int
    } else {
        1
    }
}

/// The number of bytes that the characters `s`, written between the quotes of a string literal,
/// stand for: each escape (a backslash and what `escape_length` counts after it) is one byte, and
/// every other character takes the bytes of its UTF-8 encoding.
pub open spec fn literal_size(s: Seq<char>) -> nat
    decreases s.len(),
{
    if s.len() == 0 {
        0
    } else if s[0] == '\\' && s.len() >= 2 {
        let e = s.drop_first();
        proof {
            lemma_hex_run(e.drop_first());
        }
        1 + literal_size(e.subrange(escape_length(e), e.len() as int))
    } else {
        utf8_width(s[0]) + literal_size(s.drop_first())
    }
}

/// The characters between the quotes of a string literal: a leading double quote is left out, and
/// so is a trailing one after it.
pub open spec fn literal_content(q: Seq<char>) -> Seq<char> {
    let a: int = if q.len() > 0 && q[0] == '"' { 1 } else { 0 };
    let b: int = if q.len() > a && q.last() == '"' { q.len() - 1 } else { q.len() as int };
    q.subrange(a, b)
}

/// Whether a character is a hexadecimal digit (the executable form of `is_hex_digit`).
fn hex_digit(c: char) -> (res: bool)
    ensures
        res == is_hex_digit(c),
{
    ('0' <= c && c <= '9') || ('a' <= c && c <= 'f') || ('A' <= c && c <= 'F')
}

/// Whether a character is an octal digit (the executable form of `is_octal_digit`).
fn octal_digit(c: char) -> (res: bool)
    ensures
        res == is_octal_digit(c),
{
    '0' <= c && c <= '7'
}

/// The number of bytes in the UTF-8 encoding of a character.
fn char_width(c: char) -> (res: u128)
    ensures
        res == utf8_width(c),
{
    let v = c as u32;
    if v < 0x80 {
        1
    } else if v < 0x800 {
        2
    } else if v < 0x10000 {
        3
    } else {
        4
    }
}

/// The number of bytes that the string literal `q` (written with its quotes) stores.
pub fn literal_byte_size(q: &String) -> (res: u128)
    ensures
        res == literal_size(literal_content(q@)),
{
    let s = q.as_str();
    let n = s.unicode_len();
    let ghost c = q@;
    let a: usize = if n > 0 && s.get_char(0) == '"' { 1 } else { 0 };
    let b: usize = if n > a && s.get_char(n - 1) == '"' { n - 1 } else { n };
    let ghost content = c.subrange(a as int, b as int);
    assert(content == literal_content(c));

    let mut size: u128 = 0;
    let mut j: usize = a;
    assert(c.subrange(j as int, b as int) == content);
    while j < b
        invariant
            c == q@,
            s@ == c,
            n == c.len(),
            a <= j <= b <= n,
            size <= 4 * (j - a),
            literal_size(content) == size + literal_size(c.subrange(j as int, b as int)),
        decreases b - j,
    {
        let ghost rest = c.subrange(j as int, b as int);
        let ch = s.get_char(j);
        if ch == '\\' && j + 1 < b {
            let ghost e = rest.drop_first();
            assert(e == c.subrange(j + 1, b as int));
            let esc = s.get_char(j + 1);
            let mut k: usize;
            if esc == 'x' || esc == 'X' {
                k = j + 2;
                proof {
                    assert(e.drop_first() == c.subrange(j + 2, b as int));
                }
                while k < b && hex_digit(s.get_char(k))
                    invariant
                        c == q@,
                        s@ == c,
                        n == c.len(),
                        j + 2 <= k <= b <= n,
                        hex_run(c.subrange(j + 2, b as int)) == (k - (j + 2)) + hex_run(
                            c.subrange(k as int, b as int),
                        ),
                    decreases b - k,
                {
                    assert(c.subrange(k as int, b as int).drop_first() == c.subrange(k + 1, b as int));
                    k = k + 1;
                }
                assert(hex_run(c.subrange(k as int, b as int)) == 0);
            } else if octal_digit(esc) {
                k = j + 2;
                if k < b && octal_digit(s.get_char(k)) {
                    k = k + 1;
                    if k < b && octal_digit(s.get_char(k)) {
                        k = k + 1;
                    }
                }
            } else {
                k = j + 2;
            }
            assert(escape_length(e) == k - (j + 1));
            assert(e.subrange(escape_length(e), e.len() as int) == c.subrange(k as int, b as int));
            size = size + 1;
            j = k;
        } else {
            let w = char_width(ch);
            assert(rest.drop_first() == c.subrange(j + 1, b as int));
            size = size + w;
            j = j + 1;
        }
    }
    size
}

/// A run of hexadecimal digits followed by something else is counted whole.
proof fn lemma_hex_run_of(h: Seq<char>, rest: Seq<char>)
    requires
        forall|i: int|
            0 <= i < h.len() ==> ('0' <= #[trigger] h[i] <= '9') || ('a' <= h[i] <= 'f') || ('A'
                <= h[i] <= 'F'),
        rest.len() == 0 || !(('0' <= rest[0] <= '9') || ('a' <= rest[0] <= 'f') || ('A' <= rest[0]
            <= 'F')),
    ensures
        hex_run(h + rest) == h.len(),
    decreases h.len(),
{
    if h.len() > 0 {
        assert((h + rest).drop_first() =~= h.drop_first() + rest);
        lemma_hex_run_of(h.drop_first(), rest);
    } else {
        assert(h + rest =~= rest);
    }
}

/// A hexadecimal escape, `\x` or `\X` followed by hexadecimal digits (`0`-`9`, `a`-`f`, `A`-`F`),
/// takes all of those digits and stands for one byte.
pub proof fn law_hex_escape(x: char, h: Seq<char>, rest: Seq<char>)
    requires
        x == 'x' || x == 'X',
        h.len() >= 1,
        forall|i: int|
            0 <= i < h.len() ==> ('0' <= #[trigger] h[i] <= '9') || ('a' <= h[i] <= 'f') || ('A'
                <= h[i] <= 'F'),
        rest.len() == 0 || !(('0' <= rest[0] <= '9') || ('a' <= rest[0] <= 'f') || ('A' <= rest[0]
            <= 'F')),
    ensures
        literal_size(seq!['\\', x] + h + rest) == 1 + literal_size(rest),
{
    let s = seq!['\\', x] + h + rest;
    let e = s.drop_first();
    assert(e =~= seq![x] + (h + rest));
    assert(e.drop_first() =~= h + rest);
    lemma_hex_run_of(h, rest);
    assert(e.subrange(escape_length(e), e.len() as int) =~= rest);
}

/// An octal escape, a backslash followed by one to three octal digits (`0`-`7`), takes those
/// digits (at most three) and stands for one byte.
pub proof fn law_octal_escape(d: Seq<char>, rest: Seq<char>)
    requires
        1 <= d.len() <= 3,
        forall|i: int| 0 <= i < d.len() ==> '0' <= #[trigger] d[i] <= '7',
        d.len() == 3 || rest.len() == 0 || !('0' <= rest[0] <= '7'),
    ensures
        literal_size(seq!['\\'] + d + rest) == 1 + literal_size(rest),
{
    let s = seq!['\\'] + d + rest;
    let e = s.drop_first();
    assert(e =~= d + rest);
    assert(e.subrange(escape_length(e), e.len() as int) =~= rest);
}

/// Any other escape, a backslash and one character that is neither `x`, `X` nor an octal digit,
/// stands for one byte.
pub proof fn law_simple_escape(c: char, rest: Seq<char>)
    requires
        c != 'x' && c != 'X' && !('0' <= c <= '7'),
    ensures
        literal_size(seq!['\\', c] + rest) == 1 + literal_size(rest),
{
    let s = seq!['\\', c] + rest;
    let e = s.drop_first();
    assert(e =~= seq![c] + rest);
    assert(e.subrange(escape_length(e), e.len() as int) =~= rest);
}

/// Text without escapes stands for its UTF-8 encoding, byte for byte.
pub proof fn law_plain_text_size(s: Seq<char>)
    requires
        forall|i: int| 0 <= i < s.len() ==> #[trigger] s[i] != '\\',
    ensures
        literal_size(s) == encode_utf8(s).len(),
    decreases s.len(),
{
    if s.len() > 0 {
        law_plain_text_size(s.drop_first());
        let c = s[0];
        char_is_scalar(c);
        assert(encode_scalar(c as u32).len() == utf8_width(c));
    }
}

} // verus!
