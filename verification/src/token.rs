//! Tokens produced by the lexer.
use vstd::prelude::*;
use vstd::utf8::{decode_utf8, valid_utf8};

use crate::location::Location;

verus! {

/// The kinds of tokens of the supported C subset.
#[derive(Debug, PartialEq, Eq, Clone, Copy, Structural)]
pub enum TokenKind {
    Identifier,
    OpenParen,
    CloseParen,
    OpenCurly,
    CloseCurly,
    Semicolon,
    Number,
    String,
    Eq,
    // Keywords
    KwReturn,
    KwInt,
}

/// A token: its kind, where it starts, and the bytes of source text it covers.
#[derive(Debug)]
pub struct Token {
    /// Kind of the token
    pub kind: TokenKind,
    /// Location of the token
    pub loc: Location,
    /// Value of the token
    pub value: Vec<u8>,
}

impl Clone for Token {
    fn clone(&self) -> (res: Self)
        ensures
            res.kind == self.kind,
            res.loc == self.loc,
            res.value@ == self.value@,
    {
        Token { kind: self.kind, loc: self.loc.clone(), value: self.value.clone() }
    }
}

/// True when the byte is an ASCII decimal digit.
pub open spec fn is_digit_byte(b: u8) -> bool {
    48 <= b <= 57
}

/// The value of a sequence of decimal digits, most significant first.
pub open spec fn digits_value(s: Seq<u8>) -> nat
    decreases s.len(),
{
    if s.len() == 0 {
        0
    } else {
        digits_value(s.drop_last()) * 10 + (s.last() - 48) as nat
    }
}

/// The `i32` that a byte sequence spells in decimal: `None` unless it is a non-empty run of digits
/// whose value fits in an `i32`.
pub open spec fn decimal_i32(s: Seq<u8>) -> Option<i32> {
    if s.len() > 0 && (forall|i: int| 0 <= i < s.len() ==> is_digit_byte(#[trigger] s[i]))
        && digits_value(s) <= i32::MAX {
        Some(digits_value(s) as i32)
    } else {
        None
    }
}

/// Ten to the power `n`.
pub open spec fn pow10(n: nat) -> nat
    decreases n,
{
    if n == 0 {
        1
    } else {
        10 * pow10((n - 1) as nat)
    }
}

/// The number that a run of decimal digits writes: each digit, most significant first, times ten
/// to the power of the number of digits after it.
pub open spec fn positional_value(s: Seq<u8>) -> nat
    decreases s.len(),
{
    if s.len() == 0 {
        0
    } else {
        (s[0] - 48) as nat * pow10((s.len() - 1) as nat) + positional_value(s.drop_first())
    }
}

/// Reading digits one at a time, each step multiplying by ten, gives their positional value.
proof fn lemma_digits_positional(s: Seq<u8>)
    requires
        forall|i: int| 0 <= i < s.len() ==> 48u8 <= #[trigger] s[i] <= 57u8,
    ensures
        digits_value(s) == positional_value(s),
    decreases s.len(),
{
    if s.len() >= 2 {
        let df = s.drop_first();
        let dl = s.drop_last();
        lemma_digits_positional(dl);
        lemma_digits_positional(df);
        lemma_digits_positional(df.drop_last());
        assert(dl.drop_first() =~= df.drop_last());
        assert(df.last() == s.last());
        let d0 = (s[0] - 48) as nat;
        let p = pow10((s.len() - 2) as nat);
        assert(pow10((s.len() - 1) as nat) == 10 * p);
        let m = positional_value(df.drop_last());
        assert((d0 * p + m) * 10 == d0 * (10 * p) + m * 10) by (nonlinear_arith);
        assert(positional_value(dl) == d0 * p + positional_value(dl.drop_first()));
        assert(digits_value(s) == digits_value(dl) * 10 + (s.last() - 48) as nat);
        assert(digits_value(df) == digits_value(df.drop_last()) * 10 + (df.last() - 48) as nat);
        assert(positional_value(s) == d0 * pow10((s.len() - 1) as nat) + positional_value(df));
        assert(digits_value(s) == positional_value(s));
    } else if s.len() == 1 {
        assert(s.drop_last().len() == 0);
        assert(s.drop_first().len() == 0);
        assert(digits_value(s.drop_last()) == 0);
        assert(positional_value(s.drop_first()) == 0);
        assert(pow10(0) == 1);
        assert(s.last() == s[0]);
        let x = (s[0] - 48) as nat;
        assert(((s.len() - 1) as nat) == 0);
        assert(positional_value(s) == x * pow10(0));
        assert(x * 1 == x);
        assert(digits_value(s) == 0 * 10 + x);
        assert(digits_value(s) == positional_value(s));
    }
}

/// A token's decimal value is the positional value of its digits, when it is a non-empty run of
/// ASCII digits whose value fits in an `i32`; otherwise there is none.
pub proof fn law_decimal_value(s: Seq<u8>)
    ensures
        decimal_i32(s) == if s.len() > 0 && (forall|i: int|
            0 <= i < s.len() ==> 48u8 <= #[trigger] s[i] <= 57u8) && positional_value(s)
            <= i32::MAX {
            Some(positional_value(s) as i32)
        } else {
            None::<i32>
        },
{
    if forall|i: int| 0 <= i < s.len() ==> 48u8 <= #[trigger] s[i] <= 57u8 {
        lemma_digits_positional(s);
    }
}

/// Converts bytes to a `String` (`String::from_utf8`): `None` exactly when the bytes are not
/// valid UTF-8, and otherwise the characters they encode.
#[verifier::external_body]
pub(crate) fn string_from_utf8(bytes: Vec<u8>) -> (res: Option<String>)
    ensures
        res is Some <==> valid_utf8(bytes@),
        res matches Some(s) ==> s@ == decode_utf8(bytes@),
{
    String::from_utf8(bytes).ok()
}

impl Token {
    /// The token's text as a string.
    pub fn value_as_string(&self) -> (res: String)
        requires
            valid_utf8(self.value@),
        ensures
            res@ == decode_utf8(self.value@),
    {
        match string_from_utf8(self.value.clone()) {
            Some(s) => s,
            None => {
                assert(false);
                String::new()
            },
        }
    }

    /// The token's text read as a decimal `i32`; `None` when it is not a non-empty run of digits
    /// or its value does not fit.
    pub fn value_as_int(&self) -> (res: Option<i32>)
        ensures
            res == decimal_i32(self.value@),
    {
        let n = self.value.len();
        if n == 0 {
            return None;
        }
        // The value read so far, capped just above the largest `i32`.
        let cap: u64 = 0x8000_0000;
        let mut acc: u64 = 0;
        let mut i: usize = 0;
        while i < n
            invariant
                n == self.value@.len(),
                0 <= i <= n,
                cap == 0x8000_0000,
                forall|j: int| 0 <= j < i ==> is_digit_byte(#[trigger] self.value@[j]),
                acc == if digits_value(self.value@.take(i as int)) < cap {
                    digits_value(self.value@.take(i as int))
                } else {
                    cap as nat
                },
            decreases n - i,
        {
            let b = self.value[i];
            if b < 48 || b > 57 {
                assert(!is_digit_byte(self.value@[i as int]));
                return None;
            }
            proof {
                assert(self.value@.take(i + 1).drop_last() == self.value@.take(i as int));
            }
            let next: u64 = acc * 10 + (b - 48) as u64;
            acc = if next < cap { next } else { cap };
            i = i + 1;
        }
        assert(self.value@.take(n as int) == self.value@);
        if acc < cap {
            Some(acc as i32)
        } else {
            None
        }
    }
}

/// The text that `String::from_utf8_lossy` makes of some bytes.
pub uninterp spec fn lossy_text(bytes: Seq<u8>) -> Seq<char>;

/// The text that `{:?}` makes of a string: the string quoted, with escapes.
pub uninterp spec fn debug_string(chars: Seq<char>) -> Seq<char>;

/// Decodes bytes as UTF-8, each invalid sequence becoming U+FFFD
/// (`String::from_utf8_lossy`). The result is the name `lossy_text` of the bytes; for valid UTF-8
/// it is the text they encode. What replaces invalid sequences is left unsaid beyond the name.
#[verifier::external_body]
fn utf8_lossy(bytes: &Vec<u8>) -> (res: String)
    ensures
        res@ == lossy_text(bytes@),
        valid_utf8(bytes@) ==> res@ == decode_utf8(bytes@),
{
    String::from_utf8_lossy(bytes).into_owned()
}

/// The `Debug` text of a string (`<str as Debug>::fmt`): the result is the name `debug_string` of
/// its characters; the escaping rules are left unsaid beyond the name.
#[verifier::external_body]
fn debug_quoted(s: &String) -> (res: String)
    ensures
        res@ == debug_string(s@),
{
    format!("{:?}", s)
}

/// The name of a token kind, as `Debug` prints it.
pub open spec fn kind_name(k: TokenKind) -> Seq<char> {
    match k {
        TokenKind::Identifier => "Identifier"@,
        TokenKind::OpenParen => "OpenParen"@,
        TokenKind::CloseParen => "CloseParen"@,
        TokenKind::OpenCurly => "OpenCurly"@,
        TokenKind::CloseCurly => "CloseCurly"@,
        TokenKind::Semicolon => "Semicolon"@,
        TokenKind::Number => "Number"@,
        TokenKind::String => "String"@,
        TokenKind::Eq => "Eq"@,
        TokenKind::KwReturn => "KwReturn"@,
        TokenKind::KwInt => "KwInt"@,
    }
}

/// The name of a token kind (the executable form of `kind_name`).
fn kind_str(k: TokenKind) -> (res: &'static str)
    ensures
        res@ == kind_name(k),
{
    match k {
        TokenKind::Identifier => "Identifier",
        TokenKind::OpenParen => "OpenParen",
        TokenKind::CloseParen => "CloseParen",
        TokenKind::OpenCurly => "OpenCurly",
        TokenKind::CloseCurly => "CloseCurly",
        TokenKind::Semicolon => "Semicolon",
        TokenKind::Number => "Number",
        TokenKind::String => "String",
        TokenKind::Eq => "Eq",
        TokenKind::KwReturn => "KwReturn",
        TokenKind::KwInt => "KwInt",
    }
}

/// The description of a token: `Token { kind: K, loc: path:row:col, value: V }`, with `value` the
/// already quoted text of its value.
pub open spec fn token_description(kind: TokenKind, loc: Location, value: Seq<char>) -> Seq<char> {
    "Token { kind: "@ + kind_name(kind) + ", loc: "@ + loc.display_text() + ", value: "@ + value
        + " }"@
}

/// Describes a token of kind `kind` at `loc` whose value, quoted, is `value`.
pub fn describe_token(kind: TokenKind, loc: &Location, value: &String) -> (res: String)
    ensures
        res@ == token_description(kind, *loc, value@),
{
    let mut out = String::new();
    out.append("Token { kind: ");
    out.append(kind_str(kind));
    out.append(", loc: ");
    let place = loc.display();
    out.append(place.as_str());
    out.append(", value: ");
    out.append(value.as_str());
    out.append(" }");
    assert(out@ =~= token_description(kind, *loc, value@));
    out
}

impl Token {
    /// The token as text: `Token { kind: K, loc: path:row:col, value: "..." }`, the value decoded
    /// from UTF-8 (invalid sequences replaced) and quoted as `Debug` quotes strings.
    pub fn debug_text(&self) -> (res: String)
        ensures
            res@ == token_description(self.kind, self.loc, debug_string(lossy_text(self.value@))),
    {
        let text = utf8_lossy(&self.value);
        let quoted = debug_quoted(&text);
        describe_token(self.kind, &self.loc, &quoted)
    }
}

} // verus!
