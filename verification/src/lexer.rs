//! The lexer: turns source bytes into tokens, one at a time, tracking rows and columns.
use vstd::prelude::*;

use crate::location::{Location, rows_before, line_start, lemma_position_bounds};
use crate::token::{Token, TokenKind, is_digit_byte};
use vstd::utf8::{
    valid_utf8, decode_utf8, is_char_boundary, valid_utf8_split,
    is_char_boundary_start_end_of_seq, is_char_boundary_iff_not_is_continuation_byte,
    is_continuation_byte, valid_first_scalar, pop_first_scalar,
};

verus! {

/// The lexer over one source file.
#[derive(Debug)]
pub struct Lexer {
    /// Path to the source code
    filepath: String,
    /// Source code of the file
    source: Vec<u8>,
    /// Current global location in the source
    cur: usize,
    /// Location of the current beginning of line
    bol: usize,
    /// Current row in the source
    row: usize,
}

/// An error of the lexer, with the place where it happened.
#[derive(Debug)]
pub struct LexerError {
    /// Kind of the error
    pub kind: LexerErrorKind,
    /// Current location of the lexer where error happened
    pub loc: Location,
}

/// The ways lexing can fail.
#[derive(Debug, PartialEq, Eq, Clone, Copy, Structural)]
pub enum LexerErrorKind {
    /// Unexpected unreachable state (or probably more likely unimplemented)
    Unreachable,
    /// Lexer reached the end of file
    UnexpectedEof,
}

/// Classes of bytes that the lexer skips over or gathers.
#[derive(Clone, Copy)]
pub enum ByteClass {
    /// ASCII whitespace: space, tab, line feed, form feed, carriage return
    Space,
    /// ASCII letters
    Letter,
    /// ASCII decimal digits
    Digit,
    /// Anything but a line feed
    NotNewline,
    /// Anything but a double quote
    NotQuote,
}

/// True when `b` belongs to the class `c`.
pub open spec fn in_class(c: ByteClass, b: u8) -> bool {
    match c {
        ByteClass::Space => b == 32u8 || b == 9u8 || b == 10u8 || b == 12u8 || b == 13u8,
        ByteClass::Letter => (65u8 <= b <= 90u8) || (97u8 <= b <= 122u8),
        ByteClass::Digit => is_digit_byte(b),
        ByteClass::NotNewline => b != 10u8,
        ByteClass::NotQuote => b != 34u8,
    }
}

/// The first position at or after `i` whose byte is not in class `c` (or the end of `src`).
pub open spec fn span(src: Seq<u8>, i: int, c: ByteClass) -> int
    decreases src.len() - i,
{
    if 0 <= i < src.len() && in_class(c, src[i]) {
        span(src, i + 1, c)
    } else {
        i
    }
}

/// A span never moves backwards, never passes the end, and stops at a byte outside the class.
pub proof fn lemma_span(src: Seq<u8>, i: int, c: ByteClass)
    requires
        0 <= i <= src.len(),
    ensures
        i <= span(src, i, c) <= src.len(),
        span(src, i, c) < src.len() ==> !in_class(c, src[span(src, i, c)]),
        forall|j: int| i <= j < span(src, i, c) ==> in_class(c, #[trigger] src[j]),
    decreases src.len() - i,
{
    if i < src.len() && in_class(c, src[i]) {
        lemma_span(src, i + 1, c);
    }
}

/// The position where the next token starts: whitespace and preprocessor lines (from `#` to the
/// end of the line) are skipped.
pub open spec fn skip_trivia(src: Seq<u8>, i: int) -> int
    decreases src.len() - i,
{
    let w = span(src, i, ByteClass::Space);
    if 0 <= i <= src.len() && 0 <= w < src.len() && src[w] == 35u8 {
        proof {
            lemma_span(src, i, ByteClass::Space);
            lemma_span(src, w + 1, ByteClass::NotNewline);
        }
        skip_trivia(src, span(src, w, ByteClass::NotNewline))
    } else {
        w
    }
}

/// Skipping trivia never moves backwards and never passes the end.
pub proof fn lemma_skip_trivia(src: Seq<u8>, i: int)
    requires
        0 <= i <= src.len(),
    ensures
        i <= skip_trivia(src, i) <= src.len(),
    decreases src.len() - i,
{
    lemma_span(src, i, ByteClass::Space);
    let w = span(src, i, ByteClass::Space);
    if w < src.len() && src[w] == 35u8 {
        lemma_span(src, w + 1, ByteClass::NotNewline);
        lemma_skip_trivia(src, span(src, w, ByteClass::NotNewline));
    }
}

/// The kind of a one-byte token.
pub open spec fn punct_kind(b: u8) -> Option<TokenKind> {
    if b == 123u8 {
        Some(TokenKind::OpenCurly)
    } else if b == 125u8 {
        Some(TokenKind::CloseCurly)
    } else if b == 40u8 {
        Some(TokenKind::OpenParen)
    } else if b == 41u8 {
        Some(TokenKind::CloseParen)
    } else if b == 59u8 {
        Some(TokenKind::Semicolon)
    } else if b == 61u8 {
        Some(TokenKind::Eq)
    } else {
        None
    }
}

/// The bytes of the keyword `return`.
pub open spec fn return_bytes() -> Seq<u8> {
    seq![114u8, 101u8, 116u8, 117u8, 114u8, 110u8]
}

/// The bytes of the keyword `int`.
pub open spec fn int_bytes() -> Seq<u8> {
    seq![105u8, 110u8, 116u8]
}

/// The kind of a word of letters: a keyword or an identifier.
pub open spec fn word_kind(word: Seq<u8>) -> TokenKind {
    if word == return_bytes() {
        TokenKind::KwReturn
    } else if word == int_bytes() {
        TokenKind::KwInt
    } else {
        TokenKind::Identifier
    }
}

/// What the lexer finds from position `p` on: a token between two offsets, or an error at an offset.
pub enum Lexeme {
    Tok { kind: TokenKind, start: int, end: int },
    Fail { error: LexerErrorKind, at: int },
}

/// Where the lexer stands after producing the lexeme: after the token, or where the error was met.
pub open spec fn lexeme_next(lx: Lexeme) -> int {
    match lx {
        Lexeme::Tok { end, .. } => end,
        Lexeme::Fail { at, .. } => at,
    }
}

/// The next lexeme of `src` from position `p`.
pub open spec fn lex_at(src: Seq<u8>, p: int) -> Lexeme {
    let st = skip_trivia(src, p);
    if st >= src.len() {
        Lexeme::Fail { error: LexerErrorKind::UnexpectedEof, at: st }
    } else if in_class(ByteClass::Letter, src[st]) {
        let e = span(src, st, ByteClass::Letter);
        Lexeme::Tok { kind: word_kind(src.subrange(st, e)), start: st, end: e }
    } else if punct_kind(src[st]) is Some {
        Lexeme::Tok { kind: punct_kind(src[st])->0, start: st, end: st + 1 }
    } else if src[st] == 34u8 {
        let q = span(src, st + 1, ByteClass::NotQuote);
        Lexeme::Tok { kind: TokenKind::String, start: st, end: if q < src.len() { q + 1 } else { q } }
    } else if is_digit_byte(src[st]) {
        Lexeme::Tok { kind: TokenKind::Number, start: st, end: span(src, st, ByteClass::Digit) }
    } else {
        Lexeme::Fail { error: LexerErrorKind::Unreachable, at: st }
    }
}

/// A token starts at or after the lexer's position, is not empty and ends within the source; an
/// error is reported at or after the lexer's position, within the source.
pub proof fn lemma_lex_bounds(src: Seq<u8>, p: int)
    requires
        0 <= p <= src.len(),
    ensures
        match lex_at(src, p) {
            Lexeme::Tok { start, end, .. } => p <= start < end <= src.len(),
            Lexeme::Fail { at, .. } => p <= at <= src.len(),
        },
{
    lemma_skip_trivia(src, p);
    let st = skip_trivia(src, p);
    if st < src.len() {
        lemma_span(src, st, ByteClass::Letter);
        lemma_span(src, st, ByteClass::Digit);
        lemma_span(src, st + 1, ByteClass::NotQuote);
    }
}

/// In valid UTF-8, the position just after an ASCII byte is a character boundary.
proof fn lemma_boundary_after_ascii(src: Seq<u8>, i: int)
    requires
        valid_utf8(src),
        0 <= i < src.len(),
        src[i] < 128u8,
    ensures
        is_char_boundary(src, i + 1),
{
    is_char_boundary_iff_not_is_continuation_byte(src, i);
    valid_utf8_split(src, i);
    let t = src.subrange(i, src.len() as int);
    assert(valid_first_scalar(t));
    assert(pop_first_scalar(t) =~= src.subrange(i + 1, src.len() as int));
    if i + 1 == src.len() {
        is_char_boundary_start_end_of_seq(src);
    } else {
        let u = src.subrange(i + 1, src.len() as int);
        assert(valid_utf8(u));
        assert(valid_first_scalar(u));
        assert(!is_continuation_byte(src[i + 1]));
        is_char_boundary_iff_not_is_continuation_byte(src, i + 1);
    }
}

/// A stretch of valid UTF-8 that starts with an ASCII byte and ends with one (or at the end of the
/// text) is valid UTF-8 itself.
proof fn lemma_ascii_delimited_valid(src: Seq<u8>, a: int, b: int)
    requires
        valid_utf8(src),
        0 <= a < b <= src.len(),
        src[a] < 128u8,
        b == src.len() || src[b - 1] < 128u8,
    ensures
        valid_utf8(src.subrange(a, b)),
{
    if b == src.len() {
        is_char_boundary_start_end_of_seq(src);
    } else {
        lemma_boundary_after_ascii(src, b - 1);
    }
    valid_utf8_split(src, b);
    let u = src.subrange(0, b);
    assert(u[a] == src[a]);
    is_char_boundary_iff_not_is_continuation_byte(u, a);
    valid_utf8_split(u, a);
    assert(u.subrange(a, u.len() as int) =~= src.subrange(a, b));
}

/// The text of every token of a valid UTF-8 source is valid UTF-8.
pub proof fn lemma_token_valid_utf8(src: Seq<u8>, p: int)
    requires
        valid_utf8(src),
        0 <= p <= src.len(),
    ensures
        lex_at(src, p) matches Lexeme::Tok { start, end, .. } ==> valid_utf8(src.subrange(start, end)),
{
    lemma_lex_bounds(src, p);
    if let Lexeme::Tok { kind, start, end } = lex_at(src, p) {
        lemma_span(src, start, ByteClass::Letter);
        lemma_span(src, start, ByteClass::Digit);
        lemma_span(src, start + 1, ByteClass::NotQuote);
        assert(src[start] < 128u8);
        assert(end == src.len() || src[end - 1] < 128u8);
        lemma_ascii_delimited_valid(src, start, end);
    }
}

/// The ASCII bytes decode one character each.
pub proof fn lemma_decode_ascii(b: Seq<u8>)
    requires
        forall|i: int| 0 <= i < b.len() ==> #[trigger] b[i] < 128u8,
    ensures
        valid_utf8(b),
        decode_utf8(b) == b.map_values(|x: u8| x as char),
    decreases b.len(),
{
    if b.len() > 0 {
        let rest = b.subrange(1, b.len() as int);
        lemma_decode_ascii(rest);
        let b0 = b[0];
        assert(b0 < 128u8);
        assert(b0 & 0x7Fu8 == b0) by (bit_vector)
            requires
                b0 < 128u8,
        ;
        assert(pop_first_scalar(b) =~= rest);
        assert(valid_first_scalar(b));
        assert(decode_utf8(b) =~= b.map_values(|x: u8| x as char));
    }
}

/// A word token is a keyword exactly when its text is the keyword.
pub proof fn lemma_keyword_text(src: Seq<u8>, p: int)
    requires
        0 <= p <= src.len(),
    ensures
        lex_at(src, p) matches Lexeme::Tok { kind, start, end } ==> {
            &&& kind == TokenKind::KwInt ==> src.subrange(start, end) == int_bytes()
            &&& kind == TokenKind::KwReturn ==> src.subrange(start, end) == return_bytes()
            &&& kind == TokenKind::Identifier ==> forall|j: int|
                start <= j < end ==> in_class(ByteClass::Letter, #[trigger] src[j])
        },
{
    lemma_lex_bounds(src, p);
    if let Lexeme::Tok { kind, start, end } = lex_at(src, p) {
        lemma_span(src, start, ByteClass::Letter);
    }
}

/// Where trivia skipping stops, neither whitespace nor a preprocessor line begins.
proof fn lemma_skip_trivia_stops(src: Seq<u8>, i: int)
    requires
        0 <= i <= src.len(),
    ensures
        skip_trivia(src, i) < src.len() ==> !in_class(ByteClass::Space, src[skip_trivia(src, i)])
            && src[skip_trivia(src, i)] != 35u8,
    decreases src.len() - i,
{
    lemma_span(src, i, ByteClass::Space);
    let w = span(src, i, ByteClass::Space);
    if w < src.len() && src[w] == 35u8 {
        lemma_span(src, w + 1, ByteClass::NotNewline);
        lemma_skip_trivia_stops(src, span(src, w, ByteClass::NotNewline));
    }
}

/// Skipping trivia twice is skipping it once.
pub proof fn lemma_skip_trivia_idempotent(src: Seq<u8>, i: int)
    requires
        0 <= i <= src.len(),
    ensures
        skip_trivia(src, skip_trivia(src, i)) == skip_trivia(src, i),
{
    lemma_skip_trivia(src, i);
    lemma_skip_trivia_stops(src, i);
    let s = skip_trivia(src, i);
    lemma_span(src, s, ByteClass::Space);
    assert(span(src, s, ByteClass::Space) == s);
}

/// Every token moves the lexer forward past at least one byte; an error leaves the lexer where the
/// error is, and lexing again from there reports the same error at the same place. So from any
/// position, lexing reaches an error within one call more than there are bytes left.
pub proof fn law_lexing_progress(src: Seq<u8>, p: int)
    requires
        0 <= p <= src.len(),
    ensures
        lex_at(src, p) matches Lexeme::Tok { start, end, .. } ==> p <= start < end == lexeme_next(
            lex_at(src, p),
        ) <= src.len(),
        lex_at(src, p) matches Lexeme::Fail { at, .. } ==> lexeme_next(lex_at(src, p)) == at
            && lex_at(src, at) == lex_at(src, p),
{
    lemma_lex_bounds(src, p);
    lemma_skip_trivia_idempotent(src, p);
}

/// Where the next token starts with an ASCII letter (`A` to `Z` or `a` to `z`), it is a word:
/// an identifier or a keyword spanning the whole run of letters that starts there.
pub proof fn law_letters_make_words(src: Seq<u8>, p: int)
    requires
        0 <= p <= src.len(),
        skip_trivia(src, p) < src.len(),
        (65u8 <= src[skip_trivia(src, p)] <= 90u8) || (97u8 <= src[skip_trivia(src, p)] <= 122u8),
    ensures
        lex_at(src, p) matches Lexeme::Tok { kind, start, end } && {
            &&& start == skip_trivia(src, p) < end <= src.len()
            &&& kind == TokenKind::Identifier || kind == TokenKind::KwInt || kind
                == TokenKind::KwReturn
            &&& forall|i: int|
                start <= i < end ==> (65u8 <= #[trigger] src[i] <= 90u8) || (97u8 <= src[i] <= 122u8)
            &&& end == src.len() || !((65u8 <= src[end] <= 90u8) || (97u8 <= src[end] <= 122u8))
        },
{
    let st = skip_trivia(src, p);
    lemma_skip_trivia(src, p);
    lemma_span(src, st, ByteClass::Letter);
}

/// Where the next token starts with an ASCII digit, it is a number spanning the whole run of
/// digits that starts there.
pub proof fn law_digits_make_numbers(src: Seq<u8>, p: int)
    requires
        0 <= p <= src.len(),
        skip_trivia(src, p) < src.len(),
        48u8 <= src[skip_trivia(src, p)] <= 57u8,
    ensures
        lex_at(src, p) matches Lexeme::Tok { kind, start, end } && {
            &&& kind == TokenKind::Number
            &&& start == skip_trivia(src, p) < end <= src.len()
            &&& forall|i: int| start <= i < end ==> 48u8 <= #[trigger] src[i] <= 57u8
            &&& end == src.len() || !(48u8 <= src[end] <= 57u8)
        },
{
    let st = skip_trivia(src, p);
    lemma_skip_trivia(src, p);
    lemma_span(src, st, ByteClass::Digit);
}

/// The token or error that `next_token` returned agrees with the lexeme `lx` of `src`, the
/// source read from file `path`.
pub open spec fn token_result_matches(
    res: Result<Token, LexerError>,
    path: Seq<char>,
    src: Seq<u8>,
    lx: Lexeme,
) -> bool {
    match lx {
        Lexeme::Tok { kind, start, end } => res matches Ok(t) && t.kind == kind
            && t.loc.describes(path, src, start) && t.value@ == src.subrange(start, end),
        Lexeme::Fail { error, at } => res matches Err(e) && e.kind == error && e.loc.describes(
            path,
            src,
            at,
        ),
    }
}

/// Copies `v[from..to]` into a new vector.
fn copy_range(v: &Vec<u8>, from: usize, to: usize) -> (res: Vec<u8>)
    requires
        from <= to <= v.len(),
    ensures
        res@ == v@.subrange(from as int, to as int),
{
    let mut res: Vec<u8> = Vec::new();
    let mut i = from;
    while i < to
        invariant
            from <= i <= to <= v.len(),
            res@ == v@.subrange(from as int, i as int),
        decreases to - i,
    {
        res.push(v[i]);
        i = i + 1;
    }
    res
}

/// Whether the byte belongs to the class (the executable form of `in_class`).
fn byte_in_class(c: ByteClass, b: u8) -> (res: bool)
    ensures
        res == in_class(c, b),
{
    match c {
        ByteClass::Space => b == 32 || b == 9 || b == 10 || b == 12 || b == 13,
        ByteClass::Letter => (65 <= b && b <= 90) || (97 <= b && b <= 122),
        ByteClass::Digit => 48 <= b && b <= 57,
        ByteClass::NotNewline => b != 10,
        ByteClass::NotQuote => b != 34,
    }
}

/// The kind of a one-byte token (the executable form of `punct_kind`).
fn punct_of(b: u8) -> (res: Option<TokenKind>)
    ensures
        res == punct_kind(b),
{
    match b {
        123 => Some(TokenKind::OpenCurly),
        125 => Some(TokenKind::CloseCurly),
        40 => Some(TokenKind::OpenParen),
        41 => Some(TokenKind::CloseParen),
        59 => Some(TokenKind::Semicolon),
        61 => Some(TokenKind::Eq),
        _ => None,
    }
}

/// Whether `v` holds exactly the bytes `word` (the byte sequences are compared in full).
pub(crate) fn bytes_equal(v: &Vec<u8>, word: &Vec<u8>) -> (res: bool)
    ensures
        res == (v@ == word@),
{
    if v.len() != word.len() {
        return false;
    }
    let mut i: usize = 0;
    while i < v.len()
        invariant
            v@.len() == word@.len(),
            0 <= i <= v@.len(),
            forall|j: int| 0 <= j < i ==> v@[j] == word@[j],
        decreases v@.len() - i,
    {
        if v[i] != word[i] {
            return false;
        }
        i = i + 1;
    }
    assert(v@ =~= word@);
    true
}

impl Clone for Lexer {
    fn clone(&self) -> (res: Self)
        ensures
            res.cursor() == self.cursor(),
            res.text() == self.text(),
            res.path() == self.path(),
            res.wf() == self.wf(),
    {
        Lexer {
            filepath: self.filepath.clone(),
            source: self.source.clone(),
            cur: self.cur,
            bol: self.bol,
            row: self.row,
        }
    }
}

impl Lexer {
    /// The source code being lexed.
    pub fn source(&self) -> (res: &Vec<u8>)
        ensures
            res@ == self.text(),
    {
        &self.source
    }

    /// The lexer's current offset in the source.
    pub closed spec fn cursor(&self) -> int {
        self.cur as int
    }

    /// The source bytes being lexed.
    pub closed spec fn text(&self) -> Seq<u8> {
        self.source@
    }

    /// The path of the file being lexed.
    pub closed spec fn path(&self) -> Seq<char> {
        self.filepath@
    }

    /// The row and the start of the line that the lexer keeps are those of its position.
    pub closed spec fn tracks_lines(&self) -> bool {
        &&& self.row == rows_before(self.source@, self.cur as int)
        &&& self.bol == line_start(self.source@, self.cur as int)
    }

    /// The lexer's position lies within the source, and its row and start of line agree with it.
    pub open spec fn wf(&self) -> bool {
        &&& 0 <= self.cursor() <= self.text().len()
        &&& self.tracks_lines()
    }

    /// Creates a lexer at the start of `source`, the contents of the file at `filepath`.
    pub fn from_source(filepath: String, source: Vec<u8>) -> (res: Lexer)
        ensures
            res.wf(),
            res.cursor() == 0,
            res.path() == filepath@,
            res.text() == source@,
    {
        Lexer { filepath, source, cur: 0, bol: 0, row: 0 }
    }

    /// Returns true when current position is at the end of source
    fn is_empty(&self) -> (res: bool)
        ensures
            res == (self.cursor() >= self.source@.len()),
    {
        self.cur >= self.source.len()
    }

    /// Returns true when current position is before end of source
    fn is_not_empty(&self) -> (res: bool)
        ensures
            res == (self.cursor() < self.source@.len()),
    {
        !self.is_empty()
    }

    /// Returns the current char in source, without advancing
    fn peek(&self) -> (res: u8)
        requires
            self.cursor() < self.source@.len(),
        ensures
            res == self.source@[self.cursor()],
    {
        self.source[self.cur]
    }

    /// Advances lexer into the next position, while updating `bol` and `row`
    fn chop_char(&mut self)
        requires
            old(self).wf(),
        ensures
            final(self).wf(),
            final(self).source@ == old(self).source@,
            final(self).path() == old(self).path(),
            final(self).cursor() == if old(self).cursor() < old(self).source@.len() {
                old(self).cursor() + 1
            } else {
                old(self).cursor()
            },
    {
        if self.cur >= self.source.len() {
            return;
        }
        let x = self.peek();
        proof {
            lemma_position_bounds(self.source@, self.cur as int);
        }
        self.cur += 1;

        if x == 10 {
            self.bol = self.cur;
            self.row += 1;
        }
    }

    /// Advances the lexer while the current byte belongs to class `c`.
    fn skip_class(&mut self, c: ByteClass)
        requires
            old(self).wf(),
        ensures
            final(self).wf(),
            final(self).source@ == old(self).source@,
            final(self).path() == old(self).path(),
            final(self).cursor() == span(old(self).source@, old(self).cursor(), c),
    {
        let ghost start = self.cursor();
        proof {
            lemma_span(self.source@, start, c);
        }
        while self.is_not_empty() && byte_in_class(c, self.peek())
            invariant
                self.wf(),
                self.source@ == old(self).source@,
                self.path() == old(self).path(),
                start <= self.cursor(),
                span(self.source@, start, c) == span(self.source@, self.cursor(), c),
            decreases self.source@.len() - self.cursor(),
        {
            self.chop_char();
        }
    }

    /// Advances lexer until no whitespace is found
    fn trim_left(&mut self)
        requires
            old(self).wf(),
        ensures
            final(self).wf(),
            final(self).source@ == old(self).source@,
            final(self).path() == old(self).path(),
            final(self).cursor() == span(old(self).source@, old(self).cursor(), ByteClass::Space),
    {
        self.skip_class(ByteClass::Space);
    }

    /// Advances lexer until the next line
    fn drop_line(&mut self)
        requires
            old(self).wf(),
        ensures
            final(self).wf(),
            final(self).source@ == old(self).source@,
            final(self).path() == old(self).path(),
            final(self).cursor() == span(
                old(self).source@,
                old(self).cursor(),
                ByteClass::NotNewline,
            ),
    {
        self.skip_class(ByteClass::NotNewline);
    }

    /// Returns the next token
    pub fn next_token(&mut self) -> (res: Result<Token, LexerError>)
        requires
            old(self).wf(),
        ensures
            final(self).wf(),
            final(self).text() == old(self).text(),
            final(self).path() == old(self).path(),
            token_result_matches(
                res,
                old(self).path(),
                old(self).text(),
                lex_at(old(self).text(), old(self).cursor()),
            ),
            final(self).cursor() == lexeme_next(lex_at(old(self).text(), old(self).cursor())),
    {
        let ghost src = self.text();
        let ghost p = self.cursor();
        self.trim_left();
        proof {
            lemma_span(src, p, ByteClass::Space);
            lemma_span(src, self.cursor(), ByteClass::Space);
        }

        // We don't support the preprocessor
        while self.is_not_empty() && self.peek() == 35
            invariant
                self.wf(),
                self.text() == src,
                self.path() == old(self).path(),
                0 <= p <= self.cursor() <= src.len(),
                span(src, self.cursor(), ByteClass::Space) == self.cursor(),
                skip_trivia(src, p) == skip_trivia(src, self.cursor()),
            decreases src.len() - self.cursor(),
        {
            let ghost here = self.cursor();
            proof {
                lemma_span(src, here + 1, ByteClass::NotNewline);
            }
            self.drop_line();
            let ghost mid = self.cursor();
            self.trim_left();
            proof {
                lemma_span(src, mid, ByteClass::Space);
                lemma_span(src, self.cursor(), ByteClass::Space);
                assert(skip_trivia(src, here) == skip_trivia(src, mid));
                assert(skip_trivia(src, mid) == skip_trivia(src, self.cursor()));
            }
        }
        assert(skip_trivia(src, p) == self.cursor());

        if self.is_empty() {
            return Err(LexerError { kind: LexerErrorKind::UnexpectedEof, loc: self.loc() });
        }

        // Save start location of the token
        let start_loc = self.loc();
        let start_cur = self.cur;
        let first = self.peek();

        // Parsing of an identifier
        if byte_in_class(ByteClass::Letter, first) {
            self.skip_class(ByteClass::Letter);
            proof {
                lemma_span(src, start_cur as int, ByteClass::Letter);
            }
            let value = copy_range(&self.source, start_cur, self.cur);
            let kind = self.tokenize_identifier(&value);

            return Ok(Token { kind, loc: start_loc, value });
        }

        // Parsing of literals
        if let Some(kind) = punct_of(first) {
            self.chop_char();
            let value = copy_range(&self.source, start_cur, self.cur);

            return Ok(Token { kind, loc: start_loc, value });
        }

        // Parsing of string
        if first == 34 {
            self.chop_char();
            proof {
                lemma_span(src, start_cur + 1, ByteClass::NotQuote);
            }
            self.skip_class(ByteClass::NotQuote);
            self.chop_char();

            let value = copy_range(&self.source, start_cur, self.cur);

            return Ok(Token { kind: TokenKind::String, loc: start_loc, value });
        }

        // Parsing of number
        if byte_in_class(ByteClass::Digit, first) {
            self.skip_class(ByteClass::Digit);
            proof {
                lemma_span(src, start_cur as int, ByteClass::Digit);
            }
            let value = copy_range(&self.source, start_cur, self.cur);

            return Ok(Token { kind: TokenKind::Number, loc: start_loc, value });
        }

        Err(LexerError { kind: LexerErrorKind::Unreachable, loc: self.loc() })
    }

    /// Tries to parse the Identifier to a Keyword
    fn tokenize_identifier(&self, identifier: &Vec<u8>) -> (res: TokenKind)
        ensures
            res == word_kind(identifier@),
    {
        let kw_return: Vec<u8> = vec![114u8, 101u8, 116u8, 117u8, 114u8, 110u8];
        let kw_int: Vec<u8> = vec![105u8, 110u8, 116u8];
        assert(kw_return@ =~= return_bytes());
        assert(kw_int@ =~= int_bytes());
        if bytes_equal(identifier, &kw_return) {
            TokenKind::KwReturn
        } else if bytes_equal(identifier, &kw_int) {
            TokenKind::KwInt
        } else {
            TokenKind::Identifier
        }
    }

    /// Moves the lexer to offset `idx` of the source, with row and start of line to match.
    pub fn seek(&mut self, idx: usize)
        requires
            old(self).wf(),
            idx <= old(self).text().len(),
        ensures
            final(self).wf(),
            final(self).text() == old(self).text(),
            final(self).path() == old(self).path(),
            final(self).cursor() == idx,
    {
        self.cur = 0;
        self.bol = 0;
        self.row = 0;
        while self.cur < idx
            invariant
                self.wf(),
                self.text() == old(self).text(),
                self.path() == old(self).path(),
                self.cursor() <= idx <= self.text().len(),
            decreases idx - self.cursor(),
        {
            self.chop_char();
        }
    }

    /// Reads the rest of the current line, without its line feed, and moves the lexer to its end.
    pub fn read_line(&mut self) -> (res: Vec<u8>)
        requires
            old(self).wf(),
        ensures
            final(self).wf(),
            final(self).text() == old(self).text(),
            final(self).path() == old(self).path(),
            final(self).cursor() == span(old(self).text(), old(self).cursor(), ByteClass::NotNewline),
            res@ == old(self).text().subrange(old(self).cursor(), final(self).cursor()),
    {
        let start = self.cur;
        self.drop_line();
        proof {
            lemma_span(self.text(), start as int, ByteClass::NotNewline);
        }
        copy_range(&self.source, start, self.cur)
    }

    /// Returns the current location of the lexer
    pub fn loc(&self) -> (res: Location)
        requires
            self.wf(),
        ensures
            res.describes(self.path(), self.text(), self.cursor()),
    {
        proof {
            lemma_position_bounds(self.source@, self.cur as int);
        }
        Location { filepath: self.filepath.clone(), row: self.row, col: self.cur - self.bol, idx: self.cur }
    }
}

} // verus!
