//! The parser: reads a function definition from the token stream.
use vstd::prelude::*;

use crate::lexer::{
    Lexer, LexerError, LexerErrorKind, Lexeme, lex_at, lemma_lex_bounds, lemma_token_valid_utf8,
    lemma_keyword_text, lemma_decode_ascii, bytes_equal, int_bytes, lemma_span, lemma_skip_trivia,
    skip_trivia, ByteClass,
};
use crate::location::Location;
use crate::token::{Token, TokenKind, decimal_i32, string_from_utf8, positional_value, law_decimal_value};
use vstd::utf8::{decode_utf8, valid_utf8};

verus! {

/// The parser, reading tokens from its lexer.
#[derive(Debug)]
pub struct Parser {
    /// Lexer pointing to the source code
    lexer: Lexer,
    /// Whether the parser only checks which functions the program calls: a call of a function
    /// other than `printf` is then reported as an error
    checking_calls: bool,
}

/// A parse error: what went wrong, where, and the token that was found there, if any.
#[derive(Debug)]
pub struct ParserError {
    pub kind: ParserErrorKind,
    pub loc: Location,
    pub token: Option<Token>,
}

/// The ways parsing can fail.
#[derive(Debug)]
pub enum ParserErrorKind {
    /// `expect_token` didn't found one of the expected tokens.
    UnexpectedToken { expected_kinds: Vec<TokenKind> },
    /// Received a token from the lexer we can't parse (yet).
    UnparsableToken,
    /// Received a type we can't parse (yet).
    NotImplementedType(String),
    /// Failed to convert the text into a number.
    FailedToParseNumber,
    /// Lexer raised an error during parsing.
    LexerError(LexerErrorKind),
}

/// The types of the language.
#[derive(Debug)]
pub enum Type {
    Int,
}

/// The statements of a function body.
#[derive(Debug)]
pub enum Statement {
    Funcall { name: String, args: Vec<String> },
    Declare { name: String },
    Initialize { name: String, value: Expr },
    Assign { name: String, value: Expr },
    Return { return_value: Expr },
}

/// The expressions of the language: an integer literal or a variable.
#[derive(Debug)]
pub enum Expr {
    LitInt(i32),
    Identifier(String),
}

/// A function definition.
#[derive(Debug)]
pub struct Function {
    /// Name of the function
    pub name: String,
    /// Return type of the function
    pub return_type: Type,
    /// Implementation of the function
    pub body: Vec<Statement>,
}

/// The value of an expression, with names as character sequences.
pub enum ExprModel {
    LitInt(i32),
    Identifier(Seq<char>),
}

/// The value of a statement, with names as character sequences.
pub enum StatementModel {
    Funcall { name: Seq<char>, args: Seq<Seq<char>> },
    Declare { name: Seq<char> },
    Initialize { name: Seq<char>, value: ExprModel },
    Assign { name: Seq<char>, value: ExprModel },
    Return { return_value: ExprModel },
}

/// The value of a function definition.
pub struct FunctionModel {
    pub name: Seq<char>,
    pub return_type: Type,
    pub body: Seq<StatementModel>,
}

impl View for Type {
    type V = Type;

    open spec fn view(&self) -> Type {
        *self
    }
}

/// The characters of each string in a vector.
pub open spec fn strings_view(v: Seq<String>) -> Seq<Seq<char>> {
    v.map_values(|s: String| s@)
}

impl View for Expr {
    type V = ExprModel;

    open spec fn view(&self) -> ExprModel {
        match self {
            Expr::LitInt(n) => ExprModel::LitInt(*n),
            Expr::Identifier(s) => ExprModel::Identifier(s@),
        }
    }
}

impl View for Statement {
    type V = StatementModel;

    open spec fn view(&self) -> StatementModel {
        match self {
            Statement::Funcall { name, args } => StatementModel::Funcall {
                name: name@,
                args: strings_view(args@),
            },
            Statement::Declare { name } => StatementModel::Declare { name: name@ },
            Statement::Initialize { name, value } => StatementModel::Initialize {
                name: name@,
                value: value@,
            },
            Statement::Assign { name, value } => StatementModel::Assign { name: name@, value: value@ },
            Statement::Return { return_value } => StatementModel::Return {
                return_value: return_value@,
            },
        }
    }
}

/// The values of a sequence of statements.
pub open spec fn statements_view(v: Seq<Statement>) -> Seq<StatementModel> {
    v.map_values(|s: Statement| s@)
}

impl View for Function {
    type V = FunctionModel;

    open spec fn view(&self) -> FunctionModel {
        FunctionModel {
            name: self.name@,
            return_type: Type::Int,
            body: statements_view(self.body@),
        }
    }
}

/// The value of a parse error kind, with texts as character sequences.
pub enum ErrorKindModel {
    UnexpectedToken { expected: Seq<TokenKind> },
    UnparsableToken,
    NotImplementedType(Seq<char>),
    FailedToParseNumber,
    LexerError(LexerErrorKind),
}

impl View for ParserErrorKind {
    type V = ErrorKindModel;

    open spec fn view(&self) -> ErrorKindModel {
        match self {
            ParserErrorKind::UnexpectedToken { expected_kinds } => ErrorKindModel::UnexpectedToken {
                expected: expected_kinds@,
            },
            ParserErrorKind::UnparsableToken => ErrorKindModel::UnparsableToken,
            ParserErrorKind::NotImplementedType(s) => ErrorKindModel::NotImplementedType(s@),
            ParserErrorKind::FailedToParseNumber => ErrorKindModel::FailedToParseNumber,
            ParserErrorKind::LexerError(k) => ErrorKindModel::LexerError(*k),
        }
    }
}

/// A token of the source: its kind and the offsets of its first byte and of the byte after it.
pub struct TokenSpan {
    pub kind: TokenKind,
    pub start: int,
    pub end: int,
}

/// A parse failure: its kind, the offset where it is reported, and the token found there, if any.
pub struct Failure {
    pub kind: ErrorKindModel,
    pub at: int,
    pub token: Option<TokenSpan>,
}

/// The outcome of a parsing step, and the position of the lexer after it.
pub type Step<V> = (Result<V, Failure>, int);

/// The token `t` of `src` (a file read from `path`) is the token `ts`.
pub open spec fn token_matches(t: Token, path: Seq<char>, src: Seq<u8>, ts: TokenSpan) -> bool {
    &&& t.kind == ts.kind
    &&& t.loc.describes(path, src, ts.start)
    &&& t.value@ == src.subrange(ts.start, ts.end)
}

/// The error `e` is the failure `f` in `src` (a file read from `path`).
pub open spec fn error_matches(e: ParserError, path: Seq<char>, src: Seq<u8>, f: Failure) -> bool {
    &&& e.kind@ == f.kind
    &&& e.loc.describes(path, src, f.at)
    &&& match (e.token, f.token) {
        (None, None) => true,
        (Some(t), Some(ts)) => token_matches(t, path, src, ts),
        _ => false,
    }
}

/// The token-or-error `res` is the outcome `o`.
pub open spec fn token_outcome(
    res: Result<Token, ParserError>,
    path: Seq<char>,
    src: Seq<u8>,
    o: Result<TokenSpan, Failure>,
) -> bool {
    match (res, o) {
        (Ok(t), Ok(ts)) => token_matches(t, path, src, ts),
        (Err(e), Err(f)) => error_matches(e, path, src, f),
        _ => false,
    }
}

/// The value-or-error `res` is the outcome `o`, values compared by their views.
pub open spec fn outcome<T: View>(
    res: Result<T, ParserError>,
    path: Seq<char>,
    src: Seq<u8>,
    o: Result<T::V, Failure>,
) -> bool {
    match (res, o) {
        (Ok(v), Ok(w)) => v@ == w,
        (Err(e), Err(f)) => error_matches(e, path, src, f),
        _ => false,
    }
}

/// The strings-or-error `res` is the outcome `o`, strings compared by their characters.
pub open spec fn strings_outcome(
    res: Result<Vec<String>, ParserError>,
    path: Seq<char>,
    src: Seq<u8>,
    o: Result<Seq<Seq<char>>, Failure>,
) -> bool {
    match (res, o) {
        (Ok(v), Ok(w)) => strings_view(v@) == w,
        (Err(e), Err(f)) => error_matches(e, path, src, f),
        _ => false,
    }
}

/// The statements-or-error `res` is the outcome `o`, statements compared by their views.
pub open spec fn statements_outcome(
    res: Result<Vec<Statement>, ParserError>,
    path: Seq<char>,
    src: Seq<u8>,
    o: Result<Seq<StatementModel>, Failure>,
) -> bool {
    match (res, o) {
        (Ok(v), Ok(w)) => statements_view(v@) == w,
        (Err(e), Err(f)) => error_matches(e, path, src, f),
        _ => false,
    }
}

/// The text of a token, decoded from UTF-8.
pub open spec fn token_text(src: Seq<u8>, t: TokenSpan) -> Seq<char> {
    decode_utf8(src.subrange(t.start, t.end))
}

/// The bytes of the name `printf`.
pub open spec fn printf_bytes() -> Seq<u8> {
    seq![112u8, 114u8, 105u8, 110u8, 116u8, 102u8]
}

/// The failure for token `t` of kind `k`, reported where the token starts.
pub open spec fn failure_at(k: ErrorKindModel, t: TokenSpan) -> Failure {
    Failure { kind: k, at: t.start, token: Some(t) }
}

/// Reading the next token at position `p`: the lexer's error becomes a parse error.
pub open spec fn next_step(src: Seq<u8>, p: int) -> Step<TokenSpan> {
    match lex_at(src, p) {
        Lexeme::Tok { kind, start, end } => (Ok(TokenSpan { kind, start, end }), end),
        Lexeme::Fail { error, at } => (
            Err(Failure { kind: ErrorKindModel::LexerError(error), at, token: None }),
            at,
        ),
    }
}

/// Reading the next token, which must have one of the kinds `kinds`.
pub open spec fn expect_step(src: Seq<u8>, p: int, kinds: Seq<TokenKind>) -> Step<TokenSpan> {
    let (r, q) = next_step(src, p);
    match r {
        Ok(t) => if kinds.contains(t.kind) {
            (Ok(t), q)
        } else {
            (Err(failure_at(ErrorKindModel::UnexpectedToken { expected: kinds }, t)), q)
        },
        Err(f) => (Err(f), q),
    }
}

/// A successful step never moves the lexer backwards, nor past the end of the source.
pub proof fn lemma_step_bounds(src: Seq<u8>, p: int, kinds: Seq<TokenKind>)
    requires
        0 <= p <= src.len(),
    ensures
        p <= next_step(src, p).1 <= src.len(),
        next_step(src, p).0 matches Ok(t) ==> p <= t.start < t.end == next_step(src, p).1,
        p <= expect_step(src, p, kinds).1 <= src.len(),
        expect_step(src, p, kinds).0 matches Ok(t) ==> p <= t.start < t.end == expect_step(
            src,
            p,
            kinds,
        ).1,
        expect_step(src, p, kinds).0 matches Ok(t) ==> kinds.contains(t.kind)
            && next_step(src, p).0 == Ok::<TokenSpan, Failure>(t),
{
    lemma_lex_bounds(src, p);
}

/// The type of a function: only `int`.
pub open spec fn type_step(src: Seq<u8>, p: int) -> Step<Type> {
    let (r, q) = expect_step(src, p, seq![TokenKind::KwInt]);
    match r {
        Ok(_) => (Ok(Type::Int), q),
        Err(f) => (Err(f), q),
    }
}

/// The name of a function: an identifier.
pub open spec fn function_name_step(src: Seq<u8>, p: int) -> Step<Seq<char>> {
    let (r, q) = expect_step(src, p, seq![TokenKind::Identifier]);
    match r {
        Ok(t) => (Ok(token_text(src, t)), q),
        Err(f) => (Err(f), q),
    }
}

/// The arguments of a call up to its closing parenthesis: string and number literals, as written.
pub open spec fn args_step(src: Seq<u8>, p: int) -> Step<Seq<Seq<char>>>
    decreases src.len() - p,
    when 0 <= p <= src.len()
{
    let kinds = seq![TokenKind::String, TokenKind::Number, TokenKind::CloseParen];
    proof {
        lemma_step_bounds(src, p, kinds);
    }
    let (r, q) = expect_step(src, p, kinds);
    match r {
        Ok(t) => if t.kind == TokenKind::CloseParen {
            (Ok(seq![]), q)
        } else {
            let (r2, q2) = args_step(src, q);
            match r2 {
                Ok(rest) => (Ok(seq![token_text(src, t)] + rest), q2),
                Err(f) => (Err(f), q2),
            }
        },
        Err(f) => (Err(f), q),
    }
}

/// The value of a number token as an `i32`; a failure when it does not fit.
pub open spec fn number_value(src: Seq<u8>, t: TokenSpan) -> Result<i32, Failure> {
    match decimal_i32(src.subrange(t.start, t.end)) {
        Some(v) => Ok(v),
        None => Err(failure_at(ErrorKindModel::FailedToParseNumber, t)),
    }
}

/// The right-hand side of `name = ...;`: a number literal or a variable, then a semicolon.
pub open spec fn assignment_step(src: Seq<u8>, name: Seq<char>, p: int) -> Step<StatementModel> {
    let (r, q) = expect_step(src, p, seq![TokenKind::Number, TokenKind::Identifier]);
    match r {
        Ok(t) => {
            let (r2, q2) = expect_step(src, q, seq![TokenKind::Semicolon]);
            match r2 {
                Ok(_) => if t.kind == TokenKind::Number {
                    match number_value(src, t) {
                        Ok(v) => (
                            Ok(StatementModel::Initialize { name, value: ExprModel::LitInt(v) }),
                            q2,
                        ),
                        Err(f) => (Err(f), q2),
                    }
                } else {
                    (
                        Ok(
                            StatementModel::Assign {
                                name,
                                value: ExprModel::Identifier(token_text(src, t)),
                            },
                        ),
                        q2,
                    )
                },
                Err(f) => (Err(f), q2),
            }
        },
        Err(f) => (Err(f), q),
    }
}

/// A statement that begins with token `t`, the rest read from position `p`.
pub open spec fn statement_step(src: Seq<u8>, t: TokenSpan, p: int) -> Step<StatementModel> {
    if t.kind == TokenKind::KwReturn {
        let (r, q) = expect_step(src, p, seq![TokenKind::Number]);
        match r {
            Ok(num) => match number_value(src, num) {
                Ok(v) => {
                    let (r2, q2) = expect_step(src, q, seq![TokenKind::Semicolon]);
                    match r2 {
                        Ok(_) => (
                            Ok(StatementModel::Return { return_value: ExprModel::LitInt(v) }),
                            q2,
                        ),
                        Err(f) => (Err(f), q2),
                    }
                },
                Err(f) => (Err(f), q),
            },
            Err(f) => (Err(f), q),
        }
    } else if t.kind == TokenKind::KwInt {
        let (r, q) = expect_step(src, p, seq![TokenKind::Identifier]);
        match r {
            Ok(var) => {
                let (r2, q2) = expect_step(src, q, seq![TokenKind::Eq, TokenKind::Semicolon]);
                match r2 {
                    Ok(t2) => if t2.kind == TokenKind::Eq {
                        assignment_step(src, token_text(src, var), q2)
                    } else {
                        (Ok(StatementModel::Declare { name: token_text(src, var) }), q2)
                    },
                    Err(f) => (Err(f), q2),
                }
            },
            Err(f) => (Err(f), q),
        }
    } else if t.kind == TokenKind::Identifier {
        let name = token_text(src, t);
        let (r, q) = expect_step(src, p, seq![TokenKind::Eq, TokenKind::OpenParen]);
        match r {
            Ok(t2) => if t2.kind == TokenKind::Eq {
                assignment_step(src, name, q)
            } else if src.subrange(t.start, t.end) == printf_bytes() {
                let (ra, qa) = args_step(src, q);
                match ra {
                    Ok(args) => {
                        let (rs, qs) = expect_step(src, qa, seq![TokenKind::Semicolon]);
                        match rs {
                            Ok(_) => (Ok(StatementModel::Funcall { name, args }), qs),
                            Err(f) => (Err(f), qs),
                        }
                    },
                    Err(f) => (Err(f), qa),
                }
            } else {
                (Err(failure_at(ErrorKindModel::UnparsableToken, t)), q)
            },
            Err(f) => (Err(f), q),
        }
    } else {
        (Err(failure_at(ErrorKindModel::UnparsableToken, t)), p)
    }
}

/// Parsing arguments never moves the lexer backwards, nor past the end of the source.
pub proof fn lemma_args_bounds(src: Seq<u8>, p: int)
    requires
        0 <= p <= src.len(),
    ensures
        p <= args_step(src, p).1 <= src.len(),
    decreases src.len() - p,
{
    let kinds = seq![TokenKind::String, TokenKind::Number, TokenKind::CloseParen];
    lemma_step_bounds(src, p, kinds);
    let (r, q) = expect_step(src, p, kinds);
    if let Ok(t) = r {
        if t.kind != TokenKind::CloseParen {
            lemma_args_bounds(src, q);
        }
    }
}

/// Parsing a statement never moves the lexer backwards, nor past the end of the source.
pub proof fn lemma_statement_bounds(src: Seq<u8>, t: TokenSpan, p: int)
    requires
        0 <= p <= src.len(),
    ensures
        p <= statement_step(src, t, p).1 <= src.len(),
{
    let k1 = seq![TokenKind::Number];
    let k2 = seq![TokenKind::Semicolon];
    let k3 = seq![TokenKind::Identifier];
    let k4 = seq![TokenKind::Eq, TokenKind::Semicolon];
    let k5 = seq![TokenKind::Eq, TokenKind::OpenParen];
    let k6 = seq![TokenKind::Number, TokenKind::Identifier];
    lemma_step_bounds(src, p, k1);
    lemma_step_bounds(src, p, k3);
    lemma_step_bounds(src, p, k5);
    let q1 = expect_step(src, p, k1).1;
    lemma_step_bounds(src, q1, k2);
    let q3 = expect_step(src, p, k3).1;
    lemma_step_bounds(src, q3, k4);
    let q4 = expect_step(src, q3, k4).1;
    lemma_step_bounds(src, q4, k6);
    lemma_step_bounds(src, expect_step(src, q4, k6).1, k2);
    let q5 = expect_step(src, p, k5).1;
    lemma_step_bounds(src, q5, k6);
    lemma_step_bounds(src, expect_step(src, q5, k6).1, k2);
    lemma_args_bounds(src, q5);
    lemma_step_bounds(src, args_step(src, q5).1, k2);
}

/// The statements of a block up to its closing brace.
pub open spec fn statements_step(src: Seq<u8>, p: int) -> Step<Seq<StatementModel>>
    decreases src.len() - p,
    when 0 <= p <= src.len()
{
    proof {
        lemma_step_bounds(src, p, seq![]);
    }
    let (r, q) = next_step(src, p);
    match r {
        Ok(t) => if t.kind == TokenKind::CloseCurly {
            (Ok(seq![]), q)
        } else {
            proof {
                lemma_statement_bounds(src, t, q);
            }
            let (r2, q2) = statement_step(src, t, q);
            match r2 {
                Ok(st) => {
                    let (r3, q3) = statements_step(src, q2);
                    match r3 {
                        Ok(rest) => (Ok(seq![st] + rest), q3),
                        Err(f) => (Err(f), q3),
                    }
                },
                Err(f) => (Err(f), q2),
            }
        },
        Err(f) => (Err(f), q),
    }
}

/// A block: an opening brace, statements, a closing brace.
pub open spec fn block_step(src: Seq<u8>, p: int) -> Step<Seq<StatementModel>> {
    let (r, q) = expect_step(src, p, seq![TokenKind::OpenCurly]);
    match r {
        Ok(_) => statements_step(src, q),
        Err(f) => (Err(f), q),
    }
}

/// A function definition: `int name() { statements }`.
pub open spec fn function_step(src: Seq<u8>, p: int) -> Step<FunctionModel> {
    let (r1, q1) = type_step(src, p);
    match r1 {
        Err(f) => (Err(f), q1),
        Ok(return_type) => {
            let (r2, q2) = function_name_step(src, q1);
            match r2 {
                Err(f) => (Err(f), q2),
                Ok(name) => {
                    let (r3, q3) = expect_step(src, q2, seq![TokenKind::OpenParen]);
                    match r3 {
                        Err(f) => (Err(f), q3),
                        Ok(_) => {
                            let (r4, q4) = expect_step(src, q3, seq![TokenKind::CloseParen]);
                            match r4 {
                                Err(f) => (Err(f), q4),
                                Ok(_) => {
                                    let (r5, q5) = block_step(src, q4);
                                    match r5 {
                                        Err(f) => (Err(f), q5),
                                        Ok(body) => (Ok(FunctionModel { name, return_type, body }), q5),
                                    }
                                },
                            }
                        },
                    }
                },
            }
        },
    }
}

/// The shapes of statement the parser produces: calls of `printf`, returns of literals,
/// declarations, initializations with literals and assignments of variables.
pub open spec fn parsed_shape(st: StatementModel) -> bool {
    match st {
        StatementModel::Funcall { name, .. } => name == "printf"@,
        StatementModel::Return { return_value } => return_value is LitInt,
        StatementModel::Declare { .. } => true,
        StatementModel::Initialize { value, .. } => value is LitInt,
        StatementModel::Assign { value, .. } => value is Identifier,
    }
}

/// Every statement the parser reads has one of the shapes of `parsed_shape`.
pub proof fn lemma_statement_shape(src: Seq<u8>, t: TokenSpan, p: int)
    ensures
        statement_step(src, t, p).0 matches Ok(st) ==> parsed_shape(st),
{
    if t.kind == TokenKind::Identifier && src.subrange(t.start, t.end) == printf_bytes() {
        let b = printf_bytes();
        assert forall|i: int| 0 <= i < b.len() implies #[trigger] b[i] < 128u8 by {}
        lemma_decode_ascii(b);
        reveal_strlit("printf");
        assert(decode_utf8(b) =~= "printf"@);
    }
}

/// Every statement of a block the parser reads has one of the shapes of `parsed_shape`.
pub proof fn lemma_statements_shape(src: Seq<u8>, p: int)
    requires
        0 <= p <= src.len(),
    ensures
        statements_step(src, p).0 matches Ok(sts) ==> forall|i: int|
            0 <= i < sts.len() ==> parsed_shape(#[trigger] sts[i]),
    decreases src.len() - p,
{
    lemma_step_bounds(src, p, seq![]);
    let (r, q) = next_step(src, p);
    if let Ok(t) = r {
        if t.kind != TokenKind::CloseCurly {
            lemma_statement_bounds(src, t, q);
            lemma_statement_shape(src, t, q);
            let (r2, q2) = statement_step(src, t, q);
            if let Ok(st) = r2 {
                lemma_statements_shape(src, q2);
                if let Ok(rest) = statements_step(src, q2).0 {
                    let sts = seq![st] + rest;
                    assert forall|i: int| 0 <= i < sts.len() implies parsed_shape(#[trigger] sts[i]) by {
                        if i > 0 {
                            assert(sts[i] == rest[i - 1]);
                        }
                    }
                }
            }
        }
    }
}

/// Every statement of a function the parser reads has one of the shapes of `parsed_shape`.
pub proof fn lemma_function_shape(src: Seq<u8>, p: int)
    requires
        0 <= p <= src.len(),
    ensures
        function_step(src, p).0 matches Ok(f) ==> forall|i: int|
            0 <= i < f.body.len() ==> parsed_shape(#[trigger] f.body[i]),
{
    let q1 = type_step(src, p).1;
    lemma_step_bounds(src, p, seq![TokenKind::KwInt]);
    lemma_step_bounds(src, q1, seq![TokenKind::Identifier]);
    let q2 = function_name_step(src, q1).1;
    lemma_step_bounds(src, q2, seq![TokenKind::OpenParen]);
    let q3 = expect_step(src, q2, seq![TokenKind::OpenParen]).1;
    lemma_step_bounds(src, q3, seq![TokenKind::CloseParen]);
    let q4 = expect_step(src, q3, seq![TokenKind::CloseParen]).1;
    lemma_step_bounds(src, q4, seq![TokenKind::OpenCurly]);
    lemma_statements_shape(src, expect_step(src, q4, seq![TokenKind::OpenCurly]).1);
}

/// Whether reading the function from position `p` would stop at a call of a function other than
/// `printf`: the only statements that fail on an identifier token.
pub open spec fn calls_unknown_function(src: Seq<u8>, p: int) -> bool {
    stops_at_unknown_call(function_step(src, p))
}

/// Whether a parsing step stops at a call of a function other than `printf`: the only failure
/// reported on an identifier token as unparsable.
pub open spec fn stops_at_unknown_call<V>(s: Step<V>) -> bool {
    s.0 matches Err(f) && (f.kind == ErrorKindModel::UnparsableToken && (f.token matches Some(t)
        && t.kind == TokenKind::Identifier))
}

/// A number token is a non-empty run of ASCII digits.
proof fn lemma_number_digits(src: Seq<u8>, p: int, kinds: Seq<TokenKind>)
    requires
        0 <= p <= src.len(),
    ensures
        ({
            let r = expect_step(src, p, kinds).0;
            r is Ok && r->Ok_0.kind == TokenKind::Number ==> {
                let w = src.subrange(r->Ok_0.start, r->Ok_0.end);
                &&& w.len() > 0
                &&& forall|i: int| 0 <= i < w.len() ==> 48u8 <= #[trigger] w[i] <= 57u8
            }
        }),
{
    lemma_step_bounds(src, p, kinds);
    lemma_skip_trivia(src, p);
    let st = skip_trivia(src, p);
    if st < src.len() {
        lemma_span(src, st, ByteClass::Letter);
        lemma_span(src, st, ByteClass::Digit);
    }
    if let Ok(t) = expect_step(src, p, kinds).0 {
        if t.kind == TokenKind::Number {
            let w = src.subrange(t.start, t.end);
            assert forall|i: int| 0 <= i < w.len() implies 48u8 <= #[trigger] w[i] <= 57u8 by {
                assert(w[i] == src[t.start + i]);
            }
        }
    }
}

/// `NAME = N;` with a number `N` initializes `NAME` with the value that `N`'s digits write, most
/// significant first, when it fits in an `i32`; otherwise it fails at `N`, which is too large.
pub proof fn law_initialization_value(src: Seq<u8>, name: Seq<char>, p: int)
    requires
        0 <= p <= src.len(),
    ensures
        ({
            let (r, q) = expect_step(src, p, seq![TokenKind::Number, TokenKind::Identifier]);
            r is Ok && r->Ok_0.kind == TokenKind::Number && expect_step(
                src,
                q,
                seq![TokenKind::Semicolon],
            ).0 is Ok ==> {
            let w = src.subrange(r->Ok_0.start, r->Ok_0.end);
            &&& w.len() > 0
            &&& forall|i: int| 0 <= i < w.len() ==> 48u8 <= #[trigger] w[i] <= 57u8
            &&& positional_value(w) <= i32::MAX ==> assignment_step(src, name, p).0 == Ok::<
                StatementModel,
                Failure,
            >(StatementModel::Initialize { name, value: ExprModel::LitInt(positional_value(w) as i32) })
            &&& positional_value(w) > i32::MAX ==> (assignment_step(src, name, p).0 is Err
                && assignment_step(src, name, p).0->Err_0.kind == ErrorKindModel::FailedToParseNumber)
        }
        }),
{
    let kinds = seq![TokenKind::Number, TokenKind::Identifier];
    lemma_number_digits(src, p, kinds);
    if let Ok(t) = expect_step(src, p, kinds).0 {
        law_decimal_value(src.subrange(t.start, t.end));
    }
}

/// `return N;` with a number `N` returns the value that `N`'s digits write, most significant first,
/// when it fits in an `i32`; otherwise it fails at `N`, which is too large.
pub proof fn law_return_value(src: Seq<u8>, t0: TokenSpan, p: int)
    requires
        0 <= p <= src.len(),
        t0.kind == TokenKind::KwReturn,
    ensures
        ({
            let r = expect_step(src, p, seq![TokenKind::Number]).0;
            r is Ok ==> {
            let w = src.subrange(r->Ok_0.start, r->Ok_0.end);
            &&& w.len() > 0
            &&& forall|i: int| 0 <= i < w.len() ==> 48u8 <= #[trigger] w[i] <= 57u8
            &&& positional_value(w) <= i32::MAX && expect_step(
                src,
                expect_step(src, p, seq![TokenKind::Number]).1,
                seq![TokenKind::Semicolon],
            ).0 is Ok ==> statement_step(src, t0, p).0 == Ok::<StatementModel, Failure>(
                StatementModel::Return { return_value: ExprModel::LitInt(positional_value(w) as i32) },
            )
            &&& positional_value(w) > i32::MAX ==> (statement_step(src, t0, p).0 is Err
                && statement_step(src, t0, p).0->Err_0.kind == ErrorKindModel::FailedToParseNumber)
        }
        }),
{
    let kinds = seq![TokenKind::Number];
    lemma_number_digits(src, p, kinds);
    lemma_step_bounds(src, p, kinds);
    if let Ok(t) = expect_step(src, p, kinds).0 {
        law_decimal_value(src.subrange(t.start, t.end));
    }
}

/// Puts `prefix` in front of the sequence that a step yields.
pub open spec fn prepend<T>(prefix: Seq<T>, s: Step<Seq<T>>) -> Step<Seq<T>> {
    match s.0 {
        Ok(rest) => (Ok(prefix + rest), s.1),
        Err(f) => (Err(f), s.1),
    }
}

impl ParserError {
    /// An error about `token`, reported where the token starts.
    pub fn with_token(kind: ParserErrorKind, token: Token) -> (res: Self)
        ensures
            res.kind == kind,
            res.loc == token.loc,
            res.token == Some(token),
    {
        let loc = token.loc.clone();
        ParserError { kind, loc, token: Some(token) }
    }

    /// An error reported at `loc`, with no token.
    pub fn with_location(kind: ParserErrorKind, loc: Location) -> (res: Self)
        ensures
            res.kind == kind,
            res.loc == loc,
            res.token is None,
    {
        ParserError { kind, loc, token: None }
    }
}

impl From<LexerError> for ParserError {
    fn from(v: LexerError) -> Self {
        Self::with_location(ParserErrorKind::LexerError(v.kind), v.loc)
    }
}

impl vstd::std_specs::convert::FromSpecImpl<LexerError> for ParserError {
    open spec fn obeys_from_spec() -> bool {
        true
    }

    open spec fn from_spec(v: LexerError) -> Self {
        ParserError { kind: ParserErrorKind::LexerError(v.kind), loc: v.loc, token: None }
    }
}

/// Whether `k` is one of `kinds`.
fn kind_in(kinds: &[TokenKind], k: TokenKind) -> (res: bool)
    ensures
        res == kinds@.contains(k),
{
    let mut i: usize = 0;
    while i < kinds.len()
        invariant
            0 <= i <= kinds@.len(),
            forall|j: int| 0 <= j < i ==> kinds@[j] != k,
        decreases kinds@.len() - i,
    {
        if kinds[i] == k {
            return true;
        }
        i = i + 1;
    }
    false
}

impl Parser {
    /// The lexer that the parser reads from.
    pub closed spec fn lex(&self) -> Lexer {
        self.lexer
    }

    /// Whether the parser only checks which functions the program calls.
    pub closed spec fn checks_calls(&self) -> bool {
        self.checking_calls
    }

    /// The parser reads the same file as `before`, and its lexer is well formed.
    pub open spec fn continues(&self, before: Parser) -> bool {
        &&& self.lex().wf()
        &&& self.checks_calls() == before.checks_calls()
        &&& self.lex().text() == before.lex().text()
        &&& self.lex().path() == before.lex().path()
    }

    /// A parser reading from `lexer`.
    pub fn new(lexer: Lexer) -> (res: Self)
        ensures
            res.lex() == lexer,
            !res.checks_calls(),
    {
        Parser { lexer, checking_calls: false }
    }

    /// The parser's lexer, for reading the source again (to show where an error happened).
    pub fn lexer(&mut self) -> (res: &mut Lexer)
        ensures
            *res == old(self).lex(),
            final(self).lex() == *final(res),
            final(self).checks_calls() == old(self).checks_calls(),
    {
        &mut self.lexer
    }

    /// Whether the program calls no function but `printf`, so that `parse_program` can read it.
    pub fn calls_only_printf(&self) -> (res: bool)
        requires
            self.lex().wf(),
            valid_utf8(self.lex().text()),
        ensures
            res == !calls_unknown_function(self.lex().text(), self.lex().cursor()),
    {
        let mut probe = Parser { lexer: self.lexer.clone(), checking_calls: true };
        match probe.parse_function() {
            Ok(_) => true,
            Err(e) => match (&e.kind, &e.token) {
                (ParserErrorKind::UnparsableToken, Some(t)) => t.kind != TokenKind::Identifier,
                _ => true,
            },
        }
    }

    /// Parses a whole program: one function definition. Calls of functions other than `printf`
    /// are not supported.
    pub fn parse_program(&mut self) -> (res: Result<Function, ParserError>)
        requires
            old(self).lex().wf(),
            valid_utf8(old(self).lex().text()),
            !calls_unknown_function(old(self).lex().text(), old(self).lex().cursor()),
        ensures
            final(self).continues(*old(self)),
            outcome(
                res,
                old(self).lex().path(),
                old(self).lex().text(),
                function_step(old(self).lex().text(), old(self).lex().cursor()).0,
            ),
            final(self).lex().cursor() == function_step(
                old(self).lex().text(),
                old(self).lex().cursor(),
            ).1,
    {
        self.parse_function()
    }

    /// `int name() { ... }`
    fn parse_function(&mut self) -> (res: Result<Function, ParserError>)
        requires
            old(self).lex().wf(),
            valid_utf8(old(self).lex().text()),
            old(self).checks_calls() || !calls_unknown_function(
                old(self).lex().text(),
                old(self).lex().cursor(),
            ),
        ensures
            final(self).continues(*old(self)),
            outcome(
                res,
                old(self).lex().path(),
                old(self).lex().text(),
                function_step(old(self).lex().text(), old(self).lex().cursor()).0,
            ),
            final(self).lex().cursor() == function_step(
                old(self).lex().text(),
                old(self).lex().cursor(),
            ).1,
    {
        let return_type = match self.parse_type() {
            Ok(t) => t,
            Err(e) => return Err(e),
        };
        let name = match self.parse_function_name() {
            Ok(n) => n,
            Err(e) => return Err(e),
        };

        // Functions take no parameters: the list is empty
        match self.expect_token(TokenKind::OpenParen) {
            Ok(_) => {},
            Err(e) => return Err(e),
        }
        match self.expect_token(TokenKind::CloseParen) {
            Ok(_) => {},
            Err(e) => return Err(e),
        }

        let body = match self.parse_block() {
            Ok(b) => b,
            Err(e) => return Err(e),
        };

        Ok(Function { name, return_type, body })
    }

    /// The return type: `int`.
    fn parse_type(&mut self) -> (res: Result<Type, ParserError>)
        requires
            old(self).lex().wf(),
        ensures
            final(self).continues(*old(self)),
            outcome(
                res,
                old(self).lex().path(),
                old(self).lex().text(),
                type_step(old(self).lex().text(), old(self).lex().cursor()).0,
            ),
            final(self).lex().cursor() == type_step(old(self).lex().text(), old(self).lex().cursor()).1,
    {
        let ghost src = self.lex().text();
        let ghost p = self.lex().cursor();
        proof {
            lemma_keyword_text(src, p);
        }
        let token = match self.expect_token(TokenKind::KwInt) {
            Ok(t) => t,
            Err(e) => return Err(e),
        };

        let int_word: Vec<u8> = vec![105u8, 110u8, 116u8];
        assert(int_word@ =~= int_bytes());
        if !bytes_equal(&token.value, &int_word) {
            let mut message = String::new();
            message.append("Type '");
            if let Some(text) = string_from_utf8(token.value.clone()) {
                message.append(text.as_str());
            }
            message.append("' not supported");
            return Err(ParserError::with_token(ParserErrorKind::NotImplementedType(message), token));
        }

        Ok(Type::Int)
    }

    /// The name of the function.
    fn parse_function_name(&mut self) -> (res: Result<String, ParserError>)
        requires
            old(self).lex().wf(),
            valid_utf8(old(self).lex().text()),
        ensures
            final(self).continues(*old(self)),
            outcome(
                res,
                old(self).lex().path(),
                old(self).lex().text(),
                function_name_step(old(self).lex().text(), old(self).lex().cursor()).0,
            ),
            final(self).lex().cursor() == function_name_step(
                old(self).lex().text(),
                old(self).lex().cursor(),
            ).1,
    {
        proof {
            lemma_token_valid_utf8(self.lex().text(), self.lex().cursor());
        }
        match self.expect_token(TokenKind::Identifier) {
            Ok(token) => Ok(token.value_as_string()),
            Err(e) => Err(e),
        }
    }

    /// Returns the next token from the lexer
    fn next_token(&mut self) -> (res: Result<Token, ParserError>)
        requires
            old(self).lex().wf(),
        ensures
            final(self).continues(*old(self)),
            token_outcome(
                res,
                old(self).lex().path(),
                old(self).lex().text(),
                next_step(old(self).lex().text(), old(self).lex().cursor()).0,
            ),
            final(self).lex().cursor() == next_step(old(self).lex().text(), old(self).lex().cursor()).1,
    {
        match self.lexer.next_token() {
            Ok(token) => Ok(token),
            Err(e) => Err(ParserError::from(e)),
        }
    }

    /// Gathers the next token, compare if it matches the passed `kind`, if so return that.
    /// Otherwise an error is returned.
    fn expect_token(&mut self, kind: TokenKind) -> (res: Result<Token, ParserError>)
        requires
            old(self).lex().wf(),
        ensures
            final(self).continues(*old(self)),
            token_outcome(
                res,
                old(self).lex().path(),
                old(self).lex().text(),
                expect_step(old(self).lex().text(), old(self).lex().cursor(), seq![kind]).0,
            ),
            final(self).lex().cursor() == expect_step(
                old(self).lex().text(),
                old(self).lex().cursor(),
                seq![kind],
            ).1,
    {
        let kinds = [kind];
        assert(kinds@ =~= seq![kind]);
        self.expect_token_one_of(&kinds)
    }

    /// Gathers the next token, compare if it matches one of the passed `kinds`, if so return that.
    /// Otherwise an error is returned.
    fn expect_token_one_of(&mut self, kinds: &[TokenKind]) -> (res: Result<Token, ParserError>)
        requires
            old(self).lex().wf(),
        ensures
            final(self).continues(*old(self)),
            token_outcome(
                res,
                old(self).lex().path(),
                old(self).lex().text(),
                expect_step(old(self).lex().text(), old(self).lex().cursor(), kinds@).0,
            ),
            final(self).lex().cursor() == expect_step(
                old(self).lex().text(),
                old(self).lex().cursor(),
                kinds@,
            ).1,
    {
        match self.next_token() {
            Err(e) => Err(e),
            Ok(token) => {
                if kind_in(kinds, token.kind) {
                    Ok(token)
                } else {
                    let expected_kinds = vstd::slice::slice_to_vec(kinds);
                    Err(
                        ParserError::with_token(
                            ParserErrorKind::UnexpectedToken { expected_kinds },
                            token,
                        ),
                    )
                }
            },
        }
    }

    /// The literal arguments of a call, after its opening parenthesis and up to its closing one.
    fn parse_args(&mut self) -> (res: Result<Vec<String>, ParserError>)
        requires
            old(self).lex().wf(),
            valid_utf8(old(self).lex().text()),
        ensures
            final(self).continues(*old(self)),
            strings_outcome(
                res,
                old(self).lex().path(),
                old(self).lex().text(),
                args_step(old(self).lex().text(), old(self).lex().cursor()).0,
            ),
            final(self).lex().cursor() == args_step(old(self).lex().text(), old(self).lex().cursor()).1,
    {
        let ghost src = self.lex().text();
        let ghost path = self.lex().path();
        let ghost p0 = self.lex().cursor();
        let mut args = Vec::<String>::new();
        assert(strings_view(args@) =~= seq![]);
        loop
            invariant
                self.continues(*old(self)),
                src == old(self).lex().text(),
                path == old(self).lex().path(),
                p0 == old(self).lex().cursor(),
                valid_utf8(src),
                args_step(src, p0) == prepend(strings_view(args@), args_step(src, self.lex().cursor())),
            decreases src.len() - self.lex().cursor(),
        {
            let ghost p = self.lex().cursor();
            let ghost kinds = seq![TokenKind::String, TokenKind::Number, TokenKind::CloseParen];
            proof {
                lemma_step_bounds(src, p, kinds);
                lemma_token_valid_utf8(src, p);
            }
            let expected = [TokenKind::String, TokenKind::Number, TokenKind::CloseParen];
            assert(expected@ =~= kinds);
            let token = match self.expect_token_one_of(&expected) {
                Ok(t) => t,
                Err(e) => return Err(e),
            };

            match token.kind {
                TokenKind::CloseParen => {
                    assert(strings_view(args@) + seq![] =~= strings_view(args@));
                    return Ok(args);
                },
                _ => {
                    let ghost before = strings_view(args@);
                    args.push(token.value_as_string());
                    proof {
                        let t = expect_step(src, p, kinds).0->Ok_0;
                        let rest = args_step(src, self.lex().cursor());
                        assert(strings_view(args@) =~= before.push(token_text(src, t)));
                        if let Ok(r) = rest.0 {
                            assert(before + (seq![token_text(src, t)] + r) =~= strings_view(args@) + r);
                        }
                    }
                },
            }
        }
    }

    /// A block of statements between braces.
    fn parse_block(&mut self) -> (res: Result<Vec<Statement>, ParserError>)
        requires
            old(self).lex().wf(),
            valid_utf8(old(self).lex().text()),
            old(self).checks_calls() || !stops_at_unknown_call(
                block_step(old(self).lex().text(), old(self).lex().cursor()),
            ),
        ensures
            final(self).continues(*old(self)),
            statements_outcome(
                res,
                old(self).lex().path(),
                old(self).lex().text(),
                block_step(old(self).lex().text(), old(self).lex().cursor()).0,
            ),
            final(self).lex().cursor() == block_step(old(self).lex().text(), old(self).lex().cursor()).1,
    {
        let ghost src = self.lex().text();
        let ghost path = self.lex().path();
        match self.expect_token(TokenKind::OpenCurly) {
            Ok(_) => {},
            Err(e) => return Err(e),
        }
        let ghost p0 = self.lex().cursor();

        let mut body: Vec<Statement> = Vec::new();
        assert(statements_view(body@) =~= seq![]);
        assert(block_step(src, old(self).lex().cursor()) == statements_step(src, p0));

        loop
            invariant
                self.continues(*old(self)),
                src == old(self).lex().text(),
                path == old(self).lex().path(),
                valid_utf8(src),
                0 <= p0 <= self.lex().cursor(),
                block_step(src, old(self).lex().cursor()) == prepend(
                    statements_view(body@),
                    statements_step(src, self.lex().cursor()),
                ),
                self.checks_calls() || !stops_at_unknown_call(
                    statements_step(src, self.lex().cursor()),
                ),
            decreases src.len() - self.lex().cursor(),
        {
            let ghost p = self.lex().cursor();
            proof {
                lemma_step_bounds(src, p, seq![]);
                lemma_token_valid_utf8(src, p);
            }
            let token = match self.next_token() {
                Ok(t) => t,
                Err(e) => return Err(e),
            };
            let ghost t = next_step(src, p).0->Ok_0;

            match token.kind {
                TokenKind::CloseCurly => {
                    assert(statements_view(body@) + seq![] =~= statements_view(body@));
                    return Ok(body);
                },
                _ => {
                    proof {
                        lemma_statement_bounds(src, t, self.lex().cursor());
                    }
                    let statement = match self.parse_statement(token, Ghost(t)) {
                        Ok(s) => s,
                        Err(e) => return Err(e),
                    };
                    let ghost before = statements_view(body@);
                    body.push(statement);
                    proof {
                        let rest = statements_step(src, self.lex().cursor());
                        assert(statements_view(body@) =~= before.push(statement@));
                        if let Ok(r) = rest.0 {
                            assert(before + (seq![statement@] + r) =~= statements_view(body@) + r);
                        }
                    }
                },
            }
        }
    }

    /// A statement that begins with `token`, the token that `t` describes.
    fn parse_statement(&mut self, token: Token, Ghost(t): Ghost<TokenSpan>) -> (res: Result<
        Statement,
        ParserError,
    >)
        requires
            old(self).lex().wf(),
            valid_utf8(old(self).lex().text()),
            token_matches(token, old(self).lex().path(), old(self).lex().text(), t),
            0 <= t.start < t.end <= old(self).lex().text().len(),
            valid_utf8(old(self).lex().text().subrange(t.start, t.end)),
            old(self).checks_calls() || !stops_at_unknown_call(
                statement_step(old(self).lex().text(), t, old(self).lex().cursor()),
            ),
        ensures
            final(self).continues(*old(self)),
            outcome(
                res,
                old(self).lex().path(),
                old(self).lex().text(),
                statement_step(old(self).lex().text(), t, old(self).lex().cursor()).0,
            ),
            final(self).lex().cursor() == statement_step(
                old(self).lex().text(),
                t,
                old(self).lex().cursor(),
            ).1,
    {
        let ghost src = self.lex().text();
        let ghost p = self.lex().cursor();
        match token.kind {
            TokenKind::KwReturn => {
                let number = match self.expect_token(TokenKind::Number) {
                    Ok(n) => n,
                    Err(e) => return Err(e),
                };
                let return_value = match number.value_as_int() {
                    Some(v) => v,
                    None => {
                        return Err(ParserError::with_token(ParserErrorKind::FailedToParseNumber, number));
                    },
                };
                match self.expect_token(TokenKind::Semicolon) {
                    Ok(_) => {},
                    Err(e) => return Err(e),
                }

                Ok(Statement::Return { return_value: Expr::LitInt(return_value) })
            },
            TokenKind::KwInt => {
                proof {
                    lemma_token_valid_utf8(src, p);
                }
                let variable_name = match self.expect_token(TokenKind::Identifier) {
                    Ok(v) => v,
                    Err(e) => return Err(e),
                };

                // Either it is an initialization or a declaration only
                let choices = [TokenKind::Eq, TokenKind::Semicolon];
                assert(choices@ =~= seq![TokenKind::Eq, TokenKind::Semicolon]);
                let next = match self.expect_token_one_of(&choices) {
                    Ok(n) => n,
                    Err(e) => return Err(e),
                };
                match next.kind {
                    TokenKind::Eq => self.parse_variable_assignment(variable_name.value_as_string()),
                    _ => Ok(Statement::Declare { name: variable_name.value_as_string() }),
                }
            },
            TokenKind::Identifier => {
                let variable_name = token.value_as_string();

                // Either it is an assignment or a funccall
                let choices = [TokenKind::Eq, TokenKind::OpenParen];
                assert(choices@ =~= seq![TokenKind::Eq, TokenKind::OpenParen]);
                let next = match self.expect_token_one_of(&choices) {
                    Ok(n) => n,
                    Err(e) => return Err(e),
                };
                match next.kind {
                    TokenKind::Eq => self.parse_variable_assignment(variable_name),
                    _ => {
                        // `printf` is the only function that can be called
                        let printf_word: Vec<u8> = vec![112u8, 114u8, 105u8, 110u8, 116u8, 102u8];
                        assert(printf_word@ =~= printf_bytes());
                        if bytes_equal(&token.value, &printf_word) {
                            let args = match self.parse_args() {
                                Ok(a) => a,
                                Err(e) => return Err(e),
                            };
                            match self.expect_token(TokenKind::Semicolon) {
                                Ok(_) => {},
                                Err(e) => return Err(e),
                            }
                            return Ok(Statement::Funcall { name: variable_name, args });
                        }
                        Err(ParserError::with_token(ParserErrorKind::UnparsableToken, token))
                    },
                }
            },
            _ => Err(ParserError::with_token(ParserErrorKind::UnparsableToken, token)),
        }
    }

    /// What follows `variable_name =`.
    fn parse_variable_assignment(&mut self, variable_name: String) -> (res: Result<
        Statement,
        ParserError,
    >)
        requires
            old(self).lex().wf(),
            valid_utf8(old(self).lex().text()),
        ensures
            final(self).continues(*old(self)),
            outcome(
                res,
                old(self).lex().path(),
                old(self).lex().text(),
                assignment_step(old(self).lex().text(), variable_name@, old(self).lex().cursor()).0,
            ),
            final(self).lex().cursor() == assignment_step(
                old(self).lex().text(),
                variable_name@,
                old(self).lex().cursor(),
            ).1,
    {
        proof {
            lemma_token_valid_utf8(self.lex().text(), self.lex().cursor());
        }
        // The right-hand side is a single literal or variable
        let choices = [TokenKind::Number, TokenKind::Identifier];
        assert(choices@ =~= seq![TokenKind::Number, TokenKind::Identifier]);
        let token = match self.expect_token_one_of(&choices) {
            Ok(t) => t,
            Err(e) => return Err(e),
        };

        match token.kind {
            // E.g. int x = <int-literal>
            TokenKind::Number => {
                match self.expect_token(TokenKind::Semicolon) {
                    Ok(_) => {},
                    Err(e) => return Err(e),
                }
                match token.value_as_int() {
                    Some(v) => Ok(Statement::Initialize { name: variable_name, value: Expr::LitInt(v) }),
                    None => Err(ParserError::with_token(ParserErrorKind::FailedToParseNumber, token)),
                }
            },
            // E.g. int x = var;
            _ => {
                match self.expect_token(TokenKind::Semicolon) {
                    Ok(_) => {},
                    Err(e) => return Err(e),
                }
                Ok(Statement::Assign { name: variable_name, value: Expr::Identifier(token.value_as_string()) })
            },
        }
    }
}

} // verus!
