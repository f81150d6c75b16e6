use crust::lexer::{Lexer, LexerErrorKind};
use crust::location::Location;
use crust::token::{Token, TokenKind};

fn lexer_for(text: &str) -> Lexer {
    Lexer::from_source(String::from("test.c"), text.as_bytes().to_vec())
}

fn kinds_of(text: &str) -> Vec<TokenKind> {
    let mut lexer = lexer_for(text);
    let mut kinds = Vec::new();
    while let Ok(token) = lexer.next_token() {
        kinds.push(token.kind);
    }
    kinds
}

#[test]
fn lexes_a_main_function() {
    assert_eq!(
        kinds_of("int main() { return 42; }"),
        vec![
            TokenKind::KwInt,
            TokenKind::Identifier,
            TokenKind::OpenParen,
            TokenKind::CloseParen,
            TokenKind::OpenCurly,
            TokenKind::KwReturn,
            TokenKind::Number,
            TokenKind::Semicolon,
            TokenKind::CloseCurly,
        ]
    );
}

#[test]
fn keywords_only_when_the_whole_word_matches() {
    assert_eq!(
        kinds_of("int integer returns return"),
        vec![TokenKind::KwInt, TokenKind::Identifier, TokenKind::Identifier, TokenKind::KwReturn]
    );
}

#[test]
fn token_values_are_the_source_text() {
    let mut lexer = lexer_for("  count = 1234;");
    let word = lexer.next_token().unwrap();
    assert_eq!(word.value, b"count".to_vec());
    assert_eq!(word.loc.col, 2);
    assert_eq!(word.loc.idx, 2);
    assert_eq!(lexer.next_token().unwrap().kind, TokenKind::Eq);
    let number = lexer.next_token().unwrap();
    assert_eq!(number.kind, TokenKind::Number);
    assert_eq!(number.value, b"1234".to_vec());
    assert_eq!(number.value_as_int(), Some(1234));
}

#[test]
fn preprocessor_lines_are_skipped() {
    let mut lexer = lexer_for("#include <stdio.h>\n# define X 1\n  int");
    let token = lexer.next_token().unwrap();
    assert_eq!(token.kind, TokenKind::KwInt);
    assert_eq!(token.loc.row, 2);
    assert_eq!(token.loc.col, 2);
    assert_eq!(token.loc.idx, 34);
}

#[test]
fn strings_keep_their_quotes() {
    let mut lexer = lexer_for("printf(\"Hello, World!\\n\");");
    assert_eq!(lexer.next_token().unwrap().kind, TokenKind::Identifier);
    assert_eq!(lexer.next_token().unwrap().kind, TokenKind::OpenParen);
    let s = lexer.next_token().unwrap();
    assert_eq!(s.kind, TokenKind::String);
    assert_eq!(s.value, b"\"Hello, World!\\n\"".to_vec());
    assert_eq!(s.value_as_string(), String::from("\"Hello, World!\\n\""));
    assert_eq!(lexer.next_token().unwrap().kind, TokenKind::CloseParen);
}

#[test]
fn unterminated_string_runs_to_the_end() {
    let mut lexer = lexer_for("\"abc");
    let s = lexer.next_token().unwrap();
    assert_eq!(s.kind, TokenKind::String);
    assert_eq!(s.value, b"\"abc".to_vec());
    assert!(matches!(lexer.next_token().unwrap_err().kind, LexerErrorKind::UnexpectedEof));
}

#[test]
fn end_of_input_is_an_error() {
    let mut lexer = lexer_for("  \n ");
    let err = lexer.next_token().unwrap_err();
    assert!(matches!(err.kind, LexerErrorKind::UnexpectedEof));
    assert_eq!(err.loc.row, 1);
    assert_eq!(err.loc.col, 1);
    assert_eq!(err.loc.idx, 4);
}

#[test]
fn unknown_character_is_an_error_at_its_place() {
    let mut lexer = lexer_for("x\n  @");
    assert_eq!(lexer.next_token().unwrap().kind, TokenKind::Identifier);
    let err = lexer.next_token().unwrap_err();
    assert!(matches!(err.kind, LexerErrorKind::Unreachable));
    assert_eq!(err.loc.row, 1);
    assert_eq!(err.loc.col, 2);
    assert_eq!(err.loc.idx, 4);
    // The lexer stays on the character it cannot read.
    assert!(matches!(lexer.next_token().unwrap_err().kind, LexerErrorKind::Unreachable));
}

#[test]
fn location_follows_rows_and_columns() {
    let mut lexer = lexer_for("int\n\tmain\n\n   ;");
    let a = lexer.next_token().unwrap();
    let b = lexer.next_token().unwrap();
    let c = lexer.next_token().unwrap();
    assert_eq!((a.loc.row, a.loc.col, a.loc.idx), (0, 0, 0));
    assert_eq!((b.loc.row, b.loc.col, b.loc.idx), (1, 1, 5));
    assert_eq!((c.loc.row, c.loc.col, c.loc.idx), (3, 3, 14));
    let here = lexer.loc();
    assert_eq!((here.row, here.col, here.idx), (3, 4, 15));
}

#[test]
fn seek_and_read_line() {
    let mut lexer = lexer_for("int a;\nint bb = 3;\nreturn");
    lexer.seek(9);
    let here = lexer.loc();
    assert_eq!((here.row, here.col, here.idx), (1, 2, 9));
    lexer.seek(7);
    assert_eq!(lexer.read_line(), b"int bb = 3;".to_vec());
    let after = lexer.loc();
    assert_eq!((after.row, after.col, after.idx), (1, 11, 18));
    assert_eq!(lexer.next_token().unwrap().kind, TokenKind::KwReturn);
}

#[test]
fn location_display() {
    let loc = Location { filepath: String::from("src/main.c"), row: 2, col: 9, idx: 40 };
    assert_eq!(loc.display(), String::from("src/main.c:3:10"));
    let copy = loc.clone();
    assert_eq!(copy.display(), loc.display());
}

#[test]
fn number_values() {
    let token = |text: &str| Token {
        kind: TokenKind::Number,
        loc: Location { filepath: String::new(), row: 0, col: 0, idx: 0 },
        value: text.as_bytes().to_vec(),
    };
    assert_eq!(token("0").value_as_int(), Some(0));
    assert_eq!(token("007").value_as_int(), Some(7));
    assert_eq!(token("2147483647").value_as_int(), Some(i32::MAX));
    assert_eq!(token("2147483648").value_as_int(), None);
    assert_eq!(token("99999999999999999999999").value_as_int(), None);
    assert_eq!(token("").value_as_int(), None);
    assert_eq!(token("12a").value_as_int(), None);
}

#[test]
fn token_debug_text() {
    let mut lexer = lexer_for("\n  \"a\\nb\"");
    let token = lexer.next_token().unwrap();
    assert_eq!(token.debug_text(), "Token { kind: String, loc: test.c:2:3, value: \"\\\"a\\\\nb\\\"\" }");
    let mut lexer = lexer_for("return");
    let token = lexer.next_token().unwrap();
    assert_eq!(token.debug_text(), "Token { kind: KwReturn, loc: test.c:1:1, value: \"return\" }");
    let odd = Token {
        kind: TokenKind::Number,
        loc: Location { filepath: String::from("f"), row: 0, col: 0, idx: 0 },
        value: vec![0xff, b'1'],
    };
    assert_eq!(odd.debug_text(), "Token { kind: Number, loc: f:1:1, value: \"\u{fffd}1\" }");
}

#[test]
fn source_and_clone() {
    let mut lexer = lexer_for("int x;");
    assert_eq!(lexer.source(), &b"int x;".to_vec());
    lexer.next_token().unwrap();
    let mut copy = lexer.clone();
    assert_eq!(copy.next_token().unwrap().value, b"x".to_vec());
    assert_eq!(lexer.loc().idx, 3);
    assert_eq!(lexer.next_token().unwrap().value, b"x".to_vec());
}
