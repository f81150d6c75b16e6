use crust::lexer::{Lexer, LexerErrorKind};
use crust::parser::{Expr, Function, Parser, ParserError, ParserErrorKind, Statement, Type};
use crust::token::TokenKind;

fn parse(text: &str) -> Result<Function, ParserError> {
    let lexer = Lexer::from_source(String::from("prog.c"), text.as_bytes().to_vec());
    let mut parser = Parser::new(lexer);
    parser.parse_program()
}

#[test]
fn parses_return_of_literal() {
    let f = parse("int main() { return 42; }").unwrap();
    assert_eq!(f.name, "main");
    assert!(matches!(f.return_type, Type::Int));
    assert_eq!(f.body.len(), 1);
    assert!(matches!(f.body[0], Statement::Return { return_value: Expr::LitInt(42) }));
}

#[test]
fn parses_declarations_and_assignments() {
    let f = parse("int main() {\n  int x;\n  int y = 7;\n  x = y;\n  int z = x;\n  x = 3;\n  return 0;\n}").unwrap();
    assert_eq!(f.body.len(), 6);
    match &f.body[0] {
        Statement::Declare { name } => assert_eq!(name, "x"),
        other => panic!("unexpected {:?}", other),
    }
    match &f.body[1] {
        Statement::Initialize { name, value: Expr::LitInt(7) } => assert_eq!(name, "y"),
        other => panic!("unexpected {:?}", other),
    }
    match &f.body[2] {
        Statement::Assign { name, value: Expr::Identifier(rhs) } => {
            assert_eq!(name, "x");
            assert_eq!(rhs, "y");
        },
        other => panic!("unexpected {:?}", other),
    }
    match &f.body[3] {
        Statement::Assign { name, value: Expr::Identifier(rhs) } => {
            assert_eq!(name, "z");
            assert_eq!(rhs, "x");
        },
        other => panic!("unexpected {:?}", other),
    }
    match &f.body[4] {
        Statement::Initialize { name, value: Expr::LitInt(3) } => assert_eq!(name, "x"),
        other => panic!("unexpected {:?}", other),
    }
    assert!(matches!(f.body[5], Statement::Return { return_value: Expr::LitInt(0) }));
}

#[test]
fn parses_printf_calls() {
    let f = parse("#include <stdio.h>\nint main() { printf(\"hi\"); printf(\"a\" 12); printf(); return 1; }").unwrap();
    assert_eq!(f.body.len(), 4);
    match &f.body[0] {
        Statement::Funcall { name, args } => {
            assert_eq!(name, "printf");
            assert_eq!(args, &vec![String::from("\"hi\"")]);
        },
        other => panic!("unexpected {:?}", other),
    }
    match &f.body[1] {
        Statement::Funcall { args, .. } => assert_eq!(args, &vec![String::from("\"a\""), String::from("12")]),
        other => panic!("unexpected {:?}", other),
    }
    match &f.body[2] {
        Statement::Funcall { args, .. } => assert!(args.is_empty()),
        other => panic!("unexpected {:?}", other),
    }
}

#[test]
fn empty_body() {
    let f = parse("int f(){}").unwrap();
    assert_eq!(f.name, "f");
    assert!(f.body.is_empty());
}

#[test]
fn unexpected_token_names_the_expected_kinds() {
    let err = parse("int main( { return 0; }").unwrap_err();
    match err.kind {
        ParserErrorKind::UnexpectedToken { expected_kinds } => assert_eq!(expected_kinds, vec![TokenKind::CloseParen]),
        other => panic!("unexpected {:?}", other),
    }
    assert_eq!(err.loc.col, 10);
    let token = err.token.unwrap();
    assert_eq!(token.kind, TokenKind::OpenCurly);
    assert_eq!(token.loc.idx, 10);
}

#[test]
fn function_must_return_int() {
    let err = parse("main() {}").unwrap_err();
    match err.kind {
        ParserErrorKind::UnexpectedToken { expected_kinds } => assert_eq!(expected_kinds, vec![TokenKind::KwInt]),
        other => panic!("unexpected {:?}", other),
    }
    assert_eq!(err.loc.idx, 0);
}

#[test]
fn unparsable_statement() {
    let err = parse("int main() { ; }").unwrap_err();
    assert!(matches!(err.kind, ParserErrorKind::UnparsableToken));
    assert_eq!(err.token.unwrap().kind, TokenKind::Semicolon);
    assert_eq!(err.loc.idx, 13);
}

fn parser_for(text: &str) -> Parser {
    Parser::new(Lexer::from_source(String::from("prog.c"), text.as_bytes().to_vec()))
}

#[test]
fn only_printf_can_be_called() {
    assert!(!parser_for("int main() { puts(\"x\"); }").calls_only_printf());
    assert!(!parser_for("int main() { int a; foo(); return 0; }").calls_only_printf());
    assert!(parser_for("int main() { printf(\"x\"); return 0; }").calls_only_printf());
    // Other errors are for `parse_program` to report.
    assert!(parser_for("int main() { ; }").calls_only_printf());
    assert!(parser_for("int main() { return 0;").calls_only_printf());
    // Checking reads a copy: the parser has not moved.
    let mut parser = parser_for("int main() { return 3; }");
    assert!(parser.calls_only_printf());
    assert!(parser.parse_program().is_ok());
}

#[test]
fn number_too_large() {
    let err = parse("int main() { return 99999999999; }").unwrap_err();
    assert!(matches!(err.kind, ParserErrorKind::FailedToParseNumber));
    assert_eq!(err.loc.idx, 20);
    assert_eq!(err.token.unwrap().value, b"99999999999".to_vec());
    let err = parse("int main() { int a = 4294967296; }").unwrap_err();
    assert!(matches!(err.kind, ParserErrorKind::FailedToParseNumber));
}

#[test]
fn lexer_errors_become_parser_errors() {
    let err = parse("int main() { return 0;").unwrap_err();
    assert!(matches!(err.kind, ParserErrorKind::LexerError(LexerErrorKind::UnexpectedEof)));
    assert!(err.token.is_none());
    assert_eq!(err.loc.idx, 22);
    let err = parse("int main() { return $; }").unwrap_err();
    assert!(matches!(err.kind, ParserErrorKind::LexerError(LexerErrorKind::Unreachable)));
    assert_eq!(err.loc.idx, 20);
}

#[test]
fn the_lexer_is_left_after_the_error() {
    let lexer = Lexer::from_source(String::from("p.c"), b"int main() {\n  int x = ;\n}".to_vec());
    let mut parser = Parser::new(lexer);
    let err = parser.parse_program().unwrap_err();
    assert_eq!((err.loc.row, err.loc.col, err.loc.idx), (1, 10, 23));
    let lexer = parser.lexer();
    lexer.seek(err.loc.idx - err.loc.col);
    assert_eq!(lexer.read_line(), b"  int x = ;".to_vec());
}

#[test]
fn error_constructors() {
    let lexer = Lexer::from_source(String::from("q.c"), b"abc".to_vec());
    let loc = lexer.loc();
    let e = ParserError::with_location(ParserErrorKind::UnparsableToken, loc);
    assert!(e.token.is_none());
    assert_eq!(e.loc.filepath, "q.c");
    let mut lexer = Lexer::from_source(String::from("q.c"), b"abc".to_vec());
    let token = lexer.next_token().unwrap();
    let e = ParserError::with_token(ParserErrorKind::FailedToParseNumber, token);
    assert_eq!(e.loc.idx, 0);
    assert_eq!(e.token.unwrap().value, b"abc".to_vec());
}

#[test]
fn string_literals_may_hold_any_utf8() {
    let f = parse("int main() { printf(\"héllo wörld\"); return 0; }").unwrap();
    match &f.body[0] {
        Statement::Funcall { args, .. } => assert_eq!(args, &vec![String::from("\"héllo wörld\"")]),
        other => panic!("unexpected {:?}", other),
    }
}

#[test]
fn parsed_programs_use_only_generated_shapes() {
    let f = parse("int main() { int a = 1; int b; b = a; printf(\"x\"); return 2; }").unwrap();
    for st in f.body.iter() {
        let ok = match st {
            Statement::Funcall { name, .. } => name == "printf",
            Statement::Return { return_value: Expr::LitInt(_) } => true,
            Statement::Declare { .. } => true,
            Statement::Initialize { value: Expr::LitInt(_), .. } => true,
            Statement::Assign { value: Expr::Identifier(_), .. } => true,
            _ => false,
        };
        assert!(ok);
    }
}
