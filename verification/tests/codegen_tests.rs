use crust::codegen::{generate_program, CodegenError};
use crust::lexer::Lexer;
use crust::literal::literal_byte_size;
use crust::parser::{Expr, Function, Parser, Statement, Type};

fn compile(text: &str) -> Result<String, CodegenError> {
    let lexer = Lexer::from_source(String::from("prog.c"), text.as_bytes().to_vec());
    let mut parser = Parser::new(lexer);
    generate_program(parser.parse_program().unwrap())
}

const HEADER: &str = ".global _main\n.align 2\n\n_main:\n";

#[test]
fn hello_world() {
    let out = compile("#include <stdio.h>\n\nint main() {\n    printf(\"Hello, World!\\n\");\n    return 0;\n}\n").unwrap();
    let expected = String::from(HEADER)
        + "sub sp, sp, #16\nstp x29, x30, [sp, #0]\nadd x29, sp, #0\n\n"
        + "; printf(...)\nmov x0, #1\nadrp x1, label_1@PAGE\nadd x1, x1, label_1@PAGEOFF\nmov x2, #14\nmov x16, #4\nsvc #0x80\n\n"
        + "ldp x29, x30, [sp, #0]\nadd sp, sp, #16\n\n; return 0\nmov w0, #0\nret\n\n"
        + ".section __TEXT,__cstring,cstring_literals\nlabel_1: .asciz \"Hello, World!\\n\"\n";
    assert_eq!(out, expected);
}

#[test]
fn return_only() {
    let out = compile("int main() { return 42; }").unwrap();
    let expected = String::from(HEADER)
        + "sub sp, sp, #16\nstp x29, x30, [sp, #0]\nadd x29, sp, #0\n\n"
        + "ldp x29, x30, [sp, #0]\nadd sp, sp, #16\n\n; return 42\nmov w0, #42\nret\n\n";
    assert_eq!(out, expected);
}

#[test]
fn variables_on_the_stack() {
    let out = compile("int main() { int x = 5; int y = x; int z; return 1; }").unwrap();
    // three variables: 12 bytes, rounded up to 16, plus 16 for x29 and x30
    let expected = String::from(HEADER)
        + "sub sp, sp, #32\nstp x29, x30, [sp, #16]\nadd x29, sp, #16\n\n"
        + "; x = 5\nmov w8, #5\nstr w8, [sp, #12]\n\n"
        + "; y = x\nldr w8, [sp, #12]\nstr w8, [sp, #8]\n\n"
        + "ldp x29, x30, [sp, #16]\nadd sp, sp, #32\n\n; return 1\nmov w0, #1\nret\n\n";
    assert_eq!(out, expected);
}

#[test]
fn frame_grows_by_sixteen() {
    let out = compile("int main() { int a; int b; int c; int d; int e; return 0; }").unwrap();
    assert!(out.contains("sub sp, sp, #48\nstp x29, x30, [sp, #32]\nadd x29, sp, #32\n"));
    let out = compile("int main() { int a; int b; int c; int d; return 0; }").unwrap();
    assert!(out.contains("sub sp, sp, #32\nstp x29, x30, [sp, #16]\n"));
}

#[test]
fn redeclared_variable_keeps_its_slot() {
    let out = compile("int main() { int a = 1; int b = 2; int a = 3; return 0; }").unwrap();
    assert!(out.contains("; a = 1\nmov w8, #1\nstr w8, [sp, #12]\n"));
    assert!(out.contains("; b = 2\nmov w8, #2\nstr w8, [sp, #8]\n"));
    assert!(out.contains("; a = 3\nmov w8, #3\nstr w8, [sp, #12]\n"));
}

#[test]
fn several_literals_are_numbered() {
    let out = compile("int main() { printf(\"a\"); printf(\"b\"); return 0; }").unwrap();
    assert!(out.contains("adrp x1, label_2@PAGE\nadd x1, x1, label_2@PAGEOFF\nmov x2, #1\n"));
    assert!(out.ends_with(".section __TEXT,__cstring,cstring_literals\nlabel_1: .asciz \"a\"\nlabel_2: .asciz \"b\"\n"));
}

#[test]
fn reading_an_undeclared_variable_fails() {
    let err = compile("int main() { int x = y; return 0; }").unwrap_err();
    assert!(matches!(err, CodegenError::UndeclaredVariable));
}

#[test]
fn a_variable_written_later_counts_as_declared() {
    // `y` gets its slot from the later assignment
    let out = compile("int main() { int x = y; y = 2; return 0; }").unwrap();
    assert!(out.contains("; x = y\nldr w8, [sp, #8]\nstr w8, [sp, #12]\n"));
}

#[test]
fn negative_literal_built_by_hand() {
    let f = Function {
        name: String::from("main"),
        return_type: Type::Int,
        body: vec![
            Statement::Initialize { name: String::from("n"), value: Expr::LitInt(-12) },
            Statement::Return { return_value: Expr::LitInt(-1) },
        ],
    };
    let out = generate_program(f).unwrap();
    assert!(out.contains("; n = -12\nmov w8, #-12\nstr w8, [sp, #12]\n"));
    assert!(out.contains("; return -1\nmov w0, #-1\nret\n"));
}

#[test]
fn write_error_converts() {
    let e: CodegenError = CodegenError::from(std::fmt::Error);
    assert!(matches!(e, CodegenError::WriteError(_)));
}

#[test]
fn printf_writes_the_literal_as_it_is() {
    let out = compile("int main() { printf(\"100%\\n\"); return 0; }").unwrap();
    assert!(out.contains("; printf(...)\nmov x0, #1\nadrp x1, label_1@PAGE\nadd x1, x1, label_1@PAGEOFF\nmov x2, #5\nmov x16, #4\nsvc #0x80\n\n"));
    assert!(!out.contains("bl _printf"));
    assert!(out.ends_with("label_1: .asciz \"100%\\n\"\n"));
}

#[test]
fn literal_sizes() {
    let size = |s: &str| literal_byte_size(&String::from(s));
    assert_eq!(size("\"\""), 0);
    assert_eq!(size("\"abc\""), 3);
    assert_eq!(size("\"a\\tb\\\\c\""), 5);
    assert_eq!(size("\"\\x41\\x4142z\""), 3);
    assert_eq!(size("\"\\101\\0\\1234\""), 4);
    assert_eq!(size("\"\\\"q\\\"\""), 3);
    assert_eq!(size("\"h\u{e9}\u{20ac}\u{1f600}\""), 10);
    assert_eq!(size("\"unterminated"), 12);
    assert_eq!(size("12"), 2);
}
