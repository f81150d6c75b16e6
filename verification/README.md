# crust

A tiny C compiler that turns a small subset of C (`int main()` with `int` variables,
`printf` of a string literal and `return` of a literal) into ARM64 assembly for macOS.

The library under `src/` is verified with Verus:

- `location.rs`: positions in the source (row, column, offset) and their `path:row:col` text;
- `token.rs`: token kinds and tokens, with the decimal value, UTF-8 text and description of a token;
- `lexer.rs`: the lexer, specified by `lex_at`, which says which token (or error) starts at any
  position; the lexer keeps its row and column in step with its position;
- `parser.rs`: the recursive-descent parser, specified by the grammar functions `function_step`,
  `statement_step` and friends over the lexemes of the source;
- `codegen.rs`: the code generator, whose output is exactly `program_text` of the function, with
  laws on the stack frame layout; `printf` of a literal becomes a `write` system call on stdout,
  with no format-string handling;
- `literal.rs`: the number of bytes a string literal stands for, escapes counted as one byte;
- `text.rs`: decimal numerals.

`app/main.rs` is the command-line driver: it reads the file, runs the compiler and prints the
assembly, or shows a parse error with the offending line.
