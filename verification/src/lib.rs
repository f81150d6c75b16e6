//! A tiny C compiler: lexer, parser and ARM64 assembly generator.
pub mod text;
pub mod location;
pub mod token;
pub mod lexer;
pub mod parser;
pub mod literal;
pub mod codegen;
