//! Front end of the Sploosh language: a UTF-8 lexer and a recursive-descent
//! parser producing a typed syntax tree.
pub mod ast;
pub mod text;
pub mod lexer;
pub mod parser;
