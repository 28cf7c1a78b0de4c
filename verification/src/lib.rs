//! A tokenizer and a precedence-climbing parser for a small C-like language.
//!
//! Source text goes through the [`lexer`], which never fails, and then through
//! the [`parser`], which builds the syntax tree or reports the first token
//! that does not fit.
pub mod lexer;
pub mod parser;
