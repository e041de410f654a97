//! Lexical analysis and expression parsing for a small language front end.
//!
//! Source text is scanned by a character cursor into classified tokens,
//! positions are recorded through the span model, and token streams are
//! parsed into binary-expression trees.

pub mod ast;
pub mod chars;
pub mod lex;
pub mod lexer;
pub mod parse;
pub mod span;
pub mod token;
