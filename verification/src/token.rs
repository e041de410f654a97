//! The closed set of token kinds the tokenizer produces.

use vstd::prelude::*;

verus! {

/// Doc-comment style of a line or block comment: `//x`, `///x`, `//!x` and
/// the block equivalents.
#[derive(Debug, Clone, Copy, PartialEq, Eq, Structural)]
pub enum CommentKind {
    Normal,
    OuterDoc,
    InnerDoc,
}

/// A delimiter shape; opening and closing are separate token kinds.
#[derive(Debug, Clone, Copy, PartialEq, Eq, Structural)]
pub enum Delim {
    /// `(` `)`
    Paren,
    /// `[` `]`
    Brack,
    /// `{` `}`
    Brace,
}

/// The numeral base of an integer or float literal. The variants carry no
/// numeric value; code that needs a radix must map them itself.
#[derive(Debug, Clone, Copy, PartialEq, Eq, PartialOrd, Ord, Structural)]
pub enum Base {
    Binary,
    Octal,
    Decimal,
    Hexadecimal,
}

/// The sub-kind of a literal token. Malformed literals are not errors: they
/// carry `empty`, `exp_empty` or `terminated` flags instead.
#[derive(Debug, Clone, Copy, PartialEq, Eq, Structural)]
pub enum LitKind {
    Int { base: Base, empty: bool },
    Float { base: Base, exp_empty: bool },
    Char { terminated: bool },
    Str { terminated: bool },
}

/// Single-character punctuation.
#[derive(Debug, Clone, Copy, PartialEq, Eq, Structural)]
pub enum Punc {
    // arithmetic
    Plus,
    Minus,
    Asterisk,
    Slash,
    Percent,
    // logic
    Amp,
    Bar,
    Caret,
    Bang,
    // comparison
    Eq,
    Lt,
    Gt,
    // punctuation
    Dot,
    Comma,
    Colon,
    Semi,
}

/// One token: how many source bytes it consumed, and what it is.
#[derive(Debug, Clone, Copy, PartialEq, Eq, Structural)]
pub struct Token {
    pub len: usize,
    pub kind: TokenKind,
}

/// The classification of a token.
#[derive(Debug, Clone, Copy, PartialEq, Eq, Structural)]
pub enum TokenKind {
    Unknown,
    Whitespace,
    Newline,
    LineComment { style: CommentKind },
    BlockComment { style: CommentKind, terminated: bool },
    Ident,
    /// A literal; `suffix_start` is the byte offset, within the token, where
    /// an identifier-shaped suffix begins (the token length when absent).
    Lit { kind: LitKind, suffix_start: u32 },
    Punc(Punc),
    Open(Delim),
    Close(Delim),
}

} // verus!
