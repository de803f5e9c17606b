use vstd::prelude::*;

verus! {

/// The value of a numeric literal.
///
/// A literal written with a `0x` or `0b` prefix is read as an unsigned 64-bit
/// integer. Any other numeric literal is a decimal floating-point literal whose
/// value is the token's own text read as a 64-bit float.
#[derive(Clone, Copy, Debug, PartialEq, Eq, Structural)]
pub enum Numeral {
    Integer(u64),
    Decimal,
}

/// The lexical category of a token.
#[derive(Clone, Copy, Debug, PartialEq, Eq, Structural)]
pub enum TokenType {
    // Symbols
    LeftParen,
    RightParen,
    LeftSquare,
    RightSquare,
    LeftBrace,
    RightBrace,
    Comma,
    Dot,
    Plus,
    Minus,
    Star,
    Slash,
    Semicolon,

    Bang,
    BangEqual,
    Equal,
    DoubleEqual,
    Greater,
    GreaterEqual,
    Less,
    LessEqual,

    // Literals
    String,
    Character,
    Number(Numeral),

    // Words
    Ident,
    And,
    Or,
    Self_,
    Struct,
    True,
    False,
    Fn,
    If,
    Else,
    Nil,
    Print,
    Return,
    Super,
    Let,
    While,
    For,

    // Special
    Unrecognized,
    TooLong,
}

/// A classified slice of the input: the characters at indices `start..end`.
#[derive(Clone, Copy, Debug, PartialEq, Eq, Structural)]
pub struct Token {
    pub ttype: TokenType,
    pub start: usize,
    pub end: usize,
}

} // verus!
