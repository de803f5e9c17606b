//! A lexical scanner for a small C-like scripting language.

pub mod chars;
pub mod number;
pub mod scanner;
pub mod token;

pub use chars::{classify, ClassifiedChar};
pub use token::{Numeral, Token, TokenType};
pub use scanner::{classify_word, scan, tokenize};
