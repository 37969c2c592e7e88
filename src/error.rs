use vstd::prelude::*;

use crate::lexer::Token;

verus! {

/// A lexical error together with the line and column (both counted from 1) at
/// which scanning stopped.
#[derive(Debug)]
pub struct LexerError {
    pub kind: LexerErrorKind,
    pub line: usize,
    pub col: usize,
}

#[derive(Debug)]
pub enum LexerErrorKind {
    InvalidString(StringError),
    InvalidNumber(NumberError),
    InvalidLiteral(String),
    InvalidToken(u8),
    Eof,
}

#[derive(Debug)]
pub enum StringError {
    Unterminated,
    IncompleteEscape,
    InvalidEscape { escape: u8 },
    UnescapedControlCharacter { code: u8 },
    InvalidUnicodeEscape { digits: String },
}

#[derive(Debug)]
pub enum NumberError {
    InvalidDecimal { reason: &'static str },
    InvalidExponent { reason: &'static str },
    LeadingZero,
    InvalidNegative { reason: &'static str },
}

/// A structural error found while building a value from a token sequence.
#[derive(Debug)]
pub enum ParserError {
    InvalidValue { found: Token },
    MissingColon,
    NonUTF8String,
    UnexpectedEof,
    InvalidKey,
    DuplicateKey,
    InvalidArray,
    TrailingComma,
}

} // verus!
