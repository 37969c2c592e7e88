use vstd::prelude::*;

use vstd::string::StringExecFns;

use crate::error::{LexerError, LexerErrorKind, NumberError, ParserError, StringError};
use crate::lexer::{token_name, Token};

verus! {

pub open spec fn digit_char(d: nat) -> char {
    if d == 0 {
        '0'
    } else if d == 1 {
        '1'
    } else if d == 2 {
        '2'
    } else if d == 3 {
        '3'
    } else if d == 4 {
        '4'
    } else if d == 5 {
        '5'
    } else if d == 6 {
        '6'
    } else if d == 7 {
        '7'
    } else if d == 8 {
        '8'
    } else if d == 9 {
        '9'
    } else if d == 10 {
        'A'
    } else if d == 11 {
        'B'
    } else if d == 12 {
        'C'
    } else if d == 13 {
        'D'
    } else if d == 14 {
        'E'
    } else {
        'F'
    }
}

/// The decimal digits of `n`, most significant first.
pub open spec fn decimal_text(n: nat) -> Seq<char>
    decreases n,
{
    if n < 10 {
        seq![digit_char(n)]
    } else {
        decimal_text(n / 10) + seq![digit_char(n % 10)]
    }
}

/// A byte as two upper-case hexadecimal digits.
pub open spec fn hex_text(b: u8) -> Seq<char> {
    seq![digit_char((b / 16) as nat), digit_char((b % 16) as nat)]
}

fn digit_str(d: u8) -> (r: &'static str)
    requires
        d < 16,
    ensures
        r@ == seq![digit_char(d as nat)],
{
    proof {
        reveal_strlit("0");
        reveal_strlit("1");
        reveal_strlit("2");
        reveal_strlit("3");
        reveal_strlit("4");
        reveal_strlit("5");
        reveal_strlit("6");
        reveal_strlit("7");
        reveal_strlit("8");
        reveal_strlit("9");
        reveal_strlit("A");
        reveal_strlit("B");
        reveal_strlit("C");
        reveal_strlit("D");
        reveal_strlit("E");
        reveal_strlit("F");
    }
    if d == 0 {
        "0"
    } else if d == 1 {
        "1"
    } else if d == 2 {
        "2"
    } else if d == 3 {
        "3"
    } else if d == 4 {
        "4"
    } else if d == 5 {
        "5"
    } else if d == 6 {
        "6"
    } else if d == 7 {
        "7"
    } else if d == 8 {
        "8"
    } else if d == 9 {
        "9"
    } else if d == 10 {
        "A"
    } else if d == 11 {
        "B"
    } else if d == 12 {
        "C"
    } else if d == 13 {
        "D"
    } else if d == 14 {
        "E"
    } else {
        "F"
    }
}

/// Writes `n` in decimal.
pub fn decimal(n: usize) -> (r: String)
    ensures
        r@ == decimal_text(n as nat),
    decreases n,
{
    if n < 10 {
        String::from_str(digit_str(n as u8))
    } else {
        let mut s = decimal(n / 10);
        s.append(digit_str((n % 10) as u8));
        s
    }
}

fn hex_byte(b: u8) -> (r: String)
    ensures
        r@ == hex_text(b),
{
    let mut s = String::from_str(digit_str(b / 16));
    s.append(digit_str(b % 16));
    s
}

pub open spec fn string_error_text(e: StringError) -> Seq<char> {
    match e {
        StringError::Unterminated => "string not terminated, missing \""@,
        StringError::IncompleteEscape => "string ends with an incomplete escape sequence"@,
        StringError::InvalidEscape { escape } => "string contains invalid escape sequence \\"@
            + decimal_text(escape as nat),
        StringError::UnescapedControlCharacter { code } => "string contains control character 0x"@
            + hex_text(code) + " that must be escaped"@,
        StringError::InvalidUnicodeEscape { digits } =>
            "unicode escape must be followed by four hexadecimal digits, found '"@ + digits@ + "'"@,
    }
}

pub open spec fn number_error_text(e: NumberError) -> Seq<char> {
    match e {
        NumberError::InvalidDecimal { reason } => "invalid decimal: "@ + reason@,
        NumberError::InvalidExponent { reason } => "invalid exponent: "@ + reason@,
        NumberError::LeadingZero => "numbers cannot have leading zeros"@,
        NumberError::InvalidNegative { reason } => "invalid negative: "@ + reason@,
    }
}

pub open spec fn kind_text(k: LexerErrorKind) -> Seq<char> {
    match k {
        LexerErrorKind::InvalidString(e) => "[invalid string] "@ + string_error_text(e),
        LexerErrorKind::InvalidNumber(e) => "[invalid number] "@ + number_error_text(e),
        LexerErrorKind::InvalidLiteral(t) => "[invalid literal] "@ + t@,
        LexerErrorKind::InvalidToken(b) => "[invalid token] "@ + decimal_text(b as nat),
        LexerErrorKind::Eof => "eof"@,
    }
}

/// How a token is shown in a diagnostic: its name, and for a span its range.
pub open spec fn token_debug_text(t: Token) -> Seq<char> {
    match t {
        Token::String(r) => "String("@ + decimal_text(r.start as nat) + ".."@ + decimal_text(
            r.end as nat,
        ) + ")"@,
        Token::Number(r) => "Number("@ + decimal_text(r.start as nat) + ".."@ + decimal_text(
            r.end as nat,
        ) + ")"@,
        _ => token_name(t),
    }
}

pub open spec fn parser_error_text(e: ParserError) -> Seq<char> {
    match e {
        ParserError::InvalidValue { found } =>
            "Json values can only be an object, array, number, string, true, false, or null, found: "@
            + token_debug_text(found),
        ParserError::MissingColon => "Json keys must be followed by a colon"@,
        ParserError::NonUTF8String => "Json strings must be valid UTF-8"@,
        ParserError::UnexpectedEof => "Unexpected end of input"@,
        ParserError::InvalidKey => "Keys must be strings"@,
        ParserError::DuplicateKey => "Keys must be unique within an object"@,
        ParserError::InvalidArray => "Array value must either be terminated or followed by a comma"@,
        ParserError::TrailingComma => "Trailing commas are not allowed"@,
    }
}

impl StringError {
    pub fn message(&self) -> (r: String)
        ensures
            r@ == string_error_text(*self),
    {
        match self {
            StringError::Unterminated => String::from_str("string not terminated, missing \""),
            StringError::IncompleteEscape => String::from_str(
                "string ends with an incomplete escape sequence",
            ),
            StringError::InvalidEscape { escape } => {
                let mut s = String::from_str("string contains invalid escape sequence \\");
                let d = decimal(*escape as usize);
                s.append(d.as_str());
                s
            },
            StringError::UnescapedControlCharacter { code } => {
                let mut s = String::from_str("string contains control character 0x");
                let h = hex_byte(*code);
                s.append(h.as_str());
                s.append(" that must be escaped");
                s
            },
            StringError::InvalidUnicodeEscape { digits } => {
                let mut s = String::from_str(
                    "unicode escape must be followed by four hexadecimal digits, found '",
                );
                s.append(digits.as_str());
                s.append("'");
                s
            },
        }
    }
}

impl NumberError {
    pub fn message(&self) -> (r: String)
        ensures
            r@ == number_error_text(*self),
    {
        match self {
            NumberError::InvalidDecimal { reason } => {
                let mut s = String::from_str("invalid decimal: ");
                s.append(reason);
                s
            },
            NumberError::InvalidExponent { reason } => {
                let mut s = String::from_str("invalid exponent: ");
                s.append(reason);
                s
            },
            NumberError::LeadingZero => String::from_str("numbers cannot have leading zeros"),
            NumberError::InvalidNegative { reason } => {
                let mut s = String::from_str("invalid negative: ");
                s.append(reason);
                s
            },
        }
    }
}

impl LexerErrorKind {
    pub fn message(&self) -> (r: String)
        ensures
            r@ == kind_text(*self),
    {
        match self {
            LexerErrorKind::InvalidString(e) => {
                let mut s = String::from_str("[invalid string] ");
                let m = e.message();
                s.append(m.as_str());
                s
            },
            LexerErrorKind::InvalidNumber(e) => {
                let mut s = String::from_str("[invalid number] ");
                let m = e.message();
                s.append(m.as_str());
                s
            },
            LexerErrorKind::InvalidLiteral(t) => {
                let mut s = String::from_str("[invalid literal] ");
                s.append(t.as_str());
                s
            },
            LexerErrorKind::InvalidToken(b) => {
                let mut s = String::from_str("[invalid token] ");
                let d = decimal(*b as usize);
                s.append(d.as_str());
                s
            },
            LexerErrorKind::Eof => String::from_str("eof"),
        }
    }
}

impl LexerError {
    /// The error as a diagnostic line: its position, category and detail.
    pub fn message(&self) -> (r: String)
        ensures
            r@ == "Error at line "@ + decimal_text(self.line as nat) + ", col "@ + decimal_text(
                self.col as nat,
            ) + ": "@ + kind_text(self.kind),
    {
        let mut s = String::from_str("Error at line ");
        let l = decimal(self.line);
        s.append(l.as_str());
        s.append(", col ");
        let c = decimal(self.col);
        s.append(c.as_str());
        s.append(": ");
        let k = self.kind.message();
        s.append(k.as_str());
        s
    }
}

fn token_debug(t: &Token) -> (r: String)
    ensures
        r@ == token_debug_text(*t),
{
    match t {
        Token::String(g) => span_debug("String(", g.start, g.end),
        Token::Number(g) => span_debug("Number(", g.start, g.end),
        Token::Colon => String::from_str("Colon"),
        Token::Comma => String::from_str("Comma"),
        Token::Lcurl => String::from_str("Lcurl"),
        Token::Rcurl => String::from_str("Rcurl"),
        Token::Lsquare => String::from_str("Lsquare"),
        Token::Rsquare => String::from_str("Rsquare"),
        Token::Eof => String::from_str("Eof"),
        Token::True => String::from_str("True"),
        Token::False => String::from_str("False"),
        Token::Null => String::from_str("Null"),
    }
}

fn span_debug(head: &str, start: usize, end: usize) -> (r: String)
    ensures
        r@ == head@ + decimal_text(start as nat) + ".."@ + decimal_text(end as nat) + ")"@,
{
    let mut s = String::from_str(head);
    let a = decimal(start);
    s.append(a.as_str());
    s.append("..");
    let b = decimal(end);
    s.append(b.as_str());
    s.append(")");
    s
}

impl ParserError {
    pub fn message(&self) -> (r: String)
        ensures
            r@ == parser_error_text(*self),
    {
        match self {
            ParserError::InvalidValue { found } => {
                let mut s = String::from_str(
                    "Json values can only be an object, array, number, string, true, false, or null, found: ",
                );
                let t = token_debug(found);
                s.append(t.as_str());
                s
            },
            ParserError::MissingColon => String::from_str("Json keys must be followed by a colon"),
            ParserError::NonUTF8String => String::from_str("Json strings must be valid UTF-8"),
            ParserError::UnexpectedEof => String::from_str("Unexpected end of input"),
            ParserError::InvalidKey => String::from_str("Keys must be strings"),
            ParserError::DuplicateKey => String::from_str("Keys must be unique within an object"),
            ParserError::InvalidArray => String::from_str(
                "Array value must either be terminated or followed by a comma",
            ),
            ParserError::TrailingComma => String::from_str("Trailing commas are not allowed"),
        }
    }
}

} // verus!
