use vstd::prelude::*;

use std::ops::Range;

use vstd::string::{StringExecFns, StringSliceAdditionalSpecFns};
use vstd::utf8::{decode_utf8, valid_utf8};

use crate::error::{LexerError, LexerErrorKind, NumberError, StringError};

verus! {

/// Whitespace that may separate tokens: space, tab, line feed, carriage return.
pub open spec fn is_ws(b: u8) -> bool {
    b == 0x20u8 || b == 0x09u8 || b == 0x0au8 || b == 0x0du8
}

pub open spec fn is_digit(b: u8) -> bool {
    0x30u8 <= b <= 0x39u8
}

pub open spec fn is_alpha(b: u8) -> bool {
    (0x41u8 <= b <= 0x5au8) || (0x61u8 <= b <= 0x7au8)
}

pub open spec fn is_hex(b: u8) -> bool {
    is_digit(b) || (0x41u8 <= b <= 0x46u8) || (0x61u8 <= b <= 0x66u8)
}

pub open spec fn is_exp_marker(b: u8) -> bool {
    b == 0x65u8 || b == 0x45u8
}

pub open spec fn is_sign(b: u8) -> bool {
    b == 0x2bu8 || b == 0x2du8
}

/// The bytes that may directly follow a backslash in a string, other than `u`.
pub open spec fn is_simple_escape(b: u8) -> bool {
    b == 0x22u8 || b == 0x5cu8 || b == 0x2fu8 || b == 0x62u8 || b == 0x66u8 || b == 0x6eu8 || b == 0x72u8
        || b == 0x74u8
}

pub open spec fn is_punct(b: u8) -> bool {
    b == 0x3au8 || b == 0x2cu8 || b == 0x7bu8 || b == 0x7du8 || b == 0x5bu8 || b == 0x5du8
}

pub open spec fn punct_token(b: u8) -> Token {
    if b == 0x3au8 {
        Token::Colon
    } else if b == 0x2cu8 {
        Token::Comma
    } else if b == 0x7bu8 {
        Token::Lcurl
    } else if b == 0x7du8 {
        Token::Rcurl
    } else if b == 0x5bu8 {
        Token::Lsquare
    } else {
        Token::Rsquare
    }
}

/// Line number (from 1) of byte offset `p`: one more than the line feeds before it.
pub open spec fn line_at(input: Seq<u8>, p: int) -> int
    decreases p,
{
    if p <= 0 {
        1
    } else if input[p - 1] == 0x0au8 {
        line_at(input, p - 1) + 1
    } else {
        line_at(input, p - 1)
    }
}

/// Column (from 1) of byte offset `p`: one more than the bytes since the last line feed.
pub open spec fn col_at(input: Seq<u8>, p: int) -> int
    decreases p,
{
    if p <= 0 {
        1
    } else if input[p - 1] == 0x0au8 {
        1
    } else {
        col_at(input, p - 1) + 1
    }
}

/// The strict number grammar: an optional `-`, a digit, no leading zero
/// before another digit, at most one `.` and each followed by a digit, at
/// most one exponent marker and each followed by a sign or a digit, no `.`
/// after an exponent marker, a sign elsewhere than at the start only right
/// after an exponent marker and followed by a digit, and a digit at the end.
pub open spec fn number_ok(t: Seq<u8>) -> bool {
    let k: int = if t.len() > 0 && t[0] == 0x2du8 { 1 } else { 0 };
    &&& k < t.len() && is_digit(t[k])
    &&& (t[k] == 0x30u8 && k + 1 < t.len()) ==> !is_digit(t[k + 1])
    &&& forall|i: int|
        0 <= i < t.len() ==> (is_digit(#[trigger] t[i]) || t[i] == 0x2eu8 || is_exp_marker(t[i])
            || is_sign(t[i]))
    &&& forall|i: int| 0 < i < t.len() && is_sign(#[trigger] t[i]) ==> is_exp_marker(t[i - 1])
    &&& forall|i: int|
        0 < i < t.len() && is_sign(#[trigger] t[i]) ==> i + 1 < t.len() && is_digit(t[i + 1])
    &&& forall|i: int, j: int|
        0 <= i < j < t.len() && is_exp_marker(#[trigger] t[i]) ==> #[trigger] t[j] != 0x2eu8
    &&& is_digit(t[t.len() - 1])
    &&& forall|i: int, j: int|
        0 <= i < j < t.len() && #[trigger] t[i] == 0x2eu8 ==> #[trigger] t[j] != 0x2eu8
    &&& forall|i: int, j: int|
        0 <= i < j < t.len() && is_exp_marker(#[trigger] t[i]) ==> !is_exp_marker(
            #[trigger] t[j],
        )
    &&& forall|i: int|
        0 <= i < t.len() && #[trigger] t[i] == 0x2eu8 ==> i + 1 < t.len() && is_digit(t[i + 1])
    &&& forall|i: int|
        0 <= i < t.len() && is_exp_marker(#[trigger] t[i]) ==> i + 1 < t.len() && (is_digit(
            t[i + 1],
        ) || is_sign(t[i + 1]))
}

/// String content between the quotes: no raw quote or control byte, and a
/// backslash only at the start of a one-byte escape or of `u` with four hex digits.
pub open spec fn string_body_ok(b: Seq<u8>) -> bool
    decreases b.len(),
{
    if b.len() == 0 {
        true
    } else if b[0] == 0x5cu8 {
        b.len() >= 2 && ((is_simple_escape(b[1]) && string_body_ok(b.subrange(2, b.len() as int)))
            || (b[1] == 0x75u8 && b.len() >= 6 && is_hex(b[2]) && is_hex(b[3]) && is_hex(b[4])
            && is_hex(b[5]) && string_body_ok(b.subrange(6, b.len() as int))))
    } else {
        b[0] != 0x22u8 && b[0] >= 0x20u8 && string_body_ok(b.subrange(1, b.len() as int))
    }
}

/// The keyword token spelled by `t`, if any.
pub open spec fn keyword(t: Seq<u8>) -> Option<Token> {
    if t == seq![0x74u8, 0x72u8, 0x75u8, 0x65u8] {
        Some(Token::True)
    } else if t == seq![0x66u8, 0x61u8, 0x6cu8, 0x73u8, 0x65u8] {
        Some(Token::False)
    } else if t == seq![0x6eu8, 0x75u8, 0x6cu8, 0x6cu8] {
        Some(Token::Null)
    } else {
        None
    }
}

pub open spec fn span_in(input: Seq<u8>, r: Range<usize>) -> bool {
    r.start <= r.end <= input.len()
}

pub open spec fn span_of(input: Seq<u8>, r: Range<usize>) -> Seq<u8> {
    input.subrange(r.start as int, r.end as int)
}

/// What every token produced from `input` satisfies.
pub open spec fn token_ok(input: Seq<u8>, t: Token) -> bool {
    match t {
        Token::String(r) => span_in(input, r) && 1 <= r.start && r.end < input.len() && input[r.start
            - 1] == 0x22u8 && input[r.end as int] == 0x22u8 && string_body_ok(span_of(input, r)),
        Token::Number(r) => span_in(input, r) && number_ok(span_of(input, r)),
        Token::Eof => false,
        _ => true,
    }
}

pub open spec fn all_ws(input: Seq<u8>, from: int) -> bool {
    forall|i: int| from <= i < input.len() ==> is_ws(#[trigger] input[i])
}


/// What went wrong at a position of the input, as the scan sees it.
pub enum Fault {
    Unterminated,
    IncompleteEscape,
    InvalidEscape(u8),
    ControlCharacter(u8),
    ShortUnicodeEscape(Seq<u8>),
    MultipleDecimals,
    DecimalWithoutDigit,
    DecimalInExponent,
    MultipleExponents,
    ExponentWithoutFollower,
    ExponentSignWithoutDigit,
    LeadingZero,
    NegativeWithoutDigit,
    UnknownLiteral(Seq<u8>),
    UnexpectedByte(u8),
}

/// The outcome of scanning one token: the offset just past it, or a fault
/// and the offset where it was found.
pub enum Scan {
    Done(int),
    Fail(Fault, int),
}

/// The outcome of one step of the lexer from an offset.
pub enum Step {
    End,
    Tok(Token, int),
    Fail(Fault, int),
}

/// The outcome of lexing a whole input.
pub enum Lexed {
    Tokens(Seq<Token>),
    Fail(Fault, int),
}

/// The error value that reports fault `f`.
pub open spec fn reports(k: LexerErrorKind, f: Fault) -> bool {
    match f {
        Fault::Unterminated => k matches LexerErrorKind::InvalidString(StringError::Unterminated),
        Fault::IncompleteEscape => k matches LexerErrorKind::InvalidString(
            StringError::IncompleteEscape,
        ),
        Fault::InvalidEscape(b) => k == LexerErrorKind::InvalidString(
            StringError::InvalidEscape { escape: b },
        ),
        Fault::ControlCharacter(b) => k == LexerErrorKind::InvalidString(
            StringError::UnescapedControlCharacter { code: b },
        ),
        Fault::ShortUnicodeEscape(d) => k matches LexerErrorKind::InvalidString(
            StringError::InvalidUnicodeEscape { digits },
        ) && digits@ == lossy_text(d),
        Fault::MultipleDecimals => k matches LexerErrorKind::InvalidNumber(
            NumberError::InvalidDecimal { reason },
        ) && reason@ == "multiple decimal points found"@,
        Fault::DecimalWithoutDigit => k matches LexerErrorKind::InvalidNumber(
            NumberError::InvalidDecimal { reason },
        ) && reason@ == "decimal point must be followed by a digit"@,
        Fault::DecimalInExponent => k matches LexerErrorKind::InvalidNumber(
            NumberError::InvalidDecimal { reason },
        ) && reason@ == "decimal point cannot follow an exponent"@,
        Fault::ExponentSignWithoutDigit => k matches LexerErrorKind::InvalidNumber(
            NumberError::InvalidExponent { reason },
        ) && reason@ == "exponent sign must be followed by a digit"@,
        Fault::MultipleExponents => k matches LexerErrorKind::InvalidNumber(
            NumberError::InvalidExponent { reason },
        ) && reason@ == "multiple exponents found"@,
        Fault::ExponentWithoutFollower => k matches LexerErrorKind::InvalidNumber(
            NumberError::InvalidExponent { reason },
        ) && reason@ == "exponent must be followed by '+' or '-' or a digit"@,
        Fault::LeadingZero => k matches LexerErrorKind::InvalidNumber(NumberError::LeadingZero),
        Fault::NegativeWithoutDigit => k matches LexerErrorKind::InvalidNumber(
            NumberError::InvalidNegative { reason },
        ) && reason@ == "'-' must be followed by a digit"@,
        Fault::UnknownLiteral(t) => k matches LexerErrorKind::InvalidLiteral(s) && s@ == lossy_text(
            t,
        ),
        Fault::UnexpectedByte(b) => k == LexerErrorKind::InvalidToken(b),
    }
}

/// The first offset at or after `p` that does not hold whitespace.
pub open spec fn ws_end(input: Seq<u8>, p: int) -> int
    decreases input.len() - p,
{
    if 0 <= p < input.len() && is_ws(input[p]) {
        ws_end(input, p + 1)
    } else {
        p
    }
}

/// The first offset at or after `p` that does not hold a letter.
pub open spec fn alpha_end(input: Seq<u8>, p: int) -> int
    decreases input.len() - p,
{
    if 0 <= p < input.len() && is_alpha(input[p]) {
        alpha_end(input, p + 1)
    } else {
        p
    }
}

/// How many of the (at most four) bytes from `q + k` on are hex digits in a row, plus `k`.
pub open spec fn hex_run(input: Seq<u8>, q: int, k: int) -> int
    decreases 4 - k,
{
    if k < 4 && 0 <= q + k < input.len() && is_hex(input[q + k]) {
        hex_run(input, q, k + 1)
    } else {
        k
    }
}

/// Scans string content from `p` up to and including the closing quote.
pub open spec fn scan_string(input: Seq<u8>, p: int) -> Scan
    decreases input.len() - p,
{
    if p < 0 || p >= input.len() {
        Scan::Fail(Fault::Unterminated, p)
    } else if input[p] == 0x22u8 {
        Scan::Done(p + 1)
    } else if input[p] == 0x5cu8 {
        if p + 1 >= input.len() {
            Scan::Fail(Fault::IncompleteEscape, p + 1)
        } else if is_simple_escape(input[p + 1]) {
            scan_string(input, p + 2)
        } else if input[p + 1] == 0x75u8 {
            let n = hex_run(input, p + 2, 0);
            if n < 4 || p + 6 > input.len() {
                Scan::Fail(Fault::ShortUnicodeEscape(input.subrange(p + 2, p + 2 + n)), p + 2 + n)
            } else {
                scan_string(input, p + 6)
            }
        } else {
            Scan::Fail(Fault::InvalidEscape(input[p + 1]), p + 1)
        }
    } else if input[p] < 0x20u8 {
        Scan::Fail(Fault::ControlCharacter(input[p]), p)
    } else {
        scan_string(input, p + 1)
    }
}

/// Scans the rest of a number from `p`, given whether a `.` or an exponent
/// marker was already seen.
pub open spec fn scan_number_tail(input: Seq<u8>, p: int, dec: bool, exp: bool) -> Scan
    decreases input.len() - p,
{
    if p < 0 || p >= input.len() {
        Scan::Done(p)
    } else if input[p] == 0x2eu8 {
        if dec {
            Scan::Fail(Fault::MultipleDecimals, p)
        } else if exp {
            Scan::Fail(Fault::DecimalInExponent, p)
        } else if p + 1 < input.len() && is_digit(input[p + 1]) {
            scan_number_tail(input, p + 2, true, exp)
        } else {
            Scan::Fail(Fault::DecimalWithoutDigit, p + 1)
        }
    } else if is_exp_marker(input[p]) {
        if exp {
            Scan::Fail(Fault::MultipleExponents, p)
        } else if p + 1 < input.len() && is_digit(input[p + 1]) {
            scan_number_tail(input, p + 2, dec, true)
        } else if p + 1 < input.len() && is_sign(input[p + 1]) {
            if p + 2 < input.len() && is_digit(input[p + 2]) {
                scan_number_tail(input, p + 3, dec, true)
            } else {
                Scan::Fail(Fault::ExponentSignWithoutDigit, p + 2)
            }
        } else {
            Scan::Fail(Fault::ExponentWithoutFollower, p + 1)
        }
    } else if is_digit(input[p]) {
        scan_number_tail(input, p + 1, dec, exp)
    } else {
        Scan::Done(p)
    }
}

/// Scans a number that starts at `p` with `-` or a digit.
pub open spec fn scan_number(input: Seq<u8>, p: int) -> Scan {
    let q = if input[p] == 0x2du8 { p + 1 } else { p };
    if input[p] == 0x2du8 && !(q < input.len() && is_digit(input[q])) {
        Scan::Fail(Fault::NegativeWithoutDigit, q)
    } else if input[q] == 0x30u8 && q + 1 < input.len() && is_digit(input[q + 1]) {
        Scan::Fail(Fault::LeadingZero, q + 1)
    } else {
        scan_number_tail(input, q + 1, false, false)
    }
}

/// One step of the lexer from offset `p`: skip whitespace, then read one token.
pub open spec fn next_step(input: Seq<u8>, p: int) -> Step {
    let q = ws_end(input, p);
    if q >= input.len() {
        Step::End
    } else if is_punct(input[q]) {
        Step::Tok(punct_token(input[q]), q + 1)
    } else if input[q] == 0x22u8 {
        match scan_string(input, q + 1) {
            Scan::Done(e) => Step::Tok(
                Token::String(Range { start: (q + 1) as usize, end: (e - 1) as usize }),
                e,
            ),
            Scan::Fail(f, at) => Step::Fail(f, at),
        }
    } else if is_alpha(input[q]) {
        let e = alpha_end(input, q);
        match keyword(input.subrange(q, e)) {
            Some(t) => Step::Tok(t, e),
            None => Step::Fail(Fault::UnknownLiteral(input.subrange(q, e)), e),
        }
    } else if input[q] == 0x2du8 || is_digit(input[q]) {
        match scan_number(input, q) {
            Scan::Done(e) => Step::Tok(Token::Number(Range { start: q as usize, end: e as usize }), e),
            Scan::Fail(f, at) => Step::Fail(f, at),
        }
    } else {
        Step::Fail(Fault::UnexpectedByte(input[q]), q)
    }
}

/// Lexes the input from offset `p` to its end.
pub open spec fn lex_from(input: Seq<u8>, p: int) -> Lexed
    decreases input.len() - p,
{
    match next_step(input, p) {
        Step::End => Lexed::Tokens(Seq::empty()),
        Step::Fail(f, at) => Lexed::Fail(f, at),
        Step::Tok(t, e) => if p < e <= input.len() {
            match lex_from(input, e) {
                Lexed::Tokens(ts) => Lexed::Tokens(seq![t] + ts),
                Lexed::Fail(f, at) => Lexed::Fail(f, at),
            }
        } else {
            Lexed::Fail(Fault::UnexpectedByte(0u8), p)
        },
    }
}

/// The tokens `done`, followed by what lexing from `p` gives.
pub open spec fn lex_after(input: Seq<u8>, done: Seq<Token>, p: int) -> Lexed {
    match lex_from(input, p) {
        Lexed::Tokens(ts) => Lexed::Tokens(done + ts),
        Lexed::Fail(f, at) => Lexed::Fail(f, at),
    }
}

/// Every well-formed number text, followed by the end of the input or by a
/// byte that cannot continue a number, is read as one number token.
pub proof fn number_text_scans(input: Seq<u8>, p: int, n: int)
    requires
        0 <= p,
        0 <= n,
        p + n <= input.len(),
        number_ok(input.subrange(p, p + n)),
        p + n < input.len() ==> !(is_digit(input[p + n]) || input[p + n] == 0x2eu8 || is_exp_marker(
            input[p + n],
        )),
    ensures
        scan_number(input, p) == Scan::Done(p + n),
        next_step(input, p) == Step::Tok(
            Token::Number(Range { start: p as usize, end: (p + n) as usize }),
            p + n,
        ),
{
    let t = input.subrange(p, p + n);
    assert(forall|i: int| 0 <= i < n ==> t[i] == input[p + i]);
    let k: int = if t[0] == 0x2du8 { 1 } else { 0 };
    assert(input[p] == t[0] && input[p + k] == t[k]);
    if k + 1 < n && is_sign(t[k + 1]) {
        assert(is_exp_marker(t[k]));
    }
    lemma_number_tail_scans(input, p, n, k + 1, false, false);
    assert(ws_end(input, p) == p);
}

proof fn lemma_number_tail_scans(input: Seq<u8>, p: int, n: int, j: int, dec: bool, exp: bool)
    requires
        0 <= p,
        p + n <= input.len(),
        number_ok(input.subrange(p, p + n)),
        p + n < input.len() ==> !(is_digit(input[p + n]) || input[p + n] == 0x2eu8 || is_exp_marker(
            input[p + n],
        )),
        1 <= j <= n,
        j < n ==> !is_sign(input[p + j]),
        dec ==> exists|i: int| 0 <= i < j && #[trigger] input[p + i] == 0x2eu8,
        exp ==> exists|i: int| 0 <= i < j && is_exp_marker(#[trigger] input[p + i]),
    ensures
        scan_number_tail(input, p + j, dec, exp) == Scan::Done(p + n),
    decreases n - j,
{
    let t = input.subrange(p, p + n);
    assert(forall|i: int| 0 <= i < n ==> t[i] == input[p + i]);
    if j < n {
        let b = input[p + j];
        assert(t[j] == b);
        if b == 0x2eu8 {
            if dec {
                let i = choose|i: int| 0 <= i < j && #[trigger] input[p + i] == 0x2eu8;
                assert(t[i] == 0x2eu8);
            }
            if exp {
                let i = choose|i: int| 0 <= i < j && is_exp_marker(#[trigger] input[p + i]);
                assert(is_exp_marker(t[i]));
            }
            assert(is_digit(t[j + 1]));
            if j + 2 < n && is_sign(t[j + 2]) {
                assert(is_exp_marker(t[j + 1]));
            }
            lemma_number_tail_scans(input, p, n, j + 2, true, exp);
        } else if is_exp_marker(b) {
            if exp {
                let i = choose|i: int| 0 <= i < j && is_exp_marker(#[trigger] input[p + i]);
                assert(is_exp_marker(t[i]));
            }
            if is_digit(t[j + 1]) {
                if j + 2 < n && is_sign(t[j + 2]) {
                    assert(is_exp_marker(t[j + 1]));
                }
                lemma_number_tail_scans(input, p, n, j + 2, dec, true);
            } else {
                assert(is_sign(t[j + 1]));
                assert(is_digit(t[j + 2]));
                if j + 3 < n && is_sign(t[j + 3]) {
                    assert(is_exp_marker(t[j + 2]));
                }
                lemma_number_tail_scans(input, p, n, j + 3, dec, true);
            }
        } else {
            assert(is_digit(b));
            if j + 1 < n && is_sign(t[j + 1]) {
                assert(is_exp_marker(t[j]));
            }
            lemma_number_tail_scans(input, p, n, j + 1, dec, exp);
        }
    }
}

/// Every well-formed string content between two quotes is read as one
/// string token spanning that content.
pub proof fn string_text_scans(input: Seq<u8>, p: int, n: int)
    requires
        0 <= p,
        0 <= n,
        p + n + 1 < input.len(),
        input[p] == 0x22u8,
        string_body_ok(input.subrange(p + 1, p + 1 + n)),
        input[p + 1 + n] == 0x22u8,
    ensures
        next_step(input, p) == Step::Tok(
            Token::String(Range { start: (p + 1) as usize, end: (p + 1 + n) as usize }),
            p + n + 2,
        ),
{
    lemma_body_scans(input, p + 1, p + 1 + n);
    assert(ws_end(input, p) == p);
}

proof fn lemma_body_scans(input: Seq<u8>, a: int, e: int)
    requires
        0 <= a <= e < input.len(),
        string_body_ok(input.subrange(a, e)),
        input[e] == 0x22u8,
    ensures
        scan_string(input, a) == Scan::Done(e + 1),
    decreases e - a,
{
    let b = input.subrange(a, e);
    if a < e {
        assert(b[0] == input[a]);
        if b[0] == 0x5cu8 {
            assert(b[1] == input[a + 1]);
            if is_simple_escape(b[1]) {
                assert(b.subrange(2, b.len() as int) =~= input.subrange(a + 2, e));
                lemma_body_scans(input, a + 2, e);
            } else {
                assert(b[2] == input[a + 2] && b[3] == input[a + 3] && b[4] == input[a + 4] && b[5]
                    == input[a + 5]);
                reveal_with_fuel(hex_run, 5);
                assert(hex_run(input, a + 2, 0) == 4);
                assert(b.subrange(6, b.len() as int) =~= input.subrange(a + 6, e));
                lemma_body_scans(input, a + 6, e);
            }
        } else {
            assert(b.subrange(1, b.len() as int) =~= input.subrange(a + 1, e));
            lemma_body_scans(input, a + 1, e);
        }
    }
}

proof fn lemma_line_col_bounds(input: Seq<u8>, p: int)
    requires
        0 <= p <= input.len(),
    ensures
        1 <= line_at(input, p) <= p + 1,
        1 <= col_at(input, p) <= p + 1,
    decreases p,
{
    if p > 0 {
        lemma_line_col_bounds(input, p - 1);
    }
}

proof fn lemma_body_concat(a: Seq<u8>, c: Seq<u8>)
    requires
        string_body_ok(a),
        string_body_ok(c),
    ensures
        string_body_ok(a + c),
    decreases a.len(),
{
    let ac = a + c;
    if a.len() == 0 {
        assert(ac =~= c);
    } else if a[0] == 0x5cu8 {
        if is_simple_escape(a[1]) && string_body_ok(a.subrange(2, a.len() as int)) {
            lemma_body_concat(a.subrange(2, a.len() as int), c);
            assert(ac.subrange(2, ac.len() as int) =~= a.subrange(2, a.len() as int) + c);
        } else {
            lemma_body_concat(a.subrange(6, a.len() as int), c);
            assert(ac.subrange(6, ac.len() as int) =~= a.subrange(6, a.len() as int) + c);
        }
    } else {
        lemma_body_concat(a.subrange(1, a.len() as int), c);
        assert(ac.subrange(1, ac.len() as int) =~= a.subrange(1, a.len() as int) + c);
    }
}


/// Appending a digit, `.` and a digit, or an exponent marker and a sign or
/// digit keeps a number well formed, under the conditions the scanner checks.
proof fn lemma_number_extend(t: Seq<u8>, u: Seq<u8>)
    requires
        number_ok(t),
        (u.len() == 1 && is_digit(u[0]) && !(t[t.len() - 1] == 0x30u8 && t.len() == (if t[0]
            == 0x2du8 {
            2int
        } else {
            1int
        }))) || (u.len() == 2 && u[0] == 0x2eu8 && is_digit(u[1]) && forall|i: int|
            0 <= i < t.len() ==> #[trigger] t[i] != 0x2eu8 && !is_exp_marker(t[i])) || (
        u.len() == 2 && is_exp_marker(u[0]) && is_digit(u[1]) && forall|i: int|
            0 <= i < t.len() ==> !is_exp_marker(#[trigger] t[i])) || (u.len() == 3
            && is_exp_marker(u[0]) && is_sign(u[1]) && is_digit(u[2]) && forall|i: int|
            0 <= i < t.len() ==> !is_exp_marker(#[trigger] t[i])),
    ensures
        number_ok(t + u),
{
    let v = t + u;
    assert(forall|i: int| 0 <= i < t.len() ==> v[i] == t[i]);
    assert(forall|i: int| 0 <= i < u.len() ==> v[t.len() + i] == u[i]);
}

/// The scanner's step from `input[start..p]` to `input[start..q]`, stated on the input.
proof fn lemma_number_step(input: Seq<u8>, start: int, p: int, q: int)
    requires
        0 <= start < p < q <= input.len(),
        number_ok(input.subrange(start, p)),
        (q == p + 1 && is_digit(input[p]) && !(input[p - 1] == 0x30u8 && p - start == (if input[start]
            == 0x2du8 {
            2int
        } else {
            1int
        }))) || (q == p + 2 && input[p] == 0x2eu8 && is_digit(input[p + 1]) && forall|i: int|
            start <= i < p ==> #[trigger] input[i] != 0x2eu8 && !is_exp_marker(input[i])) || (q == p
            + 2 && is_exp_marker(input[p]) && is_digit(input[p + 1]) && forall|i: int|
            start <= i < p ==> !is_exp_marker(#[trigger] input[i])) || (q == p + 3 && is_exp_marker(
            input[p],
        ) && is_sign(input[p + 1]) && is_digit(input[p + 2]) && forall|i: int|
            start <= i < p ==> !is_exp_marker(#[trigger] input[i])),
    ensures
        number_ok(input.subrange(start, q)),
{
    let t = input.subrange(start, p);
    let u = input.subrange(p, q);
    assert(t + u =~= input.subrange(start, q));
    assert(forall|i: int| 0 <= i < t.len() ==> t[i] == input[start + i]);
    lemma_number_extend(t, u);
}

#[derive(Debug, PartialEq, Eq)]
pub enum Token {
    Colon,
    Comma,
    Lcurl,
    Rcurl,
    Lsquare,
    Rsquare,
    Eof,
    String(Range<usize>),
    Number(Range<usize>),
    True,
    False,
    Null,
}

impl Clone for Token {
    fn clone(&self) -> (r: Token)
        ensures
            r == *self,
    {
        match self {
            Token::Colon => Token::Colon,
            Token::Comma => Token::Comma,
            Token::Lcurl => Token::Lcurl,
            Token::Rcurl => Token::Rcurl,
            Token::Lsquare => Token::Lsquare,
            Token::Rsquare => Token::Rsquare,
            Token::Eof => Token::Eof,
            Token::String(r) => Token::String(Range { start: r.start, end: r.end }),
            Token::Number(r) => Token::Number(Range { start: r.start, end: r.end }),
            Token::True => Token::True,
            Token::False => Token::False,
            Token::Null => Token::Null,
        }
    }
}

impl Token {
    /// The punctuation token of byte `b`, or `InvalidToken(b)`.
    pub fn from_byte(b: u8) -> (r: Result<Token, LexerErrorKind>)
        ensures
            is_punct(b) ==> r == Ok::<Token, LexerErrorKind>(punct_token(b)),
            !is_punct(b) ==> r == Err::<Token, LexerErrorKind>(LexerErrorKind::InvalidToken(b)),
    {
        let token = match b {
            0x3au8 => Token::Colon,
            0x2cu8 => Token::Comma,
            0x7bu8 => Token::Lcurl,
            0x7du8 => Token::Rcurl,
            0x5bu8 => Token::Lsquare,
            0x5du8 => Token::Rsquare,
            _ => {
                return Err(LexerErrorKind::InvalidToken(b));
            },
        };
        Ok(token)
    }

    /// Renders the token for a dump, reading span text from `input`.
    pub fn to_string(&self, input: &[u8]) -> (r: String)
        requires
            token_spans_in(input@, *self),
        ensures
            r@ == token_text(input@, *self),
    {
        match self {
            Token::Colon => String::from_str("Colon"),
            Token::Comma => String::from_str("Comma"),
            Token::Lcurl => String::from_str("Lcurl"),
            Token::Rcurl => String::from_str("Rcurl"),
            Token::Lsquare => String::from_str("Lsquare"),
            Token::Rsquare => String::from_str("Rsquare"),
            Token::Eof => String::from_str("Eof"),
            Token::True => String::from_str("True"),
            Token::False => String::from_str("False"),
            Token::Null => String::from_str("Null"),
            Token::String(r) => render_span("String", input, r),
            Token::Number(r) => render_span("Number", input, r),
        }
    }
}

/// A scanner over a byte buffer that tracks its offset, line and column.
pub struct Lexer<'a> {
    input: &'a [u8],
    pos: usize,
    line: usize,
    col: usize,
}

impl<'a> Lexer<'a> {
    pub closed spec fn input(&self) -> Seq<u8> {
        self.input@
    }

    pub closed spec fn pos(&self) -> int {
        self.pos as int
    }

    pub closed spec fn wf(&self) -> bool {
        &&& self.input@.len() < usize::MAX
        &&& self.pos <= self.input@.len()
        &&& self.line == line_at(self.input@, self.pos as int)
        &&& self.col == col_at(self.input@, self.pos as int)
    }

    pub fn new(input: &'a [u8]) -> (r: Self)
        requires
            input@.len() < usize::MAX,
        ensures
            r.wf(),
            r.input() == input@,
            r.pos() == 0,
    {
        Lexer { input, pos: 0, line: 1, col: 1 }
    }

    fn curr(&self) -> (r: Option<u8>)
        requires
            self.wf(),
        ensures
            r == (if self.pos < self.input@.len() {
                Some(self.input@[self.pos as int])
            } else {
                None::<u8>
            }),
    {
        if self.pos < self.input.len() {
            Some(self.input[self.pos])
        } else {
            None
        }
    }

    fn advance(&mut self)
        requires
            old(self).wf(),
            old(self).pos < old(self).input@.len(),
        ensures
            final(self).wf(),
            final(self).input == old(self).input,
            final(self).pos == old(self).pos + 1,
    {
        proof {
            lemma_line_col_bounds(self.input@, self.pos as int);
        }
        let b = self.input[self.pos];
        self.pos = self.pos + 1;
        if b == 0x0au8 {
            self.line = self.line + 1;
            self.col = 1;
        } else {
            self.col = self.col + 1;
        }
    }

    fn skip_whitespace(&mut self)
        requires
            old(self).wf(),
        ensures
            final(self).wf(),
            final(self).input == old(self).input,
            old(self).pos <= final(self).pos,
            forall|i: int| old(self).pos <= i < final(self).pos ==> is_ws(#[trigger] old(self).input@[i]),
            final(self).pos < old(self).input@.len() ==> !is_ws(old(self).input@[final(self).pos as int]),
            final(self).pos == ws_end(old(self).input@, old(self).pos as int),
    {
        while self.pos < self.input.len() && is_ws_byte(self.input[self.pos])
            invariant
                self.wf(),
                self.input == old(self).input,
                old(self).pos <= self.pos,
                forall|i: int| old(self).pos <= i < self.pos ==> is_ws(#[trigger] self.input@[i]),
                ws_end(self.input@, self.pos as int) == ws_end(self.input@, old(self).pos as int),
            decreases self.input@.len() - self.pos,
        {
            self.advance();
        }
    }

    fn read_unicode_escape(&mut self) -> (r: Result<(), LexerErrorKind>)
        requires
            old(self).wf(),
            old(self).pos < old(self).input@.len(),
            old(self).input@[old(self).pos as int] == 0x75u8,
        ensures
            final(self).wf(),
            final(self).input == old(self).input,
            old(self).pos < final(self).pos,
            r is Ok ==> final(self).pos == old(self).pos + 5 && forall|i: int|
                old(self).pos < i < final(self).pos ==> is_hex(#[trigger] old(self).input@[i]),
            hex_run(old(self).input@, old(self).pos + 1, 0) <= 4,
            r is Ok <==> hex_run(old(self).input@, old(self).pos + 1, 0) == 4,
            final(self).pos == old(self).pos + 1 + hex_run(old(self).input@, old(self).pos + 1, 0),
            r matches Err(e) ==> reports(
                e,
                Fault::ShortUnicodeEscape(
                    old(self).input@.subrange(old(self).pos + 1, final(self).pos as int),
                ),
            ),
    {
        self.advance();
        let start = self.pos;
        let mut n: usize = 0;
        while n < 4 && self.pos < self.input.len() && is_hex_byte(self.input[self.pos])
            invariant
                self.wf(),
                self.input == old(self).input,
                start == old(self).pos + 1,
                self.pos == start + n,
                n <= 4,
                forall|i: int| start <= i < self.pos ==> is_hex(#[trigger] self.input@[i]),
                hex_run(self.input@, start as int, n as int) == hex_run(self.input@, start as int, 0),
            decreases 4 - n,
        {
            self.advance();
            n = n + 1;
        }
        if n < 4 {
            let digits = lossy_string(vstd::slice::slice_subrange(self.input, start, self.pos));
            return Err(LexerErrorKind::InvalidString(StringError::InvalidUnicodeEscape { digits }));
        }
        Ok(())
    }

    fn read_string(&mut self) -> (r: Result<Token, LexerErrorKind>)
        requires
            old(self).wf(),
            old(self).pos < old(self).input@.len(),
            old(self).input@[old(self).pos as int] == 0x22u8,
        ensures
            final(self).wf(),
            final(self).input == old(self).input,
            old(self).pos < final(self).pos,
            r matches Ok(t) ==> token_ok(old(self).input@, t),
            ({
                match scan_string(old(self).input@, old(self).pos + 1) {
                    Scan::Done(e) => r == Ok::<Token, LexerErrorKind>(
                        Token::String(Range { start: (old(self).pos + 1) as usize, end: (e - 1) as usize }),
                    ) && final(self).pos == e,
                    Scan::Fail(f, at) => r matches Err(k) && reports(k, f) && final(self).pos == at,
                }
            }),
    {
        self.advance();
        let start = self.pos;
        while self.pos < self.input.len()
            invariant
                self.wf(),
                self.input == old(self).input,
                start == old(self).pos + 1,
                start <= self.pos,
                self.input@[start - 1] == 0x22u8,
                string_body_ok(self.input@.subrange(start as int, self.pos as int)),
                scan_string(self.input@, self.pos as int) == scan_string(self.input@, start as int),
            decreases self.input@.len() - self.pos,
        {
            let ghost p = self.pos as int;
            let ghost inp = self.input@;
            let b = self.input[self.pos];
            if b == 0x22 {
                let end = self.pos;
                self.advance();
                return Ok(Token::String(Range { start, end }));
            } else if b == 0x5c {
                self.advance();
                match self.curr() {
                    None => {
                        return Err(LexerErrorKind::InvalidString(StringError::IncompleteEscape));
                    },
                    Some(e) => {
                        if is_simple_escape_byte(e) {
                            self.advance();
                            proof {
                                reveal_with_fuel(string_body_ok, 2);
                                lemma_body_concat(inp.subrange(start as int, p), inp.subrange(p, p + 2));
                                assert(inp.subrange(start as int, p) + inp.subrange(p, p + 2)
                                    =~= inp.subrange(start as int, p + 2));
                            }
                        } else if e == 0x75 {
                            match self.read_unicode_escape() {
                                Ok(()) => {},
                                Err(k) => {
                                    return Err(k);
                                },
                            }
                            proof {
                                reveal_with_fuel(string_body_ok, 2);
                                let u = inp.subrange(p, p + 6);
                                assert(is_hex(inp[p + 2]) && is_hex(inp[p + 3]) && is_hex(inp[p + 4])
                                    && is_hex(inp[p + 5]));
                                assert(u.subrange(6, 6) =~= Seq::<u8>::empty());
                                assert(string_body_ok(u));
                                lemma_body_concat(inp.subrange(start as int, p), u);
                                assert(inp.subrange(start as int, p) + u =~= inp.subrange(
                                    start as int,
                                    p + 6,
                                ));
                            }
                        } else {
                            return Err(
                                LexerErrorKind::InvalidString(StringError::InvalidEscape { escape: e }),
                            );
                        }
                    },
                }
            } else if b < 0x20 {
                return Err(
                    LexerErrorKind::InvalidString(
                        StringError::UnescapedControlCharacter { code: b },
                    ),
                );
            } else {
                self.advance();
                proof {
                    reveal_with_fuel(string_body_ok, 2);
                    lemma_body_concat(inp.subrange(start as int, p), inp.subrange(p, p + 1));
                    assert(inp.subrange(start as int, p) + inp.subrange(p, p + 1) =~= inp.subrange(
                        start as int,
                        p + 1,
                    ));
                }
            }
        }
        Err(LexerErrorKind::InvalidString(StringError::Unterminated))
    }
}

impl<'a> Lexer<'a> {
    fn read_number(&mut self) -> (r: Result<Token, LexerErrorKind>)
        requires
            old(self).wf(),
            old(self).pos < old(self).input@.len(),
            old(self).input@[old(self).pos as int] == 0x2du8 || is_digit(
                old(self).input@[old(self).pos as int],
            ),
        ensures
            final(self).wf(),
            final(self).input == old(self).input,
            old(self).pos <= final(self).pos,
            r matches Ok(t) ==> old(self).pos < final(self).pos && token_ok(old(self).input@, t),
            ({
                match scan_number(old(self).input@, old(self).pos as int) {
                    Scan::Done(e) => r == Ok::<Token, LexerErrorKind>(
                        Token::Number(Range { start: old(self).pos as usize, end: e as usize }),
                    ) && final(self).pos == e,
                    Scan::Fail(f, at) => r matches Err(k) && reports(k, f) && final(self).pos == at,
                }
            }),
    {
        let start = self.pos;
        if self.input[self.pos] == 0x2d {
            self.advance();
            if !(self.pos < self.input.len() && is_digit_byte(self.input[self.pos])) {
                return Err(
                    LexerErrorKind::InvalidNumber(
                        NumberError::InvalidNegative { reason: "'-' must be followed by a digit" },
                    ),
                );
            }
        }
        let first = self.pos;
        if self.input[first] == 0x30 && first + 1 < self.input.len() && is_digit_byte(
            self.input[first + 1],
        ) {
            self.advance();
            return Err(LexerErrorKind::InvalidNumber(NumberError::LeadingZero));
        }
        self.advance();
        let mut found_decimal = false;
        let mut found_exponent = false;
        let mut done = false;
        let mut err: Option<NumberError> = None;
        while !done && self.pos < self.input.len()
            invariant
                self.wf(),
                self.input == old(self).input,
                start == old(self).pos,
                first == start || (first == start + 1 && self.input@[start as int] == 0x2du8),
                first < self.pos,
                is_digit(self.input@[first as int]),
                self.input@[first as int] == 0x30u8 && self.pos == first + 1 && self.pos
                    < self.input@.len() ==> !is_digit(self.input@[self.pos as int]),
                err is Some ==> done,
                err is None ==> number_ok(self.input@.subrange(start as int, self.pos as int)),
                err is None && !done ==> scan_number(self.input@, start as int) == scan_number_tail(
                    self.input@,
                    self.pos as int,
                    found_decimal,
                    found_exponent,
                ),
                err is None && done ==> scan_number(self.input@, start as int) == Scan::Done(
                    self.pos as int,
                ),
                err matches Some(e) ==> (scan_number(self.input@, start as int) matches Scan::Fail(
                    f,
                    at,
                ) && at == self.pos && reports(LexerErrorKind::InvalidNumber(e), f)),
                !found_decimal ==> forall|i: int|
                    start <= i < self.pos ==> #[trigger] self.input@[i] != 0x2eu8,
                !found_exponent ==> forall|i: int|
                    start <= i < self.pos ==> !is_exp_marker(#[trigger] self.input@[i]),
            decreases self.input@.len() - self.pos + if done { 0int } else { 1int },
        {
            let ghost p = self.pos as int;
            let ghost prev = self.input@.subrange(start as int, p);
            let b = self.input[self.pos];
            if b == 0x2e {
                if found_decimal {
                    err = Some(NumberError::InvalidDecimal { reason: "multiple decimal points found" });
                    done = true;
                } else if found_exponent {
                    err = Some(
                        NumberError::InvalidDecimal { reason: "decimal point cannot follow an exponent" },
                    );
                    done = true;
                } else {
                    found_decimal = true;
                    self.advance();
                    if self.pos < self.input.len() && is_digit_byte(self.input[self.pos]) {
                        self.advance();
                        proof {
                            lemma_number_step(self.input@, start as int, p, p + 2);
                        }
                    } else {
                        err = Some(
                            NumberError::InvalidDecimal {
                                reason: "decimal point must be followed by a digit",
                            },
                        );
                        done = true;
                    }
                }
            } else if b == 0x65 || b == 0x45 {
                if found_exponent {
                    err = Some(NumberError::InvalidExponent { reason: "multiple exponents found" });
                    done = true;
                } else {
                    found_exponent = true;
                    self.advance();
                    if self.pos < self.input.len() && is_digit_byte(self.input[self.pos]) {
                        self.advance();
                        proof {
                            lemma_number_step(self.input@, start as int, p, p + 2);
                        }
                    } else if self.pos < self.input.len() && (self.input[self.pos] == 0x2b
                        || self.input[self.pos] == 0x2d) {
                        self.advance();
                        if self.pos < self.input.len() && is_digit_byte(self.input[self.pos]) {
                            self.advance();
                            proof {
                                lemma_number_step(self.input@, start as int, p, p + 3);
                            }
                        } else {
                            err = Some(
                                NumberError::InvalidExponent {
                                    reason: "exponent sign must be followed by a digit",
                                },
                            );
                            done = true;
                        }
                    } else {
                        err = Some(
                            NumberError::InvalidExponent {
                                reason: "exponent must be followed by '+' or '-' or a digit",
                            },
                        );
                        done = true;
                    }
                }
            } else if is_digit_byte(b) {
                self.advance();
                proof {
                    lemma_number_step(self.input@, start as int, p, p + 1);
                }
            } else {
                done = true;
            }
        }
        match err {
            Some(e) => Err(LexerErrorKind::InvalidNumber(e)),
            None => Ok(Token::Number(Range { start, end: self.pos })),
        }
    }
}

impl<'a> Lexer<'a> {
    fn read_literal(&mut self) -> (r: Result<Token, LexerErrorKind>)
        requires
            old(self).wf(),
            old(self).pos < old(self).input@.len(),
            is_alpha(old(self).input@[old(self).pos as int]),
        ensures
            final(self).wf(),
            final(self).input == old(self).input,
            old(self).pos < final(self).pos,
            forall|i: int|
                old(self).pos <= i < final(self).pos ==> is_alpha(#[trigger] old(self).input@[i]),
            final(self).pos < old(self).input@.len() ==> !is_alpha(
                old(self).input@[final(self).pos as int],
            ),
            final(self).pos == alpha_end(old(self).input@, old(self).pos as int),
            ({
                let text = old(self).input@.subrange(old(self).pos as int, final(self).pos as int);
                match keyword(text) {
                    Some(t) => r == Ok::<Token, LexerErrorKind>(t),
                    None => r matches Err(LexerErrorKind::InvalidLiteral(s)) && s@ == lossy_text(text),
                }
            }),
    {
        let start = self.pos;
        while self.pos < self.input.len() && is_alpha_byte(self.input[self.pos])
            invariant
                self.wf(),
                self.input == old(self).input,
                start == old(self).pos,
                start <= self.pos,
                forall|i: int| start <= i < self.pos ==> is_alpha(#[trigger] self.input@[i]),
                alpha_end(self.input@, self.pos as int) == alpha_end(self.input@, start as int),
            decreases self.input@.len() - self.pos,
        {
            self.advance();
        }
        let bytes = vstd::slice::slice_subrange(self.input, start, self.pos);
        match keyword_of(bytes) {
            Some(t) => Ok(t),
            None => Err(LexerErrorKind::InvalidLiteral(lossy_string(bytes))),
        }
    }

    fn next_token(&mut self) -> (r: Result<Token, LexerErrorKind>)
        requires
            old(self).wf(),
        ensures
            final(self).wf(),
            final(self).input == old(self).input,
            old(self).pos <= final(self).pos,
            all_ws(old(self).input@, old(self).pos as int) <==> r == Ok::<Token, LexerErrorKind>(
                Token::Eof,
            ),
            r is Ok && !(r->Ok_0 is Eof) ==> old(self).pos < final(self).pos && token_ok(
                old(self).input@,
                r->Ok_0,
            ),
            ({
                match next_step(old(self).input@, old(self).pos as int) {
                    Step::End => r == Ok::<Token, LexerErrorKind>(Token::Eof),
                    Step::Tok(t, e) => r == Ok::<Token, LexerErrorKind>(t) && final(self).pos == e,
                    Step::Fail(f, at) => r matches Err(k) && reports(k, f) && final(self).pos == at,
                }
            }),
    {
        self.skip_whitespace();
        if self.pos >= self.input.len() {
            return Ok(Token::Eof);
        }
        let b = self.input[self.pos];
        let r = Token::from_byte(b);
        if r.is_ok() {
            self.advance();
            return r;
        }
        if b == 0x22 {
            self.read_string()
        } else if is_alpha_byte(b) {
            self.read_literal()
        } else if b == 0x2d || is_digit_byte(b) {
            self.read_number()
        } else {
            Err(LexerErrorKind::InvalidToken(b))
        }
    }

    /// Scans the whole input into tokens, or stops at the first lexical error
    /// and reports it at the line and column where scanning stopped.
    pub fn lex(&mut self) -> (r: Result<Vec<Token>, LexerError>)
        requires
            old(self).wf(),
        ensures
            final(self).wf(),
            final(self).input() == old(self).input(),
            r matches Ok(toks) ==> forall|i: int|
                0 <= i < toks@.len() ==> token_ok(old(self).input(), #[trigger] toks@[i]),
            r matches Ok(toks) ==> toks@.len() <= old(self).input().len(),
            r matches Err(e) ==> e.line == line_at(old(self).input(), final(self).pos()) && e.col
                == col_at(old(self).input(), final(self).pos()),
            all_ws(old(self).input(), old(self).pos()) ==> (r matches Ok(toks) && toks@.len() == 0),
            ({
                match lex_from(old(self).input(), old(self).pos()) {
                    Lexed::Tokens(ts) => r matches Ok(toks) && toks@ == ts,
                    Lexed::Fail(f, at) => r matches Err(e) && reports(e.kind, f) && at
                        == final(self).pos(),
                }
            }),
    {
        let mut tokens: Vec<Token> = Vec::new();
        loop
            invariant
                self.wf(),
                self.input == old(self).input,
                old(self).pos <= self.pos,
                forall|i: int|
                    0 <= i < tokens@.len() ==> token_ok(old(self).input@, #[trigger] tokens@[i]),
                all_ws(old(self).input@, old(self).pos as int) ==> self.pos == old(self).pos
                    && tokens@.len() == 0,
                tokens@.len() <= self.pos - old(self).pos,
                lex_after(self.input@, tokens@, self.pos as int) == lex_from(
                    self.input@,
                    old(self).pos as int,
                ),
            decreases self.input@.len() - self.pos,
        {
            let ghost p = self.pos;
            match self.next_token() {
                Err(kind) => {
                    return Err(LexerError { kind, line: self.line, col: self.col });
                },
                Ok(Token::Eof) => {
                    return Ok(tokens);
                },
                Ok(token) => {
                    let ghost before = tokens@;
                    proof {
                        if all_ws(old(self).input@, old(self).pos as int) {
                            assert(all_ws(old(self).input@, p as int));
                        }
                    }
                    tokens.push(token);
                    proof {
                        match lex_from(self.input@, self.pos as int) {
                            Lexed::Tokens(ts) => {
                                assert(before + (seq![token] + ts) =~= tokens@ + ts);
                            },
                            Lexed::Fail(f, at) => {},
                        }
                    }
                },
            }
        }
    }
}

fn keyword_of(t: &[u8]) -> (r: Option<Token>)
    ensures
        r == keyword(t@),
{
    if t.len() == 4 && t[0] == 0x74 && t[1] == 0x72 && t[2] == 0x75 && t[3] == 0x65 {
        assert(t@ =~= seq![0x74u8, 0x72u8, 0x75u8, 0x65u8]);
        Some(Token::True)
    } else if t.len() == 5 && t[0] == 0x66 && t[1] == 0x61 && t[2] == 0x6c && t[3] == 0x73 && t[4]
        == 0x65 {
        assert(t@ =~= seq![0x66u8, 0x61u8, 0x6cu8, 0x73u8, 0x65u8]);
        Some(Token::False)
    } else if t.len() == 4 && t[0] == 0x6e && t[1] == 0x75 && t[2] == 0x6c && t[3] == 0x6c {
        assert(t@ =~= seq![0x6eu8, 0x75u8, 0x6cu8, 0x6cu8]);
        Some(Token::Null)
    } else {
        None
    }
}

/// Relies on `std::str::from_utf8`: it succeeds exactly on valid UTF-8, and
/// the `str` it returns holds those same bytes.
#[verifier::external_body]
pub(crate) fn utf8_str(b: &[u8]) -> (r: Option<&str>)
    ensures
        r is Some <==> valid_utf8(b@),
        r matches Some(s) ==> s.spec_bytes() == b@,
{
    std::str::from_utf8(b).ok()
}


/// The debug name of a token's kind.
pub open spec fn token_name(t: Token) -> Seq<char> {
    match t {
        Token::Colon => "Colon"@,
        Token::Comma => "Comma"@,
        Token::Lcurl => "Lcurl"@,
        Token::Rcurl => "Rcurl"@,
        Token::Lsquare => "Lsquare"@,
        Token::Rsquare => "Rsquare"@,
        Token::Eof => "Eof"@,
        Token::String(_) => "String"@,
        Token::Number(_) => "Number"@,
        Token::True => "True"@,
        Token::False => "False"@,
        Token::Null => "Null"@,
    }
}

/// The text of a span for a token dump: its characters, or a fixed marker
/// where it is not valid UTF-8.
pub open spec fn span_text(input: Seq<u8>, r: Range<usize>) -> Seq<char> {
    if valid_utf8(span_of(input, r)) {
        decode_utf8(span_of(input, r))
    } else {
        "invalid utf8"@
    }
}

/// How a token renders in a dump: its name, and for a span its text in parentheses.
pub open spec fn token_text(input: Seq<u8>, t: Token) -> Seq<char> {
    match t {
        Token::String(r) => token_name(t) + "("@ + span_text(input, r) + ")"@,
        Token::Number(r) => token_name(t) + "("@ + span_text(input, r) + ")"@,
        _ => token_name(t),
    }
}

pub open spec fn token_spans_in(input: Seq<u8>, t: Token) -> bool {
    match t {
        Token::String(r) => span_in(input, r),
        Token::Number(r) => span_in(input, r),
        _ => true,
    }
}

fn render_span(name: &str, input: &[u8], r: &Range<usize>) -> (out: String)
    requires
        span_in(input@, *r),
    ensures
        out@ == name@ + "("@ + span_text(input@, *r) + ")"@,
{
    let text = match utf8_str(vstd::slice::slice_subrange(input, r.start, r.end)) {
        Some(s) => {
            proof {
                vstd::utf8::encode_utf8_decode_utf8(s@);
            }
            s
        },
        None => "invalid utf8",
    };
    let mut out = String::from_str(name);
    out.append("(");
    out.append(text);
    out.append(")");
    out
}

pub uninterp spec fn lossy_text(b: Seq<u8>) -> Seq<char>;

/// Relies on `String::from_utf8_lossy`: the text of a byte run, with each
/// invalid UTF-8 sequence replaced; it depends on the bytes alone, and valid
/// UTF-8 comes back as the characters it encodes.
#[verifier::external_body]
fn lossy_string(b: &[u8]) -> (r: String)
    ensures
        r@ == lossy_text(b@),
        valid_utf8(b@) ==> r@ == decode_utf8(b@),
{
    String::from_utf8_lossy(b).to_string()
}

fn is_simple_escape_byte(b: u8) -> (r: bool)
    ensures
        r == is_simple_escape(b),
{
    b == 0x22 || b == 0x5c || b == 0x2f || b == 0x62 || b == 0x66 || b == 0x6e || b == 0x72 || b
        == 0x74
}

fn is_ws_byte(b: u8) -> (r: bool)
    ensures
        r == is_ws(b),
{
    b == 0x20 || b == 0x09 || b == 0x0a || b == 0x0d
}

fn is_digit_byte(b: u8) -> (r: bool)
    ensures
        r == is_digit(b),
{
    0x30 <= b && b <= 0x39
}

fn is_alpha_byte(b: u8) -> (r: bool)
    ensures
        r == is_alpha(b),
{
    (0x41 <= b && b <= 0x5a) || (0x61 <= b && b <= 0x7a)
}

fn is_hex_byte(b: u8) -> (r: bool)
    ensures
        r == is_hex(b),
{
    (0x30 <= b && b <= 0x39) || (0x41 <= b && b <= 0x46) || (0x61 <= b && b <= 0x66)
}

} // verus!
