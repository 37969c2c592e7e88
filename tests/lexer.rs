use json_parser::{Lexer, LexerError, LexerErrorKind, NumberError, StringError, Token};

fn expect_success(input: &str) -> Vec<Token> {
    let mut lexer = Lexer::new(input.as_bytes());
    lexer.lex().expect("expected lexer to succeed")
}

fn expect_error(input: &str) -> LexerError {
    let mut lexer = Lexer::new(input.as_bytes());
    lexer.lex().expect_err("expected lexer to error")
}

#[test]
fn punctuation() {
    let tokens = expect_success(":,{}[]");
    let expected = [
        Token::Colon,
        Token::Comma,
        Token::Lcurl,
        Token::Rcurl,
        Token::Lsquare,
        Token::Rsquare,
    ];

    assert_eq!(tokens, expected);
}

#[test]
fn string() {
    let input = "\"hello world\"";
    let tokens = expect_success(input);

    let range = 1..input.len() - 1;
    let expected = [Token::String(range)];

    assert_eq!(tokens, expected);
}

#[test]
fn string_with_valid_escapes() {
    let input = "\"\\\"\\\\\\/\\b\\f\\n\\r\\t\\u0041\"";
    let tokens = expect_success(input);

    let expected = [Token::String(1..input.len() - 1)];
    assert_eq!(tokens, expected);
}

#[test]
fn number() {
    let input = "-1.2e+3";
    let tokens = expect_success(input);

    let range = 0..input.len();
    let expected = [Token::Number(range)];

    assert_eq!(tokens, expected)
}

#[test]
fn negative_zero() {
    let input = "-0";
    let tokens = expect_success(input);

    let expected = [Token::Number(0..input.len())];

    assert_eq!(tokens, expected);
}

#[test]
fn literals() {
    [
        ("true", [Token::True]),
        ("false", [Token::False]),
        ("null", [Token::Null]),
    ]
    .iter()
    .for_each(|(input, expected)| {
        let tokens = expect_success(input);

        assert_eq!(&tokens, expected);
    });
}

#[test]
fn empty_input() {
    let tokens = expect_success("");

    assert_eq!(tokens, []);
}

#[test]
fn rejects_unterminated_string() {
    let LexerError { kind, line, col } = expect_error("\"hello");

    assert!(matches!(kind, LexerErrorKind::InvalidString(StringError::Unterminated)));
    assert_eq!(line, 1);
    assert_eq!(col, 7);
}

#[test]
fn rejects_string_with_control_character() {
    let LexerError { kind, line, col } = expect_error("\"hello\nworld\"");

    assert!(matches!(
        kind,
        LexerErrorKind::InvalidString(StringError::UnescapedControlCharacter { code: b'\n' })
    ));
    assert_eq!(line, 1);
    assert_eq!(col, 7);
}

#[test]
fn rejects_string_with_other_control_character() {
    let LexerError { kind, .. } = expect_error("\"hello\x07world\"");

    assert!(matches!(
        kind,
        LexerErrorKind::InvalidString(StringError::UnescapedControlCharacter { code: 0x07 })
    ));
}

#[test]
fn rejects_string_with_invalid_escape() {
    let LexerError { kind, line, col } = expect_error("\"\\x\"");

    assert!(matches!(
        kind,
        LexerErrorKind::InvalidString(StringError::InvalidEscape { escape: b'x' })
    ));
    assert_eq!(line, 1);
    assert_eq!(col, 3);
}

#[test]
fn rejects_string_with_incomplete_escape() {
    let LexerError { kind, line, col } = expect_error("\"\\");

    assert!(matches!(kind, LexerErrorKind::InvalidString(StringError::IncompleteEscape)));
    assert_eq!(line, 1);
    assert_eq!(col, 3);
}

// The partial digits are those read before the byte that is not a hex digit.
#[test]
fn rejects_string_with_invalid_unicode_escape() {
    let LexerError { kind, line, col } = expect_error("\"\\u12G4\"");

    assert!(matches!(
        kind,
        LexerErrorKind::InvalidString(StringError::InvalidUnicodeEscape { digits }) if digits == "12"
    ));
    assert_eq!(line, 1);
    assert_eq!(col, 6);
}

#[test]
fn rejects_string_with_short_unicode_escape() {
    let LexerError { kind, line, col } = expect_error("\"\\u12\"");

    assert!(matches!(
        kind,
        LexerErrorKind::InvalidString(StringError::InvalidUnicodeEscape { digits }) if digits == "12"
    ));
    assert_eq!(line, 1);
    assert_eq!(col, 6);
}

#[test]
fn rejects_number_with_leading_zero() {
    let LexerError { kind, line, col } = expect_error("01");

    assert!(matches!(kind, LexerErrorKind::InvalidNumber(NumberError::LeadingZero)));
    assert_eq!(line, 1);
    assert_eq!(col, 2);
}

#[test]
fn rejects_negative_number_with_leading_zero() {
    let LexerError { kind, line, col } = expect_error("-01");

    assert!(matches!(kind, LexerErrorKind::InvalidNumber(NumberError::LeadingZero)));
    assert_eq!(line, 1);
    assert_eq!(col, 3);
}

#[test]
fn rejects_decimal_with_multiple_decimal_points() {
    let LexerError { kind, line, col } = expect_error("1.2.3");

    assert!(matches!(
        kind,
        LexerErrorKind::InvalidNumber(NumberError::InvalidDecimal {
            reason: "multiple decimal points found"
        })
    ));
    assert_eq!(line, 1);
    assert_eq!(col, 4);
}

#[test]
fn rejects_decimal_with_invalid_postfix() {
    let LexerError { kind, line, col } = expect_error("1.");

    assert!(matches!(
        kind,
        LexerErrorKind::InvalidNumber(NumberError::InvalidDecimal {
            reason: "decimal point must be followed by a digit"
        })
    ));
    assert_eq!(line, 1);
    assert_eq!(col, 3);
}

#[test]
fn rejects_exponent_with_invalid_postfix() {
    let LexerError { kind, line, col } = expect_error("1e");

    assert!(matches!(
        kind,
        LexerErrorKind::InvalidNumber(NumberError::InvalidExponent {
            reason: "exponent must be followed by '+' or '-' or a digit"
        })
    ));
    assert_eq!(line, 1);
    assert_eq!(col, 3);
}

#[test]
fn rejects_negative_without_following_digit() {
    let LexerError { kind, line, col } = expect_error("-a");

    assert!(matches!(
        kind,
        LexerErrorKind::InvalidNumber(NumberError::InvalidNegative {
            reason: "'-' must be followed by a digit"
        })
    ));
    assert_eq!(line, 1);
    assert_eq!(col, 2);
}

#[test]
fn rejects_multiple_exponents() {
    let LexerError { kind, line, col } = expect_error("1e5e3");

    assert!(matches!(
        kind,
        LexerErrorKind::InvalidNumber(NumberError::InvalidExponent {
            reason: "multiple exponents found"
        })
    ));
    assert_eq!(line, 1);
    assert_eq!(col, 4);
}

#[test]
fn accepts_well_formed_numbers() {
    for input in ["0", "-0.5", "0e10", "12.75E-3", "3e+7", "10"] {
        assert_eq!(expect_success(input), [Token::Number(0..input.len())]);
    }
}

#[test]
fn number_ends_at_first_foreign_byte() {
    let tokens = expect_success("0,1");
    assert_eq!(tokens, [Token::Number(0..1), Token::Comma, Token::Number(2..3)]);
}

#[test]
fn rejects_unknown_literal() {
    let LexerError { kind, line, col } = expect_error("nulll");

    assert!(matches!(kind, LexerErrorKind::InvalidLiteral(text) if text == "nulll"));
    assert_eq!(line, 1);
    assert_eq!(col, 6);
}

#[test]
fn rejects_unknown_byte_with_position() {
    let LexerError { kind, line, col } = expect_error("[\n  @]");

    assert!(matches!(kind, LexerErrorKind::InvalidToken(b'@')));
    assert_eq!(line, 2);
    assert_eq!(col, 3);
}

#[test]
fn whitespace_only_gives_no_tokens() {
    assert_eq!(expect_success(" \t\r\n "), []);
}

#[test]
fn lexing_twice_gives_the_same_tokens() {
    let input = "{\"a\": [1, -2.5e3, true, null]}";
    assert_eq!(expect_success(input), expect_success(input));
    let first = expect_error("[1, 01]");
    let second = expect_error("[1, 01]");
    assert_eq!((first.line, first.col), (second.line, second.col));
}

#[test]
fn tokens_render_for_a_dump() {
    let input = b"\"abc\" 42 : \"\xff\"";
    let mut lexer = Lexer::new(input);
    let tokens = lexer.lex().expect("expected lexer to succeed");
    let rendered: Vec<String> = tokens.iter().map(|t| t.to_string(input)).collect();
    assert_eq!(rendered, ["String(abc)", "Number(42)", "Colon", "String(invalid utf8)"]);
}

#[test]
fn rejects_exponent_sign_without_digit() {
    let LexerError { kind, line, col } = expect_error("1e+");

    assert!(matches!(
        kind,
        LexerErrorKind::InvalidNumber(NumberError::InvalidExponent {
            reason: "exponent sign must be followed by a digit"
        })
    ));
    assert_eq!(line, 1);
    assert_eq!(col, 4);
}

#[test]
fn rejects_decimal_point_after_exponent() {
    let LexerError { kind, line, col } = expect_error("1e5.2");

    assert!(matches!(
        kind,
        LexerErrorKind::InvalidNumber(NumberError::InvalidDecimal {
            reason: "decimal point cannot follow an exponent"
        })
    ));
    assert_eq!(line, 1);
    assert_eq!(col, 4);
}

#[test]
fn tokens_clone_to_equal_tokens() {
    let tokens = expect_success("[\"a\", 1]");
    let copies: Vec<Token> = tokens.iter().map(|t| t.clone()).collect();
    assert_eq!(copies, tokens);
}

#[test]
fn lexer_errors_render_with_position() {
    assert_eq!(
        expect_error("\"hello").message(),
        "Error at line 1, col 7: [invalid string] string not terminated, missing \""
    );
    assert_eq!(
        expect_error("\"a\x07\"").message(),
        "Error at line 1, col 3: [invalid string] string contains control character 0x07 that must be escaped"
    );
    assert_eq!(
        expect_error("\n\n  1.").message(),
        "Error at line 3, col 5: [invalid number] invalid decimal: decimal point must be followed by a digit"
    );
    assert_eq!(
        expect_error("@").message(),
        "Error at line 1, col 1: [invalid token] 64"
    );
    assert_eq!(
        expect_error("\"\\u1x\"").message(),
        "Error at line 1, col 5: [invalid string] unicode escape must be followed by four hexadecimal digits, found '1'"
    );
}

#[test]
fn decimal_writes_digits() {
    assert_eq!(json_parser::message::decimal(0), "0");
    assert_eq!(json_parser::message::decimal(1207), "1207");
}
