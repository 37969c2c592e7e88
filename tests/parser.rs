use json_parser::{Lexer, Parser, ParserError, Token, Value};

fn expect_success(input: &str) -> Value<'_> {
    let bytes = input.as_bytes();
    let mut lexer = Lexer::new(bytes);
    let tokens = lexer.lex().expect("Lexing failed");

    let mut parser = Parser::new(tokens, bytes);
    let result = parser.parse();

    match result {
        Some(Ok(value)) => value,
        Some(Err(e)) => panic!("Expected success, but failed: {e:?}"),
        None => panic!("Missing result"),
    }
}

fn expect_failure(input: &[u8]) -> ParserError {
    let mut lexer = Lexer::new(input);
    let tokens = lexer.lex().expect("Lexing failed");

    let mut parser = Parser::new(tokens, input);
    let result = parser.parse();

    match result {
        Some(Ok(_)) => panic!("Expected failure, but succeeded"),
        Some(Err(e)) => e,
        None => panic!("Missing result"),
    }
}

fn get<'v, 'a>(obj: &'v [(&'a str, Value<'a>)], key: &str) -> Option<&'v Value<'a>> {
    obj.iter().find(|(k, _)| *k == key).map(|(_, v)| v)
}

#[test]
fn empty_object() {
    let value = expect_success("{}");

    let Value::Object(obj) = value else {
        panic!("Expected object, got {value:?}");
    };

    assert!(obj.is_empty());
}

#[test]
fn empty_array() {
    let value = expect_success("[]");

    let Value::Array(arr) = value else {
        panic!("Expected array, got {value:?}");
    };

    assert!(arr.is_empty());
}

#[test]
fn string_value() {
    let value = expect_success(r#"{"key": "value"}"#);

    let Value::Object(obj) = value else {
        panic!("Expected object, got {value:?}");
    };

    let Some(Value::String(s)) = get(&obj, "key") else {
        panic!("Expected string value");
    };

    assert_eq!(*s, "value");
}

#[test]
fn number_value() {
    let value = expect_success(r#"{"num": 42}"#);

    let Value::Object(obj) = value else {
        panic!("Expected object, got {value:?}");
    };

    let Some(Value::Number(n)) = get(&obj, "num") else {
        panic!("Expected number value");
    };

    assert_eq!(*n, "42");
}

#[test]
fn boolean_values() {
    [("true", true), ("false", false)]
        .iter()
        .for_each(|(input, expected)| {
            let input = format!(r#"{{"flag": {input}}}"#);
            let value = expect_success(&input);

            let Value::Object(obj) = value else {
                panic!("Expected object, got {value:?}");
            };

            let Some(Value::Boolean(b)) = get(&obj, "flag") else {
                panic!("Expected boolean value");
            };

            assert_eq!(*b, *expected);
        });
}

#[test]
fn null_value() {
    let value = expect_success(r#"{"empty": null}"#);
    let Value::Object(obj) = value else {
        panic!("Expected object, got {value:?}");
    };

    let Some(Value::Null) = get(&obj, "empty") else {
        panic!("Expected null value");
    };
}

#[test]
fn invalid_start() {
    let error = expect_failure(b"]");
    assert!(matches!(error, ParserError::InvalidValue { .. }));
}

#[test]
fn duplicate_key() {
    let error = expect_failure(br#"{"key": 1, "key": 2}"#);
    assert!(matches!(error, ParserError::DuplicateKey));
}

#[test]
fn missing_colon() {
    let error = expect_failure(br#"{"key" "value"}"#);
    assert!(matches!(error, ParserError::MissingColon));
}

#[test]
fn invalid_key() {
    let error = expect_failure(br#"{123: "value"}"#);
    assert!(matches!(error, ParserError::InvalidKey));
}

#[test]
fn trailing_comma() {
    let error = expect_failure(br#"{"key": "value",}"#);
    assert!(matches!(error, ParserError::TrailingComma));
}

#[test]
fn empty_input_has_no_value() {
    let mut lexer = Lexer::new(b"");
    let tokens = lexer.lex().expect("Lexing failed");
    assert!(tokens.is_empty());
    let mut parser = Parser::new(tokens, b"");
    assert!(parser.parse().is_none());
}

#[test]
fn negative_zero_keeps_its_text() {
    let value = expect_success("-0");
    assert!(matches!(value, Value::Number("-0")));
}

#[test]
fn nested_shape_is_kept() {
    let value = expect_success(r#"{"a": [1, "x", {"b": null}], "c": false}"#);
    let Value::Object(obj) = value else {
        panic!("Expected object, got {value:?}");
    };
    assert_eq!(obj.len(), 2);
    let Some(Value::Array(items)) = get(&obj, "a") else {
        panic!("Expected array value");
    };
    assert_eq!(items.len(), 3);
    assert!(matches!(items[0], Value::Number("1")));
    assert!(matches!(items[1], Value::String("x")));
    let Value::Object(inner) = &items[2] else {
        panic!("Expected object value");
    };
    assert!(matches!(get(inner, "b"), Some(Value::Null)));
    assert!(matches!(get(&obj, "c"), Some(Value::Boolean(false))));
}

#[test]
fn duplicate_key_with_other_value_in_nested_object() {
    let error = expect_failure(br#"[{"k": {"a": 1, "a": "one"}}]"#);
    assert!(matches!(error, ParserError::DuplicateKey));
}

#[test]
fn same_key_in_separate_objects_is_fine() {
    let value = expect_success(r#"[{"a": 1}, {"a": 2}]"#);
    assert!(matches!(value, Value::Array(ref items) if items.len() == 2));
}

#[test]
fn array_without_separator_is_invalid() {
    let error = expect_failure(b"[1 2]");
    assert!(matches!(error, ParserError::InvalidArray));
}

#[test]
fn array_comma_before_close_is_invalid_value() {
    let error = expect_failure(b"[1,]");
    assert!(matches!(error, ParserError::InvalidValue { found: Token::Rsquare }));
}

#[test]
fn unclosed_object_is_unexpected_eof() {
    let error = expect_failure(br#"{"a": 1"#);
    assert!(matches!(error, ParserError::UnexpectedEof));
}

#[test]
fn unclosed_array_is_unexpected_eof() {
    let error = expect_failure(b"[1,");
    assert!(matches!(error, ParserError::UnexpectedEof));
}

#[test]
fn object_entry_followed_by_other_token_is_invalid_value() {
    let error = expect_failure(br#"{"a": 1 :}"#);
    assert!(matches!(error, ParserError::InvalidValue { found: Token::Colon }));
}

#[test]
fn string_that_is_not_utf8_is_rejected() {
    let error = expect_failure(b"\"\xff\xfe\"");
    assert!(matches!(error, ParserError::NonUTF8String));
}

#[test]
fn trailing_tokens_are_left_unread() {
    let value = expect_success("1 2");
    assert!(matches!(value, Value::Number("1")));
}

#[test]
fn whitespace_between_tokens_keeps_shape() {
    let value = expect_success(" {\n\t\"a\" : [ 1 , true ] ,\r\n \"b\":\"x\\n\" } ");
    let Value::Object(obj) = value else {
        panic!("Expected object, got {value:?}");
    };
    assert_eq!(obj.len(), 2);
    let Some(Value::Array(items)) = get(&obj, "a") else {
        panic!("Expected array value");
    };
    assert!(matches!(items[..], [Value::Number("1"), Value::Boolean(true)]));
    assert!(matches!(get(&obj, "b"), Some(Value::String("x\\n"))));
}

#[test]
fn parser_errors_render() {
    assert_eq!(
        expect_failure(b"[\"a\" 1]").message(),
        "Array value must either be terminated or followed by a comma"
    );
    assert_eq!(
        expect_failure(br#"{"a": 1 "b"}"#).message(),
        "Json values can only be an object, array, number, string, true, false, or null, found: String(9..10)"
    );
    assert_eq!(expect_failure(b"]").message(),
        "Json values can only be an object, array, number, string, true, false, or null, found: Rsquare");
}
