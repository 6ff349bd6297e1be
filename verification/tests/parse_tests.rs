use json_parser::number::Number;
use json_parser::parse::{parse, parse_tokens, ParseError, TokenParseError};
use json_parser::tokenize::{Token, TokenizeError};
use json_parser::Value;

fn check(input: &Vec<Token>, expected: Value) {
    let actual = parse_tokens(input, 0).unwrap().0;
    assert_eq!(actual, expected);
}

fn num(negative: bool, mantissa: u64, scale: usize) -> Value {
    Value::Number(Number { negative, mantissa, scale })
}

#[test]
fn parses_null() {
    let input = vec![Token::Null];
    let expected = Value::Null;

    check(&input, expected);
}

#[test]
fn parses_string_no_escapes() {
    let input = vec![Token::String("hello world".into())];
    let expected = Value::String("hello world".into());

    check(&input, expected);
}

#[test]
fn parses_string_non_ascii() {
    let input = vec![Token::String("olá_こんにちは_नमस्ते_привіт".into())];
    let expected = Value::String("olá_こんにちは_नमस्ते_привіт".into());

    check(&input, expected);
}

#[test]
fn parses_string_with_emoji() {
    let input = vec![Token::String("hello 💩 world".into())];
    let expected = Value::String("hello 💩 world".into());

    check(&input, expected);
}

#[test]
fn parses_string_unescape_backslash() {
    let input = vec![Token::String(r#"hello\\world"#.into())];
    let expected = Value::String(r#"hello\world"#.into());

    check(&input, expected);
}

#[test]
fn parses_array_one_element() {
    let input = vec![Token::LeftBracket, Token::True, Token::RightBracket];
    let expected = Value::Array(vec![Value::Boolean(true)]);

    check(&input, expected);
}

#[test]
fn parses_array_two_elements() {
    let input = vec![
        Token::LeftBracket,
        Token::Null,
        Token::Comma,
        Token::Number(Number { negative: false, mantissa: 16, scale: 0 }),
        Token::RightBracket,
    ];
    let expected = Value::Array(vec![Value::Null, num(false, 16, 0)]);

    check(&input, expected);
}

#[test]
fn parses_empty_array() {
    let input = vec![Token::LeftBracket, Token::RightBracket];
    let expected = Value::Array(vec![]);

    check(&input, expected);
}

#[test]
fn parses_nested_array() {
    let input = vec![
        Token::LeftBracket,
        Token::Null,
        Token::Comma,
        Token::LeftBracket,
        Token::Null,
        Token::RightBracket,
        Token::RightBracket,
    ];

    let expected = Value::Array(vec![Value::Null, Value::Array(vec![Value::Null])]);
    check(&input, expected);
}

#[test]
fn parse_empty_object() {
    let input = vec![Token::LeftBrace, Token::RightBrace];
    let expected = Value::Object(vec![]);

    check(&input, expected);
}

#[test]
fn parse_object_one_string_value() {
    let input = vec![
        Token::LeftBrace,
        Token::String("lyf".to_string()),
        Token::Colon,
        Token::String("QAQ".to_string()),
        Token::RightBrace,
    ];
    let expected = Value::Object(vec![("lyf".to_string(), Value::String("QAQ".to_string()))]);

    check(&input, expected);
}

#[test]
fn parses_object_escaped_key() {
    let input = vec![
        Token::LeftBrace,
        Token::String(r#"\u540D\u524D"#.to_string()),
        Token::Colon,
        Token::String("davimiku".to_string()),
        Token::RightBrace,
    ];
    let expected = Value::Object(vec![(
        "名前".to_string(),
        Value::String("davimiku".to_string()),
    )]);

    check(&input, expected);
}

#[test]
fn parses_empty_array_text() {
    assert_eq!(parse(String::from("[]")).unwrap(), Value::Array(vec![]));
}

#[test]
fn parses_array_text_with_whitespace() {
    assert_eq!(
        parse(String::from("[true, null]")).unwrap(),
        Value::Array(vec![Value::Boolean(true), Value::Null])
    );
}

#[test]
fn parses_empty_object_text() {
    assert_eq!(parse(String::from("{}")).unwrap(), Value::Object(vec![]));
}

#[test]
fn parses_object_text() {
    assert_eq!(
        parse(String::from(r#"{"a":"b"}"#)).unwrap(),
        Value::Object(vec![("a".to_string(), Value::String("b".to_string()))])
    );
}

#[test]
fn duplicate_keys_last_write_wins() {
    assert_eq!(
        parse(String::from(r#"{"a":1,"a":2}"#)).unwrap(),
        Value::Object(vec![("a".to_string(), num(false, 2, 0))])
    );
}

#[test]
fn unclosed_string_text_fails() {
    assert_eq!(
        parse(String::from("\"unclosed")),
        Err(ParseError::TokenizeError(TokenizeError::UnclosedQuotes))
    );
}

#[test]
fn unterminated_array_fails() {
    assert_eq!(
        parse(String::from("[1,2")),
        Err(ParseError::ParseError(TokenParseError::UnexpectedEndOfInput))
    );
}

#[test]
fn unterminated_object_fails() {
    assert_eq!(
        parse(String::from("{\"a\":1")),
        Err(ParseError::ParseError(TokenParseError::UnexpectedEndOfInput))
    );
}

#[test]
fn unicode_escape_is_decoded() {
    assert_eq!(
        parse(String::from(r#""\u0041""#)).unwrap(),
        Value::String("A".to_string())
    );
}

#[test]
fn short_unicode_escape_fails() {
    assert_eq!(
        parse(String::from(r#""\u12""#)),
        Err(ParseError::ParseError(TokenParseError::UnfinishedEscape))
    );
}

#[test]
fn bad_hex_digit_fails() {
    assert_eq!(
        parse(String::from(r#""\u12G4""#)),
        Err(ParseError::ParseError(TokenParseError::InvalidHexValue))
    );
}

#[test]
fn surrogate_code_point_fails() {
    assert_eq!(
        parse(String::from(r#""\uD800""#)),
        Err(ParseError::ParseError(TokenParseError::InvalidCodePointValue))
    );
}

#[test]
fn short_escapes_map_to_control_characters() {
    assert_eq!(
        parse(String::from(r#""a\nb\tc\rd\fe\bf\"g\\h""#)).unwrap(),
        Value::String("a\nb\tc\rd\u{c}e\u{8}f\"g\\h".to_string())
    );
}

#[test]
fn lenient_escape_passes_through() {
    assert_eq!(
        parse(String::from(r#""\x""#)).unwrap(),
        Value::String("x".to_string())
    );
}

#[test]
fn bare_comma_is_no_value() {
    assert_eq!(
        parse(String::from(",")),
        Err(ParseError::ParseError(TokenParseError::ExpectedValue))
    );
}

#[test]
fn empty_input_is_no_value() {
    assert_eq!(
        parse(String::from("")),
        Err(ParseError::ParseError(TokenParseError::UnexpectedEndOfInput))
    );
}

#[test]
fn object_without_colon_fails() {
    assert_eq!(
        parse(String::from(r#"{"a" 1}"#)),
        Err(ParseError::ParseError(TokenParseError::ExpectedColon))
    );
}

#[test]
fn object_with_non_string_key_fails() {
    assert_eq!(
        parse(String::from("{1:2}")),
        Err(ParseError::ParseError(TokenParseError::ExpectedProperty))
    );
}

#[test]
fn array_without_comma_fails() {
    assert_eq!(
        parse(String::from("[1 2]")),
        Err(ParseError::ParseError(TokenParseError::ExpectedComma))
    );
}

#[test]
fn trailing_comma_in_array_fails() {
    assert_eq!(
        parse(String::from("[1,]")),
        Err(ParseError::ParseError(TokenParseError::ExpectedValue))
    );
}

#[test]
fn negative_and_fractional_numbers_parse() {
    assert_eq!(parse(String::from("-123")).unwrap(), num(true, 123, 0));
    assert_eq!(parse(String::from("123.4")).unwrap(), num(false, 1234, 1));
}

#[test]
fn nested_mixture_parses() {
    let text = r#"{"nums": [1.2, 3.4], "ok": true}"#;
    let expected = Value::Object(vec![
        (
            "nums".to_string(),
            Value::Array(vec![num(false, 12, 1), num(false, 34, 1)]),
        ),
        ("ok".to_string(), Value::Boolean(true)),
    ]);
    assert_eq!(parse(String::from(text)).unwrap(), expected);
}

#[test]
fn round_trip_of_serialized_text() {
    let value = Value::Object(vec![
        (
            "k".to_string(),
            Value::Array(vec![
                Value::Null,
                Value::Boolean(true),
                num(true, 125, 1),
                Value::String("a\"b".to_string()),
            ]),
        ),
        ("n".to_string(), num(false, 0, 0)),
    ]);
    let text = r#"{"k":[null,true,-12.5,"a\"b"],"n":0}"#;
    assert_eq!(parse(String::from(text)).unwrap(), value);
}

#[test]
fn tokenizing_valid_text_never_fails() {
    let text = r#"  {"deep": [[[]]], "s": "\u00e9", "x": -0.25}  "#;
    assert!(json_parser::tokenize::tokenize(String::from(text)).is_ok());
    assert!(parse(String::from(text)).is_ok());
}
