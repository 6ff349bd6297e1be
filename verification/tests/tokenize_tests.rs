use json_parser::number::Number;
use json_parser::tokenize::{tokenize, Token, TokenizeError};

fn num(negative: bool, mantissa: u64, scale: usize) -> Token {
    Token::Number(Number { negative, mantissa, scale })
}

#[test]
fn just_comma() {
    let input = String::from(",");
    let expected = vec![Token::Comma];

    let actual = tokenize(input).unwrap();
    assert_eq!(actual, expected);
}

#[test]
fn all_punctuation() {
    let input = String::from("[{]},:");
    let expected = vec![
        Token::LeftBracket,
        Token::LeftBrace,
        Token::RightBracket,
        Token::RightBrace,
        Token::Comma,
        Token::Colon,
    ];

    let actual = tokenize(input).unwrap();
    assert_eq!(actual, expected);
}

#[test]
fn just_null() {
    let input = String::from("null");
    let expected = vec![Token::Null];

    let actual = tokenize(input).unwrap();
    assert_eq!(actual, expected);
}

#[test]
fn just_false() {
    let input = String::from("false");
    let expected = vec![Token::False];

    let actual = tokenize(input).unwrap();
    assert_eq!(actual, expected);
}

#[test]
fn just_true() {
    let input = String::from("true");
    let expected = vec![Token::True];

    let actual = tokenize(input).unwrap();
    assert_eq!(actual, expected);
}

#[test]
fn true_comma() {
    let input = String::from("true,");
    let expected = vec![Token::True, Token::Comma];

    let actual = tokenize(input).unwrap();
    assert_eq!(actual, expected);
}

#[test]
fn just_integer() {
    let input = String::from("123");
    let expected = vec![num(false, 123, 0)];

    let actual = tokenize(input).unwrap();
    assert_eq!(actual, expected);
}

#[test]
fn integer_comma() {
    let input = String::from("123,");
    let expected = vec![num(false, 123, 0), Token::Comma];

    let actual = tokenize(input).unwrap();
    assert_eq!(actual, expected);
}

#[test]
fn negative_integer() {
    let input = String::from("-123");
    let expected = vec![num(true, 123, 0)];

    let actual = tokenize(input).unwrap();
    assert_eq!(actual, expected);
}

#[test]
fn just_float() {
    let input = String::from("123.4");
    let expected = vec![num(false, 1234, 1)];

    let actual = tokenize(input).unwrap();
    assert_eq!(actual, expected);
}

#[test]
fn float_comma() {
    let input = String::from("123.4,");
    let expected = vec![num(false, 1234, 1), Token::Comma];

    let actual = tokenize(input).unwrap();
    assert_eq!(actual, expected);
}

#[test]
fn just_ken() {
    let input = String::from("\"ken\"");
    let expected = vec![Token::String(String::from("ken"))];

    let actual = tokenize(input).unwrap();
    assert_eq!(actual, expected);
}

#[test]
fn unclosed_string() {
    let input = String::from("\"unclosed");
    let expected = Err(TokenizeError::UnclosedQuotes);

    let actual = tokenize(input);
    assert_eq!(actual, expected);
}

#[test]
fn escaped_quote() {
    let input = String::from(r#""The \" is Ok ""#);
    let expected = vec![Token::String(String::from(r#"The \" is Ok "#))];

    let actual = tokenize(input).unwrap();
    assert_eq!(actual, expected);
}

#[test]
fn empty_input_has_no_tokens() {
    assert_eq!(tokenize(String::new()).unwrap(), vec![]);
}

#[test]
fn trailing_whitespace_is_no_error() {
    assert_eq!(tokenize(String::from("  null \t\r\n ")).unwrap(), vec![Token::Null]);
}

#[test]
fn negative_fraction() {
    assert_eq!(tokenize(String::from("-0.5")).unwrap(), vec![num(true, 5, 1)]);
}

#[test]
fn lone_minus_is_no_number() {
    assert_eq!(tokenize(String::from("-")), Err(TokenizeError::ParseNumberError));
}

#[test]
fn number_with_too_many_digits_is_rejected() {
    let input = String::from("99999999999999999999");
    assert_eq!(tokenize(input), Err(TokenizeError::ParseNumberError));
}

#[test]
fn unfinished_literal() {
    assert_eq!(
        tokenize(String::from("nulx")),
        Err(TokenizeError::UnfinishedLiteralValue)
    );
    assert_eq!(
        tokenize(String::from("falze")),
        Err(TokenizeError::UnfinishedLiteralValue)
    );
}

#[test]
fn literal_cut_short_by_end_of_input() {
    assert_eq!(tokenize(String::from("nul")), Err(TokenizeError::UnexpectedEof));
    assert_eq!(tokenize(String::from("tru")), Err(TokenizeError::UnexpectedEof));
}

#[test]
fn unknown_character() {
    assert_eq!(
        tokenize(String::from("@")),
        Err(TokenizeError::CharNotRecognized('@'))
    );
}

#[test]
fn second_dot_ends_the_number() {
    let actual = tokenize(String::from("1.25,"));
    assert_eq!(actual.unwrap(), vec![num(false, 125, 2), Token::Comma]);
    let rejected = tokenize(String::from("1.2.3"));
    assert_eq!(rejected, Err(TokenizeError::CharNotRecognized('.')));
}

#[test]
fn leading_zeros_are_kept_in_value() {
    assert_eq!(tokenize(String::from("00123")).unwrap(), vec![num(false, 123, 0)]);
}

#[test]
fn trailing_dot_reads_as_whole_number() {
    assert_eq!(tokenize(String::from("1.")).unwrap(), vec![num(false, 1, 0)]);
}

#[test]
fn negative_zero_keeps_its_sign() {
    assert_eq!(tokenize(String::from("-0")).unwrap(), vec![num(true, 0, 0)]);
}

#[test]
fn empty_string_token() {
    assert_eq!(
        tokenize(String::from("\"\"")).unwrap(),
        vec![Token::String(String::new())]
    );
}
