use jsonp::error::JsonError;
use jsonp::lexer::{Token, TokenReader};
use jsonp::reader::JsonReader;

/// A token with its number read as a float, so that expected values can be
/// written as numbers.
#[derive(Debug, PartialEq)]
enum Tk {
    OpenObject,
    CloseObject,
    Colon,
    TNumber(f64),
    TString(String),
    TBool(bool),
    TNull,
    Comma,
    OpenArray,
    CloseArray,
}

fn tk(t: Token) -> Tk {
    match t {
        Token::OpenObject => Tk::OpenObject,
        Token::CloseObject => Tk::CloseObject,
        Token::Colon => Tk::Colon,
        Token::TNumber(n) => Tk::TNumber(n.parse::<f64>().unwrap()),
        Token::TString(s) => Tk::TString(s),
        Token::TBool(b) => Tk::TBool(b),
        Token::TNull => Tk::TNull,
        Token::Comma => Tk::Comma,
        Token::OpenArray => Tk::OpenArray,
        Token::CloseArray => Tk::CloseArray,
    }
}

fn lex_all(input: &str) -> Vec<Result<Token, JsonError>> {
    let reader = JsonReader::new(input.as_bytes().to_vec());
    let mut tokens = TokenReader::new(reader);
    let mut out = Vec::new();
    while let Some(t) = tokens.next() {
        let stop = t.is_err();
        out.push(t);
        if stop {
            break;
        }
    }
    out
}

fn tokenize(input: &str) -> Vec<Tk> {
    lex_all(input).into_iter().map(|t| tk(t.unwrap())).collect()
}

fn first_error(input: &str) -> JsonError {
    lex_all(input).into_iter().find_map(|t| t.err()).unwrap()
}

#[test]
fn test_basic_tokens() {
    let tokens = tokenize("{}[]:,");

    assert_eq!(
        tokens,
        vec![
            Tk::OpenObject,
            Tk::CloseObject,
            Tk::OpenArray,
            Tk::CloseArray,
            Tk::Colon,
            Tk::Comma,
        ]
    );
}

#[test]
fn test_string_tokens() {
    let tokens = tokenize(r#""hello" "world\n" "escaped\"quote""#);

    assert_eq!(
        tokens,
        vec![
            Tk::TString("hello".to_string()),
            Tk::TString("world\n".to_string()),
            Tk::TString("escaped\"quote".to_string()),
        ]
    );
}

#[test]
fn test_number_tokens() {
    let tokens = tokenize("123 -456.789 0.123 -0.0");

    assert_eq!(
        tokens,
        vec![
            Tk::TNumber(123.0),
            Tk::TNumber(-456.789),
            Tk::TNumber(0.123),
            Tk::TNumber(-0.0),
        ]
    );
}

#[test]
fn test_literal_tokens() {
    let tokens = tokenize("true false null");

    assert_eq!(tokens, vec![Tk::TBool(true), Tk::TBool(false), Tk::TNull]);
}

#[test]
fn test_whitespace_handling() {
    let tokens = tokenize(" \n\t{ \r\n} \t");

    assert_eq!(tokens, vec![Tk::OpenObject, Tk::CloseObject]);
}

#[test]
fn test_complex_structure() {
    let tokens = tokenize(r#"{"key": [1, true, "value"]}"#);

    assert_eq!(
        tokens,
        vec![
            Tk::OpenObject,
            Tk::TString("key".to_string()),
            Tk::Colon,
            Tk::OpenArray,
            Tk::TNumber(1.0),
            Tk::Comma,
            Tk::TBool(true),
            Tk::Comma,
            Tk::TString("value".to_string()),
            Tk::CloseArray,
            Tk::CloseObject,
        ]
    );
}

#[test]
fn number_text_is_kept_as_written() {
    let tokens: Vec<Token> = lex_all("0 0.5 -0.0 .5 7.").into_iter().map(|t| t.unwrap()).collect();
    let texts: Vec<String> = tokens
        .into_iter()
        .map(|t| match t {
            Token::TNumber(n) => n,
            other => panic!("expected a number, got {:?}", other),
        })
        .collect();
    assert_eq!(texts, vec!["0", "0.5", "-0.0", ".5", "7."]);
}

#[test]
fn zero_and_decimal_after_zero_are_numbers() {
    assert_eq!(tokenize("0"), vec![Tk::TNumber(0.0)]);
    assert_eq!(tokenize("0.5"), vec![Tk::TNumber(0.5)]);
}

#[test]
fn leading_zero_is_rejected() {
    assert_eq!(first_error("01"), JsonError::InvalidNumber);
    assert_eq!(first_error("007"), JsonError::InvalidNumber);
}

#[test]
fn malformed_numbers_are_rejected() {
    assert_eq!(first_error("1.2.3"), JsonError::InvalidNumber);
    assert_eq!(first_error("-"), JsonError::InvalidNumber);
    assert_eq!(first_error("."), JsonError::InvalidNumber);
    assert_eq!(first_error("-."), JsonError::InvalidNumber);
}

#[test]
fn exponent_is_not_part_of_a_number() {
    let tokens = lex_all("1e5");
    assert_eq!(tokens.len(), 2);
    assert_eq!(tk(tokens[0].clone().unwrap()), Tk::TNumber(1.0));
    assert_eq!(tokens[1], Err(JsonError::UnexpectedCharacter('e')));
}

#[test]
fn escapes_are_decoded() {
    let tokens = tokenize(r#""a\"b\\c\nd" "\t\r""#);
    assert_eq!(
        tokens,
        vec![Tk::TString("a\"b\\c\nd".to_string()), Tk::TString("\t\r".to_string())]
    );
}

#[test]
fn unknown_escape_is_rejected() {
    assert_eq!(first_error(r#""\q""#), JsonError::InvalidEscape('q'));
}

#[test]
fn unterminated_string_and_escape_hit_end_of_input() {
    assert_eq!(first_error(r#""abc"#), JsonError::UnexpectedEof);
    assert_eq!(first_error("\"abc\\"), JsonError::UnexpectedEof);
}

#[test]
fn literal_starters_and_tails() {
    assert_eq!(tokenize("NULL"), vec![Tk::TNull]);
    assert_eq!(tokenize("False"), vec![Tk::TBool(false)]);
    assert_eq!(first_error("True"), JsonError::InvalidBooleanLiteral);
    assert_eq!(first_error("Null"), JsonError::InvalidNullLiteral);
    assert_eq!(first_error("nuLL"), JsonError::InvalidNullLiteral);
    assert_eq!(first_error("tru"), JsonError::UnexpectedEof);
}

#[test]
fn unexpected_character_is_named() {
    assert_eq!(first_error("  @"), JsonError::UnexpectedCharacter('@'));
}

#[test]
fn only_whitespace_gives_no_token() {
    assert!(lex_all(" \t\r\n ").is_empty());
    assert!(lex_all("").is_empty());
}
