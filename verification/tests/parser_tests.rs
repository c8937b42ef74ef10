use rijson::lexer::Lexer;
use rijson::parser::Parser;
use rijson::token::Token;
use rijson::value::{JsonValue, ParseError};

fn chars(s: &str) -> Vec<char> {
    s.chars().collect()
}

#[test]
fn test_parse_simple_object() {
    let mut p = Parser::new(chars(r#"{"a":1}"#));
    let v = p.parse().unwrap();
    assert_eq!(
        v,
        JsonValue::Object(vec![("a".to_string(), JsonValue::Number("1".to_string()))])
    );
}

#[test]
fn test_parse_nested_structures() {
    let mut p = Parser::new(chars(r#"[{"a":1}, [2, true, null], "x"]"#));
    let v = p.parse().unwrap();
    assert_eq!(
        v,
        JsonValue::Array(vec![
            JsonValue::Object(vec![("a".to_string(), JsonValue::Number("1".to_string()))]),
            JsonValue::Array(vec![
                JsonValue::Number("2".to_string()),
                JsonValue::Boolean(true),
                JsonValue::Null,
            ]),
            JsonValue::String("x".to_string()),
        ])
    );
}

#[test]
fn test_parse_empty_containers() {
    let mut p = Parser::new(chars("[]"));
    assert_eq!(p.parse().unwrap(), JsonValue::Array(vec![]));
}

#[test]
fn test_last_write_wins_on_duplicate_keys() {
    let mut p = Parser::new(chars(r#"{"k":1,"x":true,"k":2}"#));
    let v = p.parse().unwrap();
    assert_eq!(
        v,
        JsonValue::Object(vec![
            ("k".to_string(), JsonValue::Number("2".to_string())),
            ("x".to_string(), JsonValue::Boolean(true)),
        ])
    );
}

#[test]
fn test_parse_error_unexpected_end_of_input() {
    let mut p = Parser::new(chars(""));
    assert_eq!(p.parse(), Err(ParseError::UnexpectedEndOfInput));

    let mut p2 = Parser::new(chars(r#"{"a":1"#));
    assert_eq!(p2.parse(), Err(ParseError::UnexpectedEndOfInput));

    let mut p3 = Parser::new(chars("[true,"));
    assert_eq!(p3.parse(), Err(ParseError::UnexpectedEndOfInput));

    // A scalar at the very end of input fails the adjacency check instead.
    let mut p4 = Parser::new(chars("[1, 2"));
    assert_eq!(p4.parse(), Err(ParseError::MissingSeparator));
}

#[test]
fn test_parse_error_invalid_start() {
    let mut p = Parser::new(chars("5"));
    assert_eq!(p.parse(), Err(ParseError::InvalidStart));

    let mut p2 = Parser::new(chars(r#""text""#));
    assert_eq!(p2.parse(), Err(ParseError::InvalidStart));
}

#[test]
fn test_parse_error_missing_separator() {
    let mut p = Parser::new(chars("[1 2]"));
    assert_eq!(p.parse(), Err(ParseError::MissingSeparator));

    let mut p2 = Parser::new(chars(r#"["a" "b"]"#));
    assert_eq!(p2.parse(), Err(ParseError::MissingSeparator));
}

#[test]
fn test_parse_error_stray_structural_tokens() {
    let mut p = Parser::new(chars("[}]"));
    assert_eq!(p.parse(), Err(ParseError::BraceInArray));

    let mut p2 = Parser::new(chars("[:]"));
    assert_eq!(p2.parse(), Err(ParseError::ColonInArray));

    let mut p3 = Parser::new(chars(r#"{"a":1]"#));
    assert_eq!(p3.parse(), Err(ParseError::BracketInObject));
}

#[test]
fn test_parse_error_missing_entry() {
    let mut p = Parser::new(chars(r#"{,}"#));
    assert_eq!(p.parse(), Err(ParseError::MissingEntry));

    let mut p2 = Parser::new(chars(r#"{"a":1,}"#));
    assert_eq!(p2.parse(), Err(ParseError::MissingEntry));

    let mut p3 = Parser::new(chars(r#"{"a"}"#));
    assert_eq!(p3.parse(), Err(ParseError::MissingEntry));
}

#[test]
fn test_parse_error_lexical_anomalies() {
    let mut p = Parser::new(chars("[$]"));
    assert_eq!(p.parse(), Err(ParseError::IllegalCharacter('$')));

    let mut p2 = Parser::new(chars("[nul]"));
    assert_eq!(p2.parse(), Err(ParseError::InvalidWord));
}

#[test]
fn test_streaming_two_objects() {
    let mut p = Parser::new(chars(r#"[{"a":1},{"b":2}]"#));
    assert_eq!(
        p.next(),
        Some(Ok(JsonValue::Object(vec![(
            "a".to_string(),
            JsonValue::Number("1".to_string())
        )])))
    );
    assert_eq!(
        p.next(),
        Some(Ok(JsonValue::Object(vec![(
            "b".to_string(),
            JsonValue::Number("2".to_string())
        )])))
    );
    assert_eq!(p.next(), None);
    assert_eq!(p.next(), None);
    assert_eq!(p.next(), None);
}

#[test]
fn test_streaming_trailing_comma_is_error() {
    let mut p = Parser::new(chars(r#"[{"a":1,}]"#));
    assert_eq!(p.next(), Some(Err(ParseError::MissingEntry)));
    assert_eq!(p.next(), None);
}

#[test]
fn test_streaming_idempotent_after_terminal() {
    // After the end of the sequence, every pull keeps reporting it.
    let mut p = Parser::new(chars("[]"));
    assert_eq!(p.next(), None);
    assert_eq!(p.next(), None);

    // After an error, the sequence never resumes, even though later
    // content would have been well-formed.
    let mut p2 = Parser::new(chars(r#"[5,{"a":1}]"#));
    assert_eq!(p2.next(), Some(Err(ParseError::StrayToken)));
    assert_eq!(p2.next(), None);
    assert_eq!(p2.next(), None);
}

#[test]
fn test_streaming_not_an_array() {
    let mut p = Parser::new(chars(r#"{"a":1}"#));
    assert_eq!(p.next(), Some(Err(ParseError::InvalidStart)));
    assert_eq!(p.next(), None);

    let mut p2 = Parser::new(chars(""));
    assert_eq!(p2.next(), None);
}

#[test]
fn test_streaming_skips_whitespace_and_commas() {
    let mut p = Parser::new(chars("[ {\"a\": 1} ,\n {\"b\": 2} , ]"));
    assert!(matches!(p.next(), Some(Ok(_))));
    assert!(matches!(p.next(), Some(Ok(_))));
    assert_eq!(p.next(), None);
}

#[test]
fn test_value_to_text_formats() {
    assert_eq!(JsonValue::Null.to_text(), "null");
    assert_eq!(JsonValue::Boolean(true).to_text(), "true");
    assert_eq!(JsonValue::Boolean(false).to_text(), "false");
    assert_eq!(JsonValue::Number("-2.5e-3".to_string()).to_text(), "-2.5e-3");
    assert_eq!(JsonValue::String("hi".to_string()).to_text(), "\"hi\"");
    let arr = JsonValue::Array(vec![
        JsonValue::Number("1".to_string()),
        JsonValue::String("ab".to_string()),
        JsonValue::Boolean(true),
        JsonValue::Null,
    ]);
    assert_eq!(arr.to_text(), "[1, \"ab\", true, null]");
    let obj = JsonValue::Object(vec![
        ("a".to_string(), JsonValue::Number("1".to_string())),
        ("b".to_string(), JsonValue::Boolean(true)),
    ]);
    assert_eq!(obj.to_text(), "{\"a\": 1, \"b\": true}");
    assert_eq!(JsonValue::Object(vec![]).to_text(), "{}");
    assert_eq!(JsonValue::Array(vec![]).to_text(), "[]");
}

#[test]
fn test_render_then_parse_round_trip() {
    let original = JsonValue::Array(vec![
        JsonValue::Number("1".to_string()),
        JsonValue::Number("-2.5e-3".to_string()),
        JsonValue::String("hello world".to_string()),
        JsonValue::Boolean(false),
        JsonValue::Null,
        JsonValue::Array(vec![
            JsonValue::Array(vec![]),
            JsonValue::Number("0.125".to_string()),
        ]),
    ]);
    let text = original.to_text();
    let mut p = Parser::new(text.chars().collect());
    let reparsed = p.parse().unwrap();
    assert_eq!(reparsed, original);
}

#[test]
fn test_keyword_boundary_tokens() {
    // A keyword followed by a non-identifier character is the literal...
    let mut l = Lexer::new(chars("null,"));
    assert_eq!(l.next_token(), Token::NullLiteral);
    assert_eq!(l.next_token(), Token::Comma);

    // ...but an identifier continuation swallows the whole word.
    let mut l2 = Lexer::new(chars("null_x"));
    assert_eq!(l2.next_token(), Token::InvalidKeyword("null_x".to_string()));

    let mut l3 = Lexer::new(chars("true]"));
    assert_eq!(l3.next_token(), Token::BooleanLiteral(true));
    assert_eq!(l3.next_token(), Token::RSquare);
}

#[test]
fn test_token_to_text() {

    assert_eq!(Token::LBrace.to_text(), "{");
    assert_eq!(Token::RBrace.to_text(), "}");
    assert_eq!(Token::LSquare.to_text(), "[");
    assert_eq!(Token::RSquare.to_text(), "]");
    assert_eq!(Token::Comma.to_text(), ",");
    assert_eq!(Token::Colon.to_text(), ":");
    assert_eq!(Token::StringLiteral("ab".to_string()).to_text(), "\"ab\"");
    assert_eq!(Token::NumberLiteral("1e-10".to_string()).to_text(), "1e-10");
    assert_eq!(Token::BooleanLiteral(true).to_text(), "true");
    assert_eq!(Token::BooleanLiteral(false).to_text(), "false");
    assert_eq!(Token::NullLiteral.to_text(), "null");
    assert_eq!(Token::EOF.to_text(), "");
    assert_eq!(Token::Illegal('?').to_text(), "?");
    assert_eq!(Token::InvalidKeyword("nulll".to_string()).to_text(), "nulll");
}

#[test]
fn test_string_escape_resolution() {

    let mut l = Lexer::new(chars(r#""a\n\t\r\f\b\/\\\" z\q""#));
    assert_eq!(
        l.next_token(),
        Token::StringLiteral("a\n\t\r\u{000C}\u{0008}/\\\" z\\q".to_string())
    );
    assert_eq!(l.next_token(), Token::EOF);
}

#[test]
fn test_unterminated_string_truncates() {

    let mut l = Lexer::new(chars("\"abc"));
    assert_eq!(l.next_token(), Token::StringLiteral("abc".to_string()));
    assert_eq!(l.next_token(), Token::EOF);
}

#[test]
fn test_parser_from_lexer() {
    let l = Lexer::new(chars(r#"["a", "b"]"#));
    let mut p = Parser::from_lexer(l);
    assert_eq!(
        p.parse().unwrap(),
        JsonValue::Array(vec![
            JsonValue::String("a".to_string()),
            JsonValue::String("b".to_string()),
        ])
    );
}

#[test]
fn test_number_requires_digits_after_marker() {
    // A '.' with no digit behind it is not part of the number...
    let mut l = Lexer::new(chars("1.x"));
    assert_eq!(l.next_token(), Token::NumberLiteral("1".to_string()));
    assert_eq!(l.next_token(), Token::Illegal('.'));
    assert_eq!(l.next_token(), Token::InvalidKeyword("x".to_string()));
    assert_eq!(l.next_token(), Token::EOF);

    // ...nor is a bare exponent marker...
    let mut l2 = Lexer::new(chars("1e"));
    assert_eq!(l2.next_token(), Token::NumberLiteral("1".to_string()));
    assert_eq!(l2.next_token(), Token::InvalidKeyword("e".to_string()));
    assert_eq!(l2.next_token(), Token::EOF);

    // ...nor a marker with a sign but no digit after it.
    let mut l3 = Lexer::new(chars("2E+"));
    assert_eq!(l3.next_token(), Token::NumberLiteral("2".to_string()));
    assert_eq!(l3.next_token(), Token::InvalidKeyword("E".to_string()));
    assert_eq!(l3.next_token(), Token::Illegal('+'));
    assert_eq!(l3.next_token(), Token::EOF);

    // With the digits present, the whole form is one token.
    let mut l4 = Lexer::new(chars("1.5e-3"));
    assert_eq!(l4.next_token(), Token::NumberLiteral("1.5e-3".to_string()));
    assert_eq!(l4.next_token(), Token::EOF);
}
