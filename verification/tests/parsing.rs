use json_parser::deserializer::{Parser, SyntaxError, SyntaxErrorKind};
use json_parser::serializer::JsonVal;

fn parse(text: &str) -> Result<JsonVal, SyntaxError> {
    Parser::new(text).parse_value()
}

fn object(members: Vec<(&str, JsonVal)>) -> JsonVal {
    JsonVal::Object(members.into_iter().map(|(k, v)| (k.to_string(), v)).collect())
}

#[test]
fn parses_the_literals() {
    assert_eq!(parse("null").unwrap(), JsonVal::Null);
    assert_eq!(parse("true").unwrap(), JsonVal::Bool(true));
    assert_eq!(parse("false").unwrap(), JsonVal::Bool(false));
}

#[test]
fn parses_integers() {
    assert_eq!(parse("0").unwrap(), JsonVal::Number(0));
    assert_eq!(parse("42").unwrap(), JsonVal::Number(42));
    assert_eq!(parse("007").unwrap(), JsonVal::Number(7));
    assert_eq!(parse(&usize::MAX.to_string()).unwrap(), JsonVal::Number(usize::MAX));
}

#[test]
fn rejects_an_integer_that_is_too_large() {
    let text = format!("{}0", usize::MAX);
    assert!(matches!(
        parse(&text),
        Err(SyntaxError { kind: SyntaxErrorKind::InvalidNumber, position: 0 })
    ));
}

#[test]
fn rejects_a_negative_integer() {
    assert!(matches!(
        parse(" -5"),
        Err(SyntaxError { kind: SyntaxErrorKind::InvalidNumber, position: 1 })
    ));
    assert!(matches!(
        parse("-abc"),
        Err(SyntaxError { kind: SyntaxErrorKind::InvalidNumber, position: 0 })
    ));
}

#[test]
fn parses_floats_as_their_text() {
    assert_eq!(parse("1.5").unwrap(), JsonVal::Float("1.5".to_string()));
    assert_eq!(parse("-2.25e+3 ").unwrap(), JsonVal::Float("-2.25e+3".to_string()));
    assert_eq!(parse("1E5").unwrap(), JsonVal::Float("1E5".to_string()));
    assert_eq!(parse("1.").unwrap(), JsonVal::Float("1.".to_string()));
    assert_eq!(parse("-.5").unwrap(), JsonVal::Float("-.5".to_string()));
}

#[test]
fn float_texts_are_read_by_the_standard_library() {
    for text in ["1.5", "-2.25e+3", "1E5", "1.", "-.5", "0.000005", "12e-2"] {
        match parse(text).unwrap() {
            JsonVal::Float(held) => {
                assert!(held.parse::<f64>().is_ok(), "{held}");
            }
            other => panic!("{other:?}"),
        }
    }
    for text in ["1e", "1.5e+", "-.", "-e5", "1.e"] {
        assert!(text.parse::<f64>().is_err());
        assert!(matches!(
            parse(text),
            Err(SyntaxError { kind: SyntaxErrorKind::InvalidNumber, position: 0 })
        ));
    }
}

#[test]
fn parses_strings_and_escapes() {
    assert_eq!(parse("\"\"").unwrap(), JsonVal::String(String::new()));
    assert_eq!(parse("\"abc\"").unwrap(), JsonVal::String("abc".to_string()));
    assert_eq!(
        parse(r#""a\"b\\c\/d\be\ff\ng\rh\ti""#).unwrap(),
        JsonVal::String("a\"b\\c/d\u{8}e\u{c}f\ng\rh\ti".to_string())
    );
    assert_eq!(
        parse("\"\\u0041\\u00e9\\u20AC\"").unwrap(),
        JsonVal::String("A\u{e9}\u{20ac}".to_string())
    );
    assert_eq!(parse("\"h\u{e9}llo \u{1F600}\"").unwrap(), JsonVal::String("h\u{e9}llo \u{1F600}".to_string()));
}

#[test]
fn reports_faults_in_strings() {
    assert!(matches!(
        parse("\"abc"),
        Err(SyntaxError { kind: SyntaxErrorKind::UnterminatedString, position: 4 })
    ));
    assert!(matches!(
        parse("\"abc\\"),
        Err(SyntaxError { kind: SyntaxErrorKind::UnterminatedEscape, position: 5 })
    ));
    assert!(matches!(
        parse(r#""a\xb""#),
        Err(SyntaxError { kind: SyntaxErrorKind::InvalidEscape('x'), position: 3 })
    ));
    assert!(matches!(
        parse(r#""\u12"#),
        Err(SyntaxError { kind: SyntaxErrorKind::IncompleteUnicodeEscape, position: 5 })
    ));
    assert!(matches!(
        parse(r#""\u12g4""#),
        Err(SyntaxError { kind: SyntaxErrorKind::InvalidUnicodeEscape, position: 3 })
    ));
    assert!(matches!(
        parse(r#""\u+123""#),
        Err(SyntaxError { kind: SyntaxErrorKind::InvalidUnicodeEscape, position: 3 })
    ));
    assert!(matches!(
        parse("\"\\ud83d\\ude00\""),
        Err(SyntaxError { kind: SyntaxErrorKind::InvalidCodePoint, position: 3 })
    ));
}

#[test]
fn the_cursor_counts_characters() {
    let mut parser = Parser::new("\"\u{e9}\u{e9}\" x");
    assert_eq!(parser.parse_value().unwrap(), JsonVal::String("\u{e9}\u{e9}".to_string()));
    assert!(matches!(
        parser.parse_value(),
        Err(SyntaxError { kind: SyntaxErrorKind::UnexpectedCharacter, position: 5 })
    ));
}

#[test]
fn parses_arrays() {
    assert_eq!(parse("[]").unwrap(), JsonVal::Array(vec![]));
    assert_eq!(
        parse("[1, \"a\", [true], null]").unwrap(),
        JsonVal::Array(vec![
            JsonVal::Number(1),
            JsonVal::String("a".to_string()),
            JsonVal::Array(vec![JsonVal::Bool(true)]),
            JsonVal::Null,
        ])
    );
}

#[test]
fn whitespace_is_insignificant() {
    assert_eq!(parse(" {\"a\":1} ").unwrap(), parse("{\"a\":1}").unwrap());
    assert_eq!(
        parse("\t\r\n [ 1 ,\n2 ] ").unwrap(),
        JsonVal::Array(vec![JsonVal::Number(1), JsonVal::Number(2)])
    );
}

#[test]
fn other_whitespace_is_a_fault() {
    assert!(matches!(
        parse("\u{a0}1"),
        Err(SyntaxError { kind: SyntaxErrorKind::UnexpectedCharacter, position: 0 })
    ));
}

#[test]
fn a_trailing_comma_is_allowed() {
    assert_eq!(parse("[1,2,]").unwrap(), JsonVal::Array(vec![JsonVal::Number(1), JsonVal::Number(2)]));
    assert_eq!(parse("{\"a\":1,}").unwrap(), object(vec![("a", JsonVal::Number(1))]));
}

#[test]
fn a_missing_comma_is_allowed() {
    assert_eq!(parse("[1 2]").unwrap(), JsonVal::Array(vec![JsonVal::Number(1), JsonVal::Number(2)]));
    assert_eq!(
        parse("{\"a\":1 \"b\":2}").unwrap(),
        object(vec![("a", JsonVal::Number(1)), ("b", JsonVal::Number(2))])
    );
}

#[test]
fn parses_objects() {
    assert_eq!(parse("{}").unwrap(), JsonVal::Object(vec![]));
    assert_eq!(
        parse("{\"a\": {\"b\": [1]}, \"c\": \"d\"}").unwrap(),
        object(vec![
            ("a", object(vec![("b", JsonVal::Array(vec![JsonVal::Number(1)]))])),
            ("c", JsonVal::String("d".to_string())),
        ])
    );
}

#[test]
fn the_last_value_of_a_repeated_name_wins() {
    let parsed = parse("{\"a\":1,\"b\":2,\"a\":3}").unwrap();
    assert_eq!(parsed, object(vec![("a", JsonVal::Number(3)), ("b", JsonVal::Number(2))]));
    assert_eq!(parsed.get_number("a"), Some(3));
    match parsed {
        JsonVal::Object(members) => assert_eq!(members.len(), 2),
        other => panic!("{other:?}"),
    }
}

#[test]
fn malformed_input_is_a_syntax_error() {
    assert!(matches!(
        parse("{\"a\": }"),
        Err(SyntaxError { kind: SyntaxErrorKind::UnexpectedCharacter, position: 6 })
    ));
    assert!(matches!(
        parse("tru"),
        Err(SyntaxError { kind: SyntaxErrorKind::InvalidBoolean, position: 0 })
    ));
    assert!(matches!(
        parse("nul"),
        Err(SyntaxError { kind: SyntaxErrorKind::InvalidNull, position: 0 })
    ));
    assert!(matches!(
        parse(""),
        Err(SyntaxError { kind: SyntaxErrorKind::UnexpectedCharacter, position: 0 })
    ));
    assert!(matches!(
        parse("[1, ?]"),
        Err(SyntaxError { kind: SyntaxErrorKind::UnexpectedCharacter, position: 4 })
    ));
    assert!(matches!(
        parse("[1"),
        Err(SyntaxError { kind: SyntaxErrorKind::UnexpectedCharacter, position: 2 })
    ));
}

#[test]
fn a_missing_colon_names_the_key() {
    match parse("{\"name\" 1}") {
        Err(SyntaxError { kind: SyntaxErrorKind::MissingColon(key), position }) => {
            assert_eq!(key, "name");
            assert_eq!(position, 8);
        }
        other => panic!("{other:?}"),
    }
}

#[test]
fn a_member_must_start_with_a_quote() {
    assert!(matches!(
        parse("{a:1}"),
        Err(SyntaxError { kind: SyntaxErrorKind::ExpectedStringKey, position: 1 })
    ));
    assert!(matches!(
        parse("{"),
        Err(SyntaxError { kind: SyntaxErrorKind::ExpectedStringKey, position: 1 })
    ));
}

#[test]
fn the_cursor_stops_after_the_value() {
    let mut parser = Parser::new("1 2");
    assert_eq!(parser.peek(), Some('1'));
    assert_eq!(parser.parse_value().unwrap(), JsonVal::Number(1));
    assert_eq!(parser.peek(), Some(' '));
    assert_eq!(parser.parse_value().unwrap(), JsonVal::Number(2));
    assert_eq!(parser.peek(), None);
    assert_eq!(parser.next(), None);
}

#[test]
fn next_and_skip_whitespace_move_the_cursor() {
    let mut parser = Parser::new(" \t\r\nab");
    parser.skip_whitespace();
    assert_eq!(parser.next(), Some('a'));
    assert_eq!(parser.peek(), Some('b'));
    assert_eq!(parser.next(), Some('b'));
    assert_eq!(parser.next(), None);
}
