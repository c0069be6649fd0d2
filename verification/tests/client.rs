use json_parser::client::{request_for, response_body, split_url, user_from_response, ResponseError};
use json_parser::deserializer::{Parser, SyntaxError, SyntaxErrorKind};
use json_parser::serializer::{parse_blobs, GitBlob, Repo};

fn message_of(text: &str) -> String {
    match Parser::new(text).parse_value() {
        Err(e) => e.message(),
        Ok(value) => panic!("{value:?}"),
    }
}

#[test]
fn a_failure_says_what_and_where() {
    assert_eq!(message_of("   ?"), "Unexpected character at position 3");
    assert_eq!(message_of("nul"), "Invalid null at position 0");
    assert_eq!(message_of("[tru]"), "Invalid boolean at position 1");
    assert_eq!(message_of("\"abc"), "Unterminated string at position 4");
    assert_eq!(message_of("\"abc\\"), "Unterminated escape sequence at position 5");
    assert_eq!(message_of("\"a\\qb\""), "Invalid escape sequence: \\q at position 3");
    assert_eq!(message_of("\"\\u12"), "Incomplete unicode escape at position 5");
    assert_eq!(message_of("\"\\u12xy\""), "Invalid unicode escape at position 3");
    assert_eq!(message_of("\"\\udc00\""), "Invalid unicode code point at position 3");
    assert_eq!(message_of("[1, -2]"), "Invalid number at position 4");
    assert_eq!(message_of("{\"a \\\"b\" 1}"), "Expected ':' after key \"a \\\"b\" at position 9");
    assert_eq!(message_of("{1:2}"), "Expected string key at position 1");
}

#[test]
fn a_failure_can_be_built_by_hand() {
    let failure = SyntaxError { kind: SyntaxErrorKind::InvalidNumber, position: 1234567890 };
    assert_eq!(failure.message(), "Invalid number at position 1234567890");
}

#[test]
fn an_address_splits_into_host_and_path() {
    assert_eq!(
        split_url("http://jsonplaceholder.typicode.com/todos/1"),
        ("jsonplaceholder.typicode.com".to_string(), "/todos/1".to_string())
    );
    assert_eq!(split_url("http://example.com"), ("example.com".to_string(), "/".to_string()));
    assert_eq!(split_url("http://example.com/"), ("example.com".to_string(), "/".to_string()));
    assert_eq!(split_url("example.com/a/b"), ("example.com".to_string(), "/a/b".to_string()));
    assert_eq!(split_url("https://example.com/a"), ("https:".to_string(), "//example.com/a".to_string()));
    assert_eq!(split_url(""), (String::new(), "/".to_string()));
    assert_eq!(split_url("http://"), (String::new(), "/".to_string()));
}

#[test]
fn a_request_names_path_and_host() {
    assert_eq!(
        request_for("example.com", "/todos/1"),
        "GET /todos/1 HTTP/1.1\r\nHost: example.com\r\nConnection: close\r\n\r\n"
    );
}

#[test]
fn the_body_follows_the_first_empty_line() {
    assert_eq!(
        response_body("HTTP/1.1 200 OK\r\nA: b\r\n\r\n{\"id\":1}\r\n\r\nrest"),
        Some("{\"id\":1}\r\n\r\nrest".to_string())
    );
    assert_eq!(response_body("\r\n\r\n"), Some(String::new()));
    assert_eq!(response_body("HTTP/1.1 200 OK\r\nA: b\r\n"), None);
    assert_eq!(response_body("a\n\nb"), None);
    assert_eq!(response_body(""), None);
}

#[test]
fn a_user_is_read_from_a_response() {
    let user = user_from_response(
        "HTTP/1.1 200 OK\r\nContent-Type: application/json\r\n\r\n{\n  \"userId\": 1,\n  \"id\": 4,\n  \"title\": \"et porro tempora\",\n  \"completed\": true\n}",
    )
    .unwrap();
    assert_eq!(user.user_id, 0);
    assert_eq!(user.id, 4);
    assert_eq!(user.title, "et porro tempora");
    assert!(user.completed);
}

#[test]
fn a_response_without_a_user_says_why() {
    assert!(matches!(user_from_response("HTTP/1.1 200 OK\r\n"), Err(ResponseError::NoBody)));
    assert!(matches!(
        user_from_response("HTTP/1.1 200 OK\r\n\r\n{\"id\": }"),
        Err(ResponseError::Syntax(SyntaxError { kind: SyntaxErrorKind::UnexpectedCharacter, position: 7 }))
    ));
    assert!(matches!(user_from_response("HTTP/1.1 200 OK\r\n\r\n[1]"), Err(ResponseError::NotAnObject)));
}

#[test]
fn blobs_are_the_objects_of_an_array() {
    let value = Parser::new(
        r#"[{"id":"1","type":"PushEvent","repo":{"id":7,"name":"n"}}, 3, {"id":"2"}, null, []]"#,
    )
    .parse_value()
    .unwrap();
    let blobs: Vec<GitBlob> = parse_blobs(&value);
    assert_eq!(blobs.len(), 2);
    assert_eq!(blobs[0].id, "1");
    assert_eq!(blobs[0].action, "PushEvent");
    assert_eq!(blobs[0].repo.id, 7);
    assert_eq!(blobs[0].repo.name, "n");
    assert_eq!(blobs[1].id, "2");
    assert_eq!(blobs[1].repo.id, 0);
}

#[test]
fn only_an_array_holds_blobs() {
    let value = Parser::new(r#"{"id":1}"#).parse_value().unwrap();
    assert!(parse_blobs::<Repo>(&value).is_empty());
    let empty = Parser::new("[]").parse_value().unwrap();
    assert!(parse_blobs::<Repo>(&empty).is_empty());
}
