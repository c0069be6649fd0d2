use json_parser::client::User;
use json_parser::deserializer::{float_from_text, Parser};
use json_parser::serializer::{
    bool_field, float_field, nested_field, number_field, put_member, string_field, FromJsonVal, GitBlob,
    JsonVal, Repo,
};

fn parsed(text: &str) -> JsonVal {
    Parser::new(text).parse_value().unwrap()
}

fn sample() -> JsonVal {
    parsed(r#"{"s":"text","n":7,"f":1.5,"b":true,"z":null,"a":[1],"o":{"n":1}}"#)
}

#[test]
fn get_finds_members_of_objects_only() {
    let value = sample();
    assert_eq!(value.get("n"), Some(&JsonVal::Number(7)));
    assert_eq!(value.get("z"), Some(&JsonVal::Null));
    assert_eq!(value.get("missing"), None);
    assert_eq!(JsonVal::Array(vec![JsonVal::Number(1)]).get("0"), None);
    assert_eq!(JsonVal::Null.get("n"), None);
}

#[test]
fn typed_getters_want_the_exact_kind() {
    let value = sample();
    assert_eq!(value.get_string("s"), Some("text".to_string()));
    assert_eq!(value.get_string("n"), None);
    assert_eq!(value.get_number("n"), Some(7));
    assert_eq!(value.get_number("f"), None);
    assert_eq!(value.get_number("s"), None);
    assert_eq!(value.get_bool("b"), Some(true));
    assert_eq!(value.get_bool("n"), None);
    assert_eq!(value.get_bool("missing"), None);
    assert_eq!(JsonVal::Bool(true).get_bool("b"), None);
}

#[test]
fn get_float_takes_floats_and_integers() {
    let value = parsed(r#"{"f":1.5,"n":70,"s":"1.5"}"#);
    assert_eq!(value.get_float("f"), Some("1.5".to_string()));
    assert_eq!(value.get_float("n"), Some("70".to_string()));
    assert_eq!(value.get_float("s"), None);
    assert_eq!(value.get_float("missing"), None);
    assert_eq!(value.get_float("f").unwrap().parse::<f64>().unwrap(), 1.5);
    assert_eq!(value.get_float("n").unwrap().parse::<f64>().unwrap(), 70.0);
}

#[test]
fn serializes_compactly() {
    assert_eq!(JsonVal::Null.to_string(), "null");
    assert_eq!(JsonVal::Bool(true).to_string(), "true");
    assert_eq!(JsonVal::Bool(false).to_string(), "false");
    assert_eq!(JsonVal::Number(0).to_string(), "0");
    assert_eq!(JsonVal::Number(1203).to_string(), "1203");
    assert_eq!(JsonVal::Number(usize::MAX).to_string(), usize::MAX.to_string());
    assert_eq!(JsonVal::String("a\"b".to_string()).to_string(), "\"a\\\"b\"");
    assert_eq!(JsonVal::Array(vec![]).to_string(), "[]");
    assert_eq!(JsonVal::Object(vec![]).to_string(), "{}");
    assert_eq!(
        parsed(" { \"a\" : [ 1 , 2 , { \"b\" : null } ] , \"c\" : \"d\" } ").to_string(),
        r#"{"a":[1,2,{"b":null}],"c":"d"}"#
    );
}

#[test]
fn only_the_quote_is_escaped() {
    assert_eq!(JsonVal::String("a\\b\nc".to_string()).to_string(), "\"a\\b\nc\"");
}

#[test]
fn a_float_is_written_as_the_text_it_holds() {
    assert_eq!(float_from_text(&format!("{:.5}", 1.5f64)).unwrap().to_string(), "1.50000");
    assert_eq!(JsonVal::Float("1.50000".to_string()).to_string(), "1.50000");
    assert_eq!(parsed("[1.5]").to_string(), "[1.5]");
}

#[test]
fn a_float_is_built_from_the_text_of_a_float_only() {
    for text in ["1.5", "-1.5", "0.0", "1e5", "1E-5", "2.5e+10", "1.", "-.5", "-0e0", "10.25"] {
        assert_eq!(float_from_text(text), Some(JsonVal::Float(text.to_string())), "{text}");
        assert!(text.parse::<f64>().is_ok());
    }
    for text in ["", "-", "15", "-15", ".5", "+1.5", "1.5x", "1.5 ", " 1.5", "1e", "1.e", "1e+", "inf", "NaN", "1.5.5", "1e5e5"] {
        assert_eq!(float_from_text(text), None, "{text}");
    }
}

#[test]
fn a_finite_number_in_five_decimals_is_the_text_of_a_float() {
    for number in [0.0f64, -0.0, 1.5, -2.25, 1e21, 1e-7, 123456.789, f64::MAX, f64::MIN_POSITIVE] {
        let text = format!("{:.5}", number);
        assert_eq!(float_from_text(&text), Some(JsonVal::Float(text.clone())), "{text}");
    }
    for number in [f64::INFINITY, f64::NEG_INFINITY, f64::NAN] {
        assert_eq!(float_from_text(&format!("{:.5}", number)), None);
    }
}

#[test]
fn serializing_twice_gives_the_same_text() {
    let value = sample();
    assert_eq!(value.to_string(), value.to_string());
}

#[test]
fn a_value_is_read_back_from_its_text() {
    let value = parsed(r#"{"a":[1,true,null,{"b":"c \" d"}],"e":{},"f":[],"g":"h"}"#);
    assert_eq!(parsed(&value.to_string()), value);
    let built = JsonVal::Array(vec![
        JsonVal::Object(vec![("k".to_string(), JsonVal::Number(3))]),
        JsonVal::String("say \"hi\"".to_string()),
        JsonVal::Number(usize::MAX),
    ]);
    assert_eq!(parsed(&built.to_string()), built);
}

#[test]
fn a_backslash_is_not_read_back() {
    let value = JsonVal::String("a\\b".to_string());
    assert_eq!(parsed(&value.to_string()), JsonVal::String("a\u{8}".to_string()));
}

#[test]
fn equality_ignores_the_order_of_members() {
    assert_eq!(parsed(r#"{"a":1,"b":[2]}"#), parsed(r#"{"b":[2],"a":1}"#));
    assert_ne!(parsed(r#"{"a":1,"b":2}"#), parsed(r#"{"a":1}"#));
    assert_ne!(parsed(r#"{"a":1}"#), parsed(r#"{"a":1,"b":2}"#));
    assert_ne!(parsed(r#"{"a":1}"#), parsed(r#"{"a":2}"#));
    assert_ne!(parsed("[1,2]"), parsed("[2,1]"));
    assert_ne!(parsed("[1]"), parsed("[1,1]"));
    assert_ne!(parsed("1"), parsed("\"1\""));
    assert_ne!(parsed("1.0"), parsed("1"));
    assert_eq!(
        JsonVal::Object(vec![("a".to_string(), JsonVal::Number(1)), ("a".to_string(), JsonVal::Number(2))]),
        JsonVal::Object(vec![("a".to_string(), JsonVal::Number(1))])
    );
}

#[test]
fn put_member_replaces_or_appends() {
    let mut members = Vec::new();
    put_member(&mut members, "a".to_string(), JsonVal::Number(1));
    put_member(&mut members, "b".to_string(), JsonVal::Number(2));
    put_member(&mut members, "a".to_string(), JsonVal::Null);
    assert_eq!(members.len(), 2);
    assert_eq!(members[0], ("a".to_string(), JsonVal::Null));
    assert_eq!(members[1], ("b".to_string(), JsonVal::Number(2)));
}

#[test]
fn fields_default_when_missing_or_of_another_kind() {
    let value = sample();
    assert_eq!(string_field(&value, "s"), "text");
    assert_eq!(string_field(&value, "n"), "");
    assert_eq!(string_field(&value, "missing"), "");
    assert_eq!(number_field(&value, "n"), 7);
    assert_eq!(number_field(&value, "s"), 0);
    assert_eq!(bool_field(&value, "b"), true);
    assert_eq!(bool_field(&value, "s"), false);
    assert_eq!(float_field(&value, "f"), "1.5");
    assert_eq!(float_field(&value, "n"), "7");
    assert_eq!(float_field(&value, "s"), "0");
    assert_eq!(float_field(&value, "s").parse::<f64>().unwrap(), f64::default());
}

#[test]
fn a_missing_field_takes_its_default() {
    let repo = Repo::from_json(&parsed(r#"{"id":5}"#)).unwrap();
    assert_eq!(repo.id, 5);
    assert_eq!(repo.name, "");
    assert_eq!(repo.url, "");
}

#[test]
fn a_field_reads_its_source_name() {
    let user = User::from_json(&parsed(r#"{"user_id":7}"#)).unwrap();
    assert_eq!(user.user_id, 7);
    assert_eq!(user.id, 0);
    let blob = GitBlob::from_json(&parsed(r#"{"type":"PushEvent","action":"ignored"}"#)).unwrap();
    assert_eq!(blob.action, "PushEvent");
}

#[test]
fn extracts_a_user() {
    let user = User::from_json(&parsed(
        r#"{"userId": 1, "user_id": 3, "id": 1, "title": "delectus aut autem", "completed": true}"#,
    ))
    .unwrap();
    assert_eq!(user.user_id, 3);
    assert_eq!(user.id, 1);
    assert_eq!(user.title, "delectus aut autem");
    assert!(user.completed);
}

#[test]
fn extracts_a_nested_object() {
    let blob = GitBlob::from_json(&parsed(
        r#"{"id":"9","type":"PushEvent","merge_commit_sha":"abc","repo":{"id":1,"name":"x","url":"u"}}"#,
    ))
    .unwrap();
    assert_eq!(blob.id, "9");
    assert_eq!(blob.action, "PushEvent");
    assert_eq!(blob.merge_commit_sha, "abc");
    assert_eq!(blob.repo.id, 1);
    assert_eq!(blob.repo.name, "x");
    assert_eq!(blob.repo.url, "u");
}

#[test]
fn a_nested_object_defaults_when_missing_or_null() {
    for text in [r#"{"repo":null}"#, r#"{}"#, r#"{"repo":[1]}"#] {
        let blob = GitBlob::from_json(&parsed(text)).unwrap();
        assert_eq!(blob.repo.id, 0);
        assert_eq!(blob.repo.name, "");
        assert_eq!(blob.repo.url, "");
    }
    let repo: Repo = nested_field(&parsed(r#"{"repo":{"id":2}}"#), "repo");
    assert_eq!(repo.id, 2);
}

#[test]
fn only_an_object_is_extracted() {
    assert_eq!(Repo::from_json(&parsed("[1]")).unwrap_err(), "expected a JSON object");
    assert_eq!(User::from_json(&JsonVal::Null).unwrap_err(), "expected a JSON object");
    assert_eq!(GitBlob::from_json(&parsed("\"x\"")).unwrap_err(), "expected a JSON object");
}

#[test]
fn defaults_are_zero_values() {
    let repo = Repo::default();
    assert_eq!((repo.id, repo.name.as_str(), repo.url.as_str()), (0, "", ""));
    let user = User::default();
    assert_eq!((user.user_id, user.id, user.title.as_str(), user.completed), (0, 0, "", false));
}

#[test]
fn a_float_is_read_back_from_its_text() {
    let value = parsed("[1.5, -0.25e-3, 7, 2E8]");
    assert_eq!(value.to_string(), "[1.5,-0.25e-3,7,2E8]");
    assert_eq!(parsed(&value.to_string()), value);
}

struct Item {
    id: usize,
    name: String,
}

impl FromJsonVal for Item {
    fn from_json(val: &JsonVal) -> Result<Item, String> {
        match val {
            JsonVal::Object(_) => Ok(Item { id: number_field(val, "id"), name: string_field(val, "name") }),
            _ => Err("expected a JSON object".to_string()),
        }
    }
}

#[test]
fn a_mapping_written_by_hand_defaults_a_missing_field() {
    let item = Item::from_json(&parsed(r#"{"id":5}"#)).unwrap();
    assert_eq!(item.id, 5);
    assert_eq!(item.name, "");
    let items: Vec<Item> = json_parser::serializer::parse_blobs(&parsed(r#"[{"id":1,"name":"a"},{"name":"b"}]"#));
    assert_eq!(items.len(), 2);
    assert_eq!((items[0].id, items[0].name.as_str()), (1, "a"));
    assert_eq!((items[1].id, items[1].name.as_str()), (0, "b"));
}

#[test]
fn a_nested_object_is_filled_in() {
    let blob = GitBlob::from_json(&parsed(r#"{"repo":{"id":1,"name":"x"}}"#)).unwrap();
    assert_eq!(blob.repo.id, 1);
    assert_eq!(blob.repo.name, "x");
    assert_eq!(blob.repo.url, "");
}
