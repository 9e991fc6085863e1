use json_walker::json::{Json, Member};
use json_walker::walker::walker;
use serde_json::Value;

fn to_json(value: &Value) -> Json {
    match value {
        Value::Null => Json::Null,
        Value::Bool(b) => Json::Bool(*b),
        Value::Number(n) => Json::Number(n.clone()),
        Value::String(s) => Json::String(s.clone()),
        Value::Array(items) => Json::Array(items.iter().map(to_json).collect()),
        Value::Object(map) => Json::Object(
            map.iter()
                .map(|(key, value)| Member { key: key.clone(), value: to_json(value) })
                .collect(),
        ),
    }
}

fn parse(text: &str) -> Json {
    let value: Value = serde_json::from_str(text).unwrap();
    to_json(&value)
}

fn member(key: &str, value: Json) -> Member {
    Member { key: String::from(key), value }
}

#[test]
fn a_parsed_document_is_well_formed() {
    for text in [
        "null",
        "true",
        "1.5",
        r#""text""#,
        "[]",
        "{}",
        r#"{"a": [1, {"b": {"c": []}}, [[{"d": null}]]], "": 0}"#,
    ] {
        assert!(parse(text).is_well_formed(), "{text}");
    }
}

#[test]
fn an_object_with_a_key_twice_is_not_well_formed() {
    let twice = Json::Object(vec![
        member("a", Json::Null),
        member("b", Json::Null),
        member("a", Json::Bool(true)),
    ]);
    assert!(!twice.is_well_formed());
    let once = Json::Object(vec![member("a", Json::Null), member("b", Json::Null)]);
    assert!(once.is_well_formed());
}

#[test]
fn a_key_twice_deep_inside_is_found() {
    let twice = Json::Object(vec![member("k", Json::Null), member("k", Json::Null)]);
    let inside_array = Json::Array(vec![Json::Null, Json::Array(vec![twice.clone()])]);
    assert!(!inside_array.is_well_formed());
    let inside_object = Json::Object(vec![member("a", Json::Null), member("b", twice)]);
    assert!(!inside_object.is_well_formed());
    let same_key_in_two_objects = Json::Array(vec![
        Json::Object(vec![member("k", Json::Null)]),
        Json::Object(vec![member("k", Json::Null)]),
    ]);
    assert!(same_key_in_two_objects.is_well_formed());
}

#[test]
fn what_a_selector_finds_in_a_well_formed_document_is_well_formed() {
    let document = parse(r#"{"a": [{"b": 1, "c": [2, 3]}, {"d": {}}], "e": "f"}"#);
    for selector in [".", "a", "a.0", "a.1:0", "a.0.c.1:0", "e,a.0:1,a.1.d"] {
        let found = walker(&document, Some(selector)).unwrap();
        assert!(found.is_well_formed(), "{selector}");
    }
}

#[test]
fn a_clone_is_equal_and_apart() {
    let document = parse(r#"{"a": [1, 2.5, -3, "x", null, true, {"b": []}], "c": {}}"#);
    let mut copy = document.clone();
    assert_eq!(copy, document);
    if let Json::Object(members) = &mut copy {
        members.clear();
    }
    assert_eq!(copy, Json::Object(vec![]));
    assert_eq!(document, parse(r#"{"a": [1, 2.5, -3, "x", null, true, {"b": []}], "c": {}}"#));
}

#[test]
fn numbers_pass_through_unchanged() {
    let document = parse(r#"[0, -7, 18446744073709551615, 1.5, 1e300, -0.0]"#);
    let texts = ["0", "-7", "18446744073709551615", "1.5", "1e300", "-0.0"];
    for (i, text) in texts.iter().enumerate() {
        let selector = format!("{i}");
        assert_eq!(walker(&document, Some(&selector)), Ok(parse(text)));
    }
}
