use json_walker::error::Error;
use json_walker::group::{
    compose, flatten_json_array, group_walker, no_filter, select, Group, MaybeArray,
};
use json_walker::json::{Json, Member};
use json_walker::segment::Segment;
use serde_json::Value;

fn to_json(value: &Value) -> Json {
    match value {
        Value::Null => Json::Null,
        Value::Bool(b) => Json::Bool(*b),
        Value::Number(n) => Json::Number(n.clone()),
        Value::String(s) => Json::String(s.clone()),
        Value::Array(items) => Json::Array(items.iter().map(to_json).collect()),
        Value::Object(map) => Json::Object(
            map.iter()
                .map(|(key, value)| Member { key: key.clone(), value: to_json(value) })
                .collect(),
        ),
    }
}

fn parse(text: &str) -> Json {
    let value: Value = serde_json::from_str(text).unwrap();
    to_json(&value)
}

fn items(text: &str) -> Vec<Json> {
    match parse(text) {
        Json::Array(items) => items,
        other => panic!("no array: {other:?}"),
    }
}

fn key(text: &str) -> Segment {
    Segment::Key(String::from(text))
}

fn group(spread: bool, segments: Vec<Segment>, filters: Vec<Segment>) -> Group {
    Group { spread, segments, filters }
}

#[test]
fn flatten_takes_off_exactly_one_level() {
    assert_eq!(flatten_json_array(&items("[[1, 2], [3], 4]")), parse("[1, 2, 3, 4]"));
    assert_eq!(flatten_json_array(&items("[[1, [2, [3]]], [[4]]]")), parse("[1, [2, [3]], [4]]"));
    assert_eq!(flatten_json_array(&items("[[], [[]], {}, null]")), parse("[[], {}, null]"));
    assert_eq!(flatten_json_array(&items("[]")), parse("[]"));
    assert_eq!(flatten_json_array(&items("[1, 2]")), parse("[1, 2]"));
}

#[test]
fn compose_without_spread_keeps_an_array() {
    assert_eq!(
        compose(false, Ok(MaybeArray::Array(items("[[1], 2]")))),
        Ok(parse("[[1], 2]"))
    );
}

#[test]
fn compose_without_spread_unwraps_a_single_value() {
    assert_eq!(compose(false, Ok(MaybeArray::NonArray(parse("1")))), Ok(parse("1")));
    assert_eq!(
        compose(false, Ok(MaybeArray::NonArray(parse(r#"{"a": 1}"#)))),
        Ok(parse(r#"{"a": 1}"#))
    );
}

#[test]
fn compose_with_spread_flattens_an_array() {
    assert_eq!(
        compose(true, Ok(MaybeArray::Array(items("[[1], 2, [[3]]]")))),
        Ok(parse("[1, 2, [3]]"))
    );
}

#[test]
fn compose_with_spread_refuses_a_single_value() {
    assert_eq!(compose(true, Ok(MaybeArray::NonArray(parse("1")))), Err(Error::SpreadOnNonArray));
    assert_eq!(
        compose(true, Ok(MaybeArray::NonArray(parse("[1]")))),
        Err(Error::SpreadOnNonArray)
    );
}

#[test]
fn compose_passes_a_filter_failure_on() {
    for spread in [false, true] {
        assert_eq!(
            compose(spread, Err(String::from("no such filter"))),
            Err(Error::FilterError(String::from("no such filter")))
        );
    }
}

#[test]
fn select_walks_the_path_of_a_group() {
    let document = parse(r#"{"a": {"b": [1, 2]}}"#);
    assert_eq!(
        select(&group(false, vec![key("a"), key("b")], vec![]), &document),
        Ok(parse("[1, 2]"))
    );
    assert_eq!(
        select(&group(true, vec![key("a"), key("c")], vec![]), &document),
        Err(Error::NodeNotFound { key: String::from("c"), parent: Some(key("a")) })
    );
}

#[test]
fn select_refuses_a_group_without_segments() {
    let document = parse(r#"{"a": 1}"#);
    assert_eq!(select(&group(false, vec![], vec![key("a")]), &document), Err(Error::EmptyGroup));
}

#[test]
fn group_walker_refuses_a_group_without_segments() {
    let document = parse(r#"{"a": 1}"#);
    for spread in [false, true] {
        assert_eq!(
            group_walker(&group(spread, vec![], vec![]), &document, no_filter),
            Err(Error::EmptyGroup)
        );
    }
    assert_eq!(
        group_walker(&group(false, vec![], vec![]), &document, no_filter).map_err(|e| e.message()),
        Err(String::from("Empty group"))
    );
}

#[test]
fn group_walker_hands_the_selected_value_and_the_filters_to_the_filter() {
    let document = parse(r#"{"a": {"b": [1, 2]}}"#);
    let filters = vec![key("f"), Segment::Range(0, 1)];
    let asked = group(false, vec![key("a"), key("b")], filters);
    let result = group_walker(&asked, &document, |value: &Json, filters: &Vec<Segment>| {
        assert_eq!(value, &parse("[1, 2]"));
        assert_eq!(filters, &vec![key("f"), Segment::Range(0, 1)]);
        Ok(MaybeArray::NonArray(Json::Bool(true)))
    });
    assert_eq!(result, Ok(Json::Bool(true)));
}

#[test]
fn group_walker_does_not_filter_where_the_walk_fails() {
    let document = parse(r#"{"a": 1}"#);
    let asked = group(true, vec![key("b")], vec![]);
    let result = group_walker(&asked, &document, |_: &Json, _: &Vec<Segment>| {
        panic!("the filter was called")
    });
    assert_eq!(result, Err(Error::NodeNotFound { key: String::from("b"), parent: None }));
}

#[test]
fn group_walker_spreads_an_array() {
    let document = parse(r#"{"a": [[1, 2], [3, [4]], 5]}"#);
    assert_eq!(
        group_walker(&group(true, vec![key("a")], vec![]), &document, no_filter),
        Ok(parse("[1, 2, 3, [4], 5]"))
    );
    assert_eq!(
        group_walker(&group(false, vec![key("a")], vec![]), &document, no_filter),
        Ok(parse("[[1, 2], [3, [4]], 5]"))
    );
}

#[test]
fn group_walker_refuses_to_spread_a_single_value() {
    let document = parse(r#"{"a": {"b": 1}}"#);
    assert_eq!(
        group_walker(&group(true, vec![key("a")], vec![]), &document, no_filter),
        Err(Error::SpreadOnNonArray)
    );
    assert_eq!(
        group_walker(&group(true, vec![key("a"), key("b")], vec![]), &document, no_filter)
            .map_err(|e| e.message()),
        Err(String::from("Only arrays can be flattened"))
    );
}

#[test]
fn group_walker_passes_a_filter_failure_on() {
    let document = parse(r#"{"a": 1}"#);
    let result = group_walker(
        &group(false, vec![key("a")], vec![key("x")]),
        &document,
        |_: &Json, _: &Vec<Segment>| Err(String::from("A filter can only be applied to an array")),
    );
    assert_eq!(
        result,
        Err(Error::FilterError(String::from("A filter can only be applied to an array")))
    );
}

#[test]
fn no_filter_keeps_the_value_in_its_shape() {
    assert_eq!(no_filter(&parse("[1, [2]]"), &vec![]), Ok(MaybeArray::Array(items("[1, [2]]"))));
    assert_eq!(no_filter(&parse("[]"), &vec![key("a")]), Ok(MaybeArray::Array(vec![])));
    assert_eq!(no_filter(&parse("1"), &vec![]), Ok(MaybeArray::NonArray(parse("1"))));
    assert_eq!(
        no_filter(&parse(r#"{"a": [1]}"#), &vec![]),
        Ok(MaybeArray::NonArray(parse(r#"{"a": [1]}"#)))
    );
    assert_eq!(no_filter(&Json::Null, &vec![]), Ok(MaybeArray::NonArray(Json::Null)));
}

#[test]
fn json_clone_is_equal() {
    let document = parse(r#"{"a": [1, 2.5, -3, "x", null, true, {"b": []}], "c": {}}"#);
    assert_eq!(document.clone(), document);
    let member = Member { key: String::from("k"), value: parse("[1]") };
    assert_eq!(member.clone(), member);
}
