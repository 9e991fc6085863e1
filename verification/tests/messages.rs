use json_walker::error::Error;
use json_walker::segment::{display_node_or_range, parent_segment, Segment};

fn key(text: &str) -> Segment {
    Segment::Key(String::from(text))
}

#[test]
fn display_names_a_node_or_a_range() {
    assert_eq!(display_node_or_range(&key("array"), false), "node ( array )");
    assert_eq!(display_node_or_range(&key("text"), true), "Node ( text )");
    assert_eq!(display_node_or_range(&key(""), false), "node (  )");
    assert_eq!(display_node_or_range(&Segment::Range(5, 2), false), "range ( 5 : 2 )");
    assert_eq!(display_node_or_range(&Segment::Range(0, 10), true), "Range ( 0 : 10 )");
}

#[test]
fn parent_segment_is_the_segment_before() {
    let path = [key("a"), Segment::Range(1, 2), key("b")];
    assert_eq!(parent_segment(0, &path), None);
    assert_eq!(parent_segment(1, &path), Some(key("a")));
    assert_eq!(parent_segment(2, &path), Some(Segment::Range(1, 2)));
    assert_eq!(parent_segment(3, &path), Some(key("b")));
    assert_eq!(parent_segment(0, &[]), None);
    assert_eq!(parent_segment(4, &path), None);
    assert_eq!(parent_segment(usize::MAX, &path), None);
    assert_eq!(parent_segment(1, &[]), None);
}

#[test]
fn message_of_each_plain_error() {
    assert_eq!(Error::NoSelector.message(), "No selector found");
    assert_eq!(Error::EmptySelection.message(), "Empty selection");
    assert_eq!(Error::EmptyGroup.message(), "Empty group");
    assert_eq!(Error::InvalidNegativeIndex.message(), "Invalid negative array index");
    assert_eq!(Error::SpreadOnNonArray.message(), "Only arrays can be flattened");
}

#[test]
fn message_of_a_filter_error_is_the_text_of_the_filter() {
    assert_eq!(
        Error::FilterError(String::from("A filter can only be applied to an array")).message(),
        "A filter can only be applied to an array"
    );
    assert_eq!(Error::FilterError(String::new()).message(), "");
}

#[test]
fn message_of_an_invalid_range() {
    assert_eq!(
        Error::InvalidRange { token: String::from("99999999999999999999:1") }.message(),
        "Range ( 99999999999999999999:1 ) has a bound that is too large"
    );
}

#[test]
fn message_of_not_an_array() {
    assert_eq!(Error::NotAnArray { parent: None }.message(), "Root element is not an array");
    assert_eq!(
        Error::NotAnArray { parent: Some(key("text")) }.message(),
        "Node ( text ) is not an array"
    );
    assert_eq!(
        Error::NotAnArray { parent: Some(Segment::Range(1, 0)) }.message(),
        "Range ( 1 : 0 ) is not an array"
    );
}

#[test]
fn message_of_index_out_of_bound() {
    assert_eq!(
        Error::IndexOutOfBound { token: String::from("3"), parent: None, len: 3 }.message(),
        "Index ( 3 ) is out of bound, root element has a length of 3"
    );
    assert_eq!(
        Error::IndexOutOfBound { token: String::from("3"), parent: Some(key("array")), len: 3 }
            .message(),
        "Index ( 3 ) is out of bound, node ( array ) has a length of 3"
    );
    assert_eq!(
        Error::IndexOutOfBound {
            token: String::from("+012"),
            parent: Some(Segment::Range(4, 0)),
            len: 5
        }
        .message(),
        "Index ( +012 ) is out of bound, range ( 4 : 0 ) has a length of 5"
    );
}

#[test]
fn message_of_range_out_of_bound() {
    assert_eq!(
        Error::RangeOutOfBound { start: 6, end: 7, parent: Some(key("range")), len: 7 }.message(),
        "Range ( 6 : 7 ) is out of bound, node ( range ) has a length of 7"
    );
    assert_eq!(
        Error::RangeOutOfBound { start: 12, end: 0, parent: None, len: 10 }.message(),
        "Range ( 12 : 0 ) is out of bound, root element has a length of 10"
    );
}

#[test]
fn message_of_node_not_found() {
    assert_eq!(
        Error::NodeNotFound { key: String::from("foo"), parent: None }.message(),
        "Node ( foo ) is not the root element"
    );
    assert_eq!(
        Error::NodeNotFound { key: String::from("d"), parent: Some(key("nested")) }.message(),
        "Node ( d ) not found on parent node ( nested )"
    );
    assert_eq!(
        Error::NodeNotFound { key: String::from("d"), parent: Some(Segment::Range(0, 1)) }
            .message(),
        "Node ( d ) not found on parent range ( 0 : 1 )"
    );
}

#[test]
fn segment_clone_is_equal() {
    assert_eq!(key("a").clone(), key("a"));
    assert_eq!(Segment::Range(3, 1).clone(), Segment::Range(3, 1));
}
