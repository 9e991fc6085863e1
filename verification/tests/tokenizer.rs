use json_walker::error::Error;
use json_walker::segment::Segment;
use json_walker::tokenizer::{
    find_digits_end, find_from, find_range_start, find_token_end, get_selector, get_selectors,
};

fn chars(text: &str) -> Vec<char> {
    text.chars().collect()
}

fn key(text: &str) -> Segment {
    Segment::Key(String::from(text))
}

#[test]
fn find_from_finds_the_first_mark() {
    let text = chars("a.b.c");
    assert_eq!(find_from(&text, '.', 0), 1);
    assert_eq!(find_from(&text, '.', 1), 1);
    assert_eq!(find_from(&text, '.', 2), 3);
    assert_eq!(find_from(&text, '.', 4), 5);
    assert_eq!(find_from(&text, ',', 0), 5);
    assert_eq!(find_from(&text, '.', 5), 5);
}

#[test]
fn digits_end_at_the_first_other_character() {
    let text = chars("12:345a");
    assert_eq!(find_digits_end(&text, 0), 2);
    assert_eq!(find_digits_end(&text, 1), 2);
    assert_eq!(find_digits_end(&text, 2), 2);
    assert_eq!(find_digits_end(&text, 3), 6);
    assert_eq!(find_digits_end(&text, 7), 7);
    assert_eq!(find_digits_end(&chars("123"), 0), 3);
}

#[test]
fn a_range_starts_at_its_first_digit() {
    assert_eq!(find_range_start(&chars("12:34")), 0);
    assert_eq!(find_range_start(&chars("ab12:34")), 2);
    assert_eq!(find_range_start(&chars("1:a2:3")), 3);
    assert_eq!(find_range_start(&chars("12:")), 3);
    assert_eq!(find_range_start(&chars("abc")), 3);
    assert_eq!(find_range_start(&chars("")), 0);
}

#[test]
fn a_plain_token_ends_at_the_next_dot() {
    assert_eq!(find_token_end(&chars("abc.d"), 0), 3);
    assert_eq!(find_token_end(&chars("abc.d"), 4), 5);
    assert_eq!(find_token_end(&chars("a\"b.c\""), 0), 3);
}

#[test]
fn a_quoted_token_ends_behind_its_second_quote() {
    assert_eq!(find_token_end(&chars("\"a.b\".c"), 0), 5);
    assert_eq!(find_token_end(&chars("\"a.b\"c"), 0), 5);
    assert_eq!(find_token_end(&chars("\"a.b"), 0), 2);
    assert_eq!(find_token_end(&chars("\"\".b"), 0), 2);
    assert_eq!(find_token_end(&chars("\"\"\".b"), 0), 3);
}

#[test]
fn get_selector_reads_a_plain_key() {
    assert_eq!(get_selector("text"), Ok(key("text")));
    assert_eq!(get_selector("  text\t"), Ok(key("text")));
    assert_eq!(get_selector("a b"), Ok(key("a b")));
    assert_eq!(get_selector("-1"), Ok(key("-1")));
    assert_eq!(get_selector("3"), Ok(key("3")));
    assert_eq!(get_selector(" "), Ok(key("")));
}

#[test]
fn get_selector_strips_the_quotes_of_a_quoted_key() {
    assert_eq!(get_selector("\".property..\""), Ok(key(".property..")));
    assert_eq!(get_selector("\"\"\""), Ok(key("\"")));
    assert_eq!(get_selector("\"\""), Ok(key("")));
    assert_eq!(get_selector(" \"a\" "), Ok(key("a")));
    assert_eq!(get_selector("\" a \""), Ok(key(" a ")));
    assert_eq!(get_selector("\"1:2\""), Ok(key("1:2")));
}

#[test]
fn get_selector_keeps_a_token_with_one_quote() {
    assert_eq!(get_selector("\""), Ok(key("\"")));
    assert_eq!(get_selector("\"a"), Ok(key("\"a")));
    assert_eq!(get_selector("a\""), Ok(key("a\"")));
}

#[test]
fn get_selector_reads_a_range() {
    assert_eq!(get_selector("2:5"), Ok(Segment::Range(2, 5)));
    assert_eq!(get_selector("5:2"), Ok(Segment::Range(5, 2)));
    assert_eq!(get_selector("0:0"), Ok(Segment::Range(0, 0)));
    assert_eq!(get_selector(" 10:007 "), Ok(Segment::Range(10, 7)));
}

#[test]
fn get_selector_finds_a_range_anywhere_in_the_token() {
    assert_eq!(get_selector("a1:2"), Ok(Segment::Range(1, 2)));
    assert_eq!(get_selector("1:2b"), Ok(Segment::Range(1, 2)));
    assert_eq!(get_selector("-1:2"), Ok(Segment::Range(1, 2)));
    assert_eq!(get_selector("x 10:20 y"), Ok(Segment::Range(10, 20)));
}

#[test]
fn get_selector_takes_the_first_range_of_the_token() {
    assert_eq!(get_selector("1:2:3"), Ok(Segment::Range(1, 2)));
    assert_eq!(get_selector("1:a2:3"), Ok(Segment::Range(2, 3)));
    assert_eq!(get_selector("1:2 3:4"), Ok(Segment::Range(1, 2)));
    assert_eq!(get_selector("12:34:56"), Ok(Segment::Range(12, 34)));
    assert_eq!(get_selector(":1:2"), Ok(Segment::Range(1, 2)));
}

#[test]
fn get_selector_takes_other_shapes_for_keys() {
    assert_eq!(get_selector(":"), Ok(key(":")));
    assert_eq!(get_selector("1:"), Ok(key("1:")));
    assert_eq!(get_selector(":2"), Ok(key(":2")));
    assert_eq!(get_selector("1 : 2"), Ok(key("1 : 2")));
    assert_eq!(get_selector("1:-2"), Ok(key("1:-2")));
    assert_eq!(get_selector("1::2"), Ok(key("1::2")));
    assert_eq!(get_selector("١:٢"), Ok(key("١:٢")));
}

#[test]
fn get_selector_refuses_a_bound_that_is_too_large() {
    let token = "99999999999999999999999999:1";
    assert_eq!(
        get_selector(token),
        Err(Error::InvalidRange { token: String::from(token) })
    );
    assert_eq!(
        get_selector(" 1:99999999999999999999999999 "),
        Err(Error::InvalidRange { token: String::from("1:99999999999999999999999999") })
    );
    assert_eq!(
        get_selector("a99999999999999999999999999:1b"),
        Err(Error::InvalidRange { token: String::from("a99999999999999999999999999:1b") })
    );
    let largest = format!("{}:{}", usize::MAX, usize::MAX);
    assert_eq!(get_selector(&largest), Ok(Segment::Range(usize::MAX, usize::MAX)));
}

#[test]
fn get_selectors_splits_at_dots() {
    assert_eq!(get_selectors("nested.a"), Ok(vec![key("nested"), key("a")]));
    assert_eq!(get_selectors("mix.0.first"), Ok(vec![key("mix"), key("0"), key("first")]));
    assert_eq!(
        get_selectors("range.5:2.3:0"),
        Ok(vec![key("range"), Segment::Range(5, 2), Segment::Range(3, 0)])
    );
    assert_eq!(get_selectors(".a..b."), Ok(vec![key("a"), key("b")]));
    assert_eq!(get_selectors(" a . b "), Ok(vec![key("a"), key("b")]));
}

#[test]
fn get_selectors_finds_no_token_among_dots() {
    assert_eq!(get_selectors(""), Ok(vec![]));
    assert_eq!(get_selectors("."), Ok(vec![]));
    assert_eq!(get_selectors("..."), Ok(vec![]));
}

#[test]
fn get_selectors_keeps_the_dots_of_a_quoted_key() {
    assert_eq!(get_selectors("\".property..\""), Ok(vec![key(".property..")]));
    assert_eq!(get_selectors("\"a.b\".c"), Ok(vec![key("a.b"), key("c")]));
    assert_eq!(get_selectors("\"a.b\"c"), Ok(vec![key("a.b"), key("c")]));
    assert_eq!(get_selectors("x.\"a.b\""), Ok(vec![key("x"), key("a.b")]));
    assert_eq!(get_selectors("\"\"\""), Ok(vec![key("\"")]));
}

#[test]
fn get_selectors_opens_a_quoted_run_only_at_the_start_of_a_token() {
    assert_eq!(get_selectors("a\"b.c\""), Ok(vec![key("a\"b"), key("c\"")]));
    assert_eq!(get_selectors("\"a.b"), Ok(vec![key("\"a"), key("b")]));
    assert_eq!(get_selectors(" \"a.b\""), Ok(vec![key("\"a"), key("b\"")]));
}

#[test]
fn get_selectors_fails_on_the_first_bad_range() {
    assert_eq!(
        get_selectors("a.99999999999999999999999999:0.88888888888888888888888888:0"),
        Err(Error::InvalidRange { token: String::from("99999999999999999999999999:0") })
    );
}
