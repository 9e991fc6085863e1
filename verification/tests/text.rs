use json_walker::text::{
    char_digit_value, char_is_digit, char_is_space, chars_of, decimal_string, read_integer,
    read_unsigned, trim_bounds,
};

fn chars(text: &str) -> Vec<char> {
    text.chars().collect()
}

fn trimmed(text: &str) -> String {
    let all = chars(text);
    let (from, to) = trim_bounds(&all);
    all[from..to].iter().collect()
}

#[test]
fn chars_of_keeps_every_character() {
    assert_eq!(chars_of(""), Vec::<char>::new());
    assert_eq!(chars_of("a.b"), vec!['a', '.', 'b']);
    assert_eq!(chars_of("é\u{3000}"), vec!['é', '\u{3000}']);
}

#[test]
fn white_space_is_what_std_takes_for_it() {
    let mut code: u32 = 0;
    while code <= 0x10FFFF {
        if let Some(c) = char::from_u32(code) {
            assert_eq!(char_is_space(c), c.is_whitespace(), "code {code:#x}");
        }
        code += 1;
    }
}

#[test]
fn trim_drops_white_space_at_both_ends() {
    assert_eq!(trimmed("  a b \t"), "a b");
    assert_eq!(trimmed("a"), "a");
    assert_eq!(trimmed(""), "");
    assert_eq!(trimmed(" \n "), "");
    assert_eq!(trimmed("\u{a0}x\u{2028}"), "x");
    assert_eq!(trim_bounds(&chars("  ab ")), (2, 4));
    assert_eq!(trim_bounds(&chars("   ")), (3, 3));
}

#[test]
fn trim_agrees_with_std() {
    for text in ["", " ", "a", " a", "a ", " a b ", "\t\"k\"\n", "\u{1680}1:2\u{205f}", " . "] {
        assert_eq!(trimmed(text), text.trim());
    }
}

#[test]
fn digits_are_the_ten_ascii_ones() {
    for c in '0'..='9' {
        assert!(char_is_digit(c));
    }
    assert!(!char_is_digit('/'));
    assert!(!char_is_digit(':'));
    assert!(!char_is_digit('a'));
    assert!(!char_is_digit('٣'));
    assert_eq!(char_digit_value('0'), 0);
    assert_eq!(char_digit_value('7'), 7);
    assert_eq!(char_digit_value('9'), 9);
}

#[test]
fn decimal_string_writes_base_ten() {
    assert_eq!(decimal_string(0), "0");
    assert_eq!(decimal_string(7), "7");
    assert_eq!(decimal_string(10), "10");
    assert_eq!(decimal_string(1337), "1337");
    assert_eq!(decimal_string(1000), "1000");
    assert_eq!(decimal_string(usize::MAX), usize::MAX.to_string());
}

#[test]
fn read_unsigned_reads_digits_only() {
    assert_eq!(read_unsigned(&chars("12:34"), 0, 2), Some(12));
    assert_eq!(read_unsigned(&chars("12:34"), 3, 5), Some(34));
    assert_eq!(read_unsigned(&chars("007"), 0, 3), Some(7));
    assert_eq!(read_unsigned(&chars("0"), 0, 1), Some(0));
    assert_eq!(read_unsigned(&chars("12"), 1, 1), None);
    assert_eq!(read_unsigned(&chars("1a"), 0, 2), None);
    assert_eq!(read_unsigned(&chars("+1"), 0, 2), None);
}

#[test]
fn read_unsigned_stops_at_the_largest_number() {
    let largest = usize::MAX.to_string();
    assert_eq!(read_unsigned(&chars(&largest), 0, largest.len()), Some(usize::MAX));
    let mut beyond = largest.clone();
    beyond.push('0');
    assert_eq!(read_unsigned(&chars(&beyond), 0, beyond.len()), None);
    let next = (usize::MAX as u128 + 1).to_string();
    assert_eq!(read_unsigned(&chars(&next), 0, next.len()), None);
    assert_eq!(read_unsigned(&chars("99999999999999999999999999"), 0, 26), None);
}

#[test]
fn read_integer_reads_signed_numbers() {
    assert_eq!(read_integer(&chars("0")), Some(0));
    assert_eq!(read_integer(&chars("3")), Some(3));
    assert_eq!(read_integer(&chars("+3")), Some(3));
    assert_eq!(read_integer(&chars("-1")), Some(-1));
    assert_eq!(read_integer(&chars("-0")), Some(0));
    assert_eq!(read_integer(&chars("0042")), Some(42));
    assert_eq!(read_integer(&chars("")), None);
    assert_eq!(read_integer(&chars("-")), None);
    assert_eq!(read_integer(&chars("+")), None);
    assert_eq!(read_integer(&chars("1 ")), None);
    assert_eq!(read_integer(&chars("1.5")), None);
    assert_eq!(read_integer(&chars("--1")), None);
    assert_eq!(read_integer(&chars("text")), None);
    assert_eq!(read_integer(&chars("2:5")), None);
}

#[test]
fn read_integer_stops_at_the_ends_of_isize() {
    let largest = isize::MAX.to_string();
    let smallest = isize::MIN.to_string();
    assert_eq!(read_integer(&chars(&largest)), Some(isize::MAX));
    assert_eq!(read_integer(&chars(&smallest)), Some(isize::MIN));
    let above = (isize::MAX as i128 + 1).to_string();
    let below = (isize::MIN as i128 - 1).to_string();
    assert_eq!(read_integer(&chars(&above)), None);
    assert_eq!(read_integer(&chars(&below)), None);
    assert_eq!(read_integer(&chars("-99999999999999999999999999")), None);
}

#[test]
fn read_integer_agrees_with_std() {
    for text in [
        "", "0", "-0", "+0", "12", "-12", "+12", "1-2", "- 1", "٣", "9223372036854775807",
        "9223372036854775808", "-9223372036854775808", "-9223372036854775809",
        "00000000000000000000001",
    ] {
        assert_eq!(read_integer(&chars(text)), text.parse::<isize>().ok(), "{text:?}");
    }
}
