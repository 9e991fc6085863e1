//! Characters, trimming and decimal numbers.

use vstd::prelude::*;

verus! {

/// The characters of a string slice, one by one.
pub fn chars_of(text: &str) -> (chars: Vec<char>)
    ensures
        chars@ == text@,
{
    let mut chars: Vec<char> = Vec::new();
    for c in it: text.chars()
        invariant
            it.seq() == text@,
            chars@ == it.seq().take(it.index() as int),
    {
        chars.push(c);
    }
    chars
}

/// Whether `c` is white space: a character with the Unicode property
/// `White_Space`.
pub open spec fn is_space(c: char) -> bool {
    let code = c as u32;
    ||| 0x09 <= code <= 0x0D
    ||| code == 0x20
    ||| code == 0x85
    ||| code == 0xA0
    ||| code == 0x1680
    ||| 0x2000 <= code <= 0x200A
    ||| code == 0x2028
    ||| code == 0x2029
    ||| code == 0x202F
    ||| code == 0x205F
    ||| code == 0x3000
}

/// Tests a character for white space.
pub fn char_is_space(c: char) -> (space: bool)
    ensures
        space == is_space(c),
{
    let code: u32 = c as u32;
    (0x09 <= code && code <= 0x0D) || code == 0x20 || code == 0x85 || code == 0xA0 || code
        == 0x1680 || (0x2000 <= code && code <= 0x200A) || code == 0x2028 || code == 0x2029
        || code == 0x202F || code == 0x205F || code == 0x3000
}

/// The first position in `from..to` that holds no white space, or `to`.
pub open spec fn skip_spaces(text: Seq<char>, from: int, to: int) -> int
    decreases to - from,
{
    if from < to && is_space(text[from]) {
        skip_spaces(text, from + 1, to)
    } else {
        from
    }
}

/// The end of `from..to` once the white space at its end is dropped.
pub open spec fn drop_spaces(text: Seq<char>, from: int, to: int) -> int
    decreases to - from,
{
    if from < to && is_space(text[to - 1]) {
        drop_spaces(text, from, to - 1)
    } else {
        to
    }
}

/// Where the text starts once white space is trimmed from both ends.
pub open spec fn trim_start(text: Seq<char>) -> int {
    skip_spaces(text, 0, text.len() as int)
}

/// Where the text ends once white space is trimmed from both ends.
pub open spec fn trim_end(text: Seq<char>) -> int {
    drop_spaces(text, trim_start(text), text.len() as int)
}

/// The text without the white space at its two ends.
pub open spec fn trimmed(text: Seq<char>) -> Seq<char> {
    text.subrange(trim_start(text), trim_end(text))
}

/// Finds the bounds of the trimmed text.
pub fn trim_bounds(chars: &Vec<char>) -> (bounds: (usize, usize))
    ensures
        bounds.0 == trim_start(chars@),
        bounds.1 == trim_end(chars@),
        bounds.0 <= bounds.1 <= chars.len(),
{
    let mut start: usize = 0;
    while start < chars.len() && char_is_space(chars[start])
        invariant
            start <= chars.len(),
            skip_spaces(chars@, start as int, chars.len() as int) == trim_start(chars@),
        decreases chars.len() - start,
    {
        start += 1;
    }
    let mut end: usize = chars.len();
    while start < end && char_is_space(chars[end - 1])
        invariant
            start <= end <= chars.len(),
            drop_spaces(chars@, start as int, end as int) == trim_end(chars@),
            start == trim_start(chars@),
        decreases end - start,
    {
        end -= 1;
    }
    (start, end)
}

/// Whether `c` is one of the ten decimal digits `0` to `9`.
pub open spec fn is_digit(c: char) -> bool {
    '0' <= c <= '9'
}

/// The number that a decimal digit stands for.
pub open spec fn digit_value(c: char) -> nat {
    (c as u32 - '0' as u32) as nat
}

/// Whether every position of `from..to` holds a decimal digit.
pub open spec fn all_digits(text: Seq<char>, from: int, to: int) -> bool {
    forall|i: int| from <= i < to ==> is_digit(#[trigger] text[i])
}

/// The number that the digits in `from..to` write in base ten.
pub open spec fn digits_value(text: Seq<char>, from: int, to: int) -> nat
    decreases to - from,
{
    if from >= to {
        0
    } else {
        10 * digits_value(text, from, to - 1) + digit_value(text[to - 1])
    }
}

/// A run of digits is worth at least as much as each of its beginnings.
pub proof fn lemma_digits_value_grows(text: Seq<char>, from: int, mid: int, to: int)
    requires
        from <= mid <= to,
    ensures
        digits_value(text, from, mid) <= digits_value(text, from, to),
    decreases to - mid,
{
    if mid < to {
        lemma_digits_value_grows(text, from, mid, to - 1);
    }
}

/// Tests a character for a decimal digit.
pub fn char_is_digit(c: char) -> (digit: bool)
    ensures
        digit == is_digit(c),
{
    '0' <= c && c <= '9'
}

/// The number that a decimal digit stands for.
pub fn char_digit_value(c: char) -> (value: u8)
    requires
        is_digit(c),
    ensures
        value == digit_value(c),
        value <= 9,
{
    (c as u32 - '0' as u32) as u8
}

/// The number that the text in `from..to` writes in base ten, where it is
/// made of decimal digits, at least one, and the number fits a `usize`.
pub open spec fn parse_unsigned(text: Seq<char>, from: int, to: int) -> Option<usize> {
    if from < to && all_digits(text, from, to) && digits_value(text, from, to) <= usize::MAX {
        Some(digits_value(text, from, to) as usize)
    } else {
        None
    }
}

/// Reads the unsigned decimal number written in `from..to`.
pub fn read_unsigned(chars: &Vec<char>, from: usize, to: usize) -> (number: Option<usize>)
    requires
        from <= to <= chars.len(),
    ensures
        number == parse_unsigned(chars@, from as int, to as int),
{
    if from == to {
        return None;
    }
    let mut value: usize = 0;
    let mut i: usize = from;
    while i < to
        invariant
            from <= i <= to <= chars.len(),
            all_digits(chars@, from as int, i as int),
            value == digits_value(chars@, from as int, i as int),
        decreases to - i,
    {
        let c = chars[i];
        if !char_is_digit(c) {
            return None;
        }
        let digit = char_digit_value(c) as usize;
        proof {
            lemma_digits_value_grows(chars@, from as int, i + 1, to as int);
        }
        if value > (usize::MAX - digit) / 10 {
            return None;
        }
        value = value * 10 + digit;
        i += 1;
    }
    Some(value)
}

/// The integer that the text writes: an optional sign `+` or `-`, then
/// decimal digits, at least one, for a number that fits an `isize`.
pub open spec fn parse_integer(text: Seq<char>) -> Option<isize> {
    let signed = text.len() > 0 && (text[0] == '-' || text[0] == '+');
    let from: int = if signed { 1 } else { 0 };
    let size = digits_value(text, from, text.len() as int);
    if from < text.len() && all_digits(text, from, text.len() as int) {
        if text[0] == '-' {
            if -size >= isize::MIN {
                Some((-size) as isize)
            } else {
                None
            }
        } else {
            if size <= isize::MAX {
                Some(size as isize)
            } else {
                None
            }
        }
    } else {
        None
    }
}

/// Reads the integer that the text writes.
pub fn read_integer(chars: &Vec<char>) -> (number: Option<isize>)
    ensures
        number == parse_integer(chars@),
{
    let len = chars.len();
    if len == 0 {
        return None;
    }
    let negative = chars[0] == '-';
    let from: usize = if negative || chars[0] == '+' { 1 } else { 0 };
    if from == len {
        return None;
    }
    // The number is gathered below zero, where an `isize` has most room.
    let mut value: isize = 0;
    let mut i: usize = from;
    while i < len
        invariant
            from <= i <= len,
            0 < len == chars.len(),
            negative == (chars@[0] == '-'),
            from == if chars@[0] == '-' || chars@[0] == '+' { 1usize } else { 0usize },
            all_digits(chars@, from as int, i as int),
            value == -digits_value(chars@, from as int, i as int),
        decreases len - i,
    {
        let c = chars[i];
        if !char_is_digit(c) {
            return None;
        }
        let digit = char_digit_value(c) as isize;
        proof {
            lemma_digits_value_grows(chars@, from as int, i + 1, len as int);
        }
        if value < (isize::MIN + digit) / 10 {
            return None;
        }
        value = value * 10 - digit;
        i += 1;
    }
    if negative {
        Some(value)
    } else if value == isize::MIN {
        None
    } else {
        Some(-value)
    }
}

/// The character that writes a number below ten.
pub open spec fn digit_char(digit: nat) -> char {
    ('0' as u32 + digit) as char
}

/// A number written in base ten, without leading zeros.
pub open spec fn decimal(number: nat) -> Seq<char>
    decreases number,
{
    if number < 10 {
        seq![digit_char(number)]
    } else {
        decimal(number / 10).push(digit_char(number % 10))
    }
}

/// The one-character text that writes a number below ten.
fn digit_text(digit: usize) -> (text: &'static str)
    requires
        digit < 10,
    ensures
        text@ == seq![digit_char(digit as nat)],
{
    proof {
        reveal_strlit("0");
        reveal_strlit("1");
        reveal_strlit("2");
        reveal_strlit("3");
        reveal_strlit("4");
        reveal_strlit("5");
        reveal_strlit("6");
        reveal_strlit("7");
        reveal_strlit("8");
        reveal_strlit("9");
    }
    let text = match digit {
        0 => "0",
        1 => "1",
        2 => "2",
        3 => "3",
        4 => "4",
        5 => "5",
        6 => "6",
        7 => "7",
        8 => "8",
        _ => "9",
    };
    assert(text@ =~= seq![digit_char(digit as nat)]);
    text
}

/// Writes a number in base ten.
pub fn decimal_string(number: usize) -> (text: String)
    ensures
        text@ == decimal(number as nat),
    decreases number,
{
    if number < 10 {
        String::from_str(digit_text(number))
    } else {
        let mut text = decimal_string(number / 10);
        text.append(digit_text(number % 10));
        assert(text@ =~= decimal(number as nat));
        text
    }
}

/// The worth of a run of digits depends on the run alone, not on where it
/// stands or on what stands around it.
pub proof fn lemma_digits_value_of_run(
    text: Seq<char>,
    from: int,
    to: int,
    other: Seq<char>,
    other_from: int,
)
    requires
        0 <= from <= to <= text.len(),
        0 <= other_from,
        other_from + (to - from) <= other.len(),
        forall|i: int| from <= i < to ==> text[i] == other[other_from + (i - from)],
    ensures
        digits_value(text, from, to) == digits_value(other, other_from, other_from + (to - from)),
    decreases to - from,
{
    if from < to {
        lemma_digits_value_of_run(text, from, to - 1, other, other_from);
    }
}

/// A number written in base ten is made of digits, at least one, and reads
/// back as the number.
pub proof fn lemma_decimal_reads_back(number: nat)
    ensures
        decimal(number).len() >= 1,
        all_digits(decimal(number), 0, decimal(number).len() as int),
        digits_value(decimal(number), 0, decimal(number).len() as int) == number,
    decreases number,
{
    let text = decimal(number);
    if number < 10 {
        assert(is_digit(text[0]));
        assert(digits_value(text, 0, 0) == 0);
    } else {
        let front = decimal(number / 10);
        lemma_decimal_reads_back(number / 10);
        assert(text == front.push(digit_char(number % 10)));
        assert(is_digit(text[text.len() - 1]));
        assert forall|i: int| 0 <= i < text.len() implies is_digit(#[trigger] text[i]) by {
            if i < front.len() {
                assert(text[i] == front[i]);
            }
        }
        lemma_digits_value_of_run(text, 0, front.len() as int, front, 0);
    }
}

} // verus!
