//! The selector grammar: how the text of one group splits into segments.
//!
//! Dots separate tokens. A token that opens with a double quote runs to the
//! next double quote, dots included, where at least one character stands
//! between the two; any other token runs to the next dot. A token is then
//! trimmed and read as a quoted key, a range or a plain key. A token is a
//! range where digits, a colon and digits stand anywhere in it.

use crate::error::{put_first, Error, ErrorModel};
use crate::segment::{segment_models, Segment, SegmentModel};
use crate::text::{
    all_digits, char_is_digit, chars_of, is_digit, parse_unsigned, read_unsigned, trim_bounds,
    trimmed,
};
use vstd::prelude::*;

verus! {

/// The first position at or after `from` that holds `mark`, or the length
/// of the text where none does.
pub open spec fn find_char(text: Seq<char>, mark: char, from: int) -> int
    decreases text.len() - from,
{
    if from >= text.len() {
        text.len() as int
    } else if text[from] == mark {
        from
    } else {
        find_char(text, mark, from + 1)
    }
}

/// What `find_char` finds lies at or after `from` and within the text, and
/// holds the mark unless it is the end of the text.
pub proof fn lemma_find_char(text: Seq<char>, mark: char, from: int)
    requires
        0 <= from <= text.len(),
    ensures
        from <= find_char(text, mark, from) <= text.len(),
        find_char(text, mark, from) < text.len() ==> text[find_char(text, mark, from)] == mark,
        forall|i: int| from <= i < find_char(text, mark, from) ==> text[i] != mark,
    decreases text.len() - from,
{
    if from < text.len() && text[from] != mark {
        lemma_find_char(text, mark, from + 1);
    }
}

/// Finds the first position at or after `from` that holds `mark`.
pub fn find_from(chars: &Vec<char>, mark: char, from: usize) -> (at: usize)
    requires
        from <= chars.len(),
    ensures
        at == find_char(chars@, mark, from as int),
        from <= at <= chars.len(),
{
    let mut at: usize = from;
    while at < chars.len() && chars[at] != mark
        invariant
            from <= at <= chars.len(),
            find_char(chars@, mark, at as int) == find_char(chars@, mark, from as int),
        decreases chars.len() - at,
    {
        at += 1;
    }
    at
}

/// Where the token that starts at `from` ends. A double quote opens a
/// quoted run where another one follows after at least one other character;
/// the run ends behind that second quote.
pub open spec fn token_end(group: Seq<char>, from: int) -> int {
    let close = find_char(group, '"', from + 1);
    if group[from] == '"' && from + 2 <= close < group.len() {
        close + 1
    } else {
        find_char(group, '.', from)
    }
}

/// A token that starts on anything but a dot is not empty and ends within
/// the text.
pub proof fn lemma_token_end(group: Seq<char>, from: int)
    requires
        0 <= from < group.len(),
        group[from] != '.',
    ensures
        from < token_end(group, from) <= group.len(),
{
    lemma_find_char(group, '"', from + 1);
    lemma_find_char(group, '.', from);
}

/// Finds the end of the token that starts at `from`.
pub fn find_token_end(chars: &Vec<char>, from: usize) -> (end: usize)
    requires
        from < chars.len(),
        chars@[from as int] != '.',
    ensures
        end == token_end(chars@, from as int),
        from < end <= chars.len(),
{
    proof {
        lemma_token_end(chars@, from as int);
    }
    if chars[from] == '"' {
        let close = find_from(chars, '"', from + 1);
        if from + 1 < close && close < chars.len() {
            return close + 1;
        }
    }
    find_from(chars, '.', from)
}

/// Whether a trimmed token is a key between double quotes: it opens with
/// one and closes with another. A token that opens with a double quote and
/// does not close with one is read like any token without quotes.
pub open spec fn is_quoted(token: Seq<char>) -> bool {
    token.len() >= 2 && token.first() == '"' && token.last() == '"'
}

/// The first position at or after `from` that holds no decimal digit, or
/// the length of the text where none does. The digits are the ten from `0`
/// to `9`.
pub open spec fn digits_end(text: Seq<char>, from: int) -> int
    decreases text.len() - from,
{
    if 0 <= from < text.len() && is_digit(text[from]) {
        digits_end(text, from + 1)
    } else {
        from
    }
}

/// From `from` to where its digits end, the text holds digits alone, and
/// no digit stands at that end.
pub proof fn lemma_digits_end(text: Seq<char>, from: int)
    requires
        0 <= from <= text.len(),
    ensures
        from <= digits_end(text, from) <= text.len(),
        all_digits(text, from, digits_end(text, from)),
        digits_end(text, from) < text.len() ==> !is_digit(text[digits_end(text, from)]),
    decreases text.len() - from,
{
    if from < text.len() && is_digit(text[from]) {
        lemma_digits_end(text, from + 1);
    }
}

/// Finds the first position at or after `from` that holds no decimal digit.
pub fn find_digits_end(chars: &Vec<char>, from: usize) -> (end: usize)
    requires
        from <= chars.len(),
    ensures
        end == digits_end(chars@, from as int),
        from <= end <= chars.len(),
{
    let mut end: usize = from;
    while end < chars.len() && char_is_digit(chars[end])
        invariant
            from <= end <= chars.len(),
            digits_end(chars@, end as int) == digits_end(chars@, from as int),
        decreases chars.len() - end,
    {
        end += 1;
    }
    end
}

/// Whether a range is written at `from`: decimal digits, at least one, then
/// a colon, then a decimal digit.
pub open spec fn range_at(token: Seq<char>, from: int) -> bool {
    let colon = digits_end(token, from);
    &&& from < colon
    &&& colon + 1 < token.len()
    &&& token[colon] == ':'
    &&& is_digit(token[colon + 1])
}

/// The first position at or after `from` where a range is written, or the
/// length of the token where none is.
pub open spec fn find_range(token: Seq<char>, from: int) -> int
    decreases token.len() - from,
{
    if from >= token.len() {
        token.len() as int
    } else if range_at(token, from) {
        from
    } else {
        find_range(token, from + 1)
    }
}

/// What `find_range` finds lies at or after `from` and within the token; a
/// range is written there unless it is the end of the token, and none is
/// written before it.
pub proof fn lemma_find_range(token: Seq<char>, from: int)
    requires
        0 <= from <= token.len(),
    ensures
        from <= find_range(token, from) <= token.len(),
        find_range(token, from) < token.len() ==> range_at(token, find_range(token, from)),
        forall|i: int| from <= i < find_range(token, from) ==> !range_at(token, i),
    decreases token.len() - from,
{
    if from < token.len() && !range_at(token, from) {
        lemma_find_range(token, from + 1);
    }
}

/// Whether a trimmed token holds a range. The range need not be the whole
/// token: what stands before its first digit and behind its last is left
/// out, so `a1:2`, `1:2b`, `-1:2` and `1:2:3` all hold the range from 1 to 2.
pub open spec fn is_range(token: Seq<char>) -> bool {
    find_range(token, 0) < token.len()
}

/// Finds the first position of the token where a range is written.
pub fn find_range_start(chars: &Vec<char>) -> (from: usize)
    ensures
        from == find_range(chars@, 0),
        from <= chars.len(),
        from < chars.len() ==> range_at(chars@, from as int),
{
    proof {
        lemma_find_range(chars@, 0);
    }
    let len = chars.len();
    let mut from: usize = 0;
    while from < len
        invariant
            from <= len == chars.len(),
            find_range(chars@, from as int) == find_range(chars@, 0),
        decreases len - from,
    {
        let colon = find_digits_end(chars, from);
        if from < colon && colon < len - 1 && chars[colon] == ':' && char_is_digit(
            chars[colon + 1],
        ) {
            return from;
        }
        from += 1;
    }
    from
}

/// The segment that a token stands for. The token is trimmed first. Between
/// double quotes it is a key, taken as it stands. Where it holds a range,
/// it is the first range it holds: the digits before the colon and the
/// digits behind it are read as decimal numbers, and the token fails where
/// one of them is too large. Anything else is a key.
pub open spec fn segment_of(raw: Seq<char>) -> Result<SegmentModel, ErrorModel> {
    let token = trimmed(raw);
    let from = find_range(token, 0);
    let colon = digits_end(token, from);
    let to = digits_end(token, colon + 1);
    if is_quoted(token) {
        Ok(SegmentModel::Key(token.subrange(1, token.len() - 1)))
    } else if is_range(token) {
        match (parse_unsigned(token, from, colon), parse_unsigned(token, colon + 1, to)) {
            (Some(start), Some(end)) => Ok(SegmentModel::Range(start as nat, end as nat)),
            _ => Err(ErrorModel::InvalidRange { token }),
        }
    } else {
        Ok(SegmentModel::Key(token))
    }
}

/// The segments of the tokens that start at or after `from`, in order, or
/// the error of the first token that has one.
pub open spec fn segments_from(group: Seq<char>, from: int) -> Result<
    Seq<SegmentModel>,
    ErrorModel,
>
    decreases group.len() - from,
    via segments_from_decreases
{
    if from < 0 || from >= group.len() {
        Ok(Seq::empty())
    } else if group[from] == '.' {
        segments_from(group, from + 1)
    } else {
        match segment_of(group.subrange(from, token_end(group, from))) {
            Err(error) => Err(error),
            Ok(segment) => put_first(segment, segments_from(group, token_end(group, from))),
        }
    }
}

#[via_fn]
proof fn segments_from_decreases(group: Seq<char>, from: int) {
    if 0 <= from < group.len() && group[from] != '.' {
        lemma_token_end(group, from);
    }
}

/// The segments that the text of one group splits into.
pub open spec fn tokenize(group: Seq<char>) -> Result<Seq<SegmentModel>, ErrorModel> {
    segments_from(group, 0)
}

/// The model of a segment or of the error in its place.
pub open spec fn segment_outcome(result: Result<Segment, Error>) -> Result<
    SegmentModel,
    ErrorModel,
> {
    match result {
        Ok(segment) => Ok(segment@),
        Err(error) => Err(error@),
    }
}

/// The model of a run of segments or of the error in its place.
pub open spec fn segments_outcome(result: Result<Vec<Segment>, Error>) -> Result<
    Seq<SegmentModel>,
    ErrorModel,
> {
    match result {
        Ok(segments) => Ok(segment_models(segments@)),
        Err(error) => Err(error@),
    }
}

/// Reads one token as a segment.
pub fn get_selector(capture: &str) -> (result: Result<Segment, Error>)
    ensures
        segment_outcome(result) == segment_of(capture@),
{
    let raw = chars_of(capture);
    let (from, to) = trim_bounds(&raw);
    let cap = capture.substring_char(from, to);
    let token = chars_of(cap);
    let len = token.len();
    if len >= 2 && token[0] == '"' && token[len - 1] == '"' {
        return Ok(Segment::Key(String::from_str(cap.substring_char(1, len - 1))));
    }
    let from = find_range_start(&token);
    if from < len {
        let colon = find_digits_end(&token, from);
        let to = find_digits_end(&token, colon + 1);
        match (read_unsigned(&token, from, colon), read_unsigned(&token, colon + 1, to)) {
            (Some(start), Some(end)) => Ok(Segment::Range(start, end)),
            _ => Err(Error::InvalidRange { token: String::from_str(cap) }),
        }
    } else {
        Ok(Segment::Key(String::from_str(cap)))
    }
}

/// Splits the text of one group into its segments.
pub fn get_selectors(group: &str) -> (result: Result<Vec<Segment>, Error>)
    ensures
        segments_outcome(result) == tokenize(group@),
{
    let chars = chars_of(group);
    let mut segments: Vec<Segment> = Vec::new();
    let mut at: usize = 0;
    assert(segment_models(segments@) =~= Seq::empty());
    while at < chars.len()
        invariant
            at <= chars.len(),
            chars@ == group@,
            tokenize(group@) == match segments_from(group@, at as int) {
                Ok(rest) => Ok::<Seq<SegmentModel>, ErrorModel>(segment_models(segments@) + rest),
                Err(error) => Err(error),
            },
        decreases chars.len() - at,
    {
        if chars[at] == '.' {
            at += 1;
        } else {
            let end = find_token_end(&chars, at);
            match get_selector(group.substring_char(at, end)) {
                Ok(segment) => {
                    proof {
                        let done = segment_models(segments@);
                        assert(segment_models(segments@.push(segment)) =~= done.push(segment@));
                        assert forall|rest: Seq<SegmentModel>|
                            done + (seq![segment@] + rest) == #[trigger] (done.push(segment@)
                                + rest) by {
                            assert(done + (seq![segment@] + rest) =~= done.push(segment@) + rest);
                        }
                    }
                    segments.push(segment);
                },
                Err(error) => {
                    return Err(error);
                },
            }
            at = end;
        }
    }
    assert(segment_models(segments@) + Seq::empty() =~= segment_models(segments@));
    Ok(segments)
}

} // verus!
