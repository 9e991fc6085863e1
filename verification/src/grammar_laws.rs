//! Laws of the grammar: how selectors that are written out are read and
//! resolved.

use crate::error::{put_first, ErrorModel};
use crate::json::JsonModel;
use crate::laws::{law_negative_index_ends_selection, law_reversed_range_round_trip};
use crate::resolver::{key_node, resolve};
use crate::segment::SegmentModel;
use crate::selection::{selection, walk};
use crate::text::{
    decimal, is_digit, is_space, lemma_decimal_reads_back, lemma_digits_value_of_run,
    parse_integer, trimmed,
};
use crate::tokenizer::{
    digits_end, find_char, find_range, is_range, lemma_digits_end, lemma_find_char,
    lemma_token_end, range_at, segment_of, segments_from, token_end, tokenize,
};
use crate::walker::{group_value, values_from, walked};
use vstd::prelude::*;

verus! {

/// Where no position of `from..to` holds the mark, a search from `from`
/// finds what a search from `to` finds.
pub proof fn lemma_find_char_skips(text: Seq<char>, mark: char, from: int, to: int)
    requires
        0 <= from <= to <= text.len(),
        forall|i: int| from <= i < to ==> text[i] != mark,
    ensures
        find_char(text, mark, from) == find_char(text, mark, to),
    decreases to - from,
{
    if from < to {
        lemma_find_char_skips(text, mark, from + 1, to);
    }
}

/// A search in the back part of a text finds what it finds in that part
/// taken alone.
pub proof fn lemma_find_char_shift(front: Seq<char>, text: Seq<char>, mark: char, from: int)
    requires
        0 <= from <= text.len(),
    ensures
        find_char(front + text, mark, front.len() + from) == front.len() + find_char(
            text,
            mark,
            from,
        ),
    decreases text.len() - from,
{
    if from < text.len() {
        assert((front + text)[front.len() + from] == text[from]);
        if text[from] != mark {
            lemma_find_char_shift(front, text, mark, from + 1);
        }
    }
}

/// A token ends where it ends in the back part of the text taken alone.
pub proof fn lemma_token_end_shift(front: Seq<char>, text: Seq<char>, from: int)
    requires
        0 <= from < text.len(),
    ensures
        token_end(front + text, front.len() + from) == front.len() + token_end(text, from),
{
    lemma_find_char_shift(front, text, '"', from + 1);
    lemma_find_char_shift(front, text, '.', from);
    assert((front + text)[front.len() + from] == text[from]);
}

/// What the back part of a text is read as does not depend on what stands
/// before it.
pub proof fn law_segments_from_shift(front: Seq<char>, text: Seq<char>, from: int)
    requires
        0 <= from <= text.len(),
    ensures
        segments_from(front + text, front.len() + from) == segments_from(text, from),
    decreases text.len() - from,
{
    let whole = front + text;
    if from < text.len() {
        assert(whole[front.len() + from] == text[from]);
        if text[from] == '.' {
            law_segments_from_shift(front, text, from + 1);
        } else {
            let end = token_end(text, from);
            lemma_token_end(text, from);
            lemma_token_end_shift(front, text, from);
            assert(whole.subrange(front.len() + from, front.len() + end) =~= text.subrange(
                from,
                end,
            ));
            law_segments_from_shift(front, text, end);
        }
    }
}

/// Where `from..to` holds digits alone and no digit follows, the digits
/// that start at `from` end at `to`.
pub proof fn lemma_digits_end_skips(text: Seq<char>, from: int, to: int)
    requires
        0 <= from <= to <= text.len(),
        forall|i: int| from <= i < to ==> is_digit(text[i]),
        to < text.len() ==> !is_digit(text[to]),
    ensures
        digits_end(text, from) == to,
    decreases to - from,
{
    if from < to {
        lemma_digits_end_skips(text, from + 1, to);
    }
}

/// A token without a colon holds no range.
pub proof fn lemma_no_colon_no_range(token: Seq<char>, from: int)
    requires
        0 <= from <= token.len(),
        forall|i: int| 0 <= i < token.len() ==> token[i] != ':',
    ensures
        find_range(token, from) == token.len(),
    decreases token.len() - from,
{
    if from < token.len() {
        lemma_digits_end(token, from);
        lemma_no_colon_no_range(token, from + 1);
    }
}

/// A token that stands in a group as it is: it is not empty, holds no dot
/// and does not open with a double quote.
pub open spec fn plain_token(token: Seq<char>) -> bool {
    &&& token.len() > 0
    &&& token[0] != '"'
    &&& forall|i: int| 0 <= i < token.len() ==> token[i] != '.'
}

/// Whether a text holds no comma, so that no group ends in it.
pub open spec fn no_comma(text: Seq<char>) -> bool {
    forall|i: int| 0 <= i < text.len() ==> text[i] != ','
}

/// Tokens written one after the other with a dot between each two.
pub open spec fn joined(tokens: Seq<Seq<char>>) -> Seq<char>
    decreases tokens.len(),
{
    if tokens.len() == 0 {
        Seq::empty()
    } else if tokens.len() == 1 {
        tokens[0]
    } else {
        tokens[0] + seq!['.'] + joined(tokens.drop_first())
    }
}

/// The segments of a run of tokens, each token read by itself, or the error
/// of the first token that has one.
pub open spec fn read_all(tokens: Seq<Seq<char>>) -> Result<Seq<SegmentModel>, ErrorModel>
    decreases tokens.len(),
{
    if tokens.len() == 0 {
        Ok(Seq::empty())
    } else {
        match segment_of(tokens[0]) {
            Err(error) => Err(error),
            Ok(segment) => put_first(segment, read_all(tokens.drop_first())),
        }
    }
}

/// Plain tokens joined by dots are read token by token, in order.
pub proof fn law_joined_tokens(tokens: Seq<Seq<char>>)
    requires
        forall|i: int| 0 <= i < tokens.len() ==> plain_token(#[trigger] tokens[i]),
    ensures
        tokenize(joined(tokens)) == read_all(tokens),
    decreases tokens.len(),
{
    if tokens.len() > 0 {
        let first = tokens[0];
        let rest = tokens.drop_first();
        let text = joined(tokens);
        let dot = first.len() as int;
        assert(plain_token(first));
        assert(forall|i: int| 0 <= i < dot ==> text[i] == first[i]);
        lemma_find_char_skips(text, '.', 0, dot);
        assert(token_end(text, 0) == dot);
        assert(text.subrange(0, dot) =~= first);
        assert(read_all(rest) == segments_from(text, dot)) by {
            if tokens.len() == 1 {
                assert(read_all(rest) == Ok::<Seq<SegmentModel>, ErrorModel>(Seq::empty()));
            } else {
                let front = first + seq!['.'];
                assert forall|i: int| 0 <= i < rest.len() implies plain_token(
                    #[trigger] rest[i],
                ) by {
                    assert(rest[i] == tokens[i + 1]);
                }
                law_joined_tokens(rest);
                assert(text =~= front + joined(rest));
                assert(text[dot] == '.');
                law_segments_from_shift(front, joined(rest), 0);
            }
        }
    }
}

/// Plain tokens without a comma, joined by dots, hold no comma, and hold
/// something where there is a token.
pub proof fn lemma_joined_is_one_group(tokens: Seq<Seq<char>>)
    requires
        forall|i: int|
            0 <= i < tokens.len() ==> plain_token(#[trigger] tokens[i]) && no_comma(tokens[i]),
    ensures
        no_comma(joined(tokens)),
        tokens.len() > 0 ==> joined(tokens).len() > 0,
    decreases tokens.len(),
{
    if tokens.len() > 0 {
        assert(plain_token(tokens[0]) && no_comma(tokens[0]));
        if tokens.len() > 1 {
            let rest = tokens.drop_first();
            assert forall|i: int| 0 <= i < rest.len() implies plain_token(#[trigger] rest[i])
                && no_comma(rest[i]) by {
                assert(rest[i] == tokens[i + 1]);
            }
            lemma_joined_is_one_group(rest);
        }
    }
}

/// A selector without a comma is one group, and resolves to the value of
/// that group.
pub proof fn law_one_group(document: JsonModel, selector: Seq<char>)
    requires
        selector.len() > 0,
        no_comma(selector),
    ensures
        walked(document, Some(selector)) == group_value(document, selector),
{
    let len = selector.len() as int;
    lemma_find_char_skips(selector, ',', 0, len);
    assert(selector.subrange(0, len) =~= selector);
    assert(values_from(document, selector, len) == Ok::<Seq<JsonModel>, ErrorModel>(
        Seq::empty(),
    ));
    if let Ok(value) = group_value(document, selector) {
        assert(seq![value] + Seq::empty() =~= seq![value]);
    }
}

/// What the groups in the back part of a selector resolve to does not
/// depend on what stands before them.
pub proof fn law_values_from_shift(
    document: JsonModel,
    front: Seq<char>,
    text: Seq<char>,
    from: int,
)
    requires
        0 <= from <= text.len(),
    ensures
        values_from(document, front + text, front.len() + from) == values_from(
            document,
            text,
            from,
        ),
    decreases text.len() - from,
{
    let whole = front + text;
    if from < text.len() {
        assert(whole[front.len() + from] == text[from]);
        if text[from] == ',' {
            law_values_from_shift(document, front, text, from + 1);
        } else {
            let end = find_char(text, ',', from);
            lemma_find_char(text, ',', from);
            lemma_find_char_shift(front, text, ',', from);
            assert(whole.subrange(front.len() + from, front.len() + end) =~= text.subrange(
                from,
                end,
            ));
            law_values_from_shift(document, front, text, end);
        }
    }
}

/// Two groups with a comma between them resolve to the array of their two
/// values, the first group first. Where the first group fails, its error is
/// the result, whatever the second group is; else where the second fails,
/// its error is.
pub proof fn law_two_groups(document: JsonModel, first: Seq<char>, second: Seq<char>)
    requires
        first.len() > 0,
        second.len() > 0,
        no_comma(first),
        no_comma(second),
    ensures
        walked(document, Some(first + seq![','] + second)) == match (
            group_value(document, first),
            group_value(document, second),
        ) {
            (Ok(one), Ok(two)) => Ok::<JsonModel, ErrorModel>(JsonModel::Array(seq![one, two])),
            (Ok(one), Err(error)) => Err(error),
            (Err(error), _) => Err(error),
        },
{
    let front = first + seq![','];
    let selector = first + seq![','] + second;
    let comma = first.len() as int;
    assert(selector =~= front + second);
    assert(forall|i: int| 0 <= i < comma ==> selector[i] == first[i]);
    assert(selector[comma] == ',');
    lemma_find_char_skips(selector, ',', 0, comma);
    assert(selector.subrange(0, comma) =~= first);
    assert(values_from(document, selector, comma) == values_from(
        document,
        selector,
        comma + 1,
    ));
    law_values_from_shift(document, front, second, 0);
    lemma_find_char_skips(second, ',', 0, second.len() as int);
    assert(second.subrange(0, second.len() as int) =~= second);
    assert(values_from(document, second, second.len() as int) == Ok::<
        Seq<JsonModel>,
        ErrorModel,
    >(Seq::empty()));
    if let (Ok(one), Ok(two)) = (group_value(document, first), group_value(document, second)) {
        assert(seq![one] + (seq![two] + Seq::empty()) =~= seq![one, two]);
    }
}

/// A key that stands in a selector as it is and is read as a key: a plain
/// token without a comma and without white space at its ends that is no
/// integer and holds no range.
pub open spec fn plain_key(key: Seq<char>) -> bool {
    &&& plain_token(key)
    &&& no_comma(key)
    &&& !is_space(key.first())
    &&& !is_space(key.last())
    &&& !is_range(key)
    &&& parse_integer(key) is None
}

/// A plain key is read as the key it is.
pub proof fn law_plain_key(key: Seq<char>)
    requires
        plain_key(key),
    ensures
        segment_of(key) == Ok::<SegmentModel, ErrorModel>(SegmentModel::Key(key)),
{
    assert(trimmed(key) =~= key);
}

/// A number written in base ten is read as a key, and the key as that
/// number.
pub proof fn law_decimal_token(number: nat)
    ensures
        plain_token(decimal(number)),
        no_comma(decimal(number)),
        segment_of(decimal(number)) == Ok::<SegmentModel, ErrorModel>(
            SegmentModel::Key(decimal(number)),
        ),
        number <= isize::MAX ==> parse_integer(decimal(number)) == Some(number as isize),
{
    let token = decimal(number);
    let len = token.len() as int;
    lemma_decimal_reads_back(number);
    assert forall|i: int| 0 <= i < len implies !is_space(token[i]) && token[i] != ':' && token[i]
        != '.' && token[i] != ',' && token[i] != '"' && token[i] != '-' && token[i] != '+' by {
        assert(is_digit(token[i]));
    }
    assert(trimmed(token) =~= token);
    lemma_no_colon_no_range(token, 0);
}

/// How a range is written: the two bounds in base ten with a colon between
/// them.
pub open spec fn range_token(start: nat, end: nat) -> Seq<char> {
    decimal(start) + seq![':'] + decimal(end)
}

/// A range written with bounds that fit is read as that range.
pub proof fn law_range_token(start: nat, end: nat)
    requires
        start <= usize::MAX,
        end <= usize::MAX,
    ensures
        plain_token(range_token(start, end)),
        no_comma(range_token(start, end)),
        segment_of(range_token(start, end)) == Ok::<SegmentModel, ErrorModel>(
            SegmentModel::Range(start, end),
        ),
{
    let first = decimal(start);
    let second = decimal(end);
    let token = range_token(start, end);
    let colon = first.len() as int;
    let len = token.len() as int;
    lemma_decimal_reads_back(start);
    lemma_decimal_reads_back(end);
    assert(token[colon] == ':');
    assert forall|i: int| 0 <= i < colon implies token[i] == first[i] && is_digit(
        #[trigger] token[i],
    ) by {
        assert(is_digit(first[i]));
    }
    assert forall|i: int| colon < i < len implies token[i] == second[i - colon - 1] && is_digit(
        #[trigger] token[i],
    ) by {
        assert(is_digit(second[i - colon - 1]));
    }
    assert forall|i: int| 0 <= i < len implies token[i] != '.' && token[i] != ',' && token[i]
        != '"' && !is_space(token[i]) by {
        if i != colon {
            assert(is_digit(token[i]));
        }
    }
    assert(trimmed(token) =~= token);
    assert(!is_digit(token[colon]));
    lemma_digits_end_skips(token, 0, colon);
    lemma_digits_end_skips(token, colon + 1, len);
    assert(range_at(token, 0));
    assert(find_range(token, 0) == 0);
    lemma_digits_value_of_run(token, 0, colon, first, 0);
    lemma_digits_value_of_run(token, colon + 1, len, second, 0);
}

/// Two plain tokens with a dot between them are read as two segments.
proof fn lemma_two_tokens(first: Seq<char>, second: Seq<char>)
    requires
        plain_token(first),
        plain_token(second),
    ensures
        tokenize(first + seq!['.'] + second) == match (segment_of(first), segment_of(second)) {
            (Ok(one), Ok(two)) => Ok::<Seq<SegmentModel>, ErrorModel>(seq![one, two]),
            (Ok(one), Err(error)) => Err(error),
            (Err(error), _) => Err(error),
        },
{
    let tokens = seq![first, second];
    law_joined_tokens(tokens);
    assert(tokens.drop_first() =~= seq![second]);
    assert(seq![second].drop_first() =~= Seq::<Seq<char>>::empty());
    assert(joined(tokens) == first + seq!['.'] + second) by {
        reveal_with_fuel(joined, 3);
    }
    assert(read_all(tokens) == match segment_of(first) {
        Err(error) => Err(error),
        Ok(one) => put_first(
            one,
            match segment_of(second) {
                Err(error) => Err(error),
                Ok(two) => put_first(two, Ok(Seq::empty())),
            },
        ),
    }) by {
        reveal_with_fuel(read_all, 3);
    }
    if let (Ok(one), Ok(two)) = (segment_of(first), segment_of(second)) {
        assert(seq![one] + (seq![two] + Seq::empty()) =~= seq![one, two]);
    }
}

/// A path of two segments, the first a key that is found, selects what
/// the second segment selects in the value of the key.
proof fn lemma_key_then_segment(
    document: JsonModel,
    key: Seq<char>,
    value: JsonModel,
    next: SegmentModel,
)
    requires
        parse_integer(key) is None,
        key_node(document, key, None) == Ok::<JsonModel, ErrorModel>(value),
    ensures
        selection(seq![SegmentModel::Key(key), next], document) == match resolve(
            value,
            seq![SegmentModel::Key(key), next],
            1,
        ) {
            Ok(last) => Ok::<Seq<JsonModel>, ErrorModel>(seq![value, last]),
            Err(error) => Err(error),
        },
{
    let segments = seq![SegmentModel::Key(key), next];
    assert(walk(segments, document, 0) == Ok::<Seq<JsonModel>, ErrorModel>(Seq::empty()));
    assert(resolve(document, segments, 0) == Ok::<JsonModel, ErrorModel>(value));
    assert(Seq::<JsonModel>::empty().push(value) =~= seq![value]);
    assert(walk(segments, document, 1) == Ok::<Seq<JsonModel>, ErrorModel>(seq![value]));
    assert(seq![value].last() == value);
    if let Ok(last) = resolve(value, segments, 1) {
        assert(seq![value].push(last) =~= seq![value, last]);
    }
    assert(walk(segments, document, 2) == match resolve(value, segments, 1) {
        Ok(last) => Ok::<Seq<JsonModel>, ErrorModel>(seq![value, last]),
        Err(error) => Err(error),
    }) by {
        reveal_with_fuel(walk, 3);
    }
}

/// The selector `key.index`, with the index written in base ten, resolves
/// to the item at that index of the array that the key leads to.
pub proof fn law_key_then_index(
    document: JsonModel,
    key: Seq<char>,
    items: Seq<JsonModel>,
    index: nat,
)
    requires
        plain_key(key),
        key_node(document, key, None) == Ok::<JsonModel, ErrorModel>(JsonModel::Array(items)),
        index < items.len(),
        index <= isize::MAX,
    ensures
        walked(document, Some(key + seq!['.'] + decimal(index))) == Ok::<JsonModel, ErrorModel>(
            items[index as int],
        ),
{
    let token = decimal(index);
    let selector = key + seq!['.'] + token;
    let segments = seq![SegmentModel::Key(key), SegmentModel::Key(token)];
    law_plain_key(key);
    law_decimal_token(index);
    lemma_two_tokens(key, token);
    law_one_group(document, selector);
    assert(tokenize(selector) == Ok::<Seq<SegmentModel>, ErrorModel>(segments));
    lemma_key_then_segment(document, key, JsonModel::Array(items), SegmentModel::Key(token));
}

/// The selector `key.start:end`, with the bounds written in base ten,
/// resolves to the range of the array that the key leads to: the items from
/// `start` to `end`, both included, backwards where `start` is not the
/// smaller bound.
pub proof fn law_key_then_range(
    document: JsonModel,
    key: Seq<char>,
    items: Seq<JsonModel>,
    start: nat,
    end: nat,
)
    requires
        plain_key(key),
        key_node(document, key, None) == Ok::<JsonModel, ErrorModel>(JsonModel::Array(items)),
        start < items.len(),
        end < items.len(),
        items.len() <= usize::MAX,
    ensures
        walked(document, Some(key + seq!['.'] + range_token(start, end))) == Ok::<
            JsonModel,
            ErrorModel,
        >(
            JsonModel::Array(
                if start < end {
                    items.subrange(start as int, end as int + 1)
                } else {
                    items.subrange(end as int, start as int + 1).reverse()
                },
            ),
        ),
{
    let token = range_token(start, end);
    let selector = key + seq!['.'] + token;
    let segments = seq![SegmentModel::Key(key), SegmentModel::Range(start, end)];
    law_plain_key(key);
    law_range_token(start, end);
    lemma_two_tokens(key, token);
    law_one_group(document, selector);
    assert(tokenize(selector) == Ok::<Seq<SegmentModel>, ErrorModel>(segments));
    lemma_key_then_segment(
        document,
        key,
        JsonModel::Array(items),
        SegmentModel::Range(start, end),
    );
}

/// The selector `key.start:end.n:0`, where `start` is not the smaller bound
/// and `n` is `start - end`, takes a range backwards and then the whole
/// result backwards again: it resolves to the items from `end` to `start`
/// in the array's order.
pub proof fn law_key_then_range_there_and_back(
    document: JsonModel,
    key: Seq<char>,
    items: Seq<JsonModel>,
    start: nat,
    end: nat,
)
    requires
        plain_key(key),
        key_node(document, key, None) == Ok::<JsonModel, ErrorModel>(JsonModel::Array(items)),
        end <= start < items.len(),
        items.len() <= usize::MAX,
    ensures
        walked(
            document,
            Some(
                joined(seq![key, range_token(start, end), range_token((start - end) as nat, 0)]),
            ),
        ) == Ok::<JsonModel, ErrorModel>(
            JsonModel::Array(items.subrange(end as int, start as int + 1)),
        ),
{
    let width = (start - end) as nat;
    let tokens = seq![key, range_token(start, end), range_token(width, 0)];
    let there = SegmentModel::Range(start, end);
    let back = SegmentModel::Range(width, 0);
    let segments = seq![SegmentModel::Key(key), there, back];
    let array = JsonModel::Array(items);
    let reversed = JsonModel::Array(items.subrange(end as int, start as int + 1).reverse());
    let slice = JsonModel::Array(items.subrange(end as int, start as int + 1));
    law_plain_key(key);
    law_range_token(start, end);
    law_range_token(width, 0);
    law_joined_tokens(tokens);
    lemma_joined_is_one_group(tokens);
    law_one_group(document, joined(tokens));
    assert(read_all(tokens) == Ok::<Seq<SegmentModel>, ErrorModel>(segments)) by {
        reveal_with_fuel(read_all, 4);
        assert(tokens.drop_first() =~= seq![range_token(start, end), range_token(width, 0)]);
        assert(tokens.drop_first().drop_first() =~= seq![range_token(width, 0)]);
        assert(tokens.drop_first().drop_first().drop_first() =~= Seq::<Seq<char>>::empty());
        assert(seq![SegmentModel::Key(key)] + (seq![there] + (seq![back] + Seq::empty()))
            =~= segments);
    }
    law_reversed_range_round_trip(items, start, end, Some(SegmentModel::Key(key)), Some(there));
    assert(walk(segments, document, 3) == Ok::<Seq<JsonModel>, ErrorModel>(
        seq![array, reversed, slice],
    )) by {
        reveal_with_fuel(walk, 4);
        assert(resolve(document, segments, 0) == Ok::<JsonModel, ErrorModel>(array));
        assert(Seq::<JsonModel>::empty().push(array) =~= seq![array]);
        assert(seq![array].last() == array);
        assert(resolve(array, segments, 1) == Ok::<JsonModel, ErrorModel>(reversed));
        assert(seq![array].push(reversed) =~= seq![array, reversed]);
        assert(seq![array, reversed].last() == reversed);
        assert(resolve(reversed, segments, 2) == Ok::<JsonModel, ErrorModel>(slice));
        assert(seq![array, reversed].push(slice) =~= seq![array, reversed, slice]);
    }
}

/// How a negative number is written: a minus sign, then the number
/// without its sign in base ten.
pub open spec fn negative_token(size: nat) -> Seq<char> {
    seq!['-'] + decimal(size)
}

/// A negative number that fits is read as a key, and the key as that
/// number.
pub proof fn law_negative_token(size: nat)
    requires
        -size >= isize::MIN,
    ensures
        plain_token(negative_token(size)),
        no_comma(negative_token(size)),
        segment_of(negative_token(size)) == Ok::<SegmentModel, ErrorModel>(
            SegmentModel::Key(negative_token(size)),
        ),
        parse_integer(negative_token(size)) == Some((-size) as isize),
{
    let digits = decimal(size);
    let token = negative_token(size);
    let len = token.len() as int;
    lemma_decimal_reads_back(size);
    assert(token[0] == '-');
    assert forall|i: int| 1 <= i < len implies token[i] == digits[i - 1] && is_digit(
        #[trigger] token[i],
    ) by {
        assert(is_digit(digits[i - 1]));
    }
    assert forall|i: int| 0 <= i < len implies token[i] != '.' && token[i] != ',' && token[i]
        != '"' && token[i] != ':' && !is_space(token[i]) by {
        if i != 0 {
            assert(is_digit(token[i]));
        }
    }
    assert(trimmed(token) =~= token);
    lemma_no_colon_no_range(token, 0);
    lemma_digits_value_of_run(token, 1, len, digits, 0);
}

/// The selector `-n`, for a number `n` above zero, fails on the negative
/// index whatever the document is.
pub proof fn law_negative_selector(document: JsonModel, size: nat)
    requires
        size > 0,
        -size >= isize::MIN,
    ensures
        walked(document, Some(negative_token(size))) == Err::<JsonModel, ErrorModel>(
            ErrorModel::InvalidNegativeIndex,
        ),
{
    let token = negative_token(size);
    let segments = seq![SegmentModel::Key(token)];
    law_negative_token(size);
    law_joined_tokens(seq![token]);
    law_one_group(document, token);
    assert(read_all(seq![token]) == Ok::<Seq<SegmentModel>, ErrorModel>(segments)) by {
        reveal_with_fuel(read_all, 2);
        assert(seq![token].drop_first() =~= Seq::<Seq<char>>::empty());
        assert(seq![SegmentModel::Key(token)] + Seq::empty() =~= segments);
    }
    assert(walk(segments, document, 0) is Ok);
    law_negative_index_ends_selection(segments, document, 0);
}

/// The selector `key.-n`, for a number `n` above zero, fails on the
/// negative index whatever the key leads to.
pub proof fn law_key_then_negative(
    document: JsonModel,
    key: Seq<char>,
    value: JsonModel,
    size: nat,
)
    requires
        plain_key(key),
        key_node(document, key, None) == Ok::<JsonModel, ErrorModel>(value),
        size > 0,
        -size >= isize::MIN,
    ensures
        walked(document, Some(key + seq!['.'] + negative_token(size))) == Err::<
            JsonModel,
            ErrorModel,
        >(ErrorModel::InvalidNegativeIndex),
{
    let token = negative_token(size);
    let selector = key + seq!['.'] + token;
    law_plain_key(key);
    law_negative_token(size);
    lemma_two_tokens(key, token);
    law_one_group(document, selector);
    lemma_key_then_segment(document, key, value, SegmentModel::Key(token));
}

} // verus!
