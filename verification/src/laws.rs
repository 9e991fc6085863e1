//! Laws of resolution: what holds of every document and every selector.

use crate::error::ErrorModel;
use crate::group::{composed, MaybeArrayModel};
use crate::json::JsonModel;
use crate::resolver::{index_node, range_node, resolve};
use crate::segment::SegmentModel;
use crate::selection::{lemma_walk_fails_fast, selection, walk};
use crate::text::parse_integer;
use crate::tokenizer::{find_char, lemma_find_char, segments_from};
use crate::walker::{group_value, values_from, walked};
use vstd::prelude::*;

verus! {

/// Without a selector nothing is resolved, whatever the document is.
pub proof fn law_no_selector(document: JsonModel)
    ensures
        walked(document, None) == Err::<JsonModel, ErrorModel>(ErrorModel::NoSelector),
{
}

/// Among commas alone no group starts.
proof fn lemma_commas_hold_no_group(document: JsonModel, selector: Seq<char>, from: int)
    requires
        forall|i: int| 0 <= i < selector.len() ==> selector[i] == ',',
    ensures
        values_from(document, selector, from) == Ok::<Seq<JsonModel>, ErrorModel>(Seq::empty()),
    decreases selector.len() - from,
{
    if 0 <= from < selector.len() {
        lemma_commas_hold_no_group(document, selector, from + 1);
    }
}

/// An empty selector is no selector: nothing is resolved, whatever the
/// document is.
pub proof fn law_empty_selector(document: JsonModel)
    ensures
        walked(document, Some(Seq::empty())) == Err::<JsonModel, ErrorModel>(
            ErrorModel::NoSelector,
        ),
        walked(document, Some(""@)) == Err::<JsonModel, ErrorModel>(ErrorModel::NoSelector),
{
    reveal_strlit("");
}

/// A selector made of commas alone, and of at least one, has no group and
/// selects nothing.
pub proof fn law_no_group_selects_nothing(document: JsonModel, selector: Seq<char>)
    requires
        selector.len() > 0,
        forall|i: int| 0 <= i < selector.len() ==> selector[i] == ',',
    ensures
        walked(document, Some(selector)) == Err::<JsonModel, ErrorModel>(
            ErrorModel::EmptySelection,
        ),
{
    lemma_commas_hold_no_group(document, selector, 0);
}

/// A text made of dots alone holds no token.
pub proof fn law_dots_hold_no_token(group: Seq<char>, from: int)
    requires
        forall|i: int| 0 <= i < group.len() ==> group[i] == '.',
    ensures
        segments_from(group, from) == Ok::<Seq<SegmentModel>, ErrorModel>(Seq::empty()),
    decreases group.len() - from,
{
    if 0 <= from < group.len() {
        law_dots_hold_no_token(group, from + 1);
    }
}

/// A selector made of dots alone, and of at least one, resolves to the
/// whole document, whatever the document is.
pub proof fn law_dots_select_document(document: JsonModel, selector: Seq<char>)
    requires
        selector.len() > 0,
        forall|i: int| 0 <= i < selector.len() ==> selector[i] == '.',
    ensures
        walked(document, Some(selector)) == Ok::<JsonModel, ErrorModel>(document),
{
    let end = find_char(selector, ',', 0);
    lemma_find_char(selector, ',', 0);
    assert(end == selector.len()) by {
        if end < selector.len() {
            assert(selector[end] == ',');
        }
    }
    assert(selector.subrange(0, end) =~= selector);
    law_dots_hold_no_token(selector, 0);
    assert(group_value(document, selector) == Ok::<JsonModel, ErrorModel>(document));
    assert(values_from(document, selector, end) == Ok::<Seq<JsonModel>, ErrorModel>(
        Seq::empty(),
    ));
    assert(seq![document] + Seq::empty() =~= seq![document]);
}

/// The selector `.` resolves to the whole document, whatever the document
/// is.
pub proof fn law_dot_selects_document(document: JsonModel)
    ensures
        walked(document, Some("."@)) == Ok::<JsonModel, ErrorModel>(document),
{
    reveal_strlit(".");
    law_dots_select_document(document, "."@);
}

/// An index within an array selects the item at that position, whatever
/// the token looks like and wherever it stands in the path.
pub proof fn law_index_selects_item(
    items: Seq<JsonModel>,
    token: Seq<char>,
    index: int,
    parent: Option<SegmentModel>,
)
    requires
        0 <= index < items.len(),
    ensures
        index_node(JsonModel::Array(items), token, index, parent) == Ok::<JsonModel, ErrorModel>(
            items[index],
        ),
{
}

/// A range within an array, written with the smaller bound first, selects
/// the items from `start` to `end`, both included, in the array's order.
pub proof fn law_forward_range(
    items: Seq<JsonModel>,
    start: nat,
    end: nat,
    parent: Option<SegmentModel>,
)
    requires
        start < end < items.len(),
    ensures
        range_node(JsonModel::Array(items), start, end, parent) matches Ok(
            JsonModel::Array(taken),
        ) && {
            &&& taken.len() == end - start + 1
            &&& forall|k: int| 0 <= k < taken.len() ==> taken[k] == items[start + k]
        },
{
}

/// A range within an array, written with the larger bound first or with
/// two equal bounds, selects the items from `start` down to `end`, both
/// included, in reverse order.
pub proof fn law_backward_range(
    items: Seq<JsonModel>,
    start: nat,
    end: nat,
    parent: Option<SegmentModel>,
)
    requires
        end <= start < items.len(),
    ensures
        range_node(JsonModel::Array(items), start, end, parent) matches Ok(
            JsonModel::Array(taken),
        ) && {
            &&& taken.len() == start - end + 1
            &&& forall|k: int| 0 <= k < taken.len() ==> taken[k] == items[start - k]
        },
{
}

/// Taking a range backwards and then the whole result backwards again
/// gives the items in the array's order: the range from the smaller bound
/// to the larger.
pub proof fn law_reversed_range_round_trip(
    items: Seq<JsonModel>,
    start: nat,
    end: nat,
    parent: Option<SegmentModel>,
    next_parent: Option<SegmentModel>,
)
    requires
        end <= start < items.len(),
    ensures
        range_node(JsonModel::Array(items), start, end, parent) matches Ok(reversed)
            && range_node(reversed, (start - end) as nat, 0, next_parent) == Ok::<
            JsonModel,
            ErrorModel,
        >(JsonModel::Array(items.subrange(end as int, start as int + 1))),
{
    let slice = items.subrange(end as int, start as int + 1);
    let reversed = slice.reverse();
    assert(reversed.subrange(0, start - end + 1) =~= reversed);
    assert(reversed.reverse() =~= slice);
}

/// A negative index is refused whatever the node is: an array of any
/// length, or no array at all. Neither the token nor the parent matters.
pub proof fn law_negative_index(
    node: JsonModel,
    token: Seq<char>,
    index: int,
    parent: Option<SegmentModel>,
)
    requires
        index < 0,
    ensures
        index_node(node, token, index, parent) == Err::<JsonModel, ErrorModel>(
            ErrorModel::InvalidNegativeIndex,
        ),
{
}

/// A token that reads as a negative integer is refused, whatever the node
/// is and wherever the token stands in the path.
pub proof fn law_negative_index_refused(node: JsonModel, segments: Seq<SegmentModel>, i: int)
    requires
        0 <= i < segments.len(),
        segments[i] matches SegmentModel::Key(token) && (parse_integer(token) matches Some(index)
            && index < 0),
    ensures
        resolve(node, segments, i) == Err::<JsonModel, ErrorModel>(
            ErrorModel::InvalidNegativeIndex,
        ),
{
}

/// Where the walk reaches a token that reads as a negative integer, the
/// whole selection fails on it, whatever was found before.
pub proof fn law_negative_index_ends_selection(
    segments: Seq<SegmentModel>,
    document: JsonModel,
    i: int,
)
    requires
        0 <= i < segments.len(),
        walk(segments, document, i as nat) is Ok,
        segments[i] matches SegmentModel::Key(token) && (parse_integer(token) matches Some(index)
            && index < 0),
    ensures
        selection(segments, document) == Err::<Seq<JsonModel>, ErrorModel>(
            ErrorModel::InvalidNegativeIndex,
        ),
{
    let found = walk(segments, document, i as nat)->Ok_0;
    let node = if found.len() == 0 {
        document
    } else {
        found.last()
    };
    law_negative_index_refused(node, segments, i);
    assert(walk(segments, document, (i + 1) as nat) == Err::<Seq<JsonModel>, ErrorModel>(
        ErrorModel::InvalidNegativeIndex,
    ));
    lemma_walk_fails_fast(segments, document, (i + 1) as nat, segments.len());
}

/// A spread is refused where the filter handed back a single value.
pub proof fn law_spread_needs_array(value: JsonModel)
    ensures
        composed(true, Ok(MaybeArrayModel::NonArray(value))) == Err::<JsonModel, ErrorModel>(
            ErrorModel::SpreadOnNonArray,
        ),
{
}

/// Without a spread, what the filter handed back is the value of the
/// group: an array as it is, a single value unwrapped.
pub proof fn law_no_spread_keeps_value(shape: MaybeArrayModel)
    ensures
        composed(false, Ok(shape)) == Ok::<JsonModel, ErrorModel>(
            match shape {
                MaybeArrayModel::Array(items) => JsonModel::Array(items),
                MaybeArrayModel::NonArray(value) => value,
            },
        ),
{
}

} // verus!
