//! Resolving a whole selector: groups between commas, each one a path.

use crate::error::{put_first, Error, ErrorModel};
use crate::group::{group_walker, no_filter, Group};
use crate::json::{lemma_array_model, models, Json, JsonModel};
use crate::resolver::outcome;
use crate::selection::selection;
use crate::text::chars_of;
use crate::tokenizer::{find_char, find_from, get_selectors, lemma_find_char, tokenize};
use vstd::prelude::*;

verus! {

/// The value of one group of a selector: the last value that its path
/// selects. A group whose text holds no token selects the document.
pub open spec fn group_value(document: JsonModel, group: Seq<char>) -> Result<
    JsonModel,
    ErrorModel,
> {
    match tokenize(group) {
        Err(error) => Err(error),
        Ok(segments) => match selection(segments, document) {
            Err(error) => Err(error),
            Ok(found) => Ok(found.last()),
        },
    }
}

/// The values of the groups that start at or after `from`, in order, or the
/// error of the first group that has one. Commas separate the groups, and a
/// group holds at least one character. Every comma separates, one between
/// double quotes too.
pub open spec fn values_from(document: JsonModel, selector: Seq<char>, from: int) -> Result<
    Seq<JsonModel>,
    ErrorModel,
>
    decreases selector.len() - from,
    via values_from_decreases
{
    if from < 0 || from >= selector.len() {
        Ok(Seq::empty())
    } else if selector[from] == ',' {
        values_from(document, selector, from + 1)
    } else {
        match group_value(document, selector.subrange(from, find_char(selector, ',', from))) {
            Err(error) => Err(error),
            Ok(value) => put_first(
                value,
                values_from(document, selector, find_char(selector, ',', from)),
            ),
        }
    }
}

#[via_fn]
proof fn values_from_decreases(document: JsonModel, selector: Seq<char>, from: int) {
    if 0 <= from < selector.len() && selector[from] != ',' {
        lemma_find_char(selector, ',', from);
    }
}

/// What a selector resolves to in a document. Without a selector, or with
/// an empty one, there is nothing to resolve. A selector that holds
/// something and yet no group selects nothing. One group gives its value;
/// several give the array of their values, in the order of the text.
pub open spec fn walked(document: JsonModel, selector: Option<Seq<char>>) -> Result<
    JsonModel,
    ErrorModel,
> {
    match selector {
        None => Err(ErrorModel::NoSelector),
        Some(text) => if text.len() == 0 {
            Err(ErrorModel::NoSelector)
        } else {
            match values_from(document, text, 0) {
                Err(error) => Err(error),
                Ok(values) => if values.len() == 0 {
                    Err(ErrorModel::EmptySelection)
                } else if values.len() == 1 {
                    Ok(values[0])
                } else {
                    Ok(JsonModel::Array(values))
                },
            }
        },
    }
}

/// Resolves the text of one group against `json`.
fn walk_group(group: &str, json: &Json) -> (result: Result<Json, Error>)
    ensures
        outcome(result) == group_value(json@, group@),
{
    let segments = get_selectors(group)?;
    if segments.len() == 0 {
        return Ok(json.clone());
    }
    let group = Group { spread: false, segments, filters: Vec::new() };
    group_walker(&group, json, no_filter)
}

/// Resolves `selector` against `json`.
pub fn walker(json: &Json, selector: Option<&str>) -> (result: Result<Json, Error>)
    ensures
        outcome(result) == walked(
            json@,
            match selector {
                Some(text) => Some(text@),
                None => None,
            },
        ),
{
    let text = match selector {
        Some(text) => text,
        None => {
            return Err(Error::NoSelector);
        },
    };
    let chars = chars_of(text);
    if chars.len() == 0 {
        return Err(Error::NoSelector);
    }
    let mut groups: Vec<Json> = Vec::new();
    let mut at: usize = 0;
    assert(models(groups@) =~= Seq::empty());
    while at < chars.len()
        invariant
            at <= chars.len(),
            chars@ == text@,
            selector == Some(text),
            values_from(json@, text@, 0) == match values_from(json@, text@, at as int) {
                Ok(rest) => Ok::<Seq<JsonModel>, ErrorModel>(models(groups@) + rest),
                Err(error) => Err(error),
            },
        decreases chars.len() - at,
    {
        if chars[at] == ',' {
            at += 1;
        } else {
            let end = find_from(&chars, ',', at);
            proof {
                lemma_find_char(text@, ',', at as int);
            }
            match walk_group(text.substring_char(at, end), json) {
                Ok(value) => {
                    proof {
                        let done = models(groups@);
                        assert(models(groups@.push(value)) =~= done.push(value@));
                        assert forall|rest: Seq<JsonModel>|
                            done + (seq![value@] + rest) == #[trigger] (done.push(value@)
                                + rest) by {
                            assert(done + (seq![value@] + rest) =~= done.push(value@) + rest);
                        }
                    }
                    groups.push(value);
                },
                Err(error) => {
                    return Err(error);
                },
            }
            at = end;
        }
    }
    assert(models(groups@) + Seq::empty() =~= models(groups@));
    if groups.len() == 0 {
        Err(Error::EmptySelection)
    } else if groups.len() == 1 {
        Ok(groups.remove(0))
    } else {
        proof {
            lemma_array_model(groups);
        }
        Ok(Json::Array(groups))
    }
}

} // verus!
