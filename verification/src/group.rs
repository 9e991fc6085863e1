//! Composing the value of one group: selection, filter, spread.

use crate::error::{Error, ErrorModel};
use crate::json::{lemma_array_model, lemma_object_model, models, Json, JsonModel};
use crate::resolver::outcome;
use crate::segment::{segment_models, Segment, SegmentModel};
use crate::selection::{get_selection, lemma_walk_len, selection};
use vstd::prelude::*;

verus! {

/// One unit of a selector: a path, what to filter its result by, and
/// whether to spread the filtered result.
#[derive(Debug, PartialEq, Eq)]
pub struct Group {
    /// Whether the result is flattened by one level.
    pub spread: bool,
    /// The path to walk.
    pub segments: Vec<Segment>,
    /// What the filter is asked for. It is handed to the filter as it is.
    pub filters: Vec<Segment>,
}

/// What a filter hands back: the items of an array, or one value that is
/// not an array.
#[derive(Debug, PartialEq, Eq)]
pub enum MaybeArray {
    Array(Vec<Json>),
    NonArray(Json),
}

/// The mathematical value of a [`MaybeArray`].
pub enum MaybeArrayModel {
    Array(Seq<JsonModel>),
    NonArray(JsonModel),
}

impl View for MaybeArray {
    type V = MaybeArrayModel;

    open spec fn view(&self) -> MaybeArrayModel {
        match self {
            MaybeArray::Array(items) => MaybeArrayModel::Array(models(items@)),
            MaybeArray::NonArray(value) => MaybeArrayModel::NonArray(value@),
        }
    }
}

/// The model of what a filter hands back, its failure included.
pub open spec fn filter_outcome(filtered: Result<MaybeArray, String>) -> Result<
    MaybeArrayModel,
    Seq<char>,
> {
    match filtered {
        Ok(shape) => Ok(shape@),
        Err(text) => Err(text@),
    }
}

/// What an item gives to a flattened array: its own items where it is an
/// array, and itself where it is not.
pub open spec fn unwrapped(item: JsonModel) -> Seq<JsonModel> {
    match item {
        JsonModel::Array(inner) => inner,
        _ => seq![item],
    }
}

/// The items of an array flattened by exactly one level.
pub open spec fn flattened(items: Seq<JsonModel>) -> Seq<JsonModel>
    decreases items.len(),
{
    if items.len() == 0 {
        Seq::empty()
    } else {
        flattened(items.drop_last()) + unwrapped(items.last())
    }
}

/// The value that a group's path leads to, before any filter. A group
/// without segments has none.
pub open spec fn selected(segments: Seq<SegmentModel>, document: JsonModel) -> Result<
    JsonModel,
    ErrorModel,
> {
    if segments.len() == 0 {
        Err(ErrorModel::EmptyGroup)
    } else {
        match selection(segments, document) {
            Ok(found) => Ok(found.last()),
            Err(error) => Err(error),
        }
    }
}

/// The value of a group, given what the filter made of the selected value.
/// A failure of the filter is passed on. A spread flattens an array by one
/// level and refuses anything else. Without a spread, an array stays as it
/// is and a single value is unwrapped.
pub open spec fn composed(spread: bool, filtered: Result<MaybeArrayModel, Seq<char>>) -> Result<
    JsonModel,
    ErrorModel,
> {
    match filtered {
        Err(text) => Err(ErrorModel::FilterError(text)),
        Ok(MaybeArrayModel::Array(items)) => if spread {
            Ok(JsonModel::Array(flattened(items)))
        } else {
            Ok(JsonModel::Array(items))
        },
        Ok(MaybeArrayModel::NonArray(value)) => if spread {
            Err(ErrorModel::SpreadOnNonArray)
        } else {
            Ok(value)
        },
    }
}

/// Flattens an array by exactly one level: an item that is an array gives
/// its items, any other item stays.
pub fn flatten_json_array(items: &Vec<Json>) -> (flat: Json)
    ensures
        flat@ == JsonModel::Array(flattened(models(items@))),
{
    let mut flat: Vec<Json> = Vec::new();
    let mut i: usize = 0;
    assert(models(items@).take(0) =~= Seq::empty());
    assert(models(flat@) =~= Seq::empty());
    while i < items.len()
        invariant
            i <= items.len(),
            models(flat@) == flattened(models(items@).take(i as int)),
        decreases items.len() - i,
    {
        let ghost before = models(flat@);
        proof {
            assert(models(items@).take(i + 1).drop_last() =~= models(items@).take(i as int));
        }
        match &items[i] {
            Json::Array(inner) => {
                proof {
                    lemma_array_model(*inner);
                }
                let mut k: usize = 0;
                assert(models(inner@).take(0) =~= Seq::empty());
                assert(before + Seq::empty() =~= before);
                while k < inner.len()
                    invariant
                        k <= inner.len(),
                        models(flat@) == before + models(inner@).take(k as int),
                    decreases inner.len() - k,
                {
                    let copy = inner[k].clone();
                    proof {
                        assert(models(flat@.push(copy)) =~= models(flat@).push(copy@));
                        assert(models(inner@).take(k + 1) =~= models(inner@).take(k as int).push(
                            inner@[k as int]@,
                        ));
                        assert(models(flat@.push(copy)) =~= before + models(inner@).take(k + 1));
                    }
                    flat.push(copy);
                    k += 1;
                }
                assert(models(inner@).take(inner.len() as int) =~= models(inner@));
            },
            other => {
                let copy = other.clone();
                proof {
                    assert(!(other@ is Array)) by {
                        if let Json::Object(members) = other {
                            lemma_object_model(*members);
                        }
                    }
                    assert(models(flat@.push(copy)) =~= before + seq![other@]);
                }
                flat.push(copy);
            },
        }
        i += 1;
    }
    proof {
        assert(models(items@).take(items.len() as int) =~= models(items@));
        lemma_array_model(flat);
    }
    Json::Array(flat)
}

/// Makes the value of a group out of what the filter handed back.
pub fn compose(spread: bool, filtered: Result<MaybeArray, String>) -> (result: Result<Json, Error>)
    ensures
        outcome(result) == composed(spread, filter_outcome(filtered)),
{
    match filtered {
        Err(text) => Err(Error::FilterError(text)),
        Ok(MaybeArray::Array(items)) => {
            if spread {
                Ok(flatten_json_array(&items))
            } else {
                proof {
                    lemma_array_model(items);
                }
                Ok(Json::Array(items))
            }
        },
        Ok(MaybeArray::NonArray(value)) => {
            if spread {
                Err(Error::SpreadOnNonArray)
            } else {
                Ok(value)
            }
        },
    }
}

/// The shape of a value that nothing was filtered out of.
pub open spec fn shape_of(value: JsonModel) -> MaybeArrayModel {
    match value {
        JsonModel::Array(items) => MaybeArrayModel::Array(items),
        _ => MaybeArrayModel::NonArray(value),
    }
}

/// The filter that keeps everything: it hands back the value in its shape,
/// whatever it is asked for.
pub fn no_filter(value: &Json, filters: &Vec<Segment>) -> (filtered: Result<MaybeArray, String>)
    ensures
        filter_outcome(filtered) == Ok::<MaybeArrayModel, Seq<char>>(shape_of(value@)),
{
    match value.clone() {
        Json::Array(items) => {
            proof {
                lemma_array_model(items);
            }
            Ok(MaybeArray::Array(items))
        },
        Json::Object(members) => {
            proof {
                lemma_object_model(members);
            }
            Ok(MaybeArray::NonArray(Json::Object(members)))
        },
        other => Ok(MaybeArray::NonArray(other)),
    }
}

/// Walks the path of a group and hands back the value it leads to.
pub fn select(group: &Group, json: &Json) -> (result: Result<Json, Error>)
    ensures
        outcome(result) == selected(segment_models(group.segments@), json@),
{
    if group.segments.len() == 0 {
        return Err(Error::EmptyGroup);
    }
    match get_selection(group.segments.as_slice(), json) {
        Ok(mut found) => {
            proof {
                lemma_walk_len(segment_models(group.segments@), json@, group.segments@.len());
            }
            let last = found.len() - 1;
            Ok(found.remove(last))
        },
        Err(error) => Err(error),
    }
}

/// Resolves one group against `json`: walks its path, hands the value found
/// and the group's filters to `apply_filter`, and composes the result.
pub fn group_walker<F>(group: &Group, json: &Json, apply_filter: F) -> (result: Result<Json, Error>)
    where F: FnOnce(&Json, &Vec<Segment>) -> Result<MaybeArray, String>
    requires
        forall|value: Json|
            selected(segment_models(group.segments@), json@) == Ok::<JsonModel, ErrorModel>(value@)
                ==> apply_filter.requires((&value, &group.filters)),
    ensures
        match selected(segment_models(group.segments@), json@) {
            Err(error) => outcome(result) == Err::<JsonModel, ErrorModel>(error),
            Ok(output) => exists|value: Json, filtered: Result<MaybeArray, String>|
                {
                    &&& value@ == output
                    &&& apply_filter.ensures((&value, &group.filters), filtered)
                    &&& outcome(result) == composed(group.spread, filter_outcome(filtered))
                },
        },
{
    match select(group, json) {
        Err(error) => Err(error),
        Ok(value) => {
            let filtered = apply_filter(&value, &group.filters);
            let result = compose(group.spread, filtered);
            result
        },
    }
}

} // verus!
