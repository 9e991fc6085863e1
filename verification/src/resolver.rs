//! Resolving one segment against one node.

use crate::error::{Error, ErrorModel};
use crate::json::{
    lemma_array_model, lemma_object_model, member_models, models, Json, JsonModel, MemberModel,
};
use crate::segment::{parent_of, parent_segment, segment_models, Segment, SegmentModel};
use crate::text::{chars_of, parse_integer, read_integer};
use vstd::prelude::*;

verus! {

/// The model of what a resolution step hands back.
pub open spec fn outcome(result: Result<Json, Error>) -> Result<JsonModel, ErrorModel> {
    match result {
        Ok(value) => Ok(value@),
        Err(error) => Err(error@),
    }
}

/// The item at `index` of an array node. A negative index is refused
/// whatever the node is; then the node must be an array, and the index
/// must lie in it.
pub open spec fn index_node(
    node: JsonModel,
    token: Seq<char>,
    index: int,
    parent: Option<SegmentModel>,
) -> Result<JsonModel, ErrorModel> {
    if index < 0 {
        Err(ErrorModel::InvalidNegativeIndex)
    } else {
        match node {
            JsonModel::Array(items) => if index < items.len() {
                Ok(items[index])
            } else {
                Err(ErrorModel::IndexOutOfBound { token, parent, len: items.len() })
            },
            _ => Err(ErrorModel::NotAnArray { parent }),
        }
    }
}

/// The items of an array node between two bounds, both included: in the
/// array's order where `start < end`, and backwards from `start` down to
/// `end` otherwise.
pub open spec fn range_node(
    node: JsonModel,
    start: nat,
    end: nat,
    parent: Option<SegmentModel>,
) -> Result<JsonModel, ErrorModel> {
    match node {
        JsonModel::Array(items) => if items.len() <= start || items.len() <= end {
            Err(ErrorModel::RangeOutOfBound { start, end, parent, len: items.len() })
        } else if start < end {
            Ok(JsonModel::Array(items.subrange(start as int, end as int + 1)))
        } else {
            Ok(JsonModel::Array(items.subrange(end as int, start as int + 1).reverse()))
        },
        _ => Err(ErrorModel::NotAnArray { parent }),
    }
}

/// The value of the first entry at or after `from` that has the key.
pub open spec fn find_member(members: Seq<MemberModel>, key: Seq<char>, from: nat) -> Option<
    JsonModel,
>
    decreases members.len() - from,
{
    if from >= members.len() {
        None
    } else if members[from as int].key == key {
        Some(members[from as int].value)
    } else {
        find_member(members, key, from + 1)
    }
}

/// The value that an object node maps the key to.
pub open spec fn key_node(node: JsonModel, key: Seq<char>, parent: Option<SegmentModel>) -> Result<
    JsonModel,
    ErrorModel,
> {
    match node {
        JsonModel::Object(members) => match find_member(members, key, 0) {
            Some(value) => Ok(value),
            None => Err(ErrorModel::NodeNotFound { key, parent }),
        },
        _ => Err(ErrorModel::NodeNotFound { key, parent }),
    }
}

/// What the segment at position `i` of a path selects in `node`. A key that
/// reads as an integer is an array index and nothing else.
pub open spec fn resolve(node: JsonModel, segments: Seq<SegmentModel>, i: int) -> Result<
    JsonModel,
    ErrorModel,
> {
    match segments[i] {
        SegmentModel::Key(token) => match parse_integer(token) {
            Some(index) => index_node(node, token, index as int, parent_of(segments, i)),
            None => key_node(node, token, parent_of(segments, i)),
        },
        SegmentModel::Range(start, end) => range_node(node, start, end, parent_of(segments, i)),
    }
}

/// Looks up `index` in the array `inner_json`. `s` is the token as written
/// and `i` its position in `selector`; both only serve the error report.
pub fn array_walker(
    i: usize,
    index: isize,
    inner_json: &Json,
    s: &str,
    selector: &[Segment],
) -> (result: Result<Json, Error>)
    ensures
        outcome(result) == index_node(
            inner_json@,
            s@,
            index as int,
            parent_of(segment_models(selector@), i as int),
        ),
{
    if index < 0 {
        return Err(Error::InvalidNegativeIndex);
    }
    match inner_json {
        Json::Array(items) => {
            proof {
                lemma_array_model(*items);
            }
            let at = index as usize;
            if at < items.len() {
                Ok(items[at].clone())
            } else {
                Err(
                    Error::IndexOutOfBound {
                        token: String::from_str(s),
                        parent: parent_segment(i, selector),
                        len: items.len(),
                    },
                )
            }
        },
        _ => Err(Error::NotAnArray { parent: parent_segment(i, selector) }),
    }
}

/// Takes the items from `start` to `end`, both included, out of the array
/// `inner_json`; `i` is the position of the range in `selector`.
pub fn range_selector(
    i: usize,
    inner_json: &Json,
    start: usize,
    end: usize,
    selector: &[Segment],
) -> (result: Result<Json, Error>)
    ensures
        outcome(result) == range_node(
            inner_json@,
            start as nat,
            end as nat,
            parent_of(segment_models(selector@), i as int),
        ),
{
    match inner_json {
        Json::Array(items) => {
            proof {
                lemma_array_model(*items);
            }
            let len = items.len();
            if len <= start || len <= end {
                return Err(
                    Error::RangeOutOfBound { start, end, parent: parent_segment(i, selector), len },
                );
            }
            let mut taken: Vec<Json> = Vec::new();
            if start < end {
                let mut at: usize = start;
                while at <= end
                    invariant
                        start <= at <= end + 1,
                        end < items.len(),
                        taken.len() == at - start,
                        forall|k: int|
                            0 <= k < taken.len() ==> (#[trigger] taken@[k])@ == items@[start + k]@,
                    decreases end + 1 - at,
                {
                    taken.push(items[at].clone());
                    at += 1;
                }
                proof {
                    lemma_array_model(taken);
                    assert(models(taken@) =~= models(items@).subrange(start as int, end + 1));
                }
            } else {
                let mut left: usize = start - end + 1;
                while left > 0
                    invariant
                        end <= start < items.len(),
                        left <= start - end + 1,
                        taken.len() == start - end + 1 - left,
                        forall|k: int|
                            0 <= k < taken.len() ==> (#[trigger] taken@[k])@ == items@[start - k]@,
                    decreases left,
                {
                    left -= 1;
                    taken.push(items[end + left].clone());
                }
                proof {
                    lemma_array_model(taken);
                    assert(models(taken@) =~= models(items@).subrange(
                        end as int,
                        start + 1,
                    ).reverse());
                }
            }
            Ok(Json::Array(taken))
        },
        _ => Err(Error::NotAnArray { parent: parent_segment(i, selector) }),
    }
}

/// Looks up the key `s` in the object `inner_json`; `i` is the position of
/// the key in `selector`.
pub fn key_walker(i: usize, inner_json: &Json, s: &str, selector: &[Segment]) -> (result:
    Result<Json, Error>)
    ensures
        outcome(result) == key_node(
            inner_json@,
            s@,
            parent_of(segment_models(selector@), i as int),
        ),
{
    let key = String::from_str(s);
    match inner_json {
        Json::Object(members) => {
            proof {
                lemma_object_model(*members);
            }
            let mut at: usize = 0;
            while at < members.len()
                invariant
                    at <= members.len(),
                    key@ == s@,
                    inner_json@ == JsonModel::Object(member_models(members@)),
                    find_member(member_models(members@), s@, at as nat)
                        == find_member(member_models(members@), s@, 0),
                decreases members.len() - at,
            {
                if members[at].key == key {
                    return Ok(members[at].value.clone());
                }
                at += 1;
            }
            Err(Error::NodeNotFound { key, parent: parent_segment(i, selector) })
        },
        _ => Err(Error::NodeNotFound { key, parent: parent_segment(i, selector) }),
    }
}

/// Resolves the segment at position `i` of `selector` against `inner_json`.
pub fn resolve_segment(i: usize, inner_json: &Json, selector: &[Segment]) -> (result:
    Result<Json, Error>)
    requires
        i < selector@.len(),
    ensures
        outcome(result) == resolve(inner_json@, segment_models(selector@), i as int),
{
    match &selector[i] {
        Segment::Key(token) => {
            let chars = chars_of(token.as_str());
            match read_integer(&chars) {
                Some(index) => array_walker(i, index, inner_json, token.as_str(), selector),
                None => key_walker(i, inner_json, token.as_str(), selector),
            }
        },
        Segment::Range(start, end) => range_selector(i, inner_json, *start, *end, selector),
    }
}

} // verus!
