//! Walking a path through a document, segment by segment.

use crate::error::{Error, ErrorModel};
use crate::json::{models, Json, JsonModel};
use crate::resolver::{resolve, resolve_segment};
use crate::segment::{segment_models, Segment, SegmentModel};
use vstd::prelude::*;

verus! {

/// The values that the first `upto` segments of a path select, one after
/// the other: the first segment in the document, each later one in the value
/// found before it. The first segment that fails ends the walk with its
/// error.
pub open spec fn walk(segments: Seq<SegmentModel>, document: JsonModel, upto: nat) -> Result<
    Seq<JsonModel>,
    ErrorModel,
>
    decreases upto,
{
    if upto == 0 {
        Ok(Seq::empty())
    } else {
        match walk(segments, document, (upto - 1) as nat) {
            Err(error) => Err(error),
            Ok(found) => {
                let node = if found.len() == 0 {
                    document
                } else {
                    found.last()
                };
                match resolve(node, segments, upto - 1) {
                    Ok(next) => Ok(found.push(next)),
                    Err(error) => Err(error),
                }
            },
        }
    }
}

/// The selection of a path: every value found along it, the addressed one
/// last. An empty path selects the document itself.
pub open spec fn selection(segments: Seq<SegmentModel>, document: JsonModel) -> Result<
    Seq<JsonModel>,
    ErrorModel,
> {
    match walk(segments, document, segments.len()) {
        Err(error) => Err(error),
        Ok(found) => if found.len() == 0 {
            Ok(seq![document])
        } else {
            Ok(found)
        },
    }
}

/// The model of a selection or of the error in its place.
pub open spec fn selection_outcome(result: Result<Vec<Json>, Error>) -> Result<
    Seq<JsonModel>,
    ErrorModel,
> {
    match result {
        Ok(found) => Ok(models(found@)),
        Err(error) => Err(error@),
    }
}

/// A walk that went well found one value for each segment.
pub proof fn lemma_walk_len(segments: Seq<SegmentModel>, document: JsonModel, upto: nat)
    ensures
        walk(segments, document, upto) matches Ok(found) ==> found.len() == upto,
    decreases upto,
{
    if upto > 0 {
        lemma_walk_len(segments, document, (upto - 1) as nat);
    }
}

/// Once a walk has failed, walking further fails with the same error.
pub proof fn lemma_walk_fails_fast(
    segments: Seq<SegmentModel>,
    document: JsonModel,
    upto: nat,
    further: nat,
)
    requires
        upto <= further,
        walk(segments, document, upto) is Err,
    ensures
        walk(segments, document, further) == walk(segments, document, upto),
    decreases further,
{
    if upto < further {
        lemma_walk_fails_fast(segments, document, upto, (further - 1) as nat);
    }
}

/// Walks `selectors` through `json` and hands back every value found on the
/// way, the addressed one last.
pub fn get_selection(selectors: &[Segment], json: &Json) -> (result: Result<Vec<Json>, Error>)
    ensures
        selection_outcome(result) == selection(segment_models(selectors@), json@),
{
    let ghost segments = segment_models(selectors@);
    let mut found: Vec<Json> = Vec::new();
    let mut i: usize = 0;
    assert(models(found@) =~= Seq::empty());
    while i < selectors.len()
        invariant
            i <= selectors@.len(),
            segments == segment_models(selectors@),
            found.len() == i,
            walk(segments, json@, i as nat) == Ok::<Seq<JsonModel>, ErrorModel>(models(found@)),
        decreases selectors.len() - i,
    {
        let step = if i == 0 {
            resolve_segment(i, json, selectors)
        } else {
            resolve_segment(i, &found[i - 1], selectors)
        };
        match step {
            Ok(next) => {
                proof {
                    assert(models(found@.push(next)) =~= models(found@).push(next@));
                }
                found.push(next);
            },
            Err(error) => {
                proof {
                    assert(walk(segments, json@, (i + 1) as nat) == Err::<
                        Seq<JsonModel>,
                        ErrorModel,
                    >(error@));
                    lemma_walk_fails_fast(segments, json@, (i + 1) as nat, segments.len());
                }
                return Err(error);
            },
        }
        i += 1;
    }
    if found.len() == 0 {
        found.push(json.clone());
        assert(models(found@) =~= seq![json@]);
    }
    Ok(found)
}

} // verus!
