//! Path segments: the units between the dots of a selector.

use crate::text::{decimal, decimal_string};
use vstd::prelude::*;

verus! {

/// One step of a path.
#[derive(Debug, PartialEq, Eq)]
pub enum Segment {
    /// A token that names an object key or an array index.
    Key(String),
    /// An inclusive range of array positions, as written: the first bound
    /// may be the larger one.
    Range(usize, usize),
}

/// The mathematical value of a [`Segment`].
pub enum SegmentModel {
    Key(Seq<char>),
    Range(nat, nat),
}

impl View for Segment {
    type V = SegmentModel;

    open spec fn view(&self) -> SegmentModel {
        match self {
            Segment::Key(token) => SegmentModel::Key(token@),
            Segment::Range(start, end) => SegmentModel::Range(*start as nat, *end as nat),
        }
    }
}

impl Clone for Segment {
    fn clone(&self) -> (copy: Segment)
        ensures
            copy@ == self@,
    {
        match self {
            Segment::Key(token) => Segment::Key(token.clone()),
            Segment::Range(start, end) => Segment::Range(*start, *end),
        }
    }
}

/// The models of a run of segments, in order.
pub open spec fn segment_models(segments: Seq<Segment>) -> Seq<SegmentModel> {
    Seq::new(segments.len(), |i: int| segments[i]@)
}

/// The segment before position `i` of a path, which error messages name as
/// the parent. The first position has none, and neither has a position
/// beyond the end of the path: both are reported against the root.
pub open spec fn parent_of(segments: Seq<SegmentModel>, i: int) -> Option<SegmentModel> {
    if 0 < i <= segments.len() {
        Some(segments[i - 1])
    } else {
        None
    }
}

/// How a message names a segment: `node ( key )` or `range ( 1 : 2 )`, with
/// a capital first letter where the name opens a sentence.
pub open spec fn display(segment: SegmentModel, capitalized: bool) -> Seq<char> {
    match segment {
        SegmentModel::Key(token) => (if capitalized {
            "Node ( "@
        } else {
            "node ( "@
        }) + token + " )"@,
        SegmentModel::Range(start, end) => (if capitalized {
            "Range ( "@
        } else {
            "range ( "@
        }) + decimal(start) + " : "@ + decimal(end) + " )"@,
    }
}

/// Names a segment for a message.
pub fn display_node_or_range(selector: &Segment, capitalized: bool) -> (text: String)
    ensures
        text@ == display(selector@, capitalized),
{
    match selector {
        Segment::Key(token) => {
            let mut text = String::from_str(if capitalized { "Node ( " } else { "node ( " });
            text.append(token.as_str());
            text.append(" )");
            assert(text@ =~= display(selector@, capitalized));
            text
        },
        Segment::Range(start, end) => {
            let mut text = String::from_str(if capitalized { "Range ( " } else { "range ( " });
            text.append(decimal_string(*start).as_str());
            text.append(" : ");
            text.append(decimal_string(*end).as_str());
            text.append(" )");
            assert(text@ =~= display(selector@, capitalized));
            text
        },
    }
}

/// The parent of position `i`, copied out of the path. There is none at
/// the first position, nor at a position beyond the end of the path.
pub fn parent_segment(i: usize, selector: &[Segment]) -> (parent: Option<Segment>)
    ensures
        option_model(parent) == parent_of(segment_models(selector@), i as int),
{
    if i == 0 || i > selector.len() {
        None
    } else {
        Some(selector[i - 1].clone())
    }
}

/// The model of a segment that may be absent.
pub open spec fn option_model(segment: Option<Segment>) -> Option<SegmentModel> {
    match segment {
        Some(segment) => Some(segment@),
        None => None,
    }
}

} // verus!
