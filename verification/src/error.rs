//! What can go wrong while a selector is resolved, and how it is reported.

use crate::segment::{display, display_node_or_range, option_model, Segment, SegmentModel};
use crate::text::{decimal, decimal_string};
use vstd::prelude::*;

verus! {

/// Why a selector could not be resolved. Where a failure has a place in the
/// path, `parent` is the segment before it, and `None` at the root.
#[derive(Debug, PartialEq, Eq)]
pub enum Error {
    /// No selector was given, or an empty one.
    NoSelector,
    /// The selector holds something, and yet no group.
    EmptySelection,
    /// A group without any segment was handed over for composition.
    EmptyGroup,
    /// A token is a negative integer.
    InvalidNegativeIndex,
    /// A token has the shape of a range, with a bound too large to hold.
    InvalidRange { token: String },
    /// An index or a range was applied to a node that is no array.
    NotAnArray { parent: Option<Segment> },
    /// An index lies beyond the end of the array.
    IndexOutOfBound { token: String, parent: Option<Segment>, len: usize },
    /// A bound of a range lies beyond the end of the array.
    RangeOutOfBound { start: usize, end: usize, parent: Option<Segment>, len: usize },
    /// The node is no object, or has no such key.
    NodeNotFound { key: String, parent: Option<Segment> },
    /// A spread was asked of a filtered result that is no array.
    SpreadOnNonArray,
    /// The filter failed; its message is passed on as it came.
    FilterError(String),
}

/// The mathematical value of an [`Error`].
pub enum ErrorModel {
    NoSelector,
    EmptySelection,
    EmptyGroup,
    InvalidNegativeIndex,
    InvalidRange { token: Seq<char> },
    NotAnArray { parent: Option<SegmentModel> },
    IndexOutOfBound { token: Seq<char>, parent: Option<SegmentModel>, len: nat },
    RangeOutOfBound { start: nat, end: nat, parent: Option<SegmentModel>, len: nat },
    NodeNotFound { key: Seq<char>, parent: Option<SegmentModel> },
    SpreadOnNonArray,
    FilterError(Seq<char>),
}

impl View for Error {
    type V = ErrorModel;

    open spec fn view(&self) -> ErrorModel {
        match self {
            Error::NoSelector => ErrorModel::NoSelector,
            Error::EmptySelection => ErrorModel::EmptySelection,
            Error::EmptyGroup => ErrorModel::EmptyGroup,
            Error::InvalidNegativeIndex => ErrorModel::InvalidNegativeIndex,
            Error::InvalidRange { token } => ErrorModel::InvalidRange { token: token@ },
            Error::NotAnArray { parent } => ErrorModel::NotAnArray {
                parent: option_model(*parent),
            },
            Error::IndexOutOfBound { token, parent, len } => ErrorModel::IndexOutOfBound {
                token: token@,
                parent: option_model(*parent),
                len: *len as nat,
            },
            Error::RangeOutOfBound { start, end, parent, len } => ErrorModel::RangeOutOfBound {
                start: *start as nat,
                end: *end as nat,
                parent: option_model(*parent),
                len: *len as nat,
            },
            Error::NodeNotFound { key, parent } => ErrorModel::NodeNotFound {
                key: key@,
                parent: option_model(*parent),
            },
            Error::SpreadOnNonArray => ErrorModel::SpreadOnNonArray,
            Error::FilterError(text) => ErrorModel::FilterError(text@),
        }
    }
}

/// A run with one more item at its front, unless the run failed.
pub open spec fn put_first<T>(first: T, rest: Result<Seq<T>, ErrorModel>) -> Result<
    Seq<T>,
    ErrorModel,
> {
    match rest {
        Ok(items) => Ok(seq![first] + items),
        Err(error) => Err(error),
    }
}

/// How a message names the node that an index or a range was applied to.
pub open spec fn holder(parent: Option<SegmentModel>) -> Seq<char> {
    match parent {
        None => "root element"@,
        Some(segment) => display(segment, false),
    }
}

impl ErrorModel {
    /// The text that reports the error.
    pub open spec fn message(self) -> Seq<char> {
        match self {
            ErrorModel::NoSelector => "No selector found"@,
            ErrorModel::EmptySelection => "Empty selection"@,
            ErrorModel::EmptyGroup => "Empty group"@,
            ErrorModel::InvalidNegativeIndex => "Invalid negative array index"@,
            ErrorModel::InvalidRange { token } => "Range ( "@ + token
                + " ) has a bound that is too large"@,
            ErrorModel::NotAnArray { parent } => match parent {
                None => "Root element is not an array"@,
                Some(segment) => display(segment, true) + " is not an array"@,
            },
            ErrorModel::IndexOutOfBound { token, parent, len } => "Index ( "@ + token
                + " ) is out of bound, "@ + holder(parent) + " has a length of "@ + decimal(len),
            ErrorModel::RangeOutOfBound { start, end, parent, len } => "Range ( "@ + decimal(start)
                + " : "@ + decimal(end) + " ) is out of bound, "@ + holder(parent)
                + " has a length of "@ + decimal(len),
            ErrorModel::NodeNotFound { key, parent } => match parent {
                None => "Node ( "@ + key + " ) is not the root element"@,
                Some(segment) => "Node ( "@ + key + " ) not found on parent "@ + display(
                    segment,
                    false,
                ),
            },
            ErrorModel::SpreadOnNonArray => "Only arrays can be flattened"@,
            ErrorModel::FilterError(text) => text,
        }
    }
}

/// Names the node that an index or a range was applied to.
fn holder_text(parent: &Option<Segment>) -> (text: String)
    ensures
        text@ == holder(option_model(*parent)),
{
    match parent {
        None => String::from_str("root element"),
        Some(segment) => display_node_or_range(segment, false),
    }
}

impl Error {
    /// The text that reports the error.
    pub fn message(&self) -> (text: String)
        ensures
            text@ == self@.message(),
    {
        match self {
            Error::NoSelector => String::from_str("No selector found"),
            Error::EmptySelection => String::from_str("Empty selection"),
            Error::EmptyGroup => String::from_str("Empty group"),
            Error::InvalidNegativeIndex => String::from_str("Invalid negative array index"),
            Error::InvalidRange { token } => {
                let mut text = String::from_str("Range ( ");
                text.append(token.as_str());
                text.append(" ) has a bound that is too large");
                assert(text@ =~= self@.message());
                text
            },
            Error::NotAnArray { parent } => match parent {
                None => String::from_str("Root element is not an array"),
                Some(segment) => {
                    let mut text = display_node_or_range(segment, true);
                    text.append(" is not an array");
                    text
                },
            },
            Error::IndexOutOfBound { token, parent, len } => {
                let mut text = String::from_str("Index ( ");
                text.append(token.as_str());
                text.append(" ) is out of bound, ");
                text.append(holder_text(parent).as_str());
                text.append(" has a length of ");
                text.append(decimal_string(*len).as_str());
                assert(text@ =~= self@.message());
                text
            },
            Error::RangeOutOfBound { start, end, parent, len } => {
                let mut text = String::from_str("Range ( ");
                text.append(decimal_string(*start).as_str());
                text.append(" : ");
                text.append(decimal_string(*end).as_str());
                text.append(" ) is out of bound, ");
                text.append(holder_text(parent).as_str());
                text.append(" has a length of ");
                text.append(decimal_string(*len).as_str());
                assert(text@ =~= self@.message());
                text
            },
            Error::NodeNotFound { key, parent } => {
                let mut text = String::from_str("Node ( ");
                text.append(key.as_str());
                match parent {
                    None => {
                        text.append(" ) is not the root element");
                    },
                    Some(segment) => {
                        text.append(" ) not found on parent ");
                        text.append(display_node_or_range(segment, false).as_str());
                    },
                }
                assert(text@ =~= self@.message());
                text
            },
            Error::SpreadOnNonArray => String::from_str("Only arrays can be flattened"),
            Error::FilterError(text) => text.clone(),
        }
    }
}

} // verus!
