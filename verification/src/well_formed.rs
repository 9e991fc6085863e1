//! Well-formed documents stay well formed: no step of a resolution makes
//! an object that holds a key twice.

use crate::error::ErrorModel;
use crate::group::{flattened, unwrapped};
use crate::json::{
    lemma_array_well_formed, lemma_object_well_formed, unique_keys, JsonModel, MemberModel,
};
use crate::resolver::{find_member, key_node, resolve};
use crate::segment::SegmentModel;
use crate::selection::walk;
use crate::tokenizer::{find_char, lemma_find_char, tokenize};
use crate::walker::{group_value, values_from, walked};
use vstd::prelude::*;

verus! {

/// What a lookup finds is the value of an entry that has the key, and no
/// entry before it has the key.
pub proof fn law_found_member(members: Seq<MemberModel>, key: Seq<char>, from: nat)
    ensures
        match find_member(members, key, from) {
            Some(value) => exists|k: int|
                {
                    &&& from <= k < members.len()
                    &&& (#[trigger] members[k]).key == key
                    &&& members[k].value == value
                    &&& forall|j: int| from <= j < k ==> (#[trigger] members[j]).key != key
                },
            None => forall|j: int| from <= j < members.len() ==> (#[trigger] members[j]).key != key,
        },
    decreases members.len() - from,
{
    if from < members.len() {
        if members[from as int].key == key {
            assert(members[from as int].value == find_member(members, key, from)->Some_0);
        } else {
            law_found_member(members, key, from + 1);
            if let Some(value) = find_member(members, key, from + 1) {
                let k = choose|k: int|
                    {
                        &&& from + 1 <= k < members.len()
                        &&& (#[trigger] members[k]).key == key
                        &&& members[k].value == value
                        &&& forall|j: int| from + 1 <= j < k ==> (#[trigger] members[j]).key != key
                    };
                assert(members[k].key == key);
            }
        }
    }
}

/// In an object that maps each key once, a key leads to the value of the
/// one entry that has it.
pub proof fn law_unique_key_lookup(
    members: Seq<MemberModel>,
    k: int,
    parent: Option<SegmentModel>,
)
    requires
        unique_keys(members),
        0 <= k < members.len(),
    ensures
        key_node(JsonModel::Object(members), members[k].key, parent) == Ok::<
            JsonModel,
            ErrorModel,
        >(members[k].value),
{
    law_found_member(members, members[k].key, 0);
}

/// What a segment selects in a well-formed node is well formed.
pub proof fn law_resolve_keeps_well_formed(node: JsonModel, segments: Seq<SegmentModel>, i: int)
    requires
        node.well_formed(),
    ensures
        resolve(node, segments, i) matches Ok(value) ==> value.well_formed(),
{
    if let Ok(value) = resolve(node, segments, i) {
        match node {
            JsonModel::Array(items) => {
                lemma_array_well_formed(items);
                if let JsonModel::Array(taken) = value {
                    if segments[i] is Range {
                        lemma_array_well_formed(taken);
                    }
                }
            },
            JsonModel::Object(members) => {
                lemma_object_well_formed(members);
                if let SegmentModel::Key(token) = segments[i] {
                    law_found_member(members, token, 0);
                }
            },
            _ => {},
        }
    }
}

/// Every value that a walk finds in a well-formed document is well formed.
pub proof fn law_walk_keeps_well_formed(
    segments: Seq<SegmentModel>,
    document: JsonModel,
    upto: nat,
)
    requires
        document.well_formed(),
    ensures
        walk(segments, document, upto) matches Ok(found) ==> forall|k: int|
            0 <= k < found.len() ==> (#[trigger] found[k]).well_formed(),
    decreases upto,
{
    if upto > 0 {
        law_walk_keeps_well_formed(segments, document, (upto - 1) as nat);
        if let Ok(found) = walk(segments, document, (upto - 1) as nat) {
            let node = if found.len() == 0 {
                document
            } else {
                found.last()
            };
            law_resolve_keeps_well_formed(node, segments, upto - 1);
        }
    }
}

/// What a group selects in a well-formed document is well formed.
pub proof fn law_group_keeps_well_formed(document: JsonModel, group: Seq<char>)
    requires
        document.well_formed(),
    ensures
        group_value(document, group) matches Ok(value) ==> value.well_formed(),
{
    if let Ok(segments) = tokenize(group) {
        law_walk_keeps_well_formed(segments, document, segments.len());
    }
}

/// The value of every group of a selector is well formed where the
/// document is.
proof fn lemma_values_keep_well_formed(document: JsonModel, selector: Seq<char>, from: int)
    requires
        document.well_formed(),
    ensures
        values_from(document, selector, from) matches Ok(values) ==> forall|k: int|
            0 <= k < values.len() ==> (#[trigger] values[k]).well_formed(),
    decreases selector.len() - from,
{
    if 0 <= from < selector.len() {
        if selector[from] == ',' {
            lemma_values_keep_well_formed(document, selector, from + 1);
        } else {
            let end = find_char(selector, ',', from);
            lemma_find_char(selector, ',', from);
            law_group_keeps_well_formed(document, selector.subrange(from, end));
            lemma_values_keep_well_formed(document, selector, end);
        }
    }
}

/// What a selector resolves to in a well-formed document is well formed.
pub proof fn law_walker_keeps_well_formed(document: JsonModel, selector: Option<Seq<char>>)
    requires
        document.well_formed(),
    ensures
        walked(document, selector) matches Ok(value) ==> value.well_formed(),
{
    if let Some(text) = selector {
        lemma_values_keep_well_formed(document, text, 0);
        if let Ok(values) = values_from(document, text, 0) {
            lemma_array_well_formed(values);
        }
    }
}

/// Flattening well-formed items gives well-formed items.
pub proof fn law_flattened_keeps_well_formed(items: Seq<JsonModel>)
    requires
        forall|i: int| 0 <= i < items.len() ==> (#[trigger] items[i]).well_formed(),
    ensures
        forall|i: int|
            0 <= i < flattened(items).len() ==> (#[trigger] flattened(items)[i]).well_formed(),
    decreases items.len(),
{
    if items.len() > 0 {
        let before = flattened(items.drop_last());
        let added = unwrapped(items.last());
        law_flattened_keeps_well_formed(items.drop_last());
        assert(items.last().well_formed());
        if let JsonModel::Array(inner) = items.last() {
            lemma_array_well_formed(inner);
        }
        assert forall|i: int| 0 <= i < flattened(items).len() implies (#[trigger] flattened(
            items,
        )[i]).well_formed() by {
            if i < before.len() {
                assert(before[i].well_formed());
            } else {
                assert(added[i - before.len()].well_formed());
            }
        }
    }
}

} // verus!
