//! The JSON tree that selectors are resolved against, and its model.

use vstd::prelude::*;

verus! {

/// `serde_json::Number`, carried through unread: no rule of this library
/// depends on what a number holds.
#[verifier::external_type_specification]
#[verifier::external_body]
pub struct ExNumber(serde_json::Number);

/// `Clone::clone` of `serde_json::Number`, which the type derives: the copy
/// is the same number.
pub assume_specification[ <serde_json::Number as Clone>::clone ](
    number: &serde_json::Number,
) -> (copy: serde_json::Number)
    ensures
        copy == *number,
;

/// One entry of a JSON object.
#[derive(Debug, PartialEq, Eq)]
pub struct Member {
    pub key: String,
    pub value: Json,
}

/// A JSON document or any part of one. An object keeps its entries in the
/// order in which they were given; a lookup takes the first entry that has
/// the key, and a tree is [well formed](JsonModel::well_formed) where no
/// object has a key twice.
#[derive(Debug, PartialEq, Eq)]
pub enum Json {
    Null,
    Bool(bool),
    Number(serde_json::Number),
    String(String),
    Array(Vec<Json>),
    Object(Vec<Member>),
}

/// The mathematical value of a [`Json`]: the same tree over sequences.
pub enum JsonModel {
    Null,
    Bool(bool),
    Number(serde_json::Number),
    String(Seq<char>),
    Array(Seq<JsonModel>),
    Object(Seq<MemberModel>),
}

/// The mathematical value of a [`Member`].
pub struct MemberModel {
    pub key: Seq<char>,
    pub value: JsonModel,
}

impl View for Member {
    type V = MemberModel;

    open spec fn view(&self) -> MemberModel {
        MemberModel { key: self.key@, value: self.value@ }
    }
}

impl View for Json {
    type V = JsonModel;

    open spec fn view(&self) -> JsonModel
        decreases self,
    {
        match self {
            Json::Null => JsonModel::Null,
            Json::Bool(b) => JsonModel::Bool(*b),
            Json::Number(n) => JsonModel::Number(*n),
            Json::String(s) => JsonModel::String(s@),
            Json::Array(items) => JsonModel::Array(
                Seq::new(
                    items@.len(),
                    |i: int|
                        if 0 <= i < items@.len() {
                            items@[i].view()
                        } else {
                            JsonModel::Null
                        },
                ),
            ),
            Json::Object(members) => JsonModel::Object(
                Seq::new(
                    members@.len(),
                    |i: int|
                        if 0 <= i < members@.len() {
                            MemberModel { key: members@[i].key@, value: members@[i].value.view() }
                        } else {
                            MemberModel { key: Seq::empty(), value: JsonModel::Null }
                        },
                ),
            ),
        }
    }
}

impl JsonModel {
    /// Whether every object of the tree maps each of its keys once.
    pub open spec fn well_formed(self) -> bool
        decreases self,
    {
        match self {
            JsonModel::Array(items) => {
                forall|i: int| 0 <= i < items.len() ==> (#[trigger] items[i]).well_formed()
            },
            JsonModel::Object(members) => {
                &&& unique_keys(members)
                &&& forall|i: int|
                    0 <= i < members.len() ==> (#[trigger] members[i]).value.well_formed()
            },
            _ => true,
        }
    }
}

/// Whether no two entries have the same key.
pub open spec fn unique_keys(members: Seq<MemberModel>) -> bool {
    forall|i: int, j: int|
        0 <= i < j < members.len() ==> (#[trigger] members[i]).key != (#[trigger] members[j]).key
}

/// The models of a run of values, in order.
pub open spec fn models(items: Seq<Json>) -> Seq<JsonModel> {
    Seq::new(items.len(), |i: int| items[i]@)
}

/// The models of a run of object entries, in order.
pub open spec fn member_models(members: Seq<Member>) -> Seq<MemberModel> {
    Seq::new(members.len(), |i: int| members[i]@)
}

/// An array's model holds the models of its items.
pub proof fn lemma_array_model(items: Vec<Json>)
    ensures
        Json::Array(items)@ == JsonModel::Array(models(items@)),
{
    assert(Json::Array(items)@->Array_0 =~= models(items@));
}

/// An object's model holds the models of its entries.
pub proof fn lemma_object_model(members: Vec<Member>)
    ensures
        Json::Object(members)@ == JsonModel::Object(member_models(members@)),
{
    assert(Json::Object(members)@->Object_0 =~= member_models(members@));
}

/// An array is well formed where each of its items is.
pub proof fn lemma_array_well_formed(items: Seq<JsonModel>)
    ensures
        JsonModel::Array(items).well_formed() <==> forall|i: int|
            0 <= i < items.len() ==> (#[trigger] items[i]).well_formed(),
{
    assert(JsonModel::Array(items)->Array_0 == items);
}

/// An object is well formed where its keys differ and each of its values
/// is well formed.
pub proof fn lemma_object_well_formed(members: Seq<MemberModel>)
    ensures
        JsonModel::Object(members).well_formed() <==> unique_keys(members) && forall|i: int|
            0 <= i < members.len() ==> (#[trigger] members[i]).value.well_formed(),
{
    assert(JsonModel::Object(members)->Object_0 == members);
}

/// Tests whether one of the entries before position `upto` has the key of
/// the entry at that position.
fn key_seen_before(members: &Vec<Member>, upto: usize) -> (seen: bool)
    requires
        upto < members.len(),
    ensures
        seen == exists|i: int|
            0 <= i < upto && (#[trigger] members@[i]).key@ == members@[upto as int].key@,
{
    let mut at: usize = 0;
    while at < upto
        invariant
            at <= upto < members.len(),
            forall|i: int|
                0 <= i < at ==> (#[trigger] members@[i]).key@ != members@[upto as int].key@,
        decreases upto - at,
    {
        if members[at].key == members[upto].key {
            return true;
        }
        at += 1;
    }
    false
}

impl Json {
    /// Tests whether every object of the tree maps each of its keys once.
    pub fn is_well_formed(&self) -> (well_formed: bool)
        ensures
            well_formed == self@.well_formed(),
        decreases self,
    {
        match self {
            Json::Array(items) => {
                proof {
                    lemma_array_model(*items);
                    lemma_array_well_formed(models(items@));
                }
                let mut at: usize = 0;
                while at < items.len()
                    invariant
                        self matches Json::Array(v) && v == *items,
                        self@.well_formed() <==> forall|i: int|
                            0 <= i < items@.len() ==> (#[trigger] models(items@)[i]).well_formed(),
                        at <= items.len(),
                        forall|i: int| 0 <= i < at ==> (#[trigger] items@[i])@.well_formed(),
                    decreases items.len() - at,
                {
                    if !items[at].is_well_formed() {
                        assert(!models(items@)[at as int].well_formed());
                        return false;
                    }
                    at += 1;
                }
                assert forall|i: int| 0 <= i < items@.len() implies (#[trigger] models(
                    items@,
                )[i]).well_formed() by {
                    assert(items@[i]@.well_formed());
                }
                true
            },
            Json::Object(members) => {
                let ghost held = member_models(members@);
                proof {
                    lemma_object_model(*members);
                    lemma_object_well_formed(held);
                }
                let mut at: usize = 0;
                while at < members.len()
                    invariant
                        self matches Json::Object(v) && v == *members,
                        held == member_models(members@),
                        self@.well_formed() <==> unique_keys(held) && forall|i: int|
                            0 <= i < held.len() ==> (#[trigger] held[i]).value.well_formed(),
                        at <= members.len(),
                        forall|i: int|
                            0 <= i < at ==> (#[trigger] members@[i]).value@.well_formed(),
                        forall|i: int, j: int|
                            0 <= i < j < at ==> (#[trigger] members@[i]).key@
                                != (#[trigger] members@[j]).key@,
                    decreases members.len() - at,
                {
                    if key_seen_before(members, at) {
                        proof {
                            let i = choose|i: int|
                                0 <= i < at && (#[trigger] members@[i]).key@
                                    == members@[at as int].key@;
                            assert(held[i].key == held[at as int].key);
                        }
                        return false;
                    }
                    if !members[at].value.is_well_formed() {
                        assert(!held[at as int].value.well_formed());
                        return false;
                    }
                    at += 1;
                }
                assert(unique_keys(held)) by {
                    assert forall|i: int, j: int| 0 <= i < j < held.len() implies (
                    #[trigger] held[i]).key != (#[trigger] held[j]).key by {
                        assert(members@[i].key@ != members@[j].key@);
                    }
                }
                assert forall|i: int| 0 <= i < held.len() implies (
                #[trigger] held[i]).value.well_formed() by {
                    assert(members@[i].value@.well_formed());
                }
                true
            },
            _ => true,
        }
    }
}

impl Clone for Member {
    /// A deep copy of the entry.
    fn clone(&self) -> (copy: Member)
        ensures
            copy@ == self@,
    {
        Member { key: self.key.clone(), value: self.value.clone() }
    }
}

impl Clone for Json {
    /// A deep copy: a new tree with the same model.
    fn clone(&self) -> (copy: Json)
        ensures
            copy@ == self@,
        decreases self,
    {
        match self {
            Json::Null => Json::Null,
            Json::Bool(b) => Json::Bool(*b),
            Json::Number(n) => Json::Number(n.clone()),
            Json::String(s) => Json::String(s.clone()),
            Json::Array(items) => {
                let mut copies: Vec<Json> = Vec::new();
                let mut i: usize = 0;
                while i < items.len()
                    invariant
                        self matches Json::Array(v) && v == *items,
                        i <= items.len(),
                        copies.len() == i,
                        forall|k: int| 0 <= k < i ==> (#[trigger] copies@[k])@ == items@[k]@,
                    decreases items.len() - i,
                {
                    copies.push(items[i].clone());
                    i += 1;
                }
                proof {
                    lemma_array_model(copies);
                    lemma_array_model(*items);
                    assert(models(copies@) =~= models(items@));
                }
                Json::Array(copies)
            },
            Json::Object(members) => {
                let mut copies: Vec<Member> = Vec::new();
                let mut i: usize = 0;
                while i < members.len()
                    invariant
                        self matches Json::Object(v) && v == *members,
                        i <= members.len(),
                        copies.len() == i,
                        forall|k: int| 0 <= k < i ==> (#[trigger] copies@[k])@ == members@[k]@,
                    decreases members.len() - i,
                {
                    let member = &members[i];
                    copies.push(Member { key: member.key.clone(), value: member.value.clone() });
                    i += 1;
                }
                proof {
                    lemma_object_model(copies);
                    lemma_object_model(*members);
                    assert(member_models(copies@) =~= member_models(members@));
                }
                Json::Object(copies)
            },
        }
    }
}

} // verus!
