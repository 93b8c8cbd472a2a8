//! The document tree that the library works on.

use vstd::prelude::*;

use crate::text::same_text;

verus! {

/// A number literal of a document. Its value is never looked at, only carried along.
#[verifier::external_type_specification]
#[verifier::external_body]
pub struct ExNumber(serde_json::Number);

/// Cloning a `serde_json::Number` (a derived `Clone`) gives the same number.
pub assume_specification[ <serde_json::Number as Clone>::clone ](
    number: &serde_json::Number,
) -> (r: serde_json::Number)
    ensures
        r == *number,
;

/// A node of a document.
pub enum Json {
    Null,
    Bool(bool),
    Number(serde_json::Number),
    Text(String),
    Array(Vec<Json>),
    Object(Vec<Member>),
}

/// A key of an object with its value.
pub struct Member {
    pub key: String,
    pub value: Json,
}

/// What a [`Json`] node holds.
pub enum JsonView {
    Null,
    Bool(bool),
    Number(serde_json::Number),
    Text(Seq<char>),
    Array(Seq<JsonView>),
    Object(Seq<MemberView>),
}

/// What a [`Member`] holds.
pub struct MemberView {
    pub key: Seq<char>,
    pub value: JsonView,
}

impl View for Json {
    type V = JsonView;

    open spec fn view(&self) -> JsonView
        decreases self,
    {
        match *self {
            Json::Null => JsonView::Null,
            Json::Bool(b) => JsonView::Bool(b),
            Json::Number(n) => JsonView::Number(n),
            Json::Text(s) => JsonView::Text(s@),
            Json::Array(items) => JsonView::Array(
                Seq::new(
                    items@.len(),
                    |i: int| if 0 <= i < items@.len() { items@[i].view() } else { JsonView::Null },
                ),
            ),
            Json::Object(members) => JsonView::Object(
                Seq::new(
                    members@.len(),
                    |i: int|
                        if 0 <= i < members@.len() {
                            MemberView { key: members@[i].key@, value: members@[i].value.view() }
                        } else {
                            MemberView { key: Seq::empty(), value: JsonView::Null }
                        },
                ),
            ),
        }
    }
}

impl View for Member {
    type V = MemberView;

    open spec fn view(&self) -> MemberView {
        MemberView { key: self.key@, value: self.value@ }
    }
}

/// What a list of nodes holds.
pub open spec fn items_view(items: Seq<Json>) -> Seq<JsonView> {
    items.map_values(|item: Json| item@)
}

/// What a list of members holds.
pub open spec fn members_view(members: Seq<Member>) -> Seq<MemberView> {
    members.map_values(|member: Member| member@)
}

/// The position of the first member with the given key, or the length if there is none.
pub open spec fn key_index(members: Seq<MemberView>, key: Seq<char>) -> int
    decreases members.len(),
{
    if members.len() == 0 {
        0
    } else if members[0].key == key {
        0
    } else {
        1 + key_index(members.drop_first(), key)
    }
}

/// The value under the given key.
pub open spec fn lookup(members: Seq<MemberView>, key: Seq<char>) -> Option<JsonView> {
    let i = key_index(members, key);
    if i < members.len() {
        Some(members[i].value)
    } else {
        None
    }
}

/// No two members have the same key.
pub open spec fn distinct_keys(members: Seq<MemberView>) -> bool {
    forall|i: int, j: int|
        0 <= i < j < members.len() ==> (#[trigger] members[i]).key != (#[trigger] members[j]).key
}

impl JsonView {
    /// In every object of the tree the keys are distinct.
    pub open spec fn well_formed(self) -> bool
        decreases self,
    {
        match self {
            JsonView::Array(items) => forall|i: int|
                0 <= i < items.len() ==> (#[trigger] items[i]).well_formed(),
            JsonView::Object(members) => {
                &&& distinct_keys(members)
                &&& forall|i: int|
                    0 <= i < members.len() ==> (#[trigger] members[i]).value.well_formed()
            },
            _ => true,
        }
    }

    /// The value under a key, where the node is an object that has the key.
    pub open spec fn get(self, key: Seq<char>) -> Option<JsonView> {
        match self {
            JsonView::Object(members) => lookup(members, key),
            _ => None,
        }
    }

    /// The members, where the node is an object.
    pub open spec fn as_object(self) -> Option<Seq<MemberView>> {
        match self {
            JsonView::Object(members) => Some(members),
            _ => None,
        }
    }

    /// The items, where the node is an array.
    pub open spec fn as_array(self) -> Option<Seq<JsonView>> {
        match self {
            JsonView::Array(items) => Some(items),
            _ => None,
        }
    }

    /// The characters, where the node is a text.
    pub open spec fn as_text(self) -> Option<Seq<char>> {
        match self {
            JsonView::Text(s) => Some(s),
            _ => None,
        }
    }

    /// The truth value, where the node is one.
    pub open spec fn as_bool(self) -> Option<bool> {
        match self {
            JsonView::Bool(b) => Some(b),
            _ => None,
        }
    }
}

/// The view of an array is the array of the views.
pub broadcast proof fn lemma_array_view(items: Vec<Json>)
    ensures
        #[trigger] Json::Array(items)@ == JsonView::Array(items_view(items@)),
{
    assert(Json::Array(items)@->Array_0 =~= items_view(items@));
}

/// The view of an object is the object of the views.
pub broadcast proof fn lemma_object_view(members: Vec<Member>)
    ensures
        #[trigger] Json::Object(members)@ == JsonView::Object(members_view(members@)),
{
    assert(Json::Object(members)@->Object_0 =~= members_view(members@));
}

pub broadcast group group_json_views {
    lemma_array_view,
    lemma_object_view,
}

pub proof fn lemma_key_index(members: Seq<MemberView>, key: Seq<char>)
    ensures
        0 <= key_index(members, key) <= members.len(),
        key_index(members, key) < members.len() ==> members[key_index(members, key)].key == key,
        forall|i: int| 0 <= i < key_index(members, key) ==> (#[trigger] members[i]).key != key,
    decreases members.len(),
{
    if members.len() > 0 && members[0].key != key {
        let rest = members.drop_first();
        lemma_key_index(rest, key);
        assert forall|i: int| 0 <= i < key_index(members, key) implies (
        #[trigger] members[i]).key != key by {
            if i > 0 {
                assert(members[i] == rest[i - 1]);
            }
        }
    }
}

/// The position of the first member with the given key is determined by what it is.
pub proof fn lemma_key_index_is(members: Seq<MemberView>, key: Seq<char>, at: int)
    requires
        0 <= at <= members.len(),
        at < members.len() ==> members[at].key == key,
        forall|i: int| 0 <= i < at ==> (#[trigger] members[i]).key != key,
    ensures
        key_index(members, key) == at,
{
    lemma_key_index(members, key);
    let k = key_index(members, key);
    if k < at {
        assert(members[k].key != key);
    }
    if at < k {
        assert(members[at].key != key);
    }
}

/// The position of the first member with the given key, or the length if there is none.
pub fn find_key(members: &Vec<Member>, key: &str) -> (r: usize)
    ensures
        r == key_index(members_view(members@), key@),
        r <= members.len(),
{
    let ghost views = members_view(members@);
    for i in 0..members.len()
        invariant
            views == members_view(members@),
            forall|j: int| 0 <= j < i ==> (#[trigger] views[j]).key != key@,
    {
        if same_text(members[i].key.as_str(), key) {
            proof {
                assert(views[i as int].key == key@);
                lemma_key_index_is(views, key@, i as int);
            }
            return i;
        }
    }
    proof {
        lemma_key_index_is(views, key@, members.len() as int);
    }
    members.len()
}

/// The value under the given key.
pub fn find_value<'a>(members: &'a Vec<Member>, key: &str) -> (r: Option<&'a Json>)
    ensures
        match r {
            Some(value) => lookup(members_view(members@), key@) == Some(value@),
            None => lookup(members_view(members@), key@) is None,
        },
{
    let i = find_key(members, key);
    if i < members.len() {
        Some(&members[i].value)
    } else {
        None
    }
}

impl Json {
    /// The value under a key, where the node is an object that has the key.
    pub fn get(&self, key: &str) -> (r: Option<&Json>)
        ensures
            match r {
                Some(value) => self@.get(key@) == Some(value@),
                None => self@.get(key@) is None,
            },
    {
        broadcast use group_json_views;

        match self {
            Json::Object(members) => find_value(members, key),
            _ => None,
        }
    }

    /// The members, where the node is an object.
    pub fn as_object(&self) -> (r: Option<&Vec<Member>>)
        ensures
            match r {
                Some(members) => self@ == JsonView::Object(members_view(members@)),
                None => self@.as_object() is None,
            },
    {
        broadcast use group_json_views;

        match self {
            Json::Object(members) => Some(members),
            _ => None,
        }
    }

    /// The items, where the node is an array.
    pub fn as_array(&self) -> (r: Option<&Vec<Json>>)
        ensures
            match r {
                Some(items) => self@ == JsonView::Array(items_view(items@)),
                None => self@.as_array() is None,
            },
    {
        broadcast use group_json_views;

        match self {
            Json::Array(items) => Some(items),
            _ => None,
        }
    }

    /// The characters, where the node is a text.
    pub fn as_str(&self) -> (r: Option<&str>)
        ensures
            match r {
                Some(s) => self@ == JsonView::Text(s@),
                None => self@.as_text() is None,
            },
    {
        match self {
            Json::Text(s) => Some(s.as_str()),
            _ => None,
        }
    }

    /// The truth value, where the node is one.
    pub fn as_bool(&self) -> (r: Option<bool>)
        ensures
            r == self@.as_bool(),
    {
        match self {
            Json::Bool(b) => Some(*b),
            _ => None,
        }
    }

    /// A copy of the whole tree.
    pub fn duplicate(&self) -> (r: Json)
        ensures
            r@ == self@,
        decreases self,
    {
        broadcast use group_json_views;

        match self {
            Json::Null => Json::Null,
            Json::Bool(b) => Json::Bool(*b),
            Json::Number(n) => Json::Number(n.clone()),
            Json::Text(s) => Json::Text(s.clone()),
            Json::Array(items) => {
                let mut copies: Vec<Json> = Vec::new();
                for i in 0..items.len()
                    invariant
                        self matches Json::Array(v) && v == items,
                        copies.len() == i,
                        forall|j: int| 0 <= j < i ==> (#[trigger] copies@[j])@ == items@[j]@,
                {
                    copies.push(items[i].duplicate());
                }
                proof {
                    assert(items_view(copies@) =~= items_view(items@));
                }
                Json::Array(copies)
            },
            Json::Object(members) => {
                let mut copies: Vec<Member> = Vec::new();
                for i in 0..members.len()
                    invariant
                        self matches Json::Object(v) && v == members,
                        copies.len() == i,
                        forall|j: int| 0 <= j < i ==> (#[trigger] copies@[j])@ == members@[j]@,
                {
                    copies.push(members[i].duplicate());
                }
                proof {
                    assert(members_view(copies@) =~= members_view(members@));
                }
                Json::Object(copies)
            },
        }
    }
}

impl Member {
    /// A copy of the key and its value.
    pub fn duplicate(&self) -> (r: Member)
        ensures
            r@ == self@,
        decreases self,
    {
        Member { key: self.key.clone(), value: self.value.duplicate() }
    }
}

} // verus!
