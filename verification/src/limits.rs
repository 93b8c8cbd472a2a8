//! How large a document may be for the crates that read and write it, which count columns and
//! lines in 32 bits.

use vstd::prelude::*;
use vstd::utf8::encode_utf8;

use crate::json::{group_json_views, items_view, members_view, Json, JsonView, MemberView};

verus! {

/// What a text must be shorter than to be read, in characters, and a tree smaller than to be
/// written as YAML, as [`yaml_size`] counts.
pub const DOCUMENT_LIMIT: usize = 0x7fff_0000;

/// The room that a text takes in YAML at most: four columns for each of its bytes, as a control
/// character is written, and what stands around it.
pub open spec fn yaml_text_size(text: Seq<char>) -> nat {
    64 + 4 * encode_utf8(text).len()
}

/// The room that a tree takes in YAML at most, in the columns and lines that a writer counts.
pub open spec fn yaml_size(tree: JsonView) -> nat
    decreases tree,
{
    match tree {
        JsonView::Text(text) => yaml_text_size(text),
        JsonView::Array(items) => 64 + yaml_items_size(items),
        JsonView::Object(members) => 64 + yaml_members_size(members),
        _ => 64,
    }
}

/// The room that the items of an array take in YAML at most.
pub open spec fn yaml_items_size(items: Seq<JsonView>) -> nat
    decreases items,
{
    if items.len() == 0 {
        0
    } else {
        yaml_items_size(items.drop_last()) + yaml_size(items.last())
    }
}

/// The room that the members of an object take in YAML at most.
pub open spec fn yaml_members_size(members: Seq<MemberView>) -> nat
    decreases members,
{
    if members.len() == 0 {
        0
    } else {
        proof {
            assert(decreases_to!(members => members[members.len() - 1].value));
        }
        yaml_members_size(members.drop_last()) + yaml_text_size(members.last().key) + yaml_size(
            members.last().value,
        )
    }
}

/// The tree is small enough to be written as YAML.
pub open spec fn fits_yaml(tree: JsonView) -> bool {
    yaml_size(tree) < DOCUMENT_LIMIT
}

proof fn lemma_items_size_prefix(items: Seq<JsonView>, n: int)
    requires
        0 <= n <= items.len(),
    ensures
        yaml_items_size(items.take(n)) <= yaml_items_size(items),
    decreases items.len() - n,
{
    if n < items.len() {
        lemma_items_size_prefix(items, n + 1);
        assert(items.take(n + 1).drop_last() =~= items.take(n));
    } else {
        assert(items.take(n) =~= items);
    }
}

proof fn lemma_members_size_prefix(members: Seq<MemberView>, n: int)
    requires
        0 <= n <= members.len(),
    ensures
        yaml_members_size(members.take(n)) <= yaml_members_size(members),
    decreases members.len() - n,
{
    if n < members.len() {
        lemma_members_size_prefix(members, n + 1);
        assert(members.take(n + 1).drop_last() =~= members.take(n));
    } else {
        assert(members.take(n) =~= members);
    }
}

/// What is left of some room when a text has taken its part. `None` if there is not enough.
fn take_text(text: &str, room: usize) -> (r: Option<usize>)
    ensures
        match r {
            Some(left) => left + yaml_text_size(text@) == room,
            None => yaml_text_size(text@) > room,
        },
{
    let length = text.as_bytes().len();
    if room < 64 || (room - 64) / 4 < length {
        None
    } else {
        Some(room - 64 - 4 * length)
    }
}

/// What is left of some room when a tree has taken its part. `None` if there is not enough.
fn take_room(json: &Json, room: usize) -> (r: Option<usize>)
    ensures
        match r {
            Some(left) => left + yaml_size(json@) == room,
            None => yaml_size(json@) > room,
        },
    decreases json,
{
    broadcast use group_json_views;

    match json {
        Json::Text(text) => {
            return take_text(text.as_str(), room);
        },
        _ => {},
    }
    if room < 64 {
        return None;
    }
    let mut left: usize = room - 64;
    match json {
        Json::Array(items) => {
            let ghost views = items_view(items@);
            for i in 0..items.len()
                invariant
                    json matches Json::Array(v) && v == items,
                    json@ == JsonView::Array(views),
                    views == items_view(items@),
                    left + 64 + yaml_items_size(views.take(i as int)) == room,
            {
                proof {
                    assert(views.take(i + 1).drop_last() =~= views.take(i as int));
                    assert(views.take(i + 1).last() == items@[i as int]@);
                    lemma_items_size_prefix(views, i + 1);
                }
                match take_room(&items[i], left) {
                    Some(rest) => {
                        left = rest;
                    },
                    None => {
                        return None;
                    },
                }
            }
            proof {
                assert(views.take(views.len() as int) =~= views);
            }
        },
        Json::Object(members) => {
            let ghost views = members_view(members@);
            for i in 0..members.len()
                invariant
                    json matches Json::Object(v) && v == members,
                    json@ == JsonView::Object(views),
                    views == members_view(members@),
                    left + 64 + yaml_members_size(views.take(i as int)) == room,
            {
                proof {
                    assert(views.take(i + 1).drop_last() =~= views.take(i as int));
                    assert(views.take(i + 1).last() == members@[i as int]@);
                    lemma_members_size_prefix(views, i + 1);
                }
                let behind_key = match take_text(members[i].key.as_str(), left) {
                    Some(rest) => rest,
                    None => {
                        return None;
                    },
                };
                match take_room(&members[i].value, behind_key) {
                    Some(rest) => {
                        left = rest;
                    },
                    None => {
                        return None;
                    },
                }
            }
            proof {
                assert(views.take(views.len() as int) =~= views);
            }
        },
        _ => {},
    }
    Some(left)
}

/// Whether a tree is small enough to be written as YAML.
pub fn is_writable_as_yaml(json: &Json) -> (r: bool)
    ensures
        r == fits_yaml(json@),
{
    match take_room(json, DOCUMENT_LIMIT - 1) {
        Some(_) => true,
        None => false,
    }
}

/// What a tree takes in YAML adds up from its parts: a fixed room for each value and each key, four
/// times the bytes of each text and each key, and what is inside. The tree is written if that is
/// below the limit, and only then.
pub proof fn law_room_adds_up(
    items: Seq<JsonView>,
    item: JsonView,
    members: Seq<MemberView>,
    member: MemberView,
    text: Seq<char>,
)
    ensures
        fits_yaml(item) <==> yaml_size(item) < 0x7fff_0000,
        yaml_size(JsonView::Text(text)) == 64 + 4 * encode_utf8(text).len(),
        yaml_size(JsonView::Array(Seq::empty())) == 64,
        yaml_size(JsonView::Array(items.push(item))) == yaml_size(JsonView::Array(items))
            + yaml_size(item),
        yaml_size(JsonView::Object(Seq::empty())) == 64,
        yaml_size(JsonView::Object(members.push(member))) == yaml_size(JsonView::Object(members))
            + 64 + 4 * encode_utf8(member.key).len() + yaml_size(member.value),
        !(item is Text) && !(item is Array) && !(item is Object) ==> yaml_size(item) == 64,
{
    assert(items.push(item).drop_last() =~= items);
    assert(members.push(member).drop_last() =~= members);
}

} // verus!
