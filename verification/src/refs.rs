//! The references that a document makes.

use vstd::prelude::*;

use crate::json::{
    find_value, group_json_views, items_view, key_index, lemma_key_index, lookup, members_view,
    Json, JsonView, MemberView,
};
use crate::pointer::{child, digits_value, pointer_target, unescaped};
use crate::text::{find_from, lemma_find_from};
use crate::text_set::TextSet;

verus! {

/// Somewhere in the tree an object has the text `r` under the key `$ref`.
pub open spec fn mentions(tree: JsonView, r: Seq<char>) -> bool
    decreases tree,
{
    match tree {
        JsonView::Object(members) => {
            ||| lookup(members, "$ref"@) == Some(JsonView::Text(r))
            ||| exists|i: int|
                0 <= i < members.len() && mentions((#[trigger] members[i]).value, r)
        },
        JsonView::Array(items) => exists|i: int|
            0 <= i < items.len() && mentions(#[trigger] items[i], r),
        _ => false,
    }
}

/// All references that a tree makes.
pub open spec fn refs_in(tree: JsonView) -> Set<Seq<char>> {
    Set::new(|r: Seq<char>| mentions(tree, r))
}

proof fn lemma_mentions_array(items: Seq<JsonView>, r: Seq<char>)
    ensures
        mentions(JsonView::Array(items), r) <==> exists|i: int|
            0 <= i < items.len() && mentions(#[trigger] items[i], r),
{
    if exists|i: int| 0 <= i < items.len() && mentions(#[trigger] items[i], r) {
        reveal_with_fuel(mentions, 2);
        let i = choose|i: int| 0 <= i < items.len() && mentions(#[trigger] items[i], r);
        assert(JsonView::Array(items)->Array_0[i] == items[i]);
    }
    if mentions(JsonView::Array(items), r) {
        assert(exists|i: int| 0 <= i < items.len() && mentions(#[trigger] items[i], r));
    }
}

/// Recursively walk a tree and collect all `$ref` strings. What the set held before stays, in its
/// place.
pub fn collect_refs(value: &Json, refs: &mut TextSet)
    requires
        old(refs).well_formed(),
    ensures
        final(refs).well_formed(),
        final(refs)@ == old(refs)@.union(refs_in(value@)),
        old(refs).order().is_prefix_of(final(refs).order()),
    decreases value,
{
    broadcast use group_json_views;

    let ghost start = refs@;
    let ghost order = refs.order();
    match value {
        Json::Object(members) => {
            let ghost views = members_view(members@);
            match find_value(members, "$ref") {
                Some(Json::Text(r)) => {
                    refs.insert(r.as_str());
                },
                _ => {},
            }
            proof {
                assert(refs@ =~= start.union(
                    Set::new(|r: Seq<char>| lookup(views, "$ref"@) == Some(JsonView::Text(r))),
                ));
            }
            for i in 0..members.len()
                invariant
                    value matches Json::Object(v) && v == members,
                    views == members_view(members@),
                    refs.well_formed(),
                    order.is_prefix_of(refs.order()),
                    forall|r: Seq<char>| #[trigger]
                        refs@.contains(r) <==> start.contains(r) || lookup(views, "$ref"@) == Some(
                            JsonView::Text(r),
                        ) || exists|j: int|
                            0 <= j < i && mentions((#[trigger] views[j]).value, r),
            {
                let ghost before = refs@;
                let ghost middle = refs.order();
                collect_refs(&members[i].value, refs);
                proof {
                    assert(order.is_prefix_of(refs.order())) by {
                        assert forall|k: int| 0 <= k < order.len() implies order[k]
                            == refs.order()[k] by {
                            assert(middle[k] == middle.take(order.len() as int)[k]);
                            assert(refs.order()[k] == refs.order().take(middle.len() as int)[k]);
                        }
                        assert(refs.order().take(order.len() as int) =~= order);
                    }
                    assert(views[i as int].value == members@[i as int].value@);
                    assert forall|r: Seq<char>| #[trigger] refs@.contains(r) <==> start.contains(r)
                        || lookup(views, "$ref"@) == Some(JsonView::Text(r)) || exists|j: int|
                        0 <= j < i + 1 && mentions((#[trigger] views[j]).value, r) by {
                        assert(refs@.contains(r) == (before.contains(r) || mentions(
                            views[i as int].value,
                            r,
                        )));
                    }
                }
            }
            proof {
                assert(refs@ =~= start.union(refs_in(value@)));
            }
        },
        Json::Array(items) => {
            let ghost views = items_view(items@);
            for i in 0..items.len()
                invariant
                    value matches Json::Array(v) && v == items,
                    views == items_view(items@),
                    refs.well_formed(),
                    order.is_prefix_of(refs.order()),
                    forall|r: Seq<char>| #[trigger]
                        refs@.contains(r) <==> start.contains(r) || exists|j: int|
                            0 <= j < i && mentions(#[trigger] views[j], r),
            {
                let ghost before = refs@;
                let ghost middle = refs.order();
                collect_refs(&items[i], refs);
                proof {
                    assert(order.is_prefix_of(refs.order())) by {
                        assert forall|k: int| 0 <= k < order.len() implies order[k]
                            == refs.order()[k] by {
                            assert(middle[k] == middle.take(order.len() as int)[k]);
                            assert(refs.order()[k] == refs.order().take(middle.len() as int)[k]);
                        }
                        assert(refs.order().take(order.len() as int) =~= order);
                    }
                    assert(views[i as int] == items@[i as int]@);
                    assert forall|r: Seq<char>| #[trigger] refs@.contains(r) <==> start.contains(r)
                        || exists|j: int| 0 <= j < i + 1 && mentions(#[trigger] views[j], r) by {
                        assert(refs@.contains(r) == (before.contains(r) || mentions(
                            views[i as int],
                            r,
                        )));
                    }
                }
            }
            proof {
                assert(value@ == JsonView::Array(views));
                assert forall|r: Seq<char>| #[trigger] refs@.contains(r) <==> start.union(
                    refs_in(value@),
                ).contains(r) by {
                    lemma_mentions_array(views, r);
                    assert(refs_in(value@).contains(r) == mentions(value@, r));
                }
                assert(refs@ =~= start.union(refs_in(value@)));
            }
        },
        _ => {
            proof {
                assert(refs@ =~= start.union(refs_in(value@)));
            }
        },
    }
}

/// The references of a tree are finitely many.
pub proof fn lemma_refs_finite(tree: JsonView)
    ensures
        refs_in(tree).finite(),
    decreases tree,
{
    match tree {
        JsonView::Object(members) => {
            lemma_member_refs_finite(tree, members.len());
            let own = match lookup(members, "$ref"@) {
                Some(JsonView::Text(r)) => set![r],
                _ => Set::<Seq<char>>::empty(),
            };
            assert(refs_in(tree) =~= own.union(member_refs(members, members.len())));
        },
        JsonView::Array(items) => {
            lemma_item_refs_finite(tree, items.len());
            assert forall|r: Seq<char>| refs_in(tree).contains(r) <==> item_refs(
                items,
                items.len(),
            ).contains(r) by {
                lemma_mentions_array(items, r);
            }
            assert(refs_in(tree) =~= item_refs(items, items.len()));
        },
        _ => {
            assert(refs_in(tree) =~= Set::empty());
        },
    }
}

/// The references in the values of the first `n` members.
spec fn member_refs(members: Seq<MemberView>, n: nat) -> Set<Seq<char>> {
    Set::new(
        |r: Seq<char>|
            exists|i: int| 0 <= i < n && mentions((#[trigger] members[i]).value, r),
    )
}

/// The references in the first `n` items.
spec fn item_refs(items: Seq<JsonView>, n: nat) -> Set<Seq<char>> {
    Set::new(|r: Seq<char>| exists|i: int| 0 <= i < n && mentions(#[trigger] items[i], r))
}

proof fn lemma_member_refs_finite(tree: JsonView, n: nat)
    requires
        tree is Object,
        n <= tree->Object_0.len(),
    ensures
        member_refs(tree->Object_0, n).finite(),
    decreases tree, n,
{
    let members = tree->Object_0;
    if n == 0 {
        assert(member_refs(members, 0) =~= Set::empty());
    } else {
        lemma_member_refs_finite(tree, (n - 1) as nat);
        assert(decreases_to!(tree => members[n - 1].value));
        lemma_refs_finite(members[n - 1].value);
        let front = member_refs(members, (n - 1) as nat);
        assert(member_refs(members, n) =~= front.union(refs_in(members[n - 1].value)));
    }
}

proof fn lemma_item_refs_finite(tree: JsonView, n: nat)
    requires
        tree is Array,
        n <= tree->Array_0.len(),
    ensures
        item_refs(tree->Array_0, n).finite(),
    decreases tree, n,
{
    let items = tree->Array_0;
    if n == 0 {
        assert(item_refs(items, 0) =~= Set::empty());
    } else {
        lemma_item_refs_finite(tree, (n - 1) as nat);
        assert(decreases_to!(tree => items[n - 1]));
        lemma_refs_finite(items[n - 1]);
        let front = item_refs(items, (n - 1) as nat);
        assert(item_refs(items, n) =~= front.union(refs_in(items[n - 1])));
    }
}

/// A tree makes every reference that one of its children makes.
pub proof fn lemma_child_mentions(tree: JsonView, token: Seq<char>, r: Seq<char>)
    requires
        child(tree, token) matches Some(node) && mentions(node, r),
    ensures
        mentions(tree, r),
{
    match tree {
        JsonView::Object(members) => {
            let i = key_index(members, token);
            lemma_key_index(members, token);
            reveal_with_fuel(mentions, 2);
            assert(mentions(members[i].value, r));
        },
        JsonView::Array(items) => {
            lemma_mentions_array(items, r);
            assert(mentions(items[digits_value(token) as int], r));
        },
        _ => {},
    }
}

/// A tree makes every reference that a node that it can address makes.
pub proof fn lemma_target_mentions(tree: JsonView, pointer: Seq<char>, r: Seq<char>)
    requires
        pointer_target(tree, pointer) matches Some(node) && mentions(node, r),
    ensures
        mentions(tree, r),
    decreases pointer.len(),
{
    if pointer.len() > 0 {
        let end = find_from(pointer, '/', 1);
        lemma_find_from(pointer, '/', 1);
        let token = unescaped(pointer.subrange(1, end));
        let node = child(tree, token)->Some_0;
        lemma_target_mentions(node, pointer.skip(end), r);
        lemma_child_mentions(tree, token, r);
    }
}

} // verus!
