//! Changes to the members of an object.

use vstd::prelude::*;

use crate::json::{
    distinct_keys, key_index, lemma_key_index, lemma_key_index_is, lookup, members_view, JsonView,
    Member, MemberView,
};

verus! {

/// The members with the value under `key` replaced. The key must be there.
pub open spec fn with_value(
    members: Seq<MemberView>,
    key: Seq<char>,
    value: JsonView,
) -> Seq<MemberView> {
    members.update(key_index(members, key), MemberView { key, value })
}

/// Appending an element and then filtering is filtering and then appending.
pub proof fn lemma_filter_push<A>(s: Seq<A>, pred: spec_fn(A) -> bool, e: A)
    ensures
        s.push(e).filter(pred) == if pred(e) {
            s.filter(pred).push(e)
        } else {
            s.filter(pred)
        },
{
    reveal(Seq::filter);
    assert(s.push(e).drop_last() =~= s);
}

/// What a filter leaves was there before.
pub proof fn lemma_filter_from<A>(s: Seq<A>, pred: spec_fn(A) -> bool)
    ensures
        forall|i: int|
            0 <= i < s.filter(pred).len() ==> pred(#[trigger] s.filter(pred)[i]) && s.contains(
                s.filter(pred)[i],
            ),
    decreases s.len(),
{
    reveal(Seq::filter);
    if s.len() > 0 {
        let front = s.drop_last();
        lemma_filter_from(front, pred);
        assert forall|i: int| 0 <= i < s.filter(pred).len() implies pred(
            #[trigger] s.filter(pred)[i],
        ) && s.contains(s.filter(pred)[i]) by {
            if i < front.filter(pred).len() {
                assert(s.filter(pred)[i] == front.filter(pred)[i]);
                let j = choose|j: int| 0 <= j < front.len() && front[j] == front.filter(pred)[i];
                assert(s[j] == s.filter(pred)[i]);
            } else {
                assert(s.filter(pred)[i] == s[s.len() - 1]);
            }
        }
    }
}

/// What a filter accepts is still there after it.
pub proof fn lemma_filter_keeps<A>(s: Seq<A>, pred: spec_fn(A) -> bool, i: int)
    requires
        0 <= i < s.len(),
        pred(s[i]),
    ensures
        s.filter(pred).contains(s[i]),
    decreases s.len(),
{
    reveal(Seq::filter);
    let front = s.drop_last();
    if i < front.len() {
        assert(front[i] == s[i]);
        lemma_filter_keeps(front, pred, i);
        let j = choose|j: int| 0 <= j < front.filter(pred).len() && front.filter(pred)[j] == s[i];
        assert(s.filter(pred)[j] == s[i]);
    } else {
        assert(s.filter(pred)[s.filter(pred).len() - 1] == s[i]);
    }
}

/// A filter that accepts everything changes nothing.
pub proof fn lemma_filter_all<A>(s: Seq<A>, pred: spec_fn(A) -> bool)
    requires
        forall|i: int| 0 <= i < s.len() ==> pred(#[trigger] s[i]),
    ensures
        s.filter(pred) == s,
    decreases s.len(),
{
    reveal(Seq::filter);
    if s.len() > 0 {
        let front = s.drop_last();
        assert forall|i: int| 0 <= i < front.len() implies pred(#[trigger] front[i]) by {
            assert(front[i] == s[i]);
        }
        lemma_filter_all(front, pred);
        assert(pred(s[s.len() - 1]));
        assert(front.push(s.last()) =~= s);
    }
}

/// Members that are left after a filter still have distinct keys.
pub proof fn lemma_filter_distinct(members: Seq<MemberView>, pred: spec_fn(MemberView) -> bool)
    requires
        distinct_keys(members),
    ensures
        distinct_keys(members.filter(pred)),
    decreases members.len(),
{
    reveal(Seq::filter);
    if members.len() > 0 {
        let front = members.drop_last();
        let kept = members.filter(pred);
        assert forall|i: int, j: int| 0 <= i < j < front.len() implies (#[trigger] front[i]).key != (
        #[trigger] front[j]).key by {
            assert(members[i].key != members[j].key);
        }
        lemma_filter_distinct(front, pred);
        lemma_filter_from(front, pred);
        assert forall|i: int, j: int| 0 <= i < j < kept.len() implies (#[trigger] kept[i]).key != (
        #[trigger] kept[j]).key by {
            assert(kept[i] == front.filter(pred)[i]);
            if j == front.filter(pred).len() {
                let k = choose|k: int| 0 <= k < front.len() && front[k] == kept[i];
                assert(members[k].key != members[members.len() - 1].key);
            } else {
                assert(kept[j] == front.filter(pred)[j]);
            }
        }
    }
}

/// Where the keys are distinct, a member is found under its key.
pub proof fn lemma_lookup_member(members: Seq<MemberView>, at: int)
    requires
        distinct_keys(members),
        0 <= at < members.len(),
    ensures
        key_index(members, members[at].key) == at,
        lookup(members, members[at].key) == Some(members[at].value),
{
    lemma_key_index_is(members, members[at].key, at);
}

/// After a filter that goes by the key, a value is found if it was and its key is accepted.
pub proof fn lemma_lookup_filter(
    members: Seq<MemberView>,
    pred: spec_fn(MemberView) -> bool,
    key: Seq<char>,
    accepted: bool,
)
    requires
        distinct_keys(members),
        forall|m: MemberView| m.key == key ==> #[trigger] pred(m) == accepted,
    ensures
        lookup(members.filter(pred), key) == if accepted {
            lookup(members, key)
        } else {
            None
        },
{
    let kept = members.filter(pred);
    lemma_filter_distinct(members, pred);
    lemma_filter_from(members, pred);
    lemma_key_index(members, key);
    lemma_key_index(kept, key);
    let i = key_index(members, key);
    let k = key_index(kept, key);
    if i < members.len() && accepted {
        assert(pred(members[i]));
        lemma_filter_keeps(members, pred, i);
        let j = choose|j: int| 0 <= j < kept.len() && kept[j] == members[i];
        lemma_lookup_member(kept, j);
    } else if k < kept.len() {
        assert(pred(kept[k]));
        let j = choose|j: int| 0 <= j < members.len() && members[j] == kept[k];
        assert(members[j].key == key);
    }
}

/// Replacing a value changes what is found under its key, and nothing else.
pub proof fn lemma_lookup_with_value(
    members: Seq<MemberView>,
    key: Seq<char>,
    value: JsonView,
    other: Seq<char>,
)
    requires
        lookup(members, key) is Some,
    ensures
        with_value(members, key, value).len() == members.len(),
        lookup(with_value(members, key, value), other) == if other == key {
            Some(value)
        } else {
            lookup(members, other)
        },
        key_index(with_value(members, key, value), other) == key_index(members, other),
        distinct_keys(members) ==> distinct_keys(with_value(members, key, value)),
{
    let changed = with_value(members, key, value);
    let at = key_index(members, key);
    lemma_key_index(members, key);
    lemma_key_index(members, other);
    assert forall|i: int| 0 <= i < members.len() implies (#[trigger] changed[i]).key
        == members[i].key by {}
    let k = key_index(members, other);
    assert forall|i: int| 0 <= i < k implies (#[trigger] changed[i]).key != other by {
        assert(members[i].key != other);
    }
    lemma_key_index_is(changed, other, k);
    if distinct_keys(members) {
        assert forall|i: int, j: int| 0 <= i < j < changed.len() implies (
        #[trigger] changed[i]).key != (#[trigger] changed[j]).key by {
            assert(members[i].key != members[j].key);
        }
    }
}

/// Replacing a value by a well-formed one keeps an object well-formed.
pub proof fn lemma_with_value_well_formed(
    members: Seq<MemberView>,
    key: Seq<char>,
    value: JsonView,
)
    requires
        JsonView::Object(members).well_formed(),
        lookup(members, key) is Some,
        value.well_formed(),
    ensures
        JsonView::Object(with_value(members, key, value)).well_formed(),
{
    let changed = with_value(members, key, value);
    lemma_key_index(members, key);
    lemma_lookup_with_value(members, key, value, key);
    assert forall|i: int| 0 <= i < changed.len() implies (
    #[trigger] changed[i]).value.well_formed() by {
        assert(members[i].value.well_formed());
    }
}

/// Keep only the members that `keep` accepts, in their order.
pub(crate) fn retain_members<F: Fn(&Member) -> bool>(
    members: &mut Vec<Member>,
    keep: F,
    Ghost(pred): Ghost<spec_fn(MemberView) -> bool>,
)
    requires
        forall|m: &Member| #[trigger] call_requires(keep, (m,)),
        forall|m: &Member, b: bool| #[trigger] call_ensures(keep, (m,), b) ==> b == pred(m@),
    ensures
        members_view(final(members)@) == members_view(old(members)@).filter(pred),
{
    let ghost before = members_view(members@);
    let ghost mut done: int = 0;
    let mut i: usize = 0;
    proof {
        reveal(Seq::filter);
        assert(before.take(0).filter(pred) =~= members_view(members@).take(0));
        assert(before.skip(0) =~= members_view(members@).skip(0));
    }
    while i < members.len()
        invariant
            i <= members.len(),
            0 <= done <= before.len(),
            members.len() - i == before.len() - done,
            members_view(members@).take(i as int) == before.take(done).filter(pred),
            members_view(members@).skip(i as int) == before.skip(done),
            forall|m: &Member| #[trigger] call_requires(keep, (m,)),
            forall|m: &Member, b: bool| #[trigger] call_ensures(keep, (m,), b) ==> b == pred(m@),
        decreases members.len() - i,
    {
        let ghost now = members_view(members@);
        proof {
            assert(now.skip(i as int)[0] == now[i as int]);
            assert(before.skip(done)[0] == before[done]);
            assert(before.take(done + 1) =~= before.take(done).push(before[done]));
            lemma_filter_push(before.take(done), pred, before[done]);
        }
        if keep(&members[i]) {
            i += 1;
            proof {
                assert(now.take(i as int) =~= now.take(i - 1).push(now[i - 1]));
                assert(now.skip(i as int) =~= now.skip(i - 1).skip(1));
                assert(before.skip(done + 1) =~= before.skip(done).skip(1));
            }
        } else {
            let _ = members.remove(i);
            proof {
                let after = members_view(members@);
                assert(after.take(i as int) =~= now.take(i as int));
                assert(after.skip(i as int) =~= now.skip(i as int).skip(1));
                assert(before.skip(done + 1) =~= before.skip(done).skip(1));
            }
        }
        proof {
            done = done + 1;
        }
    }
    proof {
        assert(members_view(members@).take(i as int) =~= members_view(members@));
        assert(before.take(done) =~= before);
    }
}

} // verus!
