//! Where things stand in a document.

use vstd::prelude::*;

use crate::json::{lookup, JsonView};
use crate::pointer::{
    is_array_index, lemma_plain_token, lemma_pointer_step, replaced, resolved, unescaped,
};
use crate::refs::mentions;
use crate::text::decimal;
use crate::text_laws::law_numbers_are_written_in_decimal;

verus! {

/// The value under the second key in the object under the first.
pub open spec fn value_at2(tree: JsonView, a: Seq<char>, b: Seq<char>) -> Option<JsonView> {
    match tree.get(a) {
        Some(value) => value.get(b),
        None => None,
    }
}

/// The value under the third key in the object under the first two.
pub open spec fn value_at3(
    tree: JsonView,
    a: Seq<char>,
    b: Seq<char>,
    c: Seq<char>,
) -> Option<JsonView> {
    match value_at2(tree, a, b) {
        Some(value) => value.get(c),
        None => None,
    }
}

/// The node to which a row of positions leads, each of them in the array or object to which those
/// before it lead.
pub open spec fn node_at(tree: JsonView, way: Seq<int>) -> Option<JsonView>
    decreases way.len(),
{
    if way.len() == 0 {
        Some(tree)
    } else {
        match tree {
            JsonView::Object(members) => if 0 <= way[0] < members.len() {
                node_at(members[way[0]].value, way.drop_first())
            } else {
                None
            },
            JsonView::Array(items) => if 0 <= way[0] < items.len() {
                node_at(items[way[0]], way.drop_first())
            } else {
                None
            },
            _ => None,
        }
    }
}

/// Where the way leads to, there is an object with the text under the key `$ref`.
pub open spec fn is_ref_at(tree: JsonView, way: Seq<int>, r: Seq<char>) -> bool {
    node_at(tree, way) matches Some(node) && node.get("$ref"@) == Some(JsonView::Text(r))
}

/// A name as it stands in a JSON pointer: with `~0` for `~` and `~1` for `/`.
pub open spec fn escaped(name: Seq<char>) -> Seq<char>
    decreases name.len(),
{
    if name.len() == 0 {
        Seq::empty()
    } else if name[0] == '~' {
        seq!['~', '0'] + escaped(name.drop_first())
    } else if name[0] == '/' {
        seq!['~', '1'] + escaped(name.drop_first())
    } else {
        seq![name[0]] + escaped(name.drop_first())
    }
}

/// A tree makes the references that stand in it.
pub proof fn lemma_ref_is_mentioned(tree: JsonView, way: Seq<int>, r: Seq<char>)
    requires
        is_ref_at(tree, way, r),
    ensures
        mentions(tree, r),
    decreases way.len(),
{
    if way.len() > 0 {
        match tree {
            JsonView::Object(members) => {
                lemma_ref_is_mentioned(members[way[0]].value, way.drop_first(), r);
                reveal_with_fuel(mentions, 2);
                assert(mentions(members[way[0]].value, r));
            },
            JsonView::Array(items) => {
                lemma_ref_is_mentioned(items[way[0]], way.drop_first(), r);
                reveal_with_fuel(mentions, 2);
                assert(mentions(items[way[0]], r));
            },
            _ => {},
        }
    }
}

/// The references that a tree makes stand somewhere in it.
pub proof fn lemma_mentioned_is_ref(tree: JsonView, r: Seq<char>) -> (way: Seq<int>)
    requires
        mentions(tree, r),
    ensures
        is_ref_at(tree, way, r),
    decreases tree,
{
    match tree {
        JsonView::Object(members) => {
            if lookup(members, "$ref"@) == Some(JsonView::Text(r)) {
                assert(node_at(tree, Seq::<int>::empty()) == Some(tree));
                Seq::<int>::empty()
            } else {
                reveal_with_fuel(mentions, 2);
                let i = choose|i: int|
                    0 <= i < members.len() && mentions((#[trigger] members[i]).value, r);
                assert(decreases_to!(tree => members[i].value));
                let rest = lemma_mentioned_is_ref(members[i].value, r);
                let way = seq![i] + rest;
                assert(way.drop_first() =~= rest);
                way
            }
        },
        JsonView::Array(items) => {
            reveal_with_fuel(mentions, 2);
            let i = choose|i: int| 0 <= i < items.len() && mentions(#[trigger] items[i], r);
            assert(decreases_to!(tree => items[i]));
            let rest = lemma_mentioned_is_ref(items[i], r);
            let way = seq![i] + rest;
            assert(way.drop_first() =~= rest);
            way
        },
        _ => Seq::<int>::empty(),
    }
}

/// A name with only its `~` escaped.
spec fn half_escaped(name: Seq<char>) -> Seq<char>
    decreases name.len(),
{
    if name.len() == 0 {
        Seq::empty()
    } else if name[0] == '~' {
        seq!['~', '0'] + half_escaped(name.drop_first())
    } else {
        seq![name[0]] + half_escaped(name.drop_first())
    }
}

proof fn lemma_replace_slashes(name: Seq<char>)
    ensures
        replaced(escaped(name), '1', '/') == half_escaped(name),
        !escaped(name).contains('/'),
    decreases name.len(),
{
    let s = escaped(name);
    if name.len() > 0 {
        let rest = name.drop_first();
        lemma_replace_slashes(rest);
        let e = escaped(rest);
        if name[0] == '~' {
            assert(s.skip(1) =~= seq!['0'] + e);
            assert(s.skip(1).skip(1) =~= e);
            reveal_with_fuel(replaced, 3);
            if e.len() == 0 {
                assert(replaced(s.skip(1), '1', '/') =~= seq!['0'] + replaced(e, '1', '/'));
            }
            assert(replaced(s, '1', '/') =~= half_escaped(name));
        } else if name[0] == '/' {
            assert(s.skip(2) =~= e);
            assert(replaced(s, '1', '/') =~= half_escaped(name));
        } else {
            assert(s.skip(1) =~= e);
            if e.len() == 0 {
                assert(replaced(s, '1', '/') =~= seq![name[0]] + replaced(e, '1', '/'));
            }
            assert(replaced(s, '1', '/') =~= half_escaped(name));
        }
        assert forall|i: int| 0 <= i < s.len() implies #[trigger] s[i] != '/' by {
            let n = s.len() - e.len();
            if i >= n {
                assert(s[i] == e[i - n]);
            }
        }
    }
}

proof fn lemma_replace_tildes(name: Seq<char>)
    ensures
        replaced(half_escaped(name), '0', '~') == name,
    decreases name.len(),
{
    let s = half_escaped(name);
    if name.len() > 0 {
        let rest = name.drop_first();
        lemma_replace_tildes(rest);
        let e = half_escaped(rest);
        if name[0] == '~' {
            assert(s.skip(2) =~= e);
        } else {
            assert(s.skip(1) =~= e);
            if e.len() == 0 {
                assert(replaced(s, '0', '~') =~= seq![name[0]] + replaced(e, '0', '~'));
            }
        }
        assert(replaced(s, '0', '~') =~= seq![name[0]] + rest);
        assert(seq![name[0]] + rest =~= name);
    }
}

/// A name that was escaped comes back when the escapes are taken out, and stands between slashes as
/// one token.
pub proof fn law_escapes_come_out_again(name: Seq<char>)
    ensures
        unescaped(escaped(name)) == name,
        !escaped(name).contains('/'),
{
    lemma_replace_slashes(name);
    lemma_replace_tildes(name);
}

/// A local reference is `#` and a row of steps. Without a step it finds the whole document. A step
/// into an object is a slash and the escaped name of a member, one into an array a slash and the
/// position of an item; the rest of the reference goes on from there. Where there is no such member
/// or item, and in a value that has none, it finds nothing; nor does a text without `#` in front.
pub proof fn law_references_lead_step_by_step(
    tree: JsonView,
    name: Seq<char>,
    position: nat,
    rest: Seq<char>,
    other: Seq<char>,
)
    requires
        rest.len() == 0 || rest[0] == '/',
        other.len() == 0 || other[0] != '#',
    ensures
        resolved(tree, "#"@) == Some(tree),
        resolved(tree, other) is None,
        tree is Object ==> resolved(tree, "#/"@ + escaped(name) + rest) == match tree.get(name) {
            Some(node) => resolved(node, "#"@ + rest),
            None => None,
        },
        tree is Array ==> resolved(tree, "#/"@ + decimal(position) + rest) == if position
            < tree->Array_0.len() {
            resolved(tree->Array_0[position as int], "#"@ + rest)
        } else {
            None
        },
        !(tree is Object) && !(tree is Array) ==> resolved(tree, "#/"@ + escaped(name) + rest)
            is None,
{
    reveal_strlit("#");
    reveal_strlit("#/");
    let number = decimal(position);
    law_escapes_come_out_again(name);
    law_numbers_are_written_in_decimal(position);
    assert("#"@.skip(1) =~= Seq::empty());
    assert(("#"@ + rest).skip(1) =~= rest);
    assert(("#/"@ + escaped(name) + rest).skip(1) =~= seq!['/'] + escaped(name) + rest);
    assert(("#/"@ + number + rest).skip(1) =~= seq!['/'] + number + rest);
    lemma_pointer_step(tree, escaped(name), rest);
    assert(!number.contains('/') && !number.contains('~')) by {
        if number.contains('/') {
            let i = choose|i: int| 0 <= i < number.len() && number[i] == '/';
            assert('0' as u32 <= number[i] as u32);
        }
        if number.contains('~') {
            let i = choose|i: int| 0 <= i < number.len() && number[i] == '~';
            assert(number[i] as u32 <= '9' as u32);
        }
    }
    lemma_plain_token(number, number);
    lemma_pointer_step(tree, number, rest);
    assert(is_array_index(number));
}

} // verus!
