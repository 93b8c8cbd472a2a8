//! What a JSON pointer (RFC 6901) addresses.

use vstd::prelude::*;

use crate::json::{lookup, JsonView};
use crate::text::{chars_of, find_from, lemma_find_from};

verus! {

/// Each `~` that is followed by `mark` together with that mark becomes `c`.
pub open spec fn replaced(s: Seq<char>, mark: char, c: char) -> Seq<char>
    decreases s.len(),
{
    if s.len() < 2 {
        s
    } else if s[0] == '~' && s[1] == mark {
        seq![c] + replaced(s.skip(2), mark, c)
    } else {
        seq![s[0]] + replaced(s.skip(1), mark, c)
    }
}

/// A reference token without its escapes: `~1` stands for `/`, `~0` for `~`.
pub open spec fn unescaped(token: Seq<char>) -> Seq<char> {
    replaced(replaced(token, '1', '/'), '0', '~')
}

/// The number that a row of decimal digits stands for.
pub open spec fn digits_value(s: Seq<char>) -> nat
    decreases s.len(),
{
    if s.len() == 0 {
        0
    } else {
        digits_value(s.drop_last()) * 10 + (s.last() as u32 - '0' as u32) as nat
    }
}

/// The token is a decimal number without a sign and without needless zeros in front.
pub open spec fn is_array_index(token: Seq<char>) -> bool {
    &&& token.len() > 0
    &&& forall|i: int| 0 <= i < token.len() ==> '0' as u32 <= #[trigger] token[i] as u32 <= '9' as u32
    &&& token[0] == '0' ==> token.len() == 1
}

/// The child of a node that an unescaped token names.
pub open spec fn child(node: JsonView, token: Seq<char>) -> Option<JsonView> {
    match node {
        JsonView::Object(members) => lookup(members, token),
        JsonView::Array(items) => if is_array_index(token) && digits_value(token) < items.len() {
            Some(items[digits_value(token) as int])
        } else {
            None
        },
        _ => None,
    }
}

/// The node that a JSON pointer addresses: each token, with a `/` in front of it, leads from
/// a node to one of its children.
pub open spec fn pointer_target(root: JsonView, pointer: Seq<char>) -> Option<JsonView>
    decreases pointer.len(),
{
    if pointer.len() == 0 {
        Some(root)
    } else if pointer[0] != '/' {
        None
    } else {
        let end = find_from(pointer, '/', 1);
        proof {
            lemma_find_from(pointer, '/', 1);
        }
        match child(root, unescaped(pointer.subrange(1, end))) {
            Some(node) => pointer_target(node, pointer.skip(end)),
            None => None,
        }
    }
}

/// The node that a reference into its own document names: `#` and a JSON pointer.
pub open spec fn resolved(spec: JsonView, reference: Seq<char>) -> Option<JsonView> {
    if reference.len() > 0 && reference[0] == '#' {
        pointer_target(spec, reference.skip(1))
    } else {
        None
    }
}

/// A text without `~` holds no escapes.
proof fn lemma_replaced_without_tilde(s: Seq<char>, mark: char, c: char)
    requires
        !s.contains('~'),
    ensures
        replaced(s, mark, c) == s,
    decreases s.len(),
{
    if s.len() >= 2 {
        assert(s[0] != '~');
        assert forall|i: int| 0 <= i < s.skip(1).len() implies #[trigger] s.skip(1)[i] != '~' by {
            assert(s[i + 1] != '~');
        }
        lemma_replaced_without_tilde(s.skip(1), mark, c);
        assert(seq![s[0]] + s.skip(1) =~= s);
    }
}

/// A text with an escape shows what it stands for once it is replaced.
proof fn lemma_replaced_shows(s: Seq<char>, mark: char, c: char)
    ensures
        replaced(s, mark, c) == s || replaced(s, mark, c).contains(c),
    decreases s.len(),
{
    let r = replaced(s, mark, c);
    if s.len() >= 2 {
        if s[0] == '~' && s[1] == mark {
            assert(r[0] == c);
        } else {
            let rest = replaced(s.skip(1), mark, c);
            lemma_replaced_shows(s.skip(1), mark, c);
            if rest == s.skip(1) {
                assert(seq![s[0]] + s.skip(1) =~= s);
            } else {
                let i = choose|i: int| 0 <= i < rest.len() && rest[i] == c;
                assert(r[i + 1] == c);
            }
        }
    }
}

/// A character that no escape is made of stays where escapes are replaced.
proof fn lemma_replaced_keeps(s: Seq<char>, mark: char, c: char, d: char)
    requires
        s.contains(d),
        d != '~',
        d != mark,
    ensures
        replaced(s, mark, c).contains(d),
    decreases s.len(),
{
    let r = replaced(s, mark, c);
    if s.len() >= 2 {
        let i = choose|i: int| 0 <= i < s.len() && s[i] == d;
        if s[0] == '~' && s[1] == mark {
            assert(s.skip(2)[i - 2] == d);
            lemma_replaced_keeps(s.skip(2), mark, c, d);
            let rest = replaced(s.skip(2), mark, c);
            let k = choose|k: int| 0 <= k < rest.len() && rest[k] == d;
            assert(r[k + 1] == d);
        } else if i == 0 {
            assert(r[0] == d);
        } else {
            assert(s.skip(1)[i - 1] == d);
            lemma_replaced_keeps(s.skip(1), mark, c, d);
            let rest = replaced(s.skip(1), mark, c);
            let k = choose|k: int| 0 <= k < rest.len() && rest[k] == d;
            assert(r[k + 1] == d);
        }
    }
}

/// A name without `/` and `~` is written in a pointer as it stands, and in no other way.
pub proof fn lemma_plain_token(name: Seq<char>, token: Seq<char>)
    requires
        !name.contains('/'),
        !name.contains('~'),
    ensures
        unescaped(token) == name <==> token == name,
{
    lemma_replaced_without_tilde(name, '1', '/');
    lemma_replaced_without_tilde(name, '0', '~');
    if unescaped(token) == name {
        let half = replaced(token, '1', '/');
        lemma_replaced_shows(half, '0', '~');
        lemma_replaced_shows(token, '1', '/');
        if half.contains('/') {
            lemma_replaced_keeps(half, '0', '~', '/');
        }
    }
}

/// A token in front of a pointer leads to the child that it names.
pub proof fn lemma_pointer_step(root: JsonView, token: Seq<char>, rest: Seq<char>)
    requires
        !token.contains('/'),
        rest.len() == 0 || rest[0] == '/',
    ensures
        pointer_target(root, seq!['/'] + token + rest) == match child(root, unescaped(token)) {
            Some(node) => pointer_target(node, rest),
            None => None,
        },
{
    let pointer = seq!['/'] + token + rest;
    let end = find_from(pointer, '/', 1);
    lemma_find_from(pointer, '/', 1);
    if end < token.len() + 1 {
        assert(pointer[end] == token[end - 1]);
        assert(token.contains('/'));
    }
    if end > token.len() + 1 {
        assert(pointer[1 + token.len() as int] == rest[0]);
    }
    assert(pointer.subrange(1, end) =~= token);
    assert(pointer.skip(end) =~= rest);
}

/// Replace the escapes with one mark.
fn replace_escapes(s: &str, mark: char, by: &str) -> (r: String)
    requires
        by@.len() == 1,
    ensures
        r@ == replaced(s@, mark, by@[0]),
{
    let chars = chars_of(s);
    let ghost c = by@[0];
    let mut r = String::new();
    let mut i: usize = 0;
    proof {
        assert(s@.skip(0) =~= s@);
        assert(r@ + replaced(s@.skip(0), mark, c) =~= replaced(s@, mark, c));
    }
    while i < chars.len()
        invariant
            chars@ == s@,
            i <= chars.len(),
            by@ == seq![c],
            r@ + replaced(s@.skip(i as int), mark, c) == replaced(s@, mark, c),
        decreases chars.len() - i,
    {
        let ghost before = r@;
        let ghost left = s@.skip(i as int);
        if i + 1 < chars.len() && chars[i] == '~' && chars[i + 1] == mark {
            r.append(by);
            i += 2;
            proof {
                assert(left.skip(2) =~= s@.skip(i as int));
                assert(before + (seq![c] + replaced(left.skip(2), mark, c)) =~= r@ + replaced(
                    s@.skip(i as int),
                    mark,
                    c,
                ));
            }
        } else {
            r.append(s.substring_char(i, i + 1));
            proof {
                assert(s@.subrange(i as int, i + 1) =~= seq![s@[i as int]]);
                assert(left.skip(1) =~= s@.skip(i + 1));
                if left.len() < 2 {
                    assert(left =~= seq![s@[i as int]]);
                    assert(replaced(left.skip(1), mark, c) =~= Seq::empty());
                }
                assert(before + (seq![left[0]] + replaced(left.skip(1), mark, c)) =~= r@
                    + replaced(s@.skip(i + 1), mark, c));
                assert(replaced(left, mark, c) =~= seq![left[0]] + replaced(
                    left.skip(1),
                    mark,
                    c,
                ));
            }
            i += 1;
        }
    }
    proof {
        assert(s@.skip(i as int) =~= Seq::empty());
        assert(r@ + Seq::<char>::empty() =~= r@);
    }
    r
}

/// A reference token without its escapes.
pub fn unescape(token: &str) -> (r: String)
    ensures
        r@ == unescaped(token@),
{
    proof {
        reveal_strlit("/");
        reveal_strlit("~");
    }
    let half = replace_escapes(token, '1', "/");
    replace_escapes(half.as_str(), '0', "~")
}

} // verus!
