//! The components of a document, and the references that name them.

use vstd::prelude::*;

use crate::json::{Json, JsonView};
use crate::pointer::{
    child, lemma_plain_token, lemma_pointer_step, pointer_target, resolved, unescape, unescaped,
};
use crate::refs::{lemma_child_mentions, lemma_target_mentions, mentions};
use crate::text::{begins_with, chars_of, find_char, find_from, lemma_find_from, same_text};
use crate::text_set::TextSet;

verus! {

/// An entry of a section of the components.
pub open spec fn component(spec: JsonView, section: Seq<char>, entry: Seq<char>) -> Option<
    JsonView,
> {
    match spec.get("components"@) {
        Some(sections) => match sections.get(section) {
            Some(entries) => entries.get(entry),
            None => None,
        },
        None => None,
    }
}

/// A component makes the reference.
pub open spec fn component_mentions(
    spec: JsonView,
    section: Seq<char>,
    entry: Seq<char>,
    r: Seq<char>,
) -> bool {
    component(spec, section, entry) matches Some(node) && mentions(node, r)
}

/// The reference is made of the tokens of a section and of an entry, and of the rest of a JSON
/// pointer behind them.
pub open spec fn is_entry_ref(
    r: Seq<char>,
    section: Seq<char>,
    entry: Seq<char>,
    rest: Seq<char>,
) -> bool {
    &&& r == "#/components/"@ + section + "/"@ + entry + rest
    &&& !section.contains('/')
    &&& !entry.contains('/')
    &&& rest.len() == 0 || rest[0] == '/'
}

/// The reference names an entry of a section of the components, or something inside it, as a JSON
/// pointer does: like `#/components/schemas/Foo`, with `~1` for a `/` and `~0` for a `~` in either
/// name.
pub open spec fn names_entry(r: Seq<char>, section: Seq<char>, entry: Seq<char>) -> bool {
    exists|s: Seq<char>, n: Seq<char>, rest: Seq<char>| #[trigger]
        is_entry_ref(r, s, n, rest) && unescaped(s) == section && unescaped(n) == entry
}

/// One of the references names the entry.
pub open spec fn is_named(refs: Set<Seq<char>>, section: Seq<char>, entry: Seq<char>) -> bool {
    exists|r: Seq<char>| refs.contains(r) && #[trigger] names_entry(r, section, entry)
}

/// The reference names the whole document, all components, or a whole section of them.
pub open spec fn names_whole_section(r: Seq<char>) -> bool {
    ||| r == "#"@
    ||| r == "#/components"@
    ||| exists|s: Seq<char>| !#[trigger] s.contains('/') && r == "#/components/"@ + s
}

/// The parts of a reference to an entry stand between its slashes.
proof fn lemma_entry_ref_parts(r: Seq<char>, s: Seq<char>, n: Seq<char>, rest: Seq<char>)
    requires
        is_entry_ref(r, s, n, rest),
    ensures
        ({
            let i = find_from(r, '/', 13);
            let j = find_from(r, '/', i + 1);
            &&& "#/components/"@.is_prefix_of(r)
            &&& 13 <= i < j <= r.len()
            &&& s == r.subrange(13, i)
            &&& n == r.subrange(i + 1, j)
            &&& rest == r.skip(j)
        }),
{
    reveal_strlit("#/components/");
    reveal_strlit("/");
    let i = find_from(r, '/', 13);
    lemma_find_from(r, '/', 13);
    let at = 13 + s.len();
    assert(r[at as int] == '/');
    if i < at {
        assert(r[i] == s[i - 13]);
    }
    assert(i == at);
    let j = find_from(r, '/', i + 1);
    lemma_find_from(r, '/', i + 1);
    let end = i + 1 + n.len();
    if j < end {
        assert(r[j] == n[j - i - 1]);
    }
    if rest.len() > 0 {
        assert(r[end as int] == rest[0]);
    }
    assert(j == end);
    assert("#/components/"@ =~= r.subrange(0, 13));
    assert(s =~= r.subrange(13, i));
    assert(n =~= r.subrange(i + 1, j));
    assert(rest =~= r.skip(j));
}

/// A reference names at most one entry.
pub proof fn lemma_names_one_entry(
    r: Seq<char>,
    section: Seq<char>,
    entry: Seq<char>,
    other_section: Seq<char>,
    other_entry: Seq<char>,
)
    requires
        names_entry(r, section, entry),
        names_entry(r, other_section, other_entry),
    ensures
        section == other_section,
        entry == other_entry,
{
    let (s, n, rest) = choose|s: Seq<char>, n: Seq<char>, rest: Seq<char>| #[trigger]
        is_entry_ref(r, s, n, rest) && unescaped(s) == section && unescaped(n) == entry;
    let (t, m, other_rest) = choose|t: Seq<char>, m: Seq<char>, other_rest: Seq<char>| #[trigger]
        is_entry_ref(r, t, m, other_rest) && unescaped(t) == other_section && unescaped(m)
            == other_entry;
    lemma_entry_ref_parts(r, s, n, rest);
    lemma_entry_ref_parts(r, t, m, other_rest);
}

/// What a reference to an entry resolves to, step by step.
pub proof fn lemma_entry_ref_target(
    spec: JsonView,
    r: Seq<char>,
    s: Seq<char>,
    n: Seq<char>,
    rest: Seq<char>,
)
    requires
        is_entry_ref(r, s, n, rest),
    ensures
        resolved(spec, r) == match child(spec, "components"@) {
            Some(sections) => match child(sections, unescaped(s)) {
                Some(entries) => match child(entries, unescaped(n)) {
                    Some(node) => pointer_target(node, rest),
                    None => None,
                },
                None => None,
            },
            None => None,
        },
{
    reveal_strlit("#/components/");
    reveal_strlit("components");
    reveal_strlit("/");
    let last = seq!['/'] + n + rest;
    let middle = seq!['/'] + s + last;
    let whole = seq!['/'] + "components"@ + middle;
    assert(r[0] == '#');
    assert(r.skip(1) =~= whole);
    lemma_plain_token("components"@, "components"@);
    lemma_pointer_step(spec, "components"@, middle);
    match child(spec, "components"@) {
        Some(sections) => {
            lemma_pointer_step(sections, s, last);
            match child(sections, unescaped(s)) {
                Some(entries) => {
                    lemma_pointer_step(entries, n, rest);
                },
                None => {},
            }
        },
        None => {},
    }
}

/// A reference into a component resolves to something inside it.
pub proof fn lemma_target_in_component(
    spec: JsonView,
    r: Seq<char>,
    section: Seq<char>,
    entry: Seq<char>,
    to: Seq<char>,
)
    requires
        names_entry(r, section, entry),
        component(spec, section, entry) is Some,
        resolved(spec, r) matches Some(node) && mentions(node, to),
    ensures
        mentions(component(spec, section, entry)->Some_0, to),
{
    let (s, n, rest) = choose|s: Seq<char>, n: Seq<char>, rest: Seq<char>| #[trigger]
        is_entry_ref(r, s, n, rest) && unescaped(s) == section && unescaped(n) == entry;
    lemma_entry_ref_target(spec, r, s, n, rest);
    lemma_target_mentions(component(spec, section, entry)->Some_0, rest, to);
}

/// A document makes every reference that one of its components makes.
pub proof fn lemma_component_mentions(
    spec: JsonView,
    section: Seq<char>,
    entry: Seq<char>,
    to: Seq<char>,
)
    requires
        component_mentions(spec, section, entry, to),
    ensures
        mentions(spec, to),
{
    let sections = spec.get("components"@)->Some_0;
    let entries = sections.get(section)->Some_0;
    lemma_child_mentions(entries, entry, to);
    lemma_child_mentions(sections, section, to);
    lemma_child_mentions(spec, "components"@, to);
}

/// The component under the given names.
pub fn find_component<'a>(spec: &'a Json, section: &str, entry: &str) -> (r: Option<&'a Json>)
    ensures
        match r {
            Some(node) => component(spec@, section@, entry@) == Some(node@),
            None => component(spec@, section@, entry@) is None,
        },
{
    match spec.get("components") {
        Some(sections) => match sections.get(section) {
            Some(entries) => entries.get(entry),
            None => None,
        },
        None => None,
    }
}

/// The names of the section and of the entry that a reference names, if it names an entry.
pub fn read_entry_ref(reference: &str) -> (r: Option<(String, String)>)
    ensures
        match r {
            Some((section, entry)) => forall|s: Seq<char>, n: Seq<char>| #[trigger]
                names_entry(reference@, s, n) <==> s == section@ && n == entry@,
            None => forall|s: Seq<char>, n: Seq<char>| !#[trigger] names_entry(reference@, s, n),
        },
{
    let ghost text = reference@;
    let chars = chars_of(reference);
    proof {
        reveal_strlit("#/components/");
        reveal_strlit("/");
        assert forall|s: Seq<char>, n: Seq<char>| #[trigger] names_entry(text, s, n) implies ({
            let i = find_from(text, '/', 13);
            &&& "#/components/"@.is_prefix_of(text)
            &&& 13 <= i < text.len()
        }) by {
            let (t, m, rest) = choose|t: Seq<char>, m: Seq<char>, rest: Seq<char>| #[trigger]
                is_entry_ref(text, t, m, rest) && unescaped(t) == s && unescaped(m) == n;
            lemma_entry_ref_parts(text, t, m, rest);
        }
    }
    if !begins_with(reference, "#/components/") {
        return None;
    }
    let i = find_char(&chars, '/', 13);
    if i == chars.len() {
        return None;
    }
    let j = find_char(&chars, '/', i + 1);
    let section = reference.substring_char(13, i);
    let entry = reference.substring_char(i + 1, j);
    proof {
        lemma_find_from(text, '/', 13);
        lemma_find_from(text, '/', i + 1);
        let rest = text.skip(j as int);
        assert(text =~= "#/components/"@ + section@ + "/"@ + entry@ + rest);
        assert(is_entry_ref(text, section@, entry@, rest));
        assert(names_entry(text, unescaped(section@), unescaped(entry@)));
        assert forall|s: Seq<char>, n: Seq<char>| #[trigger] names_entry(text, s, n) implies s
            == unescaped(section@) && n == unescaped(entry@) by {
            lemma_names_one_entry(text, s, n, unescaped(section@), unescaped(entry@));
        }
    }
    Some((unescape(section), unescape(entry)))
}

/// The names of the entries of a section that the references name.
pub fn named_entries(refs: &TextSet, section: &str) -> (r: TextSet)
    requires
        refs.well_formed(),
    ensures
        r.well_formed(),
        forall|entry: Seq<char>| #[trigger]
            r@.contains(entry) <==> is_named(refs@, section@, entry),
{
    let ghost order = refs.order();
    let mut r = TextSet::new();
    let n = refs.len();
    for i in 0..n
        invariant
            n == order.len(),
            order == refs.order(),
            r.well_formed(),
            forall|entry: Seq<char>| #[trigger]
                r@.contains(entry) <==> exists|j: int|
                    0 <= j < i && #[trigger] names_entry(order[j], section@, entry),
    {
        let ghost before = r@;
        let reference = refs.nth(i);
        let parts = read_entry_ref(reference);
        match &parts {
            Some((s, entry)) => {
                if same_text(s.as_str(), section) {
                    r.insert(entry.as_str());
                }
            },
            None => {},
        }
        proof {
            assert forall|entry: Seq<char>| #[trigger] r@.contains(entry) <==> exists|j: int|
                0 <= j < i + 1 && #[trigger] names_entry(order[j], section@, entry) by {
                assert(r@.contains(entry) == (before.contains(entry) || names_entry(
                    order[i as int],
                    section@,
                    entry,
                )));
            }
        }
    }
    proof {
        assert forall|entry: Seq<char>| #[trigger] r@.contains(entry) <==> is_named(
            refs@,
            section@,
            entry,
        ) by {
            if r@.contains(entry) {
                let j = choose|j: int|
                    0 <= j < n && #[trigger] names_entry(order[j], section@, entry);
                assert(order.to_set().contains(order[j]));
            }
            if is_named(refs@, section@, entry) {
                let q = choose|q: Seq<char>|
                    refs@.contains(q) && #[trigger] names_entry(q, section@, entry);
                assert(order.to_set().contains(q));
                let j = choose|j: int| 0 <= j < order.len() && order[j] == q;
                assert(names_entry(order[j], section@, entry));
            }
        }
    }
    r
}

} // verus!
