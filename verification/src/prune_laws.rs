//! What pruning leaves and what it takes, said of the members of a document.

use vstd::prelude::*;

use crate::component::{
    component, component_mentions, is_entry_ref, is_named, lemma_entry_ref_target,
    lemma_names_one_entry, lemma_target_in_component, names_entry,
};
use crate::edit::lemma_lookup_member;
use crate::extract_laws::lemma_filter_order;
use crate::filter_laws::keeps_order;
use crate::json::{key_index, lemma_key_index, JsonView, MemberView};
use crate::places::{
    escaped, is_ref_at, law_escapes_come_out_again, lemma_mentioned_is_ref, lemma_ref_is_mentioned,
    value_at2, value_at3,
};
use crate::pointer::{resolved, unescaped};
use crate::prune::{
    is_empty_section, kept_entries, law_prune_keeps_what_is_reached,
    law_prune_leaves_no_dangling_reference, leads_to, lemma_pruned_components, lemma_section_kept,
    pruned, pruned_section, pruned_sections, reachable, reached, seeded,
};
use crate::refs::mentions;

verus! {

/// The reference to an entry of the components, with `rest` leading further into it.
pub open spec fn entry_ref(section: Seq<char>, entry: Seq<char>, rest: Seq<char>) -> Seq<char> {
    "#/components/"@ + escaped(section) + "/"@ + escaped(entry) + rest
}

proof fn lemma_entry_ref_names(section: Seq<char>, entry: Seq<char>, rest: Seq<char>)
    requires
        rest.len() == 0 || rest[0] == '/',
    ensures
        names_entry(entry_ref(section, entry, rest), section, entry),
{
    law_escapes_come_out_again(section);
    law_escapes_come_out_again(entry);
    assert(is_entry_ref(
        entry_ref(section, entry, rest),
        escaped(section),
        escaped(entry),
        rest,
    ));
}

/// Whatever member of a document other than `components` a reference to an entry of the components,
/// or into it, stands in, and however deep: after pruning the document has what it had there.
pub proof fn law_prune_keeps_what_the_document_refers_to(
    spec: JsonView,
    i: int,
    way: Seq<int>,
    section: Seq<char>,
    entry: Seq<char>,
    rest: Seq<char>,
)
    requires
        spec.well_formed(),
        spec is Object,
        0 <= i < spec->Object_0.len(),
        spec->Object_0[i].key != "components"@,
        rest.len() == 0 || rest[0] == '/',
        is_ref_at(spec->Object_0[i].value, way, entry_ref(section, entry, rest)),
    ensures
        value_at3(pruned(spec), "components"@, section, entry) == value_at3(spec, "components"@, section, entry),
{
    let r = entry_ref(section, entry, rest);
    let members = spec->Object_0;
    lemma_entry_ref_names(section, entry, rest);
    lemma_ref_is_mentioned(members[i].value, way, r);
    assert(seeded(spec, r));
    assert(reached(spec, r, 0));
    assert(reachable(spec).contains(r));
    law_prune_keeps_what_is_reached(spec, section, entry);
}

/// Wherever in an entry of the components that is left a reference to an entry, or into it, stands:
/// the document has there what it had before pruning.
pub proof fn law_prune_keeps_what_components_refer_to(
    spec: JsonView,
    from_section: Seq<char>,
    from_entry: Seq<char>,
    way: Seq<int>,
    section: Seq<char>,
    entry: Seq<char>,
    rest: Seq<char>,
)
    requires
        spec.well_formed(),
        rest.len() == 0 || rest[0] == '/',
        value_at3(pruned(spec), "components"@, from_section, from_entry) matches Some(node)
            && is_ref_at(node, way, entry_ref(section, entry, rest)),
    ensures
        value_at3(pruned(spec), "components"@, section, entry) == value_at3(spec, "components"@, section, entry),
{
    let r = entry_ref(section, entry, rest);
    lemma_entry_ref_names(section, entry, rest);
    lemma_ref_is_mentioned(component(pruned(spec), from_section, from_entry)->Some_0, way, r);
    law_prune_leaves_no_dangling_reference(spec, r, section, entry, from_section, from_entry);
}

/// The reference leads out of the document, or to an entry of the components that `live` accepts.
pub open spec fn goes_to_live(
    r: Seq<char>,
    live: spec_fn(Seq<char>, Seq<char>) -> bool,
) -> bool {
    ||| r.len() == 0
    ||| r[0] != '#'
    ||| exists|section: Seq<char>, entry: Seq<char>, rest: Seq<char>|
        {
            &&& r == #[trigger] entry_ref(section, entry, rest)
            &&& rest.len() == 0 || rest[0] == '/'
            &&& live(section, entry)
        }
}

/// If the parts outside the components, and the entries that `live` accepts, refer to such entries
/// only, then pruning leaves no other entries.
pub proof fn law_prune_takes_what_nothing_refers_to(
    spec: JsonView,
    live: spec_fn(Seq<char>, Seq<char>) -> bool,
    section: Seq<char>,
    entry: Seq<char>,
)
    requires
        spec.well_formed(),
        spec is Object,
        forall|i: int, way: Seq<int>, r: Seq<char>|
            0 <= i < spec->Object_0.len() && spec->Object_0[i].key != "components"@
                && #[trigger] is_ref_at(spec->Object_0[i].value, way, r) ==> goes_to_live(r, live),
        forall|s: Seq<char>, n: Seq<char>, way: Seq<int>, r: Seq<char>|
            live(s, n) && value_at3(spec, "components"@, s, n) is Some
                && #[trigger] is_ref_at(
                value_at3(spec, "components"@, s, n)->Some_0,
                way,
                r,
            ) ==> goes_to_live(r, live),
        forall|s: Seq<char>| #[trigger]
            value_at2(spec, "components"@, s) matches Some(value) ==> value is Object,
        value_at3(pruned(spec), "components"@, section, entry) is Some,
    ensures
        live(section, entry),
{
    law_prune_keeps_what_is_reached(spec, section, entry);
    let r = choose|r: Seq<char>|
        reachable(spec).contains(r) && #[trigger] names_entry(r, section, entry);
    let n = choose|n: nat| reached(spec, r, n);
    lemma_reached_is_live(spec, live, r, n);
    lemma_names_live(r, live, section, entry);
}

/// An entry that such a reference names is live.
proof fn lemma_names_live(
    r: Seq<char>,
    live: spec_fn(Seq<char>, Seq<char>) -> bool,
    section: Seq<char>,
    entry: Seq<char>,
)
    requires
        goes_to_live(r, live),
        names_entry(r, section, entry),
    ensures
        live(section, entry),
{
    reveal_strlit("#/components/");
    let (s, n, rest) = choose|s: Seq<char>, n: Seq<char>, rest: Seq<char>| #[trigger]
        is_entry_ref(r, s, n, rest) && unescaped(s) == section && unescaped(n) == entry;
    assert(r[0] == '#');
    let (a, b, tail) = choose|a: Seq<char>, b: Seq<char>, tail: Seq<char>|
        {
            &&& r == #[trigger] entry_ref(a, b, tail)
            &&& tail.len() == 0 || tail[0] == '/'
            &&& live(a, b)
        };
    lemma_entry_ref_names(a, b, tail);
    lemma_names_one_entry(r, section, entry, a, b);
}

proof fn lemma_reached_is_live(
    spec: JsonView,
    live: spec_fn(Seq<char>, Seq<char>) -> bool,
    r: Seq<char>,
    n: nat,
)
    requires
        spec is Object,
        forall|i: int, way: Seq<int>, q: Seq<char>|
            0 <= i < spec->Object_0.len() && spec->Object_0[i].key != "components"@
                && #[trigger] is_ref_at(spec->Object_0[i].value, way, q) ==> goes_to_live(q, live),
        forall|s: Seq<char>, e: Seq<char>, way: Seq<int>, q: Seq<char>|
            live(s, e) && value_at3(spec, "components"@, s, e) is Some
                && #[trigger] is_ref_at(
                value_at3(spec, "components"@, s, e)->Some_0,
                way,
                q,
            ) ==> goes_to_live(q, live),
        forall|s: Seq<char>| #[trigger]
            value_at2(spec, "components"@, s) matches Some(value) ==> value is Object,
        spec.get("components"@) matches Some(components) && components is Object,
        reached(spec, r, n),
    ensures
        goes_to_live(r, live),
    decreases n,
{
    if n == 0 {
        let members = spec->Object_0;
        let i = choose|i: int|
            0 <= i < members.len() && (#[trigger] members[i]).key != "components"@ && mentions(
                members[i].value,
                r,
            );
        let way = lemma_mentioned_is_ref(members[i].value, r);
        assert(is_ref_at(spec->Object_0[i].value, way, r));
    } else {
        let q = choose|q: Seq<char>| #[trigger]
            leads_to(spec, q, r) && reached(spec, q, (n - 1) as nat);
        lemma_reached_is_live(spec, live, q, (n - 1) as nat);
        lemma_live_leads_to_live(spec, live, q, r);
    }
}

proof fn lemma_live_leads_to_live(
    spec: JsonView,
    live: spec_fn(Seq<char>, Seq<char>) -> bool,
    q: Seq<char>,
    r: Seq<char>,
)
    requires
        forall|s: Seq<char>, e: Seq<char>, way: Seq<int>, t: Seq<char>|
            live(s, e) && value_at3(spec, "components"@, s, e) is Some
                && #[trigger] is_ref_at(
                value_at3(spec, "components"@, s, e)->Some_0,
                way,
                t,
            ) ==> goes_to_live(t, live),
        forall|s: Seq<char>| #[trigger]
            value_at2(spec, "components"@, s) matches Some(value) ==> value is Object,
        spec.get("components"@) matches Some(components) && components is Object,
        goes_to_live(q, live),
        leads_to(spec, q, r),
    ensures
        goes_to_live(r, live),
{
    reveal_strlit("#/components/");
    if q.len() == 0 || q[0] != '#' {
        let (a, b) = choose|a: Seq<char>, b: Seq<char>| #[trigger]
            names_entry(q, a, b) && component_mentions(spec, a, b, r);
        let (s, e, rest) = choose|s: Seq<char>, e: Seq<char>, rest: Seq<char>| #[trigger]
            is_entry_ref(q, s, e, rest) && unescaped(s) == a && unescaped(e) == b;
        assert(q[0] == '#');
        assert(false);
    }
    let (a, b, tail) = choose|a: Seq<char>, b: Seq<char>, tail: Seq<char>|
        {
            &&& q == #[trigger] entry_ref(a, b, tail)
            &&& tail.len() == 0 || tail[0] == '/'
            &&& live(a, b)
        };
    lemma_entry_ref_names(a, b, tail);
    law_escapes_come_out_again(a);
    law_escapes_come_out_again(b);
    if resolved(spec, q) matches Some(node) && mentions(node, r) {
        assert(is_entry_ref(q, escaped(a), escaped(b), tail));
        lemma_entry_ref_target(spec, q, escaped(a), escaped(b), tail);
        assert(value_at2(spec, "components"@, a) matches Some(value) ==> value is Object);
        lemma_target_in_component(spec, q, a, b, r);
    } else {
        let (s, e) = choose|s: Seq<char>, e: Seq<char>| #[trigger]
            names_entry(q, s, e) && component_mentions(spec, s, e, r);
        lemma_names_one_entry(q, s, e, a, b);
    }
    let node = component(spec, a, b)->Some_0;
    let way = lemma_mentioned_is_ref(node, r);
    assert(is_ref_at(value_at3(spec, "components"@, a, b)->Some_0, way, r));
}

/// No section is left empty; what is not an object stays in its place; where there is no object of
/// components the document stays as it is; and the members of the document keep their order.
pub proof fn law_prune_keeps_the_rest(spec: JsonView, section: Seq<char>)
    requires
        spec.well_formed(),
    ensures
        value_at2(pruned(spec), "components"@, section) matches Some(JsonView::Object(entries))
            ==> entries.len() > 0,
        value_at2(spec, "components"@, section) matches Some(value) && !(value is Object)
            ==> value_at2(pruned(spec), "components"@, section) == value_at2(spec, "components"@, section),
        !(spec.get("components"@) matches Some(value) && value is Object) ==> pruned(
            spec,
        ) == spec,
        spec matches JsonView::Object(members) ==> (pruned(spec) matches JsonView::Object(left)
            && left.len() == members.len() && forall|i: int|
            0 <= i < members.len() ==> (#[trigger] left[i]).key == members[i].key && (
            members[i].key != "components"@ ==> left[i] == members[i])),
{
    match spec.get("components"@) {
        Some(JsonView::Object(sections)) => {
            lemma_pruned_components(spec);
            lemma_section_kept(sections, reachable(spec), section);
            lemma_key_index(spec->Object_0, "components"@);
        },
        _ => {},
    }
}

/// What is left of a section stands in the order of the section.
pub proof fn law_prune_keeps_the_order(spec: JsonView, section: Seq<char>)
    requires
        spec.well_formed(),
        value_at2(pruned(spec), "components"@, section) matches Some(value) && value is Object,
    ensures
        value_at2(spec, "components"@, section) matches Some(JsonView::Object(entries))
            && keeps_order(
            value_at2(pruned(spec), "components"@, section)->Some_0->Object_0,
            entries,
        ),
{
    match spec.get("components"@) {
        Some(JsonView::Object(sections)) => {
            lemma_pruned_components(spec);
            let keep = reachable(spec);
            lemma_section_kept(sections, keep, section);
            lemma_key_index(sections, section);
            let value = sections[key_index(sections, section)].value;
            assert(value.well_formed());
            let entries = value->Object_0;
            let pred = |e: MemberView| is_named(keep, section, e.key);
            let left = kept_entries(section, entries, keep);
            assert forall|i: int, j: int| 0 <= i < j < left.len() implies key_index(
                entries,
                (#[trigger] left[i]).key,
            ) < key_index(entries, (#[trigger] left[j]).key) by {
                let (x, y) = lemma_filter_order(entries, pred, i, j);
                lemma_lookup_member(entries, x);
                lemma_lookup_member(entries, y);
            }
        },
        _ => {},
    }
}

/// The components stay an object, and the sections that are left in it stand in their order.
pub proof fn law_prune_keeps_the_order_of_sections(spec: JsonView)
    requires
        spec.well_formed(),
        spec.get("components"@) matches Some(components) && components is Object,
    ensures
        pruned(spec).get("components"@) matches Some(JsonView::Object(left)) && keeps_order(
            left,
            spec.get("components"@)->Some_0->Object_0,
        ),
{
    lemma_pruned_components(spec);
    let keep = reachable(spec);
    let sections = spec.get("components"@)->Some_0->Object_0;
    let mapped = sections.map_values(|s: MemberView| pruned_section(s, keep));
    let filled = |s: MemberView| !is_empty_section(s);
    let left = pruned_sections(sections, keep);
    assert forall|i: int, j: int| 0 <= i < j < left.len() implies key_index(
        sections,
        (#[trigger] left[i]).key,
    ) < key_index(sections, (#[trigger] left[j]).key) by {
        let (x, y) = lemma_filter_order(mapped, filled, i, j);
        assert(mapped[x].key == sections[x].key && mapped[y].key == sections[y].key);
        lemma_lookup_member(sections, x);
        lemma_lookup_member(sections, y);
    }
}

} // verus!
