//! Component pruning: remove unreferenced entries from the components of a document.

use vstd::prelude::*;

use crate::codec::{resolve_in, to_value, value_contents};
use crate::component::{
    component, component_mentions, find_component, is_entry_ref, is_named, lemma_component_mentions,
    lemma_entry_ref_target, lemma_target_in_component, named_entries, names_entry,
    names_whole_section, read_entry_ref,
};
use crate::edit::{
    lemma_filter_all, lemma_filter_distinct, lemma_filter_from, lemma_filter_keeps,
    lemma_lookup_filter, lemma_lookup_member, lemma_lookup_with_value, lemma_with_value_well_formed,
    retain_members, with_value,
};
use crate::json::{
    find_key, group_json_views, key_index, lemma_key_index, lookup, members_view, Json, JsonView,
    Member, MemberView,
};
use crate::pointer::{lemma_plain_token, resolved, unescaped};
use crate::refs::{collect_refs, lemma_refs_finite, lemma_target_mentions, mentions, refs_in};
use crate::text::{find_from, lemma_find_from, same_text};
use crate::text_set::TextSet;

verus! {

/// A part of the document other than `components` makes the reference `r`.
pub open spec fn seeded(spec: JsonView, r: Seq<char>) -> bool {
    match spec {
        JsonView::Object(members) => exists|i: int|
            0 <= i < members.len() && (#[trigger] members[i]).key != "components"@ && mentions(
                members[i].value,
                r,
            ),
        _ => false,
    }
}

/// The component that the reference `from` names, or names something inside of, or the node that
/// it resolves to, makes the reference `to`.
pub open spec fn leads_to(spec: JsonView, from: Seq<char>, to: Seq<char>) -> bool {
    ||| resolved(spec, from) matches Some(node) && mentions(node, to)
    ||| exists|section: Seq<char>, entry: Seq<char>| #[trigger]
        names_entry(from, section, entry) && component_mentions(spec, section, entry, to)
}

/// The reference `r` is reached from the parts other than `components` by following `n`
/// references.
pub open spec fn reached(spec: JsonView, r: Seq<char>, n: nat) -> bool
    decreases n,
{
    if n == 0 {
        seeded(spec, r)
    } else {
        exists|q: Seq<char>| #[trigger] leads_to(spec, q, r) && reached(spec, q, (n - 1) as nat)
    }
}

/// The references that are reached from the parts other than `components`.
pub open spec fn reachable(spec: JsonView) -> Set<Seq<char>> {
    Set::new(|r: Seq<char>| exists|n: nat| reached(spec, r, n))
}

proof fn lemma_reachable_step(spec: JsonView, from: Seq<char>, to: Seq<char>)
    requires
        reachable(spec).contains(from),
        leads_to(spec, from, to),
    ensures
        reachable(spec).contains(to),
{
    let n = choose|n: nat| reached(spec, from, n);
    assert(reached(spec, from, ((n + 1) - 1) as nat));
    assert(reached(spec, to, n + 1));
}

proof fn lemma_reachable_seed(spec: JsonView, r: Seq<char>)
    requires
        seeded(spec, r),
    ensures
        reachable(spec).contains(r),
{
    assert(reached(spec, r, 0));
}

/// A set that holds what is seeded and all that its references lead to holds all that is
/// reachable.
proof fn lemma_closed_holds(spec: JsonView, closed_set: Set<Seq<char>>, r: Seq<char>, n: nat)
    requires
        forall|s: Seq<char>| #[trigger] seeded(spec, s) ==> closed_set.contains(s),
        forall|q: Seq<char>, s: Seq<char>|
            closed_set.contains(q) && #[trigger] leads_to(spec, q, s) ==> closed_set.contains(s),
        reached(spec, r, n),
    ensures
        closed_set.contains(r),
    decreases n,
{
    if n > 0 {
        let q = choose|q: Seq<char>| #[trigger]
            leads_to(spec, q, r) && reached(spec, q, (n - 1) as nat);
        lemma_closed_holds(spec, closed_set, q, (n - 1) as nat);
    }
}

/// What is reachable is mentioned in the document.
proof fn lemma_reachable_mentioned(spec: JsonView, r: Seq<char>)
    requires
        reachable(spec).contains(r),
    ensures
        mentions(spec, r),
{
    let n = choose|n: nat| reached(spec, r, n);
    if n == 0 {
        let members = spec->Object_0;
        let i = choose|i: int|
            0 <= i < members.len() && (#[trigger] members[i]).key != "components"@ && mentions(
                members[i].value,
                r,
            );
        reveal_with_fuel(mentions, 2);
        assert(mentions(members[i].value, r));
    } else {
        let q = choose|q: Seq<char>| #[trigger]
            leads_to(spec, q, r) && reached(spec, q, (n - 1) as nat);
        if resolved(spec, q) matches Some(node) && mentions(node, r) {
            lemma_target_mentions(spec, q.skip(1), r);
        } else {
            let (section, entry) = choose|section: Seq<char>, entry: Seq<char>| #[trigger]
                names_entry(q, section, entry) && component_mentions(spec, section, entry, r);
            lemma_component_mentions(spec, section, entry, r);
        }
    }
}

/// Resolve a local JSON pointer ref like `#/components/schemas/Foo` to the corresponding node of
/// the document.
pub fn resolve_local_ref(spec: &Json, reference: &str) -> (r: Option<Json>)
    requires
        spec@.well_formed(),
    ensures
        match r {
            Some(node) => resolved(spec@, reference@) == Some(node@) && node@.well_formed(),
            None => resolved(spec@, reference@) is None,
        },
{
    resolve_in(&to_value(spec), reference)
}

/// The node whose references follow when a reference is reached.
fn follow_ref(spec: &Json, value: &serde_json::Value, reference: &str) -> (r: Option<Json>)
    requires
        value_contents(*value) == spec@,
    ensures
        forall|to: Seq<char>| #[trigger]
            leads_to(spec@, reference@, to) <==> (r matches Some(node) && mentions(
                node@,
                to,
            )),
{
    match read_entry_ref(reference) {
        Some((section, entry)) => match find_component(spec, section.as_str(), entry.as_str()) {
            Some(node) => {
                proof {
                    assert(names_entry(reference@, section@, entry@));
                    assert forall|to: Seq<char>| #[trigger]
                        leads_to(spec@, reference@, to) <==> mentions(node@, to) by {
                        if resolved(spec@, reference@) matches Some(target) && mentions(
                            target,
                            to,
                        ) {
                            lemma_target_in_component(spec@, reference@, section@, entry@, to);
                        }
                    }
                }
                Some(node.duplicate())
            },
            None => resolve_in(value, reference),
        },
        None => resolve_in(value, reference),
    }
}

/// Compute the full set of reachable component refs starting from the non-component parts of the
/// document (paths, info, security, etc.), then transitively following refs within reached
/// components.
pub fn reachable_component_refs(spec: &Json) -> (r: TextSet)
    requires
        spec@.well_formed(),
    ensures
        r.well_formed(),
        r@ == reachable(spec@),
{
    broadcast use group_json_views;

    let ghost tree = spec@;
    let mut refs = TextSet::new();
    match spec {
        Json::Object(members) => {
            let ghost views = members_view(members@);
            for i in 0..members.len()
                invariant
                    views == members_view(members@),
                    refs.well_formed(),
                    forall|r: Seq<char>| #[trigger]
                        refs@.contains(r) <==> exists|j: int|
                            0 <= j < i && (#[trigger] views[j]).key != "components"@ && mentions(
                                views[j].value,
                                r,
                            ),
            {
                let ghost before = refs@;
                if !same_text(members[i].key.as_str(), "components") {
                    collect_refs(&members[i].value, &mut refs);
                }
                proof {
                    assert(views[i as int] == members@[i as int]@);
                    assert forall|r: Seq<char>| #[trigger] refs@.contains(r) <==> exists|j: int|
                        0 <= j < i + 1 && (#[trigger] views[j]).key != "components"@ && mentions(
                            views[j].value,
                            r,
                        ) by {
                        assert(refs@.contains(r) == (before.contains(r) || (
                        views[i as int].key != "components"@ && mentions(
                            views[i as int].value,
                            r,
                        ))));
                    }
                }
            }
        },
        _ => {},
    }
    proof {
        assert forall|r: Seq<char>| #[trigger] refs@.contains(r) <==> seeded(tree, r) by {}
        assert forall|r: Seq<char>| #[trigger] refs@.contains(r) implies reachable(tree).contains(
            r,
        ) by {
            lemma_reachable_seed(tree, r);
        }
        lemma_refs_finite(tree);
    }
    let value = to_value(spec);
    let mut next: usize = 0;
    while next < refs.len()
        invariant
            tree == spec@,
            tree.well_formed(),
            value_contents(value) == tree,
            refs.well_formed(),
            next <= refs.order().len(),
            refs_in(tree).finite(),
            forall|r: Seq<char>| #[trigger] seeded(tree, r) ==> refs@.contains(r),
            forall|r: Seq<char>| #[trigger] refs@.contains(r) ==> reachable(tree).contains(r),
            forall|j: int, r: Seq<char>|
                0 <= j < next && #[trigger] leads_to(tree, refs.order()[j], r) ==> refs@.contains(
                    r,
                ),
        decreases refs_in(tree).len() - next,
    {
        let ghost before = refs@;
        let ghost order = refs.order();
        proof {
            assert forall|r: Seq<char>| #[trigger] before.contains(r) implies refs_in(
                tree,
            ).contains(r) by {
                lemma_reachable_mentioned(tree, r);
            }
            order.unique_seq_to_set();
            vstd::set_lib::lemma_len_subset(before, refs_in(tree));
            assert(order.to_set().contains(order[next as int]));
        }
        let found = follow_ref(spec, &value, refs.nth(next));
        match &found {
            Some(node) => {
                collect_refs(node, &mut refs);
            },
            None => {},
        }
        proof {
            let current = order[next as int];
            assert(refs.order().take(order.len() as int) =~= order);
            assert forall|r: Seq<char>| #[trigger] refs@.contains(r) <==> before.contains(r)
                || leads_to(tree, current, r) by {
                match found {
                    Some(node) => {
                        assert(refs_in(node@).contains(r) == mentions(node@, r));
                    },
                    None => {},
                }
            }
            assert forall|r: Seq<char>| #[trigger] refs@.contains(r) implies reachable(
                tree,
            ).contains(r) by {
                if !before.contains(r) {
                    lemma_reachable_step(tree, current, r);
                }
            }
            assert forall|j: int, r: Seq<char>|
                0 <= j < next + 1 && #[trigger] leads_to(
                    tree,
                    refs.order()[j],
                    r,
                ) implies refs@.contains(r) by {
                assert(refs.order()[j] == refs.order().take(order.len() as int)[j]);
                if j < next {
                    assert(leads_to(tree, order[j], r));
                }
            }
        }
        next += 1;
    }
    proof {
        assert forall|q: Seq<char>, s: Seq<char>|
            refs@.contains(q) && #[trigger] leads_to(tree, q, s) implies refs@.contains(s) by {
            assert(refs.order().to_set().contains(q));
            let j = choose|j: int| 0 <= j < refs.order().len() && refs.order()[j] == q;
            assert(leads_to(tree, refs.order()[j], s));
        }
        assert forall|r: Seq<char>| #[trigger] reachable(tree).contains(r) implies refs@.contains(
            r,
        ) by {
            let n = choose|n: nat| reached(tree, r, n);
            lemma_closed_holds(tree, refs@, r, n);
        }
        assert(refs@ =~= reachable(tree));
    }
    refs
}

/// The entries of a section that one of the references in `keep` names.
pub open spec fn kept_entries(
    section: Seq<char>,
    entries: Seq<MemberView>,
    keep: Set<Seq<char>>,
) -> Seq<MemberView> {
    entries.filter(|e: MemberView| is_named(keep, section, e.key))
}

/// A section with the entries that are kept. What is not an object is no section, and stays.
pub open spec fn pruned_section(section: MemberView, keep: Set<Seq<char>>) -> MemberView {
    match section.value {
        JsonView::Object(entries) => MemberView {
            key: section.key,
            value: JsonView::Object(kept_entries(section.key, entries, keep)),
        },
        _ => section,
    }
}

/// The member is an object without members.
pub open spec fn is_empty_section(section: MemberView) -> bool {
    section.value matches JsonView::Object(entries) && entries.len() == 0
}

/// The sections with the entries that are kept, without the sections that are then empty.
pub open spec fn pruned_sections(sections: Seq<MemberView>, keep: Set<Seq<char>>) -> Seq<
    MemberView,
> {
    sections.map_values(|s: MemberView| pruned_section(s, keep)).filter(
        |s: MemberView| !is_empty_section(s),
    )
}

/// The document without the components that nothing reaches.
pub open spec fn pruned(spec: JsonView) -> JsonView {
    match spec.get("components"@) {
        Some(JsonView::Object(sections)) => JsonView::Object(
            with_value(
                spec->Object_0,
                "components"@,
                JsonView::Object(pruned_sections(sections, reachable(spec))),
            ),
        ),
        _ => spec,
    }
}

/// Remove the entries of a section that are not kept.
fn prune_section(section: &mut Member, keep: &TextSet)
    requires
        keep.well_formed(),
    ensures
        final(section)@ == pruned_section(old(section)@, keep@),
{
    broadcast use group_json_views;

    let names = named_entries(keep, section.key.as_str());
    let ghost key = section.key@;
    let ghost pred = |e: MemberView| is_named(keep@, key, e.key);
    match &mut section.value {
        Json::Object(entries) => {
            let named = |e: &Member| -> (b: bool)
                ensures
                    b == names@.contains(e.key@),
            {
                names.contains(e.key.as_str())
            };
            retain_members(entries, named, Ghost(pred));
        },
        _ => {},
    }
}

/// Remove the entries that are not kept, and the sections that are then empty.
fn prune_sections(sections: &mut Vec<Member>, keep: &TextSet)
    requires
        keep.well_formed(),
    ensures
        members_view(final(sections)@) == pruned_sections(members_view(old(sections)@), keep@),
{
    broadcast use group_json_views;

    let ghost before = members_view(sections@);
    let n = sections.len();
    for i in 0..n
        invariant
            n == before.len(),
            sections.len() == n,
            keep.well_formed(),
            forall|j: int|
                0 <= j < i ==> (#[trigger] sections@[j])@ == pruned_section(before[j], keep@),
            forall|j: int| i <= j < n ==> (#[trigger] sections@[j])@ == before[j],
    {
        prune_section(&mut sections[i], keep);
    }
    proof {
        assert(members_view(sections@) =~= before.map_values(
            |s: MemberView| pruned_section(s, keep@),
        ));
    }
    let filled = |s: &Member| -> (b: bool)
        ensures
            b == !is_empty_section(s@),
    {
        match &s.value {
            Json::Object(entries) => entries.len() > 0,
            _ => true,
        }
    };
    retain_members(sections, filled, Ghost(|s: MemberView| !is_empty_section(s)));
}

/// Remove unreferenced entries from every sub-section of `components`.
pub fn prune_unused_components(spec: &mut Json)
    requires
        old(spec)@.well_formed(),
    ensures
        final(spec)@ == pruned(old(spec)@),
        final(spec)@.well_formed(),
{
    broadcast use group_json_views;

    let ghost tree = spec@;
    let keep = reachable_component_refs(spec);
    proof {
        lemma_pruned_well_formed(tree);
    }
    match spec {
        Json::Object(members) => {
            let at = find_key(members, "components");
            if at < members.len() {
                let ghost views = members_view(members@);
                match &mut members[at].value {
                    Json::Object(sections) => {
                        prune_sections(sections, &keep);
                    },
                    _ => {},
                }
                proof {
                    lemma_key_index(views, "components"@);
                    assert(tree == JsonView::Object(views));
                    assert(tree.get("components"@) == Some(views[at as int].value));
                    assert(members_view(members@) =~= pruned(tree)->Object_0);
                }
            }
        },
        _ => {},
    }
}

proof fn lemma_pruned_sections_well_formed(sections: Seq<MemberView>, keep: Set<Seq<char>>)
    requires
        JsonView::Object(sections).well_formed(),
    ensures
        JsonView::Object(pruned_sections(sections, keep)).well_formed(),
{
    let mapped = sections.map_values(|s: MemberView| pruned_section(s, keep));
    assert forall|i: int, j: int| 0 <= i < j < mapped.len() implies (#[trigger] mapped[i]).key != (
    #[trigger] mapped[j]).key by {
        assert(sections[i].key != sections[j].key);
    }
    lemma_filter_distinct(mapped, |s: MemberView| !is_empty_section(s));
    lemma_filter_from(mapped, |s: MemberView| !is_empty_section(s));
    let kept = pruned_sections(sections, keep);
    assert forall|i: int| 0 <= i < kept.len() implies (#[trigger] kept[i]).value.well_formed() by {
        let j = choose|j: int| 0 <= j < mapped.len() && mapped[j] == kept[i];
        assert(sections[j].value.well_formed());
        match sections[j].value {
            JsonView::Object(entries) => {
                let pred = |e: MemberView| is_named(keep, sections[j].key, e.key);
                lemma_filter_distinct(entries, pred);
                lemma_filter_from(entries, pred);
                let left = entries.filter(pred);
                assert(kept[i].value == JsonView::Object(left));
                assert forall|k: int| 0 <= k < left.len() implies (
                #[trigger] left[k]).value.well_formed() by {
                    let l = choose|l: int| 0 <= l < entries.len() && entries[l] == left[k];
                    assert(entries[l].value.well_formed());
                }
            },
            _ => {},
        }
    }
}

proof fn lemma_pruned_well_formed(spec: JsonView)
    requires
        spec.well_formed(),
    ensures
        pruned(spec).well_formed(),
{
    match spec.get("components"@) {
        Some(JsonView::Object(sections)) => {
            let members = spec->Object_0;
            lemma_key_index(members, "components"@);
            let at = key_index(members, "components"@);
            assert(members[at].value.well_formed());
            lemma_pruned_sections_well_formed(sections, reachable(spec));
            lemma_with_value_well_formed(
                members,
                "components"@,
                JsonView::Object(pruned_sections(sections, reachable(spec))),
            );
        },
        _ => {},
    }
}

/// Pruning leaves everything outside the components as it is.
pub proof fn law_prune_keeps_other_parts(spec: JsonView, key: Seq<char>)
    requires
        key != "components"@,
    ensures
        pruned(spec).get(key) == spec.get(key),
{
    match spec.get("components"@) {
        Some(JsonView::Object(sections)) => {
            lemma_lookup_with_value(
                spec->Object_0,
                "components"@,
                JsonView::Object(pruned_sections(sections, reachable(spec))),
                key,
            );
        },
        _ => {},
    }
}

/// A component stays, as it is, if a reference that is reached names it or something inside it;
/// otherwise it goes.
pub proof fn law_prune_keeps_what_is_reached(
    spec: JsonView,
    section: Seq<char>,
    entry: Seq<char>,
)
    requires
        spec.well_formed(),
    ensures
        component(pruned(spec), section, entry) == if is_named(reachable(spec), section, entry) {
            component(spec, section, entry)
        } else {
            None
        },
{
    let keep = reachable(spec);
    match spec.get("components"@) {
        Some(JsonView::Object(sections)) => {
            lemma_pruned_components(spec);
            lemma_section_kept(sections, keep, section);
            match lookup(sections, section) {
                Some(JsonView::Object(entries)) => {
                    let pred = |e: MemberView| is_named(keep, section, e.key);
                    lemma_key_index(sections, section);
                    assert(sections[key_index(sections, section)].value.well_formed());
                    lemma_lookup_filter(entries, pred, entry, is_named(keep, section, entry));
                },
                _ => {},
            }
        },
        _ => {},
    }
}

/// The components of a pruned document.
pub proof fn lemma_pruned_components(spec: JsonView)
    requires
        spec.well_formed(),
        spec.get("components"@) matches Some(components) && components is Object,
    ensures
        pruned(spec).get("components"@) == Some(
            JsonView::Object(
                pruned_sections(spec.get("components"@)->Some_0->Object_0, reachable(spec)),
            ),
        ),
        spec.get("components"@)->Some_0.well_formed(),
{
    let members = spec->Object_0;
    let sections = spec.get("components"@)->Some_0->Object_0;
    lemma_lookup_with_value(
        members,
        "components"@,
        JsonView::Object(pruned_sections(sections, reachable(spec))),
        "components"@,
    );
    lemma_key_index(members, "components"@);
    assert(members[key_index(members, "components"@)].value.well_formed());
}

/// What is left of a section.
pub proof fn lemma_section_kept(sections: Seq<MemberView>, keep: Set<Seq<char>>, section: Seq<char>)
    requires
        JsonView::Object(sections).well_formed(),
    ensures
        lookup(pruned_sections(sections, keep), section) == match lookup(sections, section) {
            Some(JsonView::Object(entries)) => if kept_entries(section, entries, keep).len() == 0 {
                None
            } else {
                Some(JsonView::Object(kept_entries(section, entries, keep)))
            },
            other => other,
        },
{
    let mapped = sections.map_values(|s: MemberView| pruned_section(s, keep));
    let filled = |s: MemberView| !is_empty_section(s);
    let left = pruned_sections(sections, keep);
    assert forall|i: int, j: int| 0 <= i < j < mapped.len() implies (#[trigger] mapped[i]).key != (
    #[trigger] mapped[j]).key by {
        assert(sections[i].key != sections[j].key);
    }
    lemma_filter_distinct(mapped, filled);
    lemma_filter_from(mapped, filled);
    lemma_key_index(sections, section);
    lemma_key_index(left, section);
    let i = key_index(sections, section);
    if i < sections.len() {
        assert(mapped[i] == pruned_section(sections[i], keep));
        if filled(mapped[i]) {
            lemma_filter_keeps(mapped, filled, i);
            let k = choose|k: int| 0 <= k < left.len() && left[k] == mapped[i];
            lemma_lookup_member(left, k);
        } else {
            let k = key_index(left, section);
            if k < left.len() {
                let j = choose|j: int| 0 <= j < mapped.len() && mapped[j] == left[k];
                assert(mapped[j].key == mapped[i].key);
                assert(j == i);
            }
        }
    } else {
        let k = key_index(left, section);
        if k < left.len() {
            let j = choose|j: int| 0 <= j < mapped.len() && mapped[j] == left[k];
            assert(sections[j].key == section);
        }
    }
}

/// A reached reference that names an entry, or something inside it, resolves to the same after
/// pruning.
proof fn lemma_entry_ref_still_resolves(
    spec: JsonView,
    r: Seq<char>,
    section: Seq<char>,
    entry: Seq<char>,
)
    requires
        spec.well_formed(),
        reachable(spec).contains(r),
        names_entry(r, section, entry),
    ensures
        resolved(pruned(spec), r) == resolved(spec, r),
{
    let (s, n, rest) = choose|s: Seq<char>, n: Seq<char>, rest: Seq<char>| #[trigger]
        is_entry_ref(r, s, n, rest) && unescaped(s) == section && unescaped(n) == entry;
    lemma_entry_ref_target(spec, r, s, n, rest);
    lemma_entry_ref_target(pruned(spec), r, s, n, rest);
    match spec.get("components"@) {
        Some(JsonView::Object(sections)) => {
            lemma_pruned_components(spec);
            lemma_section_kept(sections, reachable(spec), section);
            law_prune_keeps_what_is_reached(spec, section, entry);
        },
        _ => {},
    }
}

/// A reference to a component, or to something inside it, that is made outside the components or
/// by a component that stays, finds the same after pruning.
pub proof fn law_prune_leaves_no_dangling_reference(
    spec: JsonView,
    r: Seq<char>,
    section: Seq<char>,
    entry: Seq<char>,
    from_section: Seq<char>,
    from_entry: Seq<char>,
)
    requires
        spec.well_formed(),
        names_entry(r, section, entry),
        seeded(pruned(spec), r) || component_mentions(
            pruned(spec),
            from_section,
            from_entry,
            r,
        ),
    ensures
        component(pruned(spec), section, entry) == component(spec, section, entry),
        resolved(pruned(spec), r) == resolved(spec, r),
{
    law_prune_keeps_what_is_reached(spec, section, entry);
    law_prune_keeps_what_is_reached(spec, from_section, from_entry);
    if seeded(pruned(spec), r) {
        lemma_pruned_seeds(spec, r);
        lemma_reachable_seed(spec, r);
    } else {
        let from = choose|from: Seq<char>|
            reachable(spec).contains(from) && #[trigger] names_entry(
                from,
                from_section,
                from_entry,
            );
        lemma_reachable_step(spec, from, r);
    }
    lemma_entry_ref_still_resolves(spec, r, section, entry);
}

/// A reached reference that does not name the whole document, all components or a whole section
/// of them finds the same after pruning.
pub proof fn law_reached_references_find_the_same(spec: JsonView, r: Seq<char>)
    requires
        spec.well_formed(),
        reachable(spec).contains(r),
        !names_whole_section(r),
    ensures
        resolved(pruned(spec), r) == resolved(spec, r),
{
    if r.len() > 0 && r[0] == '#' && spec.get("components"@) is Some {
        let pointer = r.skip(1);
        reveal_strlit("#");
        reveal_strlit("components");
        reveal_strlit("#/components");
        reveal_strlit("#/components/");
        reveal_strlit("/");
        if pointer.len() == 0 {
            assert(r =~= "#"@);
        } else if pointer[0] == '/' {
            let end = find_from(pointer, '/', 1);
            lemma_find_from(pointer, '/', 1);
            let token = pointer.subrange(1, end);
            lemma_plain_token("components"@, token);
            if token == "components"@ {
                let tail = pointer.skip(end);
                assert(r =~= "#/"@ + token + tail) by {
                    reveal_strlit("#/");
                }
                if tail.len() == 0 {
                    assert(r =~= "#/components"@) by {
                        reveal_strlit("#/");
                    }
                } else {
                    let middle = find_from(tail, '/', 1);
                    lemma_find_from(tail, '/', 1);
                    let s = tail.subrange(1, middle);
                    assert(tail[0] == pointer[end]);
                    assert(!s.contains('/'));
                    if middle == tail.len() {
                        assert(r =~= "#/components/"@ + s) by {
                            reveal_strlit("#/");
                        }
                    } else {
                        let last = find_from(tail, '/', middle + 1);
                        lemma_find_from(tail, '/', middle + 1);
                        let n = tail.subrange(middle + 1, last);
                        let rest = tail.skip(last);
                        assert(!n.contains('/'));
                        assert(r =~= "#/components/"@ + s + "/"@ + n + rest) by {
                            reveal_strlit("#/");
                        }
                        assert(is_entry_ref(r, s, n, rest));
                        lemma_entry_ref_still_resolves(spec, r, unescaped(s), unescaped(n));
                    }
                }
            } else {
                law_prune_keeps_other_parts(spec, unescaped(token));
            }
        }
    }
}

/// Pruning changes nothing in what the parts outside the components refer to.
proof fn lemma_pruned_seeds(spec: JsonView, r: Seq<char>)
    ensures
        seeded(pruned(spec), r) == seeded(spec, r),
{
    match spec.get("components"@) {
        Some(JsonView::Object(sections)) => {
            let members = spec->Object_0;
            let changed = pruned(spec)->Object_0;
            lemma_key_index(members, "components"@);
            let at = key_index(members, "components"@);
            assert forall|i: int| 0 <= i < members.len() implies (#[trigger] changed[i]).key
                == members[i].key by {}
            assert forall|i: int|
                0 <= i < members.len() && (
                #[trigger] members[i]).key != "components"@ implies changed[i] == members[i] by {}
            if seeded(spec, r) {
                let i = choose|i: int|
                    0 <= i < members.len() && (#[trigger] members[i]).key != "components"@
                        && mentions(members[i].value, r);
                assert(changed[i] == members[i]);
            }
            if seeded(pruned(spec), r) {
                let i = choose|i: int|
                    0 <= i < changed.len() && (#[trigger] changed[i]).key != "components"@
                        && mentions(changed[i].value, r);
                assert(members[i].key != "components"@);
            }
        },
        _ => {},
    }
}

/// Pruning once more changes nothing exactly if every component that is left is still reached. That
/// is so where every reached reference finds after pruning what it found before, and so where none
/// names the whole document, all components or a whole section of them.
pub proof fn law_prune_twice_is_prune_once(spec: JsonView)
    requires
        spec.well_formed(),
    ensures
        pruned(pruned(spec)) == pruned(spec) <==> forall|section: Seq<char>, entry: Seq<char>| #[trigger]
            component(pruned(spec), section, entry) is Some ==> is_named(
                reachable(pruned(spec)),
                section,
                entry,
            ),
        (forall|r: Seq<char>| #[trigger]
            reachable(spec).contains(r) ==> resolved(pruned(spec), r) == resolved(spec, r))
            ==> pruned(pruned(spec)) == pruned(spec),
        (forall|r: Seq<char>| #[trigger] reachable(spec).contains(r) ==> !names_whole_section(r))
            ==> pruned(pruned(spec)) == pruned(spec),
{
    let once = pruned(spec);
    lemma_pruned_well_formed(spec);
    if pruned(once) == once {
        assert forall|section: Seq<char>, entry: Seq<char>| #[trigger]
            component(once, section, entry) is Some implies is_named(
            reachable(once),
            section,
            entry,
        ) by {
            law_prune_keeps_what_is_reached(once, section, entry);
        }
    }
    if forall|section: Seq<char>, entry: Seq<char>| #[trigger]
        component(once, section, entry) is Some ==> is_named(reachable(once), section, entry) {
        lemma_prune_again(spec);
    }
    if forall|r: Seq<char>| #[trigger]
        reachable(spec).contains(r) ==> !names_whole_section(r) {
        assert forall|r: Seq<char>| #[trigger] reachable(spec).contains(r) implies resolved(once, r)
            == resolved(spec, r) by {
            law_reached_references_find_the_same(spec, r);
        }
    }
    if forall|r: Seq<char>| #[trigger]
        reachable(spec).contains(r) ==> resolved(once, r) == resolved(spec, r) {
        assert forall|section: Seq<char>, entry: Seq<char>| #[trigger]
            component(once, section, entry) is Some implies is_named(
            reachable(once),
            section,
            entry,
        ) by {
            law_prune_keeps_what_is_reached(spec, section, entry);
            let r = choose|r: Seq<char>|
                reachable(spec).contains(r) && #[trigger] names_entry(r, section, entry);
            let n = choose|n: nat| reached(spec, r, n);
            lemma_reached_after_pruning(spec, r, n);
        }
        lemma_prune_again(spec);
    }
}

/// Where every component that is left is still reached, pruning once more changes nothing.
proof fn lemma_prune_again(spec: JsonView)
    requires
        spec.well_formed(),
        forall|section: Seq<char>, entry: Seq<char>| #[trigger]
            component(pruned(spec), section, entry) is Some ==> is_named(
                reachable(pruned(spec)),
                section,
                entry,
            ),
    ensures
        pruned(pruned(spec)) == pruned(spec),
{
    let once = pruned(spec);
    match spec.get("components"@) {
        Some(JsonView::Object(sections)) => {
            let members = spec->Object_0;
            let keep = reachable(spec);
            let left = pruned_sections(sections, keep);
            lemma_lookup_with_value(
                members,
                "components"@,
                JsonView::Object(left),
                "components"@,
            );
            lemma_key_index(members, "components"@);
            assert(members[key_index(members, "components"@)].value.well_formed());
            lemma_pruned_sections_well_formed(sections, keep);
            assert(once.get("components"@) == Some(JsonView::Object(left)));
            let mapped = sections.map_values(|s: MemberView| pruned_section(s, keep));
            let filled = |s: MemberView| !is_empty_section(s);
            lemma_filter_from(mapped, filled);
            let again = left.map_values(|s: MemberView| pruned_section(s, reachable(once)));
            assert forall|k: int| 0 <= k < left.len() implies #[trigger] again[k] == left[k] by {
                match left[k].value {
                    JsonView::Object(entries) => {
                        let wider = |e: MemberView|
                            is_named(reachable(once), left[k].key, e.key);
                        assert(left[k].value.well_formed());
                        assert forall|m: int| 0 <= m < entries.len() implies wider(
                            #[trigger] entries[m],
                        ) by {
                            lemma_lookup_member(left, k);
                            lemma_lookup_member(entries, m);
                            assert(component(once, left[k].key, entries[m].key) is Some);
                        }
                        lemma_filter_all(entries, wider);
                    },
                    _ => {},
                }
            }
            assert(again =~= left);
            lemma_filter_all(left, filled);
            assert(pruned_sections(left, reachable(once)) == left);
            assert(with_value(once->Object_0, "components"@, JsonView::Object(left))
                =~= once->Object_0);
        },
        _ => {},
    }
}

proof fn lemma_reached_after_pruning(spec: JsonView, r: Seq<char>, n: nat)
    requires
        spec.well_formed(),
        forall|q: Seq<char>| #[trigger]
            reachable(spec).contains(q) ==> resolved(pruned(spec), q) == resolved(spec, q),
        reached(spec, r, n),
    ensures
        reachable(pruned(spec)).contains(r),
    decreases n,
{
    if n == 0 {
        lemma_pruned_seeds(spec, r);
        lemma_reachable_seed(pruned(spec), r);
    } else {
        let q = choose|q: Seq<char>| #[trigger]
            leads_to(spec, q, r) && reached(spec, q, (n - 1) as nat);
        lemma_reached_after_pruning(spec, q, (n - 1) as nat);
        assert(reachable(spec).contains(q));
        if !(resolved(spec, q) matches Some(node) && mentions(node, r)) {
            let (section, entry) = choose|section: Seq<char>, entry: Seq<char>| #[trigger]
                names_entry(q, section, entry) && component_mentions(spec, section, entry, r);
            law_prune_keeps_what_is_reached(spec, section, entry);
            assert(names_entry(q, section, entry));
        }
        assert(leads_to(pruned(spec), q, r));
        lemma_reachable_step(pruned(spec), q, r);
    }
}

} // verus!
