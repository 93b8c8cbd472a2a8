//! The document with only the operations that are selected.

use vstd::hash_set::StringHashSet;
use vstd::prelude::*;

use crate::edit::{
    lemma_filter_distinct, lemma_filter_from, lemma_with_value_well_formed, retain_members,
    with_value,
};
use crate::json::{
    find_key, group_json_views, key_index, lemma_key_index, members_view, Json, JsonView, Member,
    MemberView,
};
use crate::model::{all_endpoints, groups_view, Endpoint, EndpointView, GroupView, PathGroup};
use crate::prune::{prune_unused_components, pruned};
use crate::text::same_text;

verus! {

/// An endpoint of this path has no operation selected.
pub open spec fn dropped(endpoints: Seq<EndpointView>, path: Seq<char>) -> bool {
    exists|i: int|
        0 <= i < endpoints.len() && (#[trigger] endpoints[i]).path == path
            && endpoints[i].none_selected()
}

/// Some operations of the endpoint are selected and some are not.
pub open spec fn is_partial(ep: EndpointView) -> bool {
    !ep.none_selected() && !ep.all_selected()
}

/// The last endpoint of this path of which only a part is selected.
pub open spec fn last_partial(endpoints: Seq<EndpointView>, path: Seq<char>) -> Option<
    EndpointView,
>
    decreases endpoints.len(),
{
    if endpoints.len() == 0 {
        None
    } else if endpoints.last().path == path && is_partial(endpoints.last()) {
        Some(endpoints.last())
    } else {
        last_partial(endpoints.drop_last(), path)
    }
}

/// An operation of this method is not selected.
pub open spec fn deselects(ep: EndpointView, method: Seq<char>) -> bool {
    exists|i: int|
        0 <= i < ep.operations.len() && (#[trigger] ep.operations[i]).method == method
            && !ep.operations[i].selected
}

/// A path item without the methods that are not selected.
pub open spec fn trimmed_item(item: JsonView, ep: EndpointView) -> JsonView {
    match item {
        JsonView::Object(members) => JsonView::Object(
            members.filter(|m: MemberView| !deselects(ep, m.key)),
        ),
        _ => item,
    }
}

/// A path with its item trimmed.
pub open spec fn trimmed_path(path: MemberView, endpoints: Seq<EndpointView>) -> MemberView {
    match last_partial(endpoints, path.key) {
        Some(ep) => MemberView { key: path.key, value: trimmed_item(path.value, ep) },
        None => path,
    }
}

/// The paths that are left, each with its item trimmed.
pub open spec fn filtered_paths(paths: Seq<MemberView>, endpoints: Seq<EndpointView>) -> Seq<
    MemberView,
> {
    paths.filter(|p: MemberView| !dropped(endpoints, p.key)).map_values(
        |p: MemberView| trimmed_path(p, endpoints),
    )
}

/// The document with the paths that are left.
pub open spec fn trimmed(spec: JsonView, endpoints: Seq<EndpointView>) -> JsonView {
    match spec.get("paths"@) {
        Some(JsonView::Object(paths)) => JsonView::Object(
            with_value(
                spec->Object_0,
                "paths"@,
                JsonView::Object(filtered_paths(paths, endpoints)),
            ),
        ),
        _ => spec,
    }
}

/// The document that is exported.
pub open spec fn filtered(spec: JsonView, groups: Seq<GroupView>, prune: bool) -> JsonView {
    if prune {
        pruned(trimmed(spec, all_endpoints(groups)))
    } else {
        trimmed(spec, all_endpoints(groups))
    }
}

/// What a list of borrowed endpoints holds.
spec fn borrowed_view(endpoints: Seq<&Endpoint>) -> Seq<EndpointView> {
    endpoints.map_values(|ep: &Endpoint| ep@)
}

/// The endpoints of all groups, in order.
fn list_endpoints<'a>(groups: &'a [PathGroup]) -> (r: Vec<&'a Endpoint>)
    ensures
        borrowed_view(r@) == all_endpoints(groups_view(groups@)),
{
    let ghost views = groups_view(groups@);
    let mut r: Vec<&'a Endpoint> = Vec::new();
    proof {
        assert(borrowed_view(r@) =~= all_endpoints(views.take(0)));
    }
    for i in 0..groups.len()
        invariant
            views == groups_view(groups@),
            borrowed_view(r@) == all_endpoints(views.take(i as int)),
    {
        let ghost before = borrowed_view(r@);
        let endpoints = &groups[i].endpoints;
        for j in 0..endpoints.len()
            invariant
                borrowed_view(r@) == before + crate::model::endpoints_view(endpoints@).take(
                    j as int,
                ),
        {
            let ghost now = borrowed_view(r@);
            r.push(&endpoints[j]);
            proof {
                let eps = crate::model::endpoints_view(endpoints@);
                assert(borrowed_view(r@) =~= now.push(eps[j as int]));
                assert(before + eps.take(j + 1) =~= (before + eps.take(j as int)).push(
                    eps[j as int],
                ));
            }
        }
        proof {
            let eps = crate::model::endpoints_view(endpoints@);
            assert(eps.take(eps.len() as int) =~= eps);
            assert(views.take(i + 1).drop_last() =~= views.take(i as int));
            assert(views.take(i + 1).last() == groups@[i as int]@);
        }
    }
    proof {
        assert(views.take(views.len() as int) =~= views);
    }
    r
}

/// The paths of the endpoints of which nothing is selected.
fn fully_deselected(endpoints: &Vec<&Endpoint>) -> (r: StringHashSet)
    ensures
        forall|path: Seq<char>| #[trigger]
            r@.contains(path) <==> dropped(borrowed_view(endpoints@), path),
{
    let ghost views = borrowed_view(endpoints@);
    let mut r = StringHashSet::new();
    for i in 0..endpoints.len()
        invariant
            views == borrowed_view(endpoints@),
            forall|path: Seq<char>| #[trigger]
                r@.contains(path) <==> exists|j: int|
                    0 <= j < i && (#[trigger] views[j]).path == path && views[j].none_selected(),
    {
        let ghost before = r@;
        if endpoints[i].none_selected() {
            r.insert(endpoints[i].path.clone());
        }
        proof {
            assert(views[i as int] == endpoints@[i as int]@);
            assert forall|path: Seq<char>| #[trigger] r@.contains(path) <==> exists|j: int|
                0 <= j < i + 1 && (#[trigger] views[j]).path == path
                    && views[j].none_selected() by {
                assert(r@.contains(path) == (before.contains(path) || (views[i as int].path == path
                    && views[i as int].none_selected())));
            }
        }
    }
    r
}

/// The last endpoint of this path of which only a part is selected.
fn find_partial<'a>(endpoints: &Vec<&'a Endpoint>, path: &str) -> (r: Option<&'a Endpoint>)
    ensures
        match r {
            Some(ep) => last_partial(borrowed_view(endpoints@), path@) == Some(ep@),
            None => last_partial(borrowed_view(endpoints@), path@) is None,
        },
{
    let ghost views = borrowed_view(endpoints@);
    let mut i: usize = endpoints.len();
    proof {
        assert(views.take(i as int) =~= views);
    }
    while i > 0
        invariant
            i <= endpoints.len(),
            views == borrowed_view(endpoints@),
            last_partial(views, path@) == last_partial(views.take(i as int), path@),
        decreases i,
    {
        let ep: &'a Endpoint = endpoints[i - 1];
        proof {
            assert(views.take(i as int).last() == ep@);
            assert(views.take(i as int).drop_last() =~= views.take(i - 1));
        }
        if same_text(ep.path.as_str(), path) && !ep.none_selected() && !ep.all_selected() {
            return Some(ep);
        }
        i -= 1;
    }
    None
}

/// Whether an operation of this method is not selected.
fn is_deselected(ep: &Endpoint, method: &str) -> (r: bool)
    ensures
        r == deselects(ep@, method@),
{
    for i in 0..ep.operations.len()
        invariant
            forall|j: int|
                0 <= j < i ==> !((#[trigger] ep@.operations[j]).method == method@
                    && !ep@.operations[j].selected),
    {
        if !ep.operations[i].selected && same_text(ep.operations[i].method.as_str(), method) {
            proof {
                assert(ep@.operations[i as int].method == method@);
            }
            return true;
        }
    }
    false
}

/// Trim the item of a path.
fn trim_path(path: &mut Member, endpoints: &Vec<&Endpoint>)
    ensures
        final(path)@ == trimmed_path(old(path)@, borrowed_view(endpoints@)),
{
    broadcast use group_json_views;

    match find_partial(endpoints, path.key.as_str()) {
        Some(ep) => {
            match &mut path.value {
                Json::Object(members) => {
                    let wanted = |m: &Member| -> (b: bool)
                        ensures
                            b == !deselects(ep@, m.key@),
                    {
                        !is_deselected(ep, m.key.as_str())
                    };
                    retain_members(
                        members,
                        wanted,
                        Ghost(|m: MemberView| !deselects(ep@, m.key)),
                    );
                },
                _ => {},
            }
        },
        None => {},
    }
}

/// Remove the paths that are dropped, and trim the others.
fn filter_paths(paths: &mut Vec<Member>, endpoints: &Vec<&Endpoint>)
    ensures
        members_view(final(paths)@) == filtered_paths(
            members_view(old(paths)@),
            borrowed_view(endpoints@),
        ),
{
    let ghost views = borrowed_view(endpoints@);
    let deselected = fully_deselected(endpoints);
    let wanted = |p: &Member| -> (b: bool)
        ensures
            b == !deselected@.contains(p.key@),
    {
        !deselected.contains(p.key.as_str())
    };
    retain_members(paths, wanted, Ghost(|p: MemberView| !dropped(views, p.key)));
    let ghost left = members_view(paths@);
    let n = paths.len();
    for i in 0..n
        invariant
            n == left.len(),
            paths.len() == n,
            views == borrowed_view(endpoints@),
            forall|j: int| 0 <= j < i ==> (#[trigger] paths@[j])@ == trimmed_path(left[j], views),
            forall|j: int| i <= j < n ==> (#[trigger] paths@[j])@ == left[j],
    {
        trim_path(&mut paths[i], endpoints);
    }
    proof {
        assert(members_view(paths@) =~= left.map_values(|p: MemberView| trimmed_path(p, views)));
    }
}

/// The document with only the selected operations. Paths without any are removed, and so are,
/// if `prune` says so, components that nothing reaches any more.
pub fn build_filtered_spec(spec: &Json, groups: &[PathGroup], prune: bool) -> (r: Json)
    requires
        spec@.well_formed(),
    ensures
        r@ == filtered(spec@, groups_view(groups@), prune),
        r@.well_formed(),
{
    broadcast use group_json_views;

    let ghost eps = all_endpoints(groups_view(groups@));
    let ghost tree = spec@;
    let endpoints = list_endpoints(groups);
    let mut out = spec.duplicate();
    match &mut out {
        Json::Object(members) => {
            let at = find_key(members, "paths");
            if at < members.len() {
                let ghost views = members_view(members@);
                match &mut members[at].value {
                    Json::Object(paths) => {
                        filter_paths(paths, &endpoints);
                    },
                    _ => {},
                }
                proof {
                    lemma_key_index(views, "paths"@);
                    assert(tree == JsonView::Object(views));
                    assert(tree.get("paths"@) == Some(views[at as int].value));
                    assert(members_view(members@) =~= trimmed(tree, eps)->Object_0);
                }
            }
        },
        _ => {},
    }
    proof {
        assert(out@ == trimmed(tree, eps));
        lemma_trimmed_well_formed(tree, eps);
    }
    if prune {
        prune_unused_components(&mut out);
    }
    out
}

pub proof fn lemma_trimmed_well_formed(spec: JsonView, endpoints: Seq<EndpointView>)
    requires
        spec.well_formed(),
    ensures
        trimmed(spec, endpoints).well_formed(),
{
    match spec.get("paths"@) {
        Some(JsonView::Object(paths)) => {
            let members = spec->Object_0;
            lemma_key_index(members, "paths"@);
            assert(members[key_index(members, "paths"@)].value.well_formed());
            let pred = |p: MemberView| !dropped(endpoints, p.key);
            let left = paths.filter(pred);
            let out = filtered_paths(paths, endpoints);
            lemma_filter_distinct(paths, pred);
            lemma_filter_from(paths, pred);
            assert forall|i: int, j: int| 0 <= i < j < out.len() implies (#[trigger] out[i]).key != (
            #[trigger] out[j]).key by {
                assert(left[i].key != left[j].key);
            }
            assert forall|i: int| 0 <= i < out.len() implies (
            #[trigger] out[i]).value.well_formed() by {
                let k = choose|k: int| 0 <= k < paths.len() && paths[k] == left[i];
                assert(paths[k].value.well_formed());
                match last_partial(endpoints, left[i].key) {
                    Some(ep) => lemma_trimmed_item_well_formed(left[i].value, ep),
                    None => {},
                }
            }
            lemma_with_value_well_formed(members, "paths"@, JsonView::Object(out));
        },
        _ => {},
    }
}

proof fn lemma_trimmed_item_well_formed(item: JsonView, ep: EndpointView)
    requires
        item.well_formed(),
    ensures
        trimmed_item(item, ep).well_formed(),
{
    match item {
        JsonView::Object(members) => {
            let pred = |m: MemberView| !deselects(ep, m.key);
            let left = members.filter(pred);
            lemma_filter_distinct(members, pred);
            lemma_filter_from(members, pred);
            assert forall|i: int| 0 <= i < left.len() implies (
            #[trigger] left[i]).value.well_formed() by {
                let k = choose|k: int| 0 <= k < members.len() && members[k] == left[i];
                assert(members[k].value.well_formed());
            }
        },
        _ => {},
    }
}

} // verus!
