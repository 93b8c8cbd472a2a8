//! What an export holds, said of the members of the document and of the selected operations.

use vstd::prelude::*;

use crate::app_state::AppView;
use crate::codec::serialized;
use crate::edit::{
    lemma_filter_from, lemma_lookup_filter, lemma_lookup_member, lemma_lookup_with_value,
};
use crate::export_laws::{law_export_keeps_other_parts, law_export_of_a_path, lemma_last_partial};
use crate::extract::{extracted, http_methods};
use crate::extract_laws::lemma_filter_order;
use crate::filter::{deselects, dropped, filtered, filtered_paths, is_partial, last_partial};
use crate::json::{key_index, lemma_key_index, lookup, JsonView, MemberView};
use crate::model::{all_endpoints, GroupView};
use crate::places::{value_at2, value_at3};
use crate::prune::pruned;
use crate::selection_laws::{lemma_endpoint_place, lemma_from_path};
use crate::session_laws::{
    distinct_paths, lemma_document_methods_distinct, lemma_document_paths_distinct,
    lemma_same_endpoints, same_endpoint, same_operations,
};

verus! {

/// What is known of an endpoint of an editor that has a document open: the item of its path, where
/// that stands among the paths, and where the endpoint stands among all.
proof fn lemma_open_endpoint(spec: JsonView, groups: Seq<GroupView>, g: int, e: int) -> (r: (
    int,
    int,
))
    requires
        spec.well_formed(),
        extracted(spec) is Ok,
        same_operations(groups, extracted(spec)->Ok_0),
        0 <= g < groups.len(),
        0 <= e < groups[g].endpoints.len(),
    ensures
        ({
            let paths = spec.get("paths"@)->Some_0->Object_0;
            let ep = groups[g].endpoints[e];
            let (at, k) = r;
            &&& spec.get("paths"@) is Some
            &&& spec.get("paths"@)->Some_0 is Object
            &&& 0 <= at < all_endpoints(groups).len()
            &&& all_endpoints(groups)[at] == ep
            &&& distinct_paths(all_endpoints(groups))
            &&& 0 <= k < paths.len()
            &&& paths[k].key == ep.path
            &&& lookup(paths, ep.path) == Some(paths[k].value)
            &&& paths[k].value.well_formed()
            &&& forall|o: int|
                0 <= o < ep.operations.len() ==> paths[k].value.get(
                    (#[trigger] ep.operations[o]).method,
                ) is Some
            &&& forall|o: int, p: int|
                0 <= o < p < ep.operations.len() ==> (#[trigger] ep.operations[o]).method != (
                #[trigger] ep.operations[p]).method
        }),
{
    let members = spec->Object_0;
    lemma_key_index(members, "paths"@);
    assert(members[key_index(members, "paths"@)].value.well_formed());
    let paths = spec.get("paths"@)->Some_0->Object_0;
    let found = extracted(spec)->Ok_0;
    let eps = all_endpoints(groups);
    let found_eps = all_endpoints(found);
    let ep = groups[g].endpoints[e];
    let at = lemma_endpoint_place(groups, g, e);
    lemma_same_endpoints(groups, found);
    lemma_document_paths_distinct(paths);
    assert forall|i: int, j: int| 0 <= i < j < eps.len() implies (#[trigger] eps[i]).path != (
    #[trigger] eps[j]).path by {
        assert(same_endpoint(eps[i], found_eps[i]));
        assert(same_endpoint(eps[j], found_eps[j]));
        assert(found_eps[i].path != found_eps[j].path);
    }
    assert(same_endpoint(eps[at], found_eps[at]));
    let k = lemma_from_path(paths, at);
    lemma_lookup_member(paths, k);
    let item = paths[k].value;
    assert(item.well_formed());
    let has = |m: Seq<char>| item.get(m) is Some;
    lemma_filter_from(http_methods(), has);
    assert forall|o: int| 0 <= o < ep.operations.len() implies item.get(
        (#[trigger] ep.operations[o]).method,
    ) is Some by {
        assert(eps[at].operations[o].method == found_eps[at].operations[o].method);
        assert(found_eps[at].operations[o].method == http_methods().filter(has)[o]);
        assert(has(http_methods().filter(has)[o]));
    }
    assert forall|o: int, p: int| 0 <= o < p < ep.operations.len() implies (
    #[trigger] ep.operations[o]).method != (#[trigger] ep.operations[p]).method by {
        assert(eps[at].operations[o].method == found_eps[at].operations[o].method);
        assert(eps[at].operations[p].method == found_eps[at].operations[p].method);
        lemma_document_methods_distinct(paths, at, o, p);
    }
    (at, k)
}

/// What becomes of the members of the item of an endpoint's path.
proof fn lemma_export_of_a_member(
    spec: JsonView,
    groups: Seq<GroupView>,
    prune: bool,
    g: int,
    e: int,
    key: Seq<char>,
)
    requires
        spec.well_formed(),
        extracted(spec) is Ok,
        same_operations(groups, extracted(spec)->Ok_0),
        0 <= g < groups.len(),
        0 <= e < groups[g].endpoints.len(),
    ensures
        ({
            let ep = groups[g].endpoints[e];
            &&& ep.none_selected() ==> value_at2(filtered(spec, groups, prune), "paths"@, ep.path)
                is None
            &&& !ep.none_selected() ==> value_at3(
                filtered(spec, groups, prune),
                "paths"@,
                ep.path,
                key,
            ) == if deselects(ep, key) {
                None
            } else {
                value_at3(spec, "paths"@, ep.path, key)
            }
        }),
{
    let (at, k) = lemma_open_endpoint(spec, groups, g, e);
    let ep = groups[g].endpoints[e];
    let eps = all_endpoints(groups);
    let paths = spec.get("paths"@)->Some_0->Object_0;
    let item = paths[k].value;
    law_export_of_a_path(spec, groups, prune, ep.path);
    if dropped(eps, ep.path) {
        let i = choose|i: int|
            0 <= i < eps.len() && (#[trigger] eps[i]).path == ep.path && eps[i].none_selected();
        if i < at {
            assert(eps[i].path != eps[at].path);
        } else if at < i {
            assert(eps[at].path != eps[i].path);
        }
    }
    if ep.none_selected() {
        assert(eps[at].path == ep.path && eps[at].none_selected());
    }
    lemma_last_partial(eps, ep.path);
    match last_partial(eps, ep.path) {
        Some(x) => {
            let i = choose|i: int| 0 <= i < eps.len() && eps[i] == x;
            if i < at {
                assert(eps[i].path != eps[at].path);
            } else if at < i {
                assert(eps[at].path != eps[i].path);
            }
            match item {
                JsonView::Object(members) => {
                    let pred = |m: MemberView| !deselects(ep, m.key);
                    lemma_lookup_filter(members, pred, key, !deselects(ep, key));
                },
                _ => {},
            }
        },
        None => {
            assert(!is_partial(eps[at]));
            if !ep.none_selected() && deselects(ep, key) {
                let o = choose|o: int|
                    0 <= o < ep.operations.len() && (#[trigger] ep.operations[o]).method == key
                        && !ep.operations[o].selected;
                assert(ep.operations[o].selected);
            }
        },
    }
}

/// Whatever is selected of an open document, and with the components pruned or not: a selected
/// operation stands in the export as in the document, and one that is not selected is not in it.
pub proof fn law_export_holds_the_selected_operations(
    spec: JsonView,
    groups: Seq<GroupView>,
    prune: bool,
    g: int,
    e: int,
    o: int,
)
    requires
        spec.well_formed(),
        extracted(spec) is Ok,
        same_operations(groups, extracted(spec)->Ok_0),
        0 <= g < groups.len(),
        0 <= e < groups[g].endpoints.len(),
        0 <= o < groups[g].endpoints[e].operations.len(),
    ensures
        ({
            let path = groups[g].endpoints[e].path;
            let op = groups[g].endpoints[e].operations[o];
            &&& value_at3(spec, "paths"@, path, op.method) is Some
            &&& value_at3(filtered(spec, groups, prune), "paths"@, path, op.method)
                == if op.selected {
                value_at3(spec, "paths"@, path, op.method)
            } else {
                None
            }
        }),
{
    let (at, k) = lemma_open_endpoint(spec, groups, g, e);
    let ep = groups[g].endpoints[e];
    let op = ep.operations[o];
    lemma_export_of_a_member(spec, groups, prune, g, e, op.method);
    if op.selected {
        assert(ep.operations[o].selected);
        if deselects(ep, op.method) {
            let p = choose|p: int|
                0 <= p < ep.operations.len() && (#[trigger] ep.operations[p]).method == op.method
                    && !ep.operations[p].selected;
            if p < o {
                assert(ep.operations[p].method != ep.operations[o].method);
            } else if o < p {
                assert(ep.operations[o].method != ep.operations[p].method);
            }
        }
    } else {
        assert(ep.operations[o].method == op.method && !ep.operations[o].selected);
        assert(deselects(ep, op.method));
    }
}

/// What a path item holds besides its operations stays in the export as long as any operation of it
/// is selected; where none is, the path is not in it.
pub proof fn law_export_keeps_what_stands_beside_operations(
    spec: JsonView,
    groups: Seq<GroupView>,
    prune: bool,
    g: int,
    e: int,
    key: Seq<char>,
)
    requires
        spec.well_formed(),
        extracted(spec) is Ok,
        same_operations(groups, extracted(spec)->Ok_0),
        0 <= g < groups.len(),
        0 <= e < groups[g].endpoints.len(),
        forall|o: int|
            0 <= o < groups[g].endpoints[e].operations.len() ==> (
            #[trigger] groups[g].endpoints[e].operations[o]).method != key,
    ensures
        ({
            let ep = groups[g].endpoints[e];
            if exists|o: int|
                0 <= o < ep.operations.len() && (#[trigger] ep.operations[o]).selected {
                value_at3(filtered(spec, groups, prune), "paths"@, ep.path, key) == value_at3(
                    spec,
                    "paths"@,
                    ep.path,
                    key,
                )
            } else {
                value_at2(filtered(spec, groups, prune), "paths"@, ep.path) is None
            }
        }),
{
    lemma_export_of_a_member(spec, groups, prune, g, e, key);
}

/// A path that the editor lists no operations of stays in the export as it is.
pub proof fn law_export_keeps_paths_without_operations(
    spec: JsonView,
    groups: Seq<GroupView>,
    prune: bool,
    path: Seq<char>,
)
    requires
        spec.well_formed(),
        extracted(spec) is Ok,
        same_operations(groups, extracted(spec)->Ok_0),
        forall|g: int, e: int|
            0 <= g < groups.len() && 0 <= e < groups[g].endpoints.len() ==> (
            #[trigger] groups[g].endpoints[e]).path != path,
    ensures
        value_at2(filtered(spec, groups, prune), "paths"@, path) == value_at2(
            spec,
            "paths"@,
            path,
        ),
{
    let eps = all_endpoints(groups);
    assert forall|i: int| 0 <= i < eps.len() implies (#[trigger] eps[i]).path != path by {
        let (g, e) = lemma_place_of_endpoint(groups, i);
        assert(groups[g].endpoints[e].path != path);
    }
    law_export_of_a_path(spec, groups, prune, path);
    lemma_last_partial(eps, path);
    match last_partial(eps, path) {
        Some(x) => {
            let i = choose|i: int| 0 <= i < eps.len() && eps[i] == x;
            assert(eps[i].path != path);
        },
        None => {},
    }
}

/// The place in the groups of one of all endpoints.
pub proof fn lemma_place_of_endpoint(groups: Seq<GroupView>, i: int) -> (r: (int, int))
    requires
        0 <= i < all_endpoints(groups).len(),
    ensures
        0 <= r.0 < groups.len(),
        0 <= r.1 < groups[r.0].endpoints.len(),
        groups[r.0].endpoints[r.1] == all_endpoints(groups)[i],
    decreases groups.len(),
{
    let front = groups.drop_last();
    let n = all_endpoints(front).len();
    if i < n {
        let r = lemma_place_of_endpoint(front, i);
        assert(front[r.0] == groups[r.0]);
        r
    } else {
        (groups.len() - 1, i - n)
    }
}

/// Removing unused components is a step of its own: the export with it is the export without it,
/// pruned.
pub proof fn law_pruning_comes_last(spec: JsonView, groups: Seq<GroupView>)
    ensures
        filtered(spec, groups, true) == pruned(filtered(spec, groups, false)),
{
}

/// With the box for unused components ticked or not, the text that the editor exports is that of a
/// document in its export format that has each operation of the open document exactly if it is
/// selected, and has what stands beside the paths and the components; and the components too where
/// the box is not ticked. Without an open document there is no text.
pub proof fn law_editor_exports_the_selection(app: AppView)
    requires
        app.coherent(),
        app.spec matches Some(tree) ==> tree.well_formed(),
    ensures
        app.export_text() is Some <==> app.spec is Some,
        app.spec matches Some(tree) ==> exists|out: JsonView|
            {
                &&& app.export_text() == Some(#[trigger] serialized(out, app.export_format))
                &&& forall|g: int, e: int, o: int|
                    0 <= g < app.groups.len() && 0 <= e < app.groups[g].endpoints.len() && 0 <= o
                        < app.groups[g].endpoints[e].operations.len() ==> value_at3(
                        out,
                        "paths"@,
                        app.groups[g].endpoints[e].path,
                        (#[trigger] app.groups[g].endpoints[e].operations[o]).method,
                    ) == if app.groups[g].endpoints[e].operations[o].selected {
                        value_at3(
                            tree,
                            "paths"@,
                            app.groups[g].endpoints[e].path,
                            app.groups[g].endpoints[e].operations[o].method,
                        )
                    } else {
                        None
                    }
                &&& forall|key: Seq<char>|
                    key != "paths"@ && (key != "components"@ || !app.prune_components)
                        ==> #[trigger] out.get(key) == tree.get(key)
                &&& app.prune_components ==> out == pruned(filtered(tree, app.groups, false))
                &&& !app.prune_components ==> out == filtered(tree, app.groups, false)
            },
{
    match app.spec {
        Some(tree) => {
            let out = filtered(tree, app.groups, app.prune_components);
            assert forall|g: int, e: int, o: int|
                0 <= g < app.groups.len() && 0 <= e < app.groups[g].endpoints.len() && 0 <= o
                    < app.groups[g].endpoints[e].operations.len() implies value_at3(
                out,
                "paths"@,
                app.groups[g].endpoints[e].path,
                (#[trigger] app.groups[g].endpoints[e].operations[o]).method,
            ) == if app.groups[g].endpoints[e].operations[o].selected {
                value_at3(
                    tree,
                    "paths"@,
                    app.groups[g].endpoints[e].path,
                    app.groups[g].endpoints[e].operations[o].method,
                )
            } else {
                None
            } by {
                law_export_holds_the_selected_operations(
                    tree,
                    app.groups,
                    app.prune_components,
                    g,
                    e,
                    o,
                );
            }
            assert forall|key: Seq<char>|
                key != "paths"@ && (key != "components"@ || !app.prune_components) implies
                #[trigger] out.get(key) == tree.get(key) by {
                law_export_keeps_other_parts(tree, app.groups, app.prune_components, key);
            }
            assert(app.export_text() == Some(serialized(out, app.export_format)));
        },
        None => {},
    }
}

/// The members are in the order in which they stand in the others.
pub open spec fn keeps_order(left: Seq<MemberView>, all: Seq<MemberView>) -> bool {
    forall|i: int, j: int|
        0 <= i < j < left.len() ==> key_index(all, (#[trigger] left[i]).key) < key_index(
            all,
            (#[trigger] left[j]).key,
        )
}

/// The members of an exported document and its paths stand in the order of the document.
pub proof fn law_export_keeps_the_order(spec: JsonView, groups: Seq<GroupView>)
    requires
        spec.well_formed(),
        extracted(spec) is Ok,
    ensures
        ({
            let out = filtered(spec, groups, false);
            let paths = spec.get("paths"@)->Some_0->Object_0;
            &&& out is Object
            &&& out->Object_0.len() == spec->Object_0.len()
            &&& forall|i: int|
                0 <= i < spec->Object_0.len() ==> (#[trigger] out->Object_0[i]).key
                    == spec->Object_0[i].key && (spec->Object_0[i].key != "paths"@
                    ==> out->Object_0[i] == spec->Object_0[i])
            &&& out.get("paths"@) matches Some(JsonView::Object(left)) && keeps_order(left, paths)
        }),
{
    let members = spec->Object_0;
    lemma_key_index(members, "paths"@);
    assert(members[key_index(members, "paths"@)].value.well_formed());
    let paths = spec.get("paths"@)->Some_0->Object_0;
    let eps = all_endpoints(groups);
    let keep = |p: MemberView| !dropped(eps, p.key);
    let kept = paths.filter(keep);
    let left = filtered_paths(paths, eps);
    lemma_lookup_with_value(members, "paths"@, JsonView::Object(left), "paths"@);
    assert forall|i: int, j: int| 0 <= i < j < left.len() implies key_index(
        paths,
        (#[trigger] left[i]).key,
    ) < key_index(paths, (#[trigger] left[j]).key) by {
        let (x, y) = lemma_filter_order(paths, keep, i, j);
        assert(left[i].key == kept[i].key && left[j].key == kept[j].key);
        lemma_lookup_member(paths, x);
        lemma_lookup_member(paths, y);
    }
}

/// What is left of a path item stands in the order of the item; an item that is no object stays as
/// it is if its path does.
pub proof fn law_export_keeps_the_order_of_items(
    spec: JsonView,
    groups: Seq<GroupView>,
    prune: bool,
    path: Seq<char>,
)
    requires
        spec.well_formed(),
        extracted(spec) is Ok,
        value_at2(filtered(spec, groups, prune), "paths"@, path) is Some,
    ensures
        ({
            let left = value_at2(filtered(spec, groups, prune), "paths"@, path)->Some_0;
            match value_at2(spec, "paths"@, path) {
                Some(JsonView::Object(members)) => left is Object && keeps_order(
                    left->Object_0,
                    members,
                ),
                Some(item) => left == item,
                None => false,
            }
        }),
{
    let members = spec->Object_0;
    lemma_key_index(members, "paths"@);
    assert(members[key_index(members, "paths"@)].value.well_formed());
    let paths = spec.get("paths"@)->Some_0->Object_0;
    let eps = all_endpoints(groups);
    law_export_of_a_path(spec, groups, prune, path);
    lemma_key_index(paths, path);
    let item = paths[key_index(paths, path)].value;
    assert(item.well_formed());
    if item is Object {
        let all = item->Object_0;
        let left = value_at2(filtered(spec, groups, prune), "paths"@, path)->Some_0->Object_0;
        match last_partial(eps, path) {
            Some(ep) => {
                let keep = |m: MemberView| !deselects(ep, m.key);
                assert forall|i: int, j: int| 0 <= i < j < left.len() implies key_index(
                    all,
                    (#[trigger] left[i]).key,
                ) < key_index(all, (#[trigger] left[j]).key) by {
                    let (x, y) = lemma_filter_order(all, keep, i, j);
                    lemma_lookup_member(all, x);
                    lemma_lookup_member(all, y);
                }
            },
            None => {
                assert forall|i: int, j: int| 0 <= i < j < left.len() implies key_index(
                    all,
                    (#[trigger] left[i]).key,
                ) < key_index(all, (#[trigger] left[j]).key) by {
                    lemma_lookup_member(all, i);
                    lemma_lookup_member(all, j);
                }
            },
        }
    }
}

} // verus!
