//! What comes back of a selection that was saved.

use vstd::prelude::*;

use crate::edit::{lemma_filter_from, lemma_filter_keeps};
use crate::export_laws::{flagged, flagged_groups};
use crate::extract::{
    endpoint_of, endpoints_in, extracted, grouped, http_methods, law_groups_hold_every_path,
};
use crate::json::{JsonView, MemberView};
use crate::model::{
    all_endpoints, groups_operations, groups_selected, operation_total, selected_total,
    EndpointView, GroupView, OperationView,
};
use crate::selection::{
    all_keys, deselected_keys, endpoint_deselected, endpoint_keys, operation_key, restored,
    restored_endpoint, SelectionView,
};

verus! {

/// The text holds no space.
pub open spec fn spaceless(s: Seq<char>) -> bool {
    forall|i: int| 0 <= i < s.len() ==> #[trigger] s[i] != ' '
}

/// The key is that of an operation of the endpoint that is not selected.
spec fn names_deselected(ep: EndpointView, key: Seq<char>) -> bool {
    exists|j: int|
        0 <= j < ep.operations.len() && !(#[trigger] ep.operations[j]).selected && operation_key(
            ep.operations[j].method,
            ep.path,
        ) == key
}

/// Where the methods hold no space, the key of an operation tells its method and its path.
pub proof fn law_operation_key_tells_the_operation(
    method: Seq<char>,
    path: Seq<char>,
    other_method: Seq<char>,
    other_path: Seq<char>,
)
    requires
        spaceless(method),
        spaceless(other_method),
        operation_key(method, path) == operation_key(other_method, other_path),
    ensures
        method == other_method,
        path == other_path,
{
    reveal_strlit(" ");
    let key = operation_key(method, path);
    let other = operation_key(other_method, other_path);
    assert(key[method.len() as int] == ' ');
    assert(other[other_method.len() as int] == ' ');
    if method.len() < other_method.len() {
        assert(other[method.len() as int] == other_method[method.len() as int]);
    }
    if other_method.len() < method.len() {
        assert(key[other_method.len() as int] == method[other_method.len() as int]);
    }
    assert(method =~= key.take(method.len() as int));
    assert(other_method =~= other.take(method.len() as int));
    assert(path =~= key.skip(1 + method.len() as int));
    assert(other_path =~= other.skip(1 + method.len() as int));
}

proof fn lemma_endpoint_deselected(ep: EndpointView, key: Seq<char>)
    ensures
        endpoint_deselected(ep).contains(key) <==> names_deselected(ep, key),
{
    let pred = |op: OperationView| !op.selected;
    let make = |op: OperationView| operation_key(op.method, ep.path);
    let kept = ep.operations.filter(pred);
    lemma_filter_from(ep.operations, pred);
    if endpoint_deselected(ep).contains(key) {
        let i = choose|i: int|
            0 <= i < endpoint_deselected(ep).len() && endpoint_deselected(ep)[i] == key;
        assert(pred(kept[i]));
        let j = choose|j: int| 0 <= j < ep.operations.len() && ep.operations[j] == kept[i];
        assert(!ep.operations[j].selected);
    }
    if names_deselected(ep, key) {
        let j = choose|j: int|
            0 <= j < ep.operations.len() && !(#[trigger] ep.operations[j]).selected
                && operation_key(ep.operations[j].method, ep.path) == key;
        lemma_filter_keeps(ep.operations, pred, j);
        let i = choose|i: int| 0 <= i < kept.len() && kept[i] == ep.operations[j];
        assert(endpoint_deselected(ep)[i] == key);
    }
}

proof fn lemma_deselected_keys(endpoints: Seq<EndpointView>, key: Seq<char>)
    ensures
        deselected_keys(endpoints).contains(key) <==> exists|i: int|
            0 <= i < endpoints.len() && names_deselected(#[trigger] endpoints[i], key),
    decreases endpoints.len(),
{
    if endpoints.len() > 0 {
        let front = endpoints.drop_last();
        let last = endpoints.last();
        let all = deselected_keys(endpoints);
        let fore = deselected_keys(front);
        let back = endpoint_deselected(last);
        lemma_deselected_keys(front, key);
        lemma_endpoint_deselected(last, key);
        if all.contains(key) {
            let k = choose|k: int| 0 <= k < all.len() && all[k] == key;
            if k < fore.len() {
                assert(fore[k] == key);
                let i = choose|i: int|
                    0 <= i < front.len() && names_deselected(#[trigger] front[i], key);
                assert(endpoints[i] == front[i]);
            } else {
                assert(back[k - fore.len()] == key);
                assert(names_deselected(endpoints[endpoints.len() - 1], key));
            }
        }
        if exists|i: int|
            0 <= i < endpoints.len() && names_deselected(#[trigger] endpoints[i], key) {
            let i = choose|i: int|
                0 <= i < endpoints.len() && names_deselected(#[trigger] endpoints[i], key);
            if i < front.len() {
                assert(names_deselected(front[i], key));
                let k = choose|k: int| 0 <= k < fore.len() && fore[k] == key;
                assert(all[k] == key);
            } else {
                let k = choose|k: int| 0 <= k < back.len() && back[k] == key;
                assert(all[fore.len() + k] == key);
            }
        }
    }
}

/// The place of an endpoint of a group among all endpoints.
pub proof fn lemma_endpoint_place(groups: Seq<GroupView>, g: int, e: int) -> (i: int)
    requires
        0 <= g < groups.len(),
        0 <= e < groups[g].endpoints.len(),
    ensures
        0 <= i < all_endpoints(groups).len(),
        all_endpoints(groups)[i] == groups[g].endpoints[e],
    decreases groups.len(),
{
    let front = groups.drop_last();
    if g < front.len() {
        assert(front[g] == groups[g]);
        let i = lemma_endpoint_place(front, g, e);
        assert(all_endpoints(groups)[i] == all_endpoints(front)[i]);
        i
    } else {
        let i = all_endpoints(front).len() + e;
        assert(all_endpoints(groups)[i] == groups[g].endpoints[e]);
        i
    }
}

/// Every method of the endpoint is without a space.
spec fn spaceless_methods(ep: EndpointView) -> bool {
    forall|j: int|
        0 <= j < ep.operations.len() ==> spaceless((#[trigger] ep.operations[j]).method)
}

/// Saving what is wanted and restoring it brings back what was wanted.
proof fn lemma_restored_is_flagged(
    groups: Seq<GroupView>,
    wanted: spec_fn(Seq<char>, Seq<char>) -> bool,
)
    requires
        forall|i: int|
            0 <= i < all_endpoints(groups).len() ==> spaceless_methods(
                #[trigger] all_endpoints(groups)[i],
            ) && all_endpoints(groups)[i].all_selected(),
    ensures
        restored(
            groups,
            deselected_keys(all_endpoints(flagged_groups(groups, wanted))).to_set(),
        ) == flagged_groups(groups, wanted),
{
    let marked = flagged_groups(groups, wanted);
    let eps = all_endpoints(groups);
    let marked_eps = all_endpoints(marked);
    let saved = deselected_keys(marked_eps).to_set();
    let back = restored(groups, saved);
    crate::export_laws::lemma_flagged_endpoints(groups, wanted);
    assert forall|g: int| 0 <= g < groups.len() implies #[trigger] back[g] == marked[g] by {
        let group = groups[g];
        assert forall|e: int| 0 <= e < group.endpoints.len() implies
            #[trigger] back[g].endpoints[e] == marked[g].endpoints[e] by {
            let ep = group.endpoints[e];
            let at = lemma_endpoint_place(groups, g, e);
            assert(eps[at] == ep);
            assert(spaceless_methods(eps[at]) && eps[at].all_selected());
            assert(marked_eps[at] == flagged(ep, wanted));
            assert forall|j: int| 0 <= j < ep.operations.len() implies
                #[trigger] restored_endpoint(ep, saved).operations[j] == flagged(
                ep,
                wanted,
            ).operations[j] by {
                let op = ep.operations[j];
                let key = operation_key(op.method, ep.path);
                assert(op.selected);
                assert(spaceless(op.method));
                lemma_deselected_keys(marked_eps, key);
                if saved.contains(key) {
                    assert(deselected_keys(marked_eps).contains(key));
                    let i = choose|i: int|
                        0 <= i < marked_eps.len() && names_deselected(
                            #[trigger] marked_eps[i],
                            key,
                        );
                    let other = marked_eps[i];
                    assert(other == flagged(eps[i], wanted));
                    let k = choose|k: int|
                        0 <= k < other.operations.len() && !(
                        #[trigger] other.operations[k]).selected && operation_key(
                            other.operations[k].method,
                            other.path,
                        ) == key;
                    assert(spaceless_methods(eps[i]));
                    assert(spaceless(eps[i].operations[k].method));
                    law_operation_key_tells_the_operation(
                        op.method,
                        ep.path,
                        other.operations[k].method,
                        other.path,
                    );
                }
                if !wanted(ep.path, op.method) {
                    assert(!marked_eps[at].operations[j].selected);
                    assert(names_deselected(marked_eps[at], key));
                    assert(saved.contains(key));
                }
            }
            assert(restored_endpoint(ep, saved).operations =~= flagged(ep, wanted).operations);
        }
        assert(back[g].endpoints =~= marked[g].endpoints);
    }
    assert(back =~= marked);
}

proof fn lemma_methods_spaceless(i: int)
    requires
        0 <= i < http_methods().len(),
    ensures
        spaceless(http_methods()[i]),
{
    reveal_strlit("get");
    reveal_strlit("post");
    reveal_strlit("put");
    reveal_strlit("patch");
    reveal_strlit("delete");
    reveal_strlit("head");
    reveal_strlit("options");
    reveal_strlit("trace");
}

/// An endpoint of a document is the endpoint of one of its paths.
pub proof fn lemma_from_path(paths: Seq<MemberView>, i: int) -> (k: int)
    requires
        0 <= i < all_endpoints(grouped(paths)).len(),
    ensures
        0 <= k < paths.len(),
        all_endpoints(grouped(paths))[i] == endpoint_of(paths[k]),
{
    broadcast use vstd::seq_lib::group_to_multiset_ensures;

    let eps = all_endpoints(grouped(paths));
    let ends = paths.map_values(|m: MemberView| endpoint_of(m));
    law_groups_hold_every_path(paths);
    assert(eps.contains(eps[i]));
    assert(eps.to_multiset().count(eps[i]) > 0);
    assert(endpoints_in(paths).contains(eps[i]));
    lemma_filter_from(ends, |ep: EndpointView| ep.operations.len() > 0);
    let j = choose|j: int| 0 <= j < endpoints_in(paths).len() && endpoints_in(paths)[j] == eps[i];
    assert(ends.contains(eps[i]));
    choose|k: int| 0 <= k < ends.len() && ends[k] == eps[i]
}

/// The methods of the endpoints of a document are HTTP methods, all selected.
proof fn lemma_document_endpoints(paths: Seq<MemberView>, i: int)
    requires
        0 <= i < all_endpoints(grouped(paths)).len(),
    ensures
        spaceless_methods(all_endpoints(grouped(paths))[i]),
        all_endpoints(grouped(paths))[i].all_selected(),
{
    let eps = all_endpoints(grouped(paths));
    let k = lemma_from_path(paths, i);
    let item = paths[k].value;
    let has = |m: Seq<char>| item.get(m) is Some;
    lemma_filter_from(http_methods(), has);
    assert forall|l: int| 0 <= l < eps[i].operations.len() implies spaceless(
        (#[trigger] eps[i].operations[l]).method,
    ) by {
        let m = http_methods().filter(has)[l];
        assert(eps[i].operations[l].method == m);
        let n = choose|n: int| 0 <= n < http_methods().len() && http_methods()[n] == m;
        lemma_methods_spaceless(n);
    }
}

/// Nothing is saved for a selection exactly if every operation is selected.
proof fn lemma_nothing_deselected(endpoints: Seq<EndpointView>)
    requires
        deselected_keys(endpoints).len() == 0,
    ensures
        forall|i: int| 0 <= i < endpoints.len() ==> (#[trigger] endpoints[i]).all_selected(),
{
    assert forall|i: int| 0 <= i < endpoints.len() implies (
    #[trigger] endpoints[i]).all_selected() by {
        let ep = endpoints[i];
        assert forall|j: int| 0 <= j < ep.operations.len() implies (
        #[trigger] ep.operations[j]).selected by {
            if !ep.operations[j].selected {
                let key = operation_key(ep.operations[j].method, ep.path);
                assert(names_deselected(endpoints[i], key));
                lemma_deselected_keys(endpoints, key);
            }
        }
    }
}

/// Whatever operations of a document are selected when its selection is saved, opening the same
/// document under the same key later brings the same selection back.
pub proof fn law_saved_selection_comes_back(
    db: SelectionView,
    key: Seq<char>,
    spec: JsonView,
    wanted: spec_fn(Seq<char>, Seq<char>) -> bool,
)
    requires
        extracted(spec) is Ok,
    ensures
        db.recorded(key, flagged_groups(extracted(spec)->Ok_0, wanted)).applied(
            key,
            extracted(spec)->Ok_0,
        ) == flagged_groups(extracted(spec)->Ok_0, wanted),
{
    let paths = spec.get("paths"@)->Some_0->Object_0;
    let groups = grouped(paths);
    let marked = flagged_groups(groups, wanted);
    let eps = all_endpoints(groups);
    let marked_eps = all_endpoints(marked);
    assert forall|i: int| 0 <= i < eps.len() implies spaceless_methods(#[trigger] eps[i])
        && eps[i].all_selected() by {
        lemma_document_endpoints(paths, i);
    }
    if deselected_keys(marked_eps).len() == 0 {
        lemma_nothing_deselected(marked_eps);
        crate::export_laws::lemma_flagged_endpoints(groups, wanted);
        assert forall|g: int| 0 <= g < groups.len() implies #[trigger] marked[g] == groups[g] by {
            let group = groups[g];
            assert forall|e: int| 0 <= e < group.endpoints.len() implies
                #[trigger] marked[g].endpoints[e] == group.endpoints[e] by {
                let at = lemma_endpoint_place(groups, g, e);
                let ep = group.endpoints[e];
                assert(marked_eps[at] == flagged(ep, wanted));
                assert(marked_eps[at].all_selected());
                assert(eps[at].all_selected());
                assert forall|j: int| 0 <= j < ep.operations.len() implies
                    #[trigger] ep.operations[j] == flagged(ep, wanted).operations[j] by {
                    assert(marked_eps[at].operations[j].selected);
                    assert(eps[at].operations[j].selected);
                }
                assert(flagged(ep, wanted).operations =~= ep.operations);
            }
            assert(marked[g].endpoints =~= group.endpoints);
        }
        assert(marked =~= groups);
    } else {
        lemma_restored_is_flagged(groups, wanted);
    }
}

/// Saving the selection of one source leaves what is saved for the others as it is.
pub proof fn law_saving_leaves_other_sources(
    db: SelectionView,
    key: Seq<char>,
    groups: Seq<GroupView>,
    other: Seq<char>,
)
    requires
        other != key,
    ensures
        db.recorded(key, groups).deselected.contains_key(other) == db.deselected.contains_key(
            other,
        ),
        db.recorded(key, groups).all_paths.contains_key(other) == db.all_paths.contains_key(other),
        db.deselected.contains_key(other) ==> db.recorded(key, groups).deselected[other]
            == db.deselected[other],
        db.all_paths.contains_key(other) ==> db.recorded(key, groups).all_paths[other]
            == db.all_paths[other],
{
}

/// Restoring a selection deselects exactly the operations that are saved for the source, by method,
/// space and path, and changes nothing else.
pub proof fn law_restoring_deselects_what_is_saved(
    db: SelectionView,
    key: Seq<char>,
    groups: Seq<GroupView>,
    g: int,
    e: int,
    o: int,
)
    requires
        0 <= g < groups.len(),
        0 <= e < groups[g].endpoints.len(),
        0 <= o < groups[g].endpoints[e].operations.len(),
    ensures
        ({
            let after = db.applied(key, groups);
            let ep = groups[g].endpoints[e];
            let op = ep.operations[o];
            &&& after.len() == groups.len()
            &&& after[g].name == groups[g].name
            &&& after[g].endpoints.len() == groups[g].endpoints.len()
            &&& after[g].endpoints[e].path == ep.path
            &&& after[g].endpoints[e].operations.len() == ep.operations.len()
            &&& after[g].endpoints[e].operations[o].method == op.method
            &&& after[g].endpoints[e].operations[o].selected == (op.selected && !(
            db.deselected.contains_key(key) && db.deselected[key].contains(
                op.method + " "@ + ep.path,
            )))
        }),
{
    if db.deselected.contains_key(key) {
        let saved = db.deselected[key];
        let text = groups[g].endpoints[e].operations[o].method + " "@ + groups[g].endpoints[e].path;
        assert(saved.to_set().contains(text) == saved.contains(text));
    }
}

proof fn lemma_all_keys(endpoints: Seq<EndpointView>, text: Seq<char>)
    ensures
        all_keys(endpoints).contains(text) <==> exists|i: int, j: int|
            0 <= i < endpoints.len() && 0 <= j < endpoints[i].operations.len() && (
            #[trigger] endpoints[i].operations[j]).method + " "@ + endpoints[i].path == text,
    decreases endpoints.len(),
{
    if endpoints.len() > 0 {
        let front = endpoints.drop_last();
        let n = endpoints.len() - 1;
        let fore = all_keys(front);
        let back = endpoint_keys(endpoints.last());
        let all = all_keys(endpoints);
        lemma_all_keys(front, text);
        if all.contains(text) {
            let k = choose|k: int| 0 <= k < all.len() && all[k] == text;
            if k < fore.len() {
                assert(fore[k] == text);
                let (i, j) = choose|i: int, j: int|
                    0 <= i < front.len() && 0 <= j < front[i].operations.len() && (
                    #[trigger] front[i].operations[j]).method + " "@ + front[i].path == text;
                assert(endpoints[i].operations[j] == front[i].operations[j]);
            } else {
                let j = k - fore.len();
                assert(back[j] == text);
                assert(endpoints[n].operations[j].method + " "@ + endpoints[n].path == text);
            }
        }
        if exists|i: int, j: int|
            0 <= i < endpoints.len() && 0 <= j < endpoints[i].operations.len() && (
            #[trigger] endpoints[i].operations[j]).method + " "@ + endpoints[i].path == text {
            let (i, j) = choose|i: int, j: int|
                0 <= i < endpoints.len() && 0 <= j < endpoints[i].operations.len() && (
                #[trigger] endpoints[i].operations[j]).method + " "@ + endpoints[i].path == text;
            if i < n {
                assert(front[i].operations[j].method + " "@ + front[i].path == text);
                let k = choose|k: int| 0 <= k < fore.len() && fore[k] == text;
                assert(all[k] == text);
            } else {
                assert(back[j] == text);
                assert(all[fore.len() + j] == text);
            }
        }
    }
}

/// The text is the method, a space and the path of an operation; of one that is not selected, where
/// `only_deselected` says so.
pub open spec fn names_operation(
    groups: Seq<GroupView>,
    text: Seq<char>,
    only_deselected: bool,
) -> bool {
    exists|g: int, e: int, o: int|
        {
            &&& 0 <= g < groups.len()
            &&& 0 <= e < groups[g].endpoints.len()
            &&& 0 <= o < groups[g].endpoints[e].operations.len()
            &&& (#[trigger] groups[g].endpoints[e].operations[o]).method + " "@
                + groups[g].endpoints[e].path == text
            &&& only_deselected ==> !groups[g].endpoints[e].operations[o].selected
        }
}

pub proof fn lemma_names_operation(groups: Seq<GroupView>, text: Seq<char>)
    ensures
        all_keys(all_endpoints(groups)).contains(text) <==> names_operation(groups, text, false),
        deselected_keys(all_endpoints(groups)).contains(text) <==> names_operation(
            groups,
            text,
            true,
        ),
{
    let eps = all_endpoints(groups);
    lemma_all_keys(eps, text);
    lemma_deselected_keys(eps, text);
    if all_keys(eps).contains(text) {
        let (i, j) = choose|i: int, j: int|
            0 <= i < eps.len() && 0 <= j < eps[i].operations.len() && (
            #[trigger] eps[i].operations[j]).method + " "@ + eps[i].path == text;
        let (g, e) = crate::filter_laws::lemma_place_of_endpoint(groups, i);
        assert(groups[g].endpoints[e].operations[j].method + " "@ + groups[g].endpoints[e].path
            == text);
    }
    if deselected_keys(eps).contains(text) {
        let i = choose|i: int| 0 <= i < eps.len() && names_deselected(#[trigger] eps[i], text);
        let j = choose|j: int|
            0 <= j < eps[i].operations.len() && !(#[trigger] eps[i].operations[j]).selected
                && operation_key(eps[i].operations[j].method, eps[i].path) == text;
        let (g, e) = crate::filter_laws::lemma_place_of_endpoint(groups, i);
        assert(groups[g].endpoints[e].operations[j].method + " "@ + groups[g].endpoints[e].path
            == text);
    }
    if names_operation(groups, text, true) {
        let (g, e, o) = choose|g: int, e: int, o: int|
            {
                &&& 0 <= g < groups.len()
                &&& 0 <= e < groups[g].endpoints.len()
                &&& 0 <= o < groups[g].endpoints[e].operations.len()
                &&& (#[trigger] groups[g].endpoints[e].operations[o]).method + " "@
                    + groups[g].endpoints[e].path == text
                &&& true ==> !groups[g].endpoints[e].operations[o].selected
            };
        let i = lemma_endpoint_place(groups, g, e);
        assert(!eps[i].operations[o].selected);
        assert(names_deselected(eps[i], text));
    }
    if names_operation(groups, text, false) {
        let (g, e, o) = choose|g: int, e: int, o: int|
            {
                &&& 0 <= g < groups.len()
                &&& 0 <= e < groups[g].endpoints.len()
                &&& 0 <= o < groups[g].endpoints[e].operations.len()
                &&& (#[trigger] groups[g].endpoints[e].operations[o]).method + " "@
                    + groups[g].endpoints[e].path == text
                &&& false ==> !groups[g].endpoints[e].operations[o].selected
            };
        let i = lemma_endpoint_place(groups, g, e);
        assert(eps[i].operations[o].method + " "@ + eps[i].path == text);
    }
}

/// Saving a selection keeps for the source exactly the operations that are not selected, if there
/// are any, and exactly all operations; where the database is kept stays as it is.
pub proof fn law_saving_keeps_what_is_deselected(
    db: SelectionView,
    key: Seq<char>,
    groups: Seq<GroupView>,
    text: Seq<char>,
)
    ensures
        ({
            let after = db.recorded(key, groups);
            &&& after.deselected.contains_key(key) && after.deselected[key].contains(text)
                <==> names_operation(groups, text, true)
            &&& after.deselected.contains_key(key) ==> after.deselected[key].len() > 0
            &&& after.all_paths.contains_key(key)
            &&& after.all_paths[key].contains(text) <==> names_operation(groups, text, false)
            &&& after.custom_path == db.custom_path
        }),
{
    lemma_names_operation(groups, text);
}

proof fn lemma_endpoint_key_counts(ep: EndpointView)
    ensures
        endpoint_keys(ep).len() == ep.operation_count(),
        endpoint_deselected(ep).len() + ep.selected_count() == ep.operation_count(),
    decreases ep.operations.len(),
{
    let pred = |op: OperationView| !op.selected;
    reveal(Seq::filter);
    if ep.operations.len() > 0 {
        let front = EndpointView { path: ep.path, operations: ep.operations.drop_last() };
        lemma_endpoint_key_counts(front);
        assert(endpoint_deselected(front).len() == front.operations.filter(pred).len());
        assert(endpoint_deselected(ep).len() == ep.operations.filter(pred).len());
    }
}

proof fn lemma_endpoints_key_counts(endpoints: Seq<EndpointView>)
    ensures
        all_keys(endpoints).len() == operation_total(endpoints),
        deselected_keys(endpoints).len() + selected_total(endpoints) == operation_total(endpoints),
    decreases endpoints.len(),
{
    if endpoints.len() > 0 {
        lemma_endpoints_key_counts(endpoints.drop_last());
        lemma_endpoint_key_counts(endpoints.last());
    }
}

proof fn lemma_totals_add_up(a: Seq<EndpointView>, b: Seq<EndpointView>)
    ensures
        operation_total(a + b) == operation_total(a) + operation_total(b),
        selected_total(a + b) == selected_total(a) + selected_total(b),
    decreases b.len(),
{
    if b.len() == 0 {
        assert(a + b =~= a);
    } else {
        lemma_totals_add_up(a, b.drop_last());
        assert((a + b).drop_last() =~= a + b.drop_last());
    }
}

proof fn lemma_group_totals(groups: Seq<GroupView>)
    ensures
        groups_operations(groups) == operation_total(all_endpoints(groups)),
        groups_selected(groups) == selected_total(all_endpoints(groups)),
    decreases groups.len(),
{
    if groups.len() > 0 {
        lemma_group_totals(groups.drop_last());
        lemma_totals_add_up(all_endpoints(groups.drop_last()), groups.last().endpoints);
    }
}

/// As many operations are counted as are saved as known, and as many of them as not selected as are
/// saved as deselected.
pub proof fn law_counts_go_with_what_is_saved(
    db: SelectionView,
    key: Seq<char>,
    groups: Seq<GroupView>,
)
    ensures
        ({
            let after = db.recorded(key, groups);
            &&& groups_operations(groups) == after.all_paths[key].len()
            &&& groups_operations(groups) - groups_selected(groups)
                == if after.deselected.contains_key(key) {
                after.deselected[key].len()
            } else {
                0
            }
        }),
{
    lemma_group_totals(groups);
    lemma_endpoints_key_counts(all_endpoints(groups));
}

/// The lists that are saved follow the groups, in these the endpoints, and in these the operations:
/// with an operation more at the end, all operations have its method, a space and its path more at
/// the end, and so have the deselected ones if it is not selected. Nothing is saved of groups
/// and endpoints without operations.
pub proof fn law_saved_lists_follow_the_groups(
    db: SelectionView,
    key: Seq<char>,
    groups: Seq<GroupView>,
    name: Seq<char>,
    endpoints: Seq<EndpointView>,
    path: Seq<char>,
    operations: Seq<OperationView>,
    op: OperationView,
)
    ensures
        ({
            let start = db.recorded(key, Seq::empty());
            let before = db.recorded(key, groups);
            let named = db.recorded(
                key,
                groups.push(GroupView { name, endpoints: Seq::empty() }),
            );
            let filled = db.recorded(key, groups.push(GroupView { name, endpoints }));
            let opened = db.recorded(
                key,
                groups.push(
                    GroupView {
                        name,
                        endpoints: endpoints.push(EndpointView { path, operations: Seq::empty() }),
                    },
                ),
            );
            let less = db.recorded(
                key,
                groups.push(
                    GroupView { name, endpoints: endpoints.push(EndpointView { path, operations }) },
                ),
            );
            let more = db.recorded(
                key,
                groups.push(
                    GroupView {
                        name,
                        endpoints: endpoints.push(
                            EndpointView { path, operations: operations.push(op) },
                        ),
                    },
                ),
            );
            let text = op.method + " "@ + path;
            &&& start.all_paths[key].len() == 0
            &&& start.deselected_in(key).len() == 0
            &&& named.all_paths[key] == before.all_paths[key]
            &&& named.deselected_in(key) == before.deselected_in(key)
            &&& opened.all_paths[key] == filled.all_paths[key]
            &&& opened.deselected_in(key) == filled.deselected_in(key)
            &&& more.all_paths[key] == less.all_paths[key].push(text)
            &&& more.deselected_in(key) == if op.selected {
                less.deselected_in(key)
            } else {
                less.deselected_in(key).push(text)
            }
        }),
{
    let front = all_endpoints(groups);
    let ep0 = EndpointView { path, operations: Seq::empty() };
    let ep1 = EndpointView { path, operations };
    let ep2 = EndpointView { path, operations: operations.push(op) };
    lemma_list_of_group(groups, GroupView { name, endpoints: Seq::empty() });
    lemma_list_of_group(groups, GroupView { name, endpoints });
    lemma_list_of_group(groups, GroupView { name, endpoints: endpoints.push(ep0) });
    lemma_list_of_group(groups, GroupView { name, endpoints: endpoints.push(ep1) });
    lemma_list_of_group(groups, GroupView { name, endpoints: endpoints.push(ep2) });
    assert(front + Seq::<EndpointView>::empty() =~= front);
    lemma_list_of_endpoint(front + endpoints, ep0);
    lemma_list_of_endpoint(front + endpoints, ep1);
    lemma_list_of_endpoint(front + endpoints, ep2);
    assert(front + endpoints.push(ep0) =~= (front + endpoints).push(ep0));
    assert(front + endpoints.push(ep1) =~= (front + endpoints).push(ep1));
    assert(front + endpoints.push(ep2) =~= (front + endpoints).push(ep2));
    reveal(Seq::filter);
    assert(operations.push(op).drop_last() =~= operations);
    assert(endpoint_keys(ep0) =~= Seq::empty());
    assert(endpoint_deselected(ep0) =~= Seq::empty());
    assert(endpoint_keys(ep2) =~= endpoint_keys(ep1).push(op.method + " "@ + path));
    assert(endpoint_deselected(ep2) =~= if op.selected {
        endpoint_deselected(ep1)
    } else {
        endpoint_deselected(ep1).push(op.method + " "@ + path)
    });
    assert(all_keys((front + endpoints).push(ep2)) =~= all_keys((front + endpoints).push(ep1)).push(
        op.method + " "@ + path,
    ));
    if !op.selected {
        assert(deselected_keys((front + endpoints).push(ep2)) =~= deselected_keys(
            (front + endpoints).push(ep1),
        ).push(op.method + " "@ + path));
    }
}

proof fn lemma_list_of_group(groups: Seq<GroupView>, group: GroupView)
    ensures
        all_endpoints(groups.push(group)) == all_endpoints(groups) + group.endpoints,
{
    assert(groups.push(group).drop_last() =~= groups);
}

proof fn lemma_list_of_endpoint(endpoints: Seq<EndpointView>, ep: EndpointView)
    ensures
        all_keys(endpoints.push(ep)) == all_keys(endpoints) + endpoint_keys(ep),
        deselected_keys(endpoints.push(ep)) == deselected_keys(endpoints) + endpoint_deselected(ep),
{
    assert(endpoints.push(ep).drop_last() =~= endpoints);
}

} // verus!
