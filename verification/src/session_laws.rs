//! What holds from one session to the next, in the window and without it.

use vstd::prelude::*;

use crate::app_state::{initial_app, AppView};
use crate::cli::cli_groups;
use crate::codec::serialized;
use crate::drift::{current_keys, DriftReport};
use crate::edit::lemma_filter_from;
use crate::export_laws::flagged_groups;
use crate::extract::{
    endpoint_of, endpoints_in, extracted, grouped, http_methods, law_groups_hold_every_path,
};
use crate::filter::filtered;
use crate::format::SpecFormat;
use crate::json::{distinct_keys, key_index, lemma_key_index, JsonView, MemberView};
use crate::model::{all_endpoints, EndpointView, GroupView, OperationView};
use crate::selection::{
    all_keys, deselected_keys, endpoint_deselected, endpoint_keys, operation_key, restored,
    restored_endpoint, restored_group, SelectionView,
};
use crate::selection_laws::{law_saved_selection_comes_back, lemma_endpoint_place, lemma_from_path};
use crate::text::texts;

verus! {

/// The endpoints are the same but for what is selected.
pub open spec fn same_endpoint(a: EndpointView, b: EndpointView) -> bool {
    &&& a.path == b.path
    &&& a.operations.len() == b.operations.len()
    &&& forall|i: int|
        0 <= i < a.operations.len() ==> (#[trigger] a.operations[i]).method
            == b.operations[i].method
}

/// The groups are the same but for what is selected.
pub open spec fn same_group(a: GroupView, b: GroupView) -> bool {
    &&& a.name == b.name
    &&& a.endpoints.len() == b.endpoints.len()
    &&& forall|i: int|
        0 <= i < a.endpoints.len() ==> same_endpoint(#[trigger] a.endpoints[i], b.endpoints[i])
}

/// The lists of groups are the same but for what is selected.
pub open spec fn same_operations(a: Seq<GroupView>, b: Seq<GroupView>) -> bool {
    &&& a.len() == b.len()
    &&& forall|i: int| 0 <= i < a.len() ==> same_group(#[trigger] a[i], b[i])
}

/// The operation of the path and the method is selected.
spec fn is_selected(
    groups: Seq<GroupView>,
    path: Seq<char>,
    method: Seq<char>,
) -> bool {
    exists|i: int, j: int|
        0 <= i < all_endpoints(groups).len() && 0 <= j < all_endpoints(groups)[i].operations.len()
            && all_endpoints(groups)[i].path == path && (
        #[trigger] all_endpoints(groups)[i].operations[j]).method == method
            && all_endpoints(groups)[i].operations[j].selected
}

pub proof fn lemma_same_endpoints(a: Seq<GroupView>, b: Seq<GroupView>)
    requires
        same_operations(a, b),
    ensures
        all_endpoints(a).len() == all_endpoints(b).len(),
        forall|i: int|
            0 <= i < all_endpoints(a).len() ==> same_endpoint(
                #[trigger] all_endpoints(a)[i],
                all_endpoints(b)[i],
            ),
    decreases a.len(),
{
    if a.len() > 0 {
        let x = a.drop_last();
        let y = b.drop_last();
        assert forall|i: int| 0 <= i < x.len() implies same_group(#[trigger] x[i], y[i]) by {
            assert(same_group(a[i], b[i]));
        }
        lemma_same_endpoints(x, y);
        let n = a.len() - 1;
        assert(same_group(a[n], b[n]));
        assert forall|i: int| 0 <= i < all_endpoints(a).len() implies same_endpoint(
            #[trigger] all_endpoints(a)[i],
            all_endpoints(b)[i],
        ) by {
            let m = all_endpoints(x).len();
            if i < m {
                assert(same_endpoint(all_endpoints(x)[i], all_endpoints(y)[i]));
            } else {
                assert(same_endpoint(a[n].endpoints[i - m], b[n].endpoints[i - m]));
            }
        }
    }
}

/// Endpoints of different paths are different.
pub open spec fn distinct_paths(endpoints: Seq<EndpointView>) -> bool {
    forall|i: int, j: int|
        0 <= i < j < endpoints.len() ==> (#[trigger] endpoints[i]).path != (
        #[trigger] endpoints[j]).path
}

proof fn lemma_endpoints_in_distinct(paths: Seq<MemberView>)
    requires
        distinct_keys(paths),
    ensures
        distinct_paths(endpoints_in(paths)),
    decreases paths.len(),
{
    let ends = paths.map_values(|m: MemberView| endpoint_of(m));
    let full = |ep: EndpointView| ep.operations.len() > 0;
    if paths.len() == 0 {
        reveal(Seq::filter);
        assert(endpoints_in(paths) =~= Seq::empty());
    } else {
        let front = paths.drop_last();
        let front_ends = front.map_values(|m: MemberView| endpoint_of(m));
        let ep = endpoint_of(paths.last());
        assert forall|i: int, j: int| 0 <= i < j < front.len() implies (
        #[trigger] front[i]).key != (#[trigger] front[j]).key by {
            assert(paths[i].key != paths[j].key);
        }
        lemma_endpoints_in_distinct(front);
        assert(ends =~= front_ends.push(ep));
        crate::edit::lemma_filter_push(front_ends, full, ep);
        lemma_filter_from(front_ends, full);
        let all = endpoints_in(paths);
        let before = endpoints_in(front);
        assert forall|i: int, j: int| 0 <= i < j < all.len() implies (#[trigger] all[i]).path != (
        #[trigger] all[j]).path by {
            assert(all[i] == before[i]);
            if j < before.len() {
                assert(all[j] == before[j]);
            } else {
                assert(all[j] == ep);
                assert(front_ends.contains(before[i]));
                let k = choose|k: int| 0 <= k < front_ends.len() && front_ends[k] == before[i];
                assert(paths[k].key != paths[paths.len() - 1].key);
            }
        }
    }
}

/// A value that stands at two places is counted twice.
proof fn lemma_count_two<A>(s: Seq<A>, i: int, j: int)
    requires
        0 <= i < j < s.len(),
        s[i] == s[j],
    ensures
        s.to_multiset().count(s[i]) >= 2,
{
    broadcast use vstd::seq_lib::group_to_multiset_ensures;

    let less = s.remove(j);
    assert(less[i] == s[i]);
    assert(less.contains(s[i]));
    assert(less.to_multiset().count(s[i]) > 0);
    assert(less.to_multiset() =~= s.to_multiset().remove(s[j]));
}

/// A value that stands at one place only is counted once.
proof fn lemma_count_one(s: Seq<EndpointView>, e: EndpointView)
    requires
        distinct_paths(s),
    ensures
        s.to_multiset().count(e) <= 1,
    decreases s.len(),
{
    broadcast use vstd::seq_lib::group_to_multiset_ensures;

    if s.len() > 0 {
        let front = s.drop_last();
        assert(s =~= front.push(s.last()));
        assert forall|i: int, j: int| 0 <= i < j < front.len() implies (
        #[trigger] front[i]).path != (#[trigger] front[j]).path by {
            assert(s[i].path != s[j].path);
        }
        lemma_count_one(front, e);
        if s.last() == e && front.contains(e) {
            let i = choose|i: int| 0 <= i < front.len() && front[i] == e;
            assert(s[i].path != s[s.len() - 1].path);
        }
    } else {
        assert(s =~= Seq::empty());
    }
}

/// No path of a document has two endpoints.
pub proof fn lemma_document_paths_distinct(paths: Seq<MemberView>)
    requires
        distinct_keys(paths),
    ensures
        distinct_paths(all_endpoints(grouped(paths))),
{
    let eps = all_endpoints(grouped(paths));
    law_groups_hold_every_path(paths);
    lemma_endpoints_in_distinct(paths);
    assert forall|i: int, j: int| 0 <= i < j < eps.len() implies (#[trigger] eps[i]).path != (
    #[trigger] eps[j]).path by {
        if eps[i].path == eps[j].path {
            let k = lemma_from_path(paths, i);
            let l = lemma_from_path(paths, j);
            if k != l {
                assert(paths[k].key != paths[l].key);
            }
            lemma_count_two(eps, i, j);
            lemma_count_one(endpoints_in(paths), eps[i]);
        }
    }
}

proof fn lemma_filter_no_duplicates<A>(s: Seq<A>, pred: spec_fn(A) -> bool)
    requires
        s.no_duplicates(),
    ensures
        s.filter(pred).no_duplicates(),
    decreases s.len(),
{
    reveal(Seq::filter);
    if s.len() > 0 {
        let front = s.drop_last();
        lemma_filter_no_duplicates(front, pred);
        lemma_filter_from(front, pred);
        let kept = front.filter(pred);
        assert forall|i: int, j: int|
            0 <= i < s.filter(pred).len() && 0 <= j < s.filter(pred).len() && i
                != j implies s.filter(pred)[i] != s.filter(pred)[j] by {
            if i < kept.len() && j < kept.len() {
                assert(kept[i] != kept[j]);
            } else if i < kept.len() {
                assert(front.contains(kept[i]));
                let k = choose|k: int| 0 <= k < front.len() && front[k] == kept[i];
                assert(s[k] != s[s.len() - 1]);
            } else {
                assert(front.contains(kept[j]));
                let k = choose|k: int| 0 <= k < front.len() && front[k] == kept[j];
                assert(s[k] != s[s.len() - 1]);
            }
        }
    }
}

proof fn lemma_methods_distinct()
    ensures
        http_methods().no_duplicates(),
{
    reveal_strlit("get");
    reveal_strlit("post");
    reveal_strlit("put");
    reveal_strlit("patch");
    reveal_strlit("delete");
    reveal_strlit("head");
    reveal_strlit("options");
    reveal_strlit("trace");
    let m = http_methods();
    assert(m[0].len() == 3 && m[1].len() == 4 && m[2].len() == 3 && m[3].len() == 5 && m[4].len()
        == 6 && m[5].len() == 4 && m[6].len() == 7 && m[7].len() == 5);
    assert(m[0][0] == 'g' && m[2][0] == 'p' && m[1][0] == 'p' && m[5][0] == 'h' && m[3][0] == 'p'
        && m[7][0] == 't');
}

/// No endpoint of a document has a method twice.
pub proof fn lemma_document_methods_distinct(paths: Seq<MemberView>, i: int, j: int, k: int)
    requires
        0 <= i < all_endpoints(grouped(paths)).len(),
        0 <= j < k < all_endpoints(grouped(paths))[i].operations.len(),
    ensures
        all_endpoints(grouped(paths))[i].operations[j].method != all_endpoints(
            grouped(paths),
        )[i].operations[k].method,
{
    let at = lemma_from_path(paths, i);
    let item = paths[at].value;
    let has = |m: Seq<char>| item.get(m) is Some;
    lemma_methods_distinct();
    lemma_filter_no_duplicates(http_methods(), has);
    let methods = http_methods().filter(has);
    assert(methods[j] != methods[k]);
}

/// Whatever is selected of a document, its groups are those of the document with the operations
/// selected that some choice by path and method accepts.
pub proof fn law_every_selection_is_a_choice(spec: JsonView, groups: Seq<GroupView>) -> (wanted:
    spec_fn(Seq<char>, Seq<char>) -> bool)
    requires
        spec.well_formed(),
        extracted(spec) is Ok,
        same_operations(groups, extracted(spec)->Ok_0),
    ensures
        groups == flagged_groups(extracted(spec)->Ok_0, wanted),
{
    let wanted = |path: Seq<char>, method: Seq<char>| is_selected(groups, path, method);
    let found = extracted(spec)->Ok_0;
    let members = spec->Object_0;
    lemma_key_index(members, "paths"@);
    assert(members[key_index(members, "paths"@)].value.well_formed());
    let paths = spec.get("paths"@)->Some_0->Object_0;
    lemma_document_paths_distinct(paths);
    lemma_same_endpoints(groups, found);
    let eps = all_endpoints(groups);
    let found_eps = all_endpoints(found);
    let marked = flagged_groups(found, wanted);
    assert forall|g: int| 0 <= g < groups.len() implies #[trigger] groups[g] == marked[g] by {
        assert(same_group(groups[g], found[g]));
        assert forall|e: int| 0 <= e < groups[g].endpoints.len() implies
            #[trigger] groups[g].endpoints[e] == marked[g].endpoints[e] by {
            let ep = groups[g].endpoints[e];
            let at = lemma_endpoint_place(groups, g, e);
            assert(same_endpoint(ep, found[g].endpoints[e]));
            assert(same_endpoint(eps[at], found_eps[at]));
            assert forall|j: int| 0 <= j < ep.operations.len() implies
                #[trigger] ep.operations[j] == marked[g].endpoints[e].operations[j] by {
                let op = ep.operations[j];
                assert(found[g].endpoints[e].operations[j].method == op.method);
                if op.selected {
                    assert(eps[at].operations[j].method == op.method);
                }
                if wanted(ep.path, op.method) {
                    let (x, y) = choose|x: int, y: int|
                        0 <= x < eps.len() && 0 <= y < eps[x].operations.len() && eps[x].path
                            == ep.path && (#[trigger] eps[x].operations[y]).method == op.method
                            && eps[x].operations[y].selected;
                    assert(same_endpoint(eps[x], found_eps[x]));
                    if x < at {
                        assert(found_eps[x].path != found_eps[at].path);
                    } else if at < x {
                        assert(found_eps[at].path != found_eps[x].path);
                    }
                    assert(found_eps[at].operations[y].method == op.method);
                    assert(found_eps[at].operations[j].method == op.method);
                    if y < j {
                        lemma_document_methods_distinct(paths, at, y, j);
                    } else if j < y {
                        lemma_document_methods_distinct(paths, at, j, y);
                    }
                }
            }
            assert(ep.operations =~= marked[g].endpoints[e].operations);
        }
        assert(groups[g].endpoints =~= marked[g].endpoints);
    }
    assert(groups =~= marked);
    wanted
}

impl AppView {
    /// The groups are those of the open document, whatever is selected of them.
    pub open spec fn coherent(self) -> bool {
        match self.spec {
            Some(tree) => extracted(tree) is Ok && same_operations(
                self.groups,
                extracted(tree)->Ok_0,
            ),
            None => self.groups.len() == 0,
        }
    }
}

pub proof fn lemma_restored_same(groups: Seq<GroupView>, saved: Set<Seq<char>>)
    ensures
        same_operations(restored(groups, saved), groups),
{
    let back = restored(groups, saved);
    assert forall|g: int| 0 <= g < back.len() implies same_group(#[trigger] back[g], groups[g]) by {
        assert(back[g] == restored_group(groups[g], saved));
        assert forall|e: int| 0 <= e < back[g].endpoints.len() implies same_endpoint(
            #[trigger] back[g].endpoints[e],
            groups[g].endpoints[e],
        ) by {
            assert(back[g].endpoints[e] == restored_endpoint(groups[g].endpoints[e], saved));
        }
    }
}

proof fn lemma_same_transitive(a: Seq<GroupView>, b: Seq<GroupView>, c: Seq<GroupView>)
    requires
        same_operations(a, b),
        same_operations(b, c),
    ensures
        same_operations(a, c),
{
    assert forall|g: int| 0 <= g < a.len() implies same_group(#[trigger] a[g], c[g]) by {
        assert(same_group(a[g], b[g]) && same_group(b[g], c[g]));
        assert forall|e: int| 0 <= e < a[g].endpoints.len() implies same_endpoint(
            #[trigger] a[g].endpoints[e],
            c[g].endpoints[e],
        ) by {
            let x = a[g].endpoints[e];
            let y = b[g].endpoints[e];
            let z = c[g].endpoints[e];
            assert(same_endpoint(x, y) && same_endpoint(y, z));
            assert forall|i: int| 0 <= i < x.operations.len() implies (
            #[trigger] x.operations[i]).method == z.operations[i].method by {
                assert(y.operations[i].method == z.operations[i].method);
            }
        }
    }
}

proof fn lemma_with_all_same(groups: Seq<GroupView>, selected: bool)
    ensures
        same_operations(groups.map_values(|g: GroupView| g.with_all(selected)), groups),
{
    let changed = groups.map_values(|g: GroupView| g.with_all(selected));
    assert forall|g: int| 0 <= g < changed.len() implies same_group(
        #[trigger] changed[g],
        groups[g],
    ) by {
        assert(changed[g] == groups[g].with_all(selected));
        assert forall|e: int| 0 <= e < changed[g].endpoints.len() implies same_endpoint(
            #[trigger] changed[g].endpoints[e],
            groups[g].endpoints[e],
        ) by {
            assert(changed[g].endpoints[e] == groups[g].endpoints[e].with_all(selected));
        }
    }
}

/// At its start the editor shows the groups of the open document, none, and every action of it
/// keeps that so: loading a file or a text, restoring a selection, selecting everything or
/// nothing, and exporting.
pub proof fn law_editor_shows_the_open_document(
    app: AppView,
    db: SelectionView,
    forced: Option<Seq<char>>,
    document: Result<JsonView, Seq<char>>,
    loaded: Result<(JsonView, SpecFormat), Seq<char>>,
    format: SpecFormat,
    name: Seq<char>,
    key: Seq<char>,
    selected: bool,
    outcome: Result<(), Seq<char>>,
    path: Seq<char>,
)
    requires
        app.coherent(),
    ensures
        initial_app(db, forced).coherent(),
        app.with_saved_selection().coherent(),
        app.with_document(document, format, name, key).coherent(),
        app.with_file(loaded, name, key).coherent(),
        app.with_selection_saved().coherent(),
        app.with_export_written(outcome, path).coherent(),
        (AppView {
            groups: app.groups.map_values(|g: GroupView| g.with_all(selected)),
            ..app
        }).coherent(),
{
    lemma_saved_selection_coherent(app);
    lemma_document_coherent(app, document, format, name, key);
    match loaded {
        Ok((tree, read_format)) => {
            lemma_document_coherent(app, Ok(tree), read_format, name, key);
        },
        Err(_) => {},
    }
    lemma_with_all_same(app.groups, selected);
    match app.spec {
        Some(tree) => {
            lemma_same_transitive(
                app.groups.map_values(|g: GroupView| g.with_all(selected)),
                app.groups,
                extracted(tree)->Ok_0,
            );
        },
        None => {},
    }
}

proof fn lemma_saved_selection_coherent(app: AppView)
    requires
        app.coherent(),
    ensures
        app.with_saved_selection().coherent(),
{
    match app.source_key {
        Some(key) => {
            if app.selection_db.deselected.contains_key(key) {
                let saved = app.selection_db.deselected[key].to_set();
                lemma_restored_same(app.groups, saved);
                match app.spec {
                    Some(tree) => {
                        lemma_same_transitive(
                            restored(app.groups, saved),
                            app.groups,
                            extracted(tree)->Ok_0,
                        );
                    },
                    None => {},
                }
            }
        },
        None => {},
    }
}

proof fn lemma_document_coherent(
    app: AppView,
    document: Result<JsonView, Seq<char>>,
    format: SpecFormat,
    name: Seq<char>,
    key: Seq<char>,
)
    requires
        app.coherent(),
    ensures
        app.with_document(document, format, name, key).coherent(),
{
    match document {
        Ok(tree) => match extracted(tree) {
            Ok(groups) => {
                let fresh = AppView {
                    spec: Some(tree),
                    source_format: format,
                    export_format: format,
                    groups,
                    status: crate::app_state::loaded_status(
                        name,
                        crate::model::groups_operations(groups),
                    ),
                    loaded_file_name: Some(name),
                    search_query: Seq::empty(),
                    source_key: Some(key),
                    ..app
                };
                assert(same_operations(groups, groups));
                lemma_saved_selection_coherent(fresh);
            },
            Err(_) => {},
        },
        Err(_) => {},
    }
}

/// Once the selection of a document was saved, an export without a window works on the same
/// selection.
pub proof fn law_export_without_window_has_the_selection(
    db: SelectionView,
    key: Seq<char>,
    spec: JsonView,
    groups: Seq<GroupView>,
)
    requires
        spec.well_formed(),
        extracted(spec) is Ok,
        same_operations(groups, extracted(spec)->Ok_0),
    ensures
        cli_groups(db.recorded(key, groups), key, spec) == Ok::<
            Option<Seq<GroupView>>,
            Seq<char>,
        >(Some(groups)),
{
    let wanted = law_every_selection_is_a_choice(spec, groups);
    law_saved_selection_comes_back(db, key, spec, wanted);
}

/// After an export from the window with unused components removed, an export without a window of
/// the same document to a file of the same format writes the same text.
pub proof fn law_export_without_window_repeats_the_export(app: AppView, path: Seq<char>)
    requires
        app.coherent(),
        app.spec matches Some(tree) && tree.well_formed(),
        app.source_key is Some,
        app.prune_components,
    ensures
        ({
            let tree = app.spec->Some_0;
            let saved = app.with_export_written(Ok(()), path).selection_db;
            &&& cli_groups(saved, app.source_key->Some_0, tree) == Ok::<
                Option<Seq<GroupView>>,
                Seq<char>,
            >(Some(app.groups))
            &&& app.export_text() == Some(
                serialized(filtered(tree, app.groups, true), app.export_format),
            )
        }),
{
    law_export_without_window_has_the_selection(
        app.selection_db,
        app.source_key->Some_0,
        app.spec->Some_0,
        app.groups,
    );
}

/// An export without a window leaves a selection with which the next one, of the same document,
/// works on the same operations.
pub proof fn law_export_without_window_repeats_itself(
    db: SelectionView,
    key: Seq<char>,
    spec: JsonView,
    groups: Seq<GroupView>,
)
    requires
        spec.well_formed(),
        cli_groups(db, key, spec) == Ok::<Option<Seq<GroupView>>, Seq<char>>(Some(groups)),
    ensures
        cli_groups(db.recorded(key, groups), key, spec) == Ok::<
            Option<Seq<GroupView>>,
            Seq<char>,
        >(Some(groups)),
{
    let found = extracted(spec)->Ok_0;
    if db.deselected.contains_key(key) {
        lemma_restored_same(found, db.deselected[key].to_set());
    } else {
        assert(same_operations(found, found));
    }
    law_export_without_window_has_the_selection(db, key, spec, groups);
}

proof fn lemma_endpoint_deselected_among(ep: EndpointView, key: Seq<char>)
    requires
        endpoint_deselected(ep).contains(key),
    ensures
        endpoint_keys(ep).contains(key),
{
    let pred = |op: OperationView| !op.selected;
    let kept = ep.operations.filter(pred);
    lemma_filter_from(ep.operations, pred);
    let i = choose|i: int|
        0 <= i < endpoint_deselected(ep).len() && endpoint_deselected(ep)[i] == key;
    assert(ep.operations.contains(kept[i]));
    let j = choose|j: int| 0 <= j < ep.operations.len() && ep.operations[j] == kept[i];
    assert(endpoint_keys(ep)[j] == key);
}

/// What is saved as deselected is among what is saved as known.
pub proof fn law_deselected_operations_are_known(endpoints: Seq<EndpointView>, key: Seq<char>)
    requires
        deselected_keys(endpoints).contains(key),
    ensures
        all_keys(endpoints).contains(key),
    decreases endpoints.len(),
{
    let all = deselected_keys(endpoints);
    let k = choose|k: int| 0 <= k < all.len() && all[k] == key;
    let front = endpoints.drop_last();
    let fore = deselected_keys(front);
    let known = all_keys(front);
    if k < fore.len() {
        assert(fore[k] == key);
        law_deselected_operations_are_known(front, key);
        let m = choose|m: int| 0 <= m < known.len() && known[m] == key;
        assert(all_keys(endpoints)[m] == key);
    } else {
        let back = endpoint_keys(endpoints.last());
        assert(endpoint_deselected(endpoints.last())[k - fore.len()] == key);
        lemma_endpoint_deselected_among(endpoints.last(), key);
        let m = choose|m: int| 0 <= m < back.len() && back[m] == key;
        assert(all_keys(endpoints)[known.len() + m] == key);
    }
}

proof fn lemma_same_keys(a: Seq<EndpointView>, b: Seq<EndpointView>)
    requires
        a.len() == b.len(),
        forall|i: int| 0 <= i < a.len() ==> same_endpoint(#[trigger] a[i], b[i]),
    ensures
        all_keys(a) == all_keys(b),
    decreases a.len(),
{
    if a.len() > 0 {
        let x = a.drop_last();
        let y = b.drop_last();
        assert forall|i: int| 0 <= i < x.len() implies same_endpoint(#[trigger] x[i], y[i]) by {
            assert(same_endpoint(a[i], b[i]));
        }
        lemma_same_keys(x, y);
        let n = a.len() - 1;
        assert(same_endpoint(a[n], b[n]));
        assert forall|j: int| 0 <= j < endpoint_keys(a.last()).len() implies
            #[trigger] endpoint_keys(a.last())[j] == endpoint_keys(b.last())[j] by {
            assert(a[n].operations[j].method == b[n].operations[j].method);
        }
        assert(endpoint_keys(a.last()) =~= endpoint_keys(b.last()));
    }
}

/// A document that has the operations that it had when its selection was saved is reported as
/// unchanged, whatever was selected.
pub proof fn law_unchanged_document_shows_no_drift(
    db: SelectionView,
    key: Seq<char>,
    saved_groups: Seq<GroupView>,
    groups: Seq<GroupView>,
    report: DriftReport,
)
    requires
        same_operations(saved_groups, groups),
        report.tells(
            db.recorded(key, saved_groups).deselected_in(key),
            db.recorded(key, saved_groups).known_in(key),
            current_keys(groups),
        ),
    ensures
        report.removed@.len() == 0,
        report.removed_selected@.len() == 0,
        report.new_ops@.len() == 0,
{
    let eps = all_endpoints(saved_groups);
    let saved = deselected_keys(eps);
    let known = all_keys(eps);
    let current = current_keys(groups);
    assert(db.recorded(key, saved_groups).deselected_in(key) =~= saved);
    lemma_same_endpoints(saved_groups, groups);
    lemma_same_keys(eps, all_endpoints(groups));
    assert(current == known.to_set());
    let absent = |k: Seq<char>| !current.contains(k);
    lemma_filter_from(saved, absent);
    if report.removed@.len() > 0 {
        let k = saved.filter(absent)[0];
        assert(texts(report.removed@)[0] == k);
        assert(absent(k));
        assert(saved.contains(k));
        law_deselected_operations_are_known(eps, k);
    }
    if report.removed_selected@.len() > 0 {
        let k = texts(report.removed_selected@)[0];
        assert(texts(report.removed_selected@).to_set().contains(k));
    }
    if report.new_ops@.len() > 0 {
        let k = texts(report.new_ops@)[0];
        assert(texts(report.new_ops@).to_set().contains(k));
    }
}

/// An operation that was not in the document when its selection was saved keeps its place and its
/// flag when the selection is restored: in a document just opened, new operations are selected.
pub proof fn law_new_operations_stay_selected(
    db: SelectionView,
    key: Seq<char>,
    saved_groups: Seq<GroupView>,
    groups: Seq<GroupView>,
    g: int,
    e: int,
    j: int,
)
    requires
        0 <= g < groups.len(),
        0 <= e < groups[g].endpoints.len(),
        0 <= j < groups[g].endpoints[e].operations.len(),
        !db.recorded(key, saved_groups).all_paths[key].contains(
            operation_key(
                groups[g].endpoints[e].operations[j].method,
                groups[g].endpoints[e].path,
            ),
        ),
    ensures
        db.recorded(key, saved_groups).applied(key, groups)[g].endpoints[e].operations[j]
            == groups[g].endpoints[e].operations[j],
{
    let eps = all_endpoints(saved_groups);
    let saved = deselected_keys(eps);
    let op = groups[g].endpoints[e].operations[j];
    let k = operation_key(op.method, groups[g].endpoints[e].path);
    if saved.contains(k) {
        law_deselected_operations_are_known(eps, k);
    }
    assert(!saved.to_set().contains(k));
}

} // verus!
