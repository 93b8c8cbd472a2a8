//! What an exported document shows of the selection that it was made from.

use vstd::prelude::*;

use crate::component::{
    component, component_mentions, is_entry_ref, lemma_entry_ref_target, names_entry,
};
use crate::edit::{
    lemma_filter_from, lemma_filter_keeps, lemma_filter_push, lemma_lookup_filter,
    lemma_lookup_with_value,
};
use crate::extract::{
    add_endpoint, all_fresh, endpoint_of, endpoints_in, extracted, group_name, grouped,
    http_methods, insert_by_path, law_groups_are_in_order, law_groups_hold_every_path, names_ascend,
    operations_of, paths_ascend,
};
use crate::filter::{
    deselects, dropped, filtered, filtered_paths, is_partial, last_partial,
    lemma_trimmed_well_formed, trimmed, trimmed_item, trimmed_path,
};
use crate::json::{distinct_keys, JsonView, MemberView};
use crate::model::{all_endpoints, EndpointView, GroupView, OperationView};
use crate::pointer::{resolved, unescaped};
use crate::prune::{law_prune_keeps_other_parts, law_prune_leaves_no_dangling_reference, seeded};
use crate::text::{
    lemma_text_lt_irreflexive, lemma_text_lt_total, lemma_text_lt_transitive, text_lt,
};

verus! {

/// The endpoint with those operations selected that `wanted` accepts, by path and method.
pub open spec fn flagged(
    ep: EndpointView,
    wanted: spec_fn(Seq<char>, Seq<char>) -> bool,
) -> EndpointView {
    EndpointView {
        path: ep.path,
        operations: ep.operations.map_values(
            |op: OperationView|
                OperationView { method: op.method, selected: wanted(ep.path, op.method) },
        ),
    }
}

/// The groups with those operations selected that `wanted` accepts.
pub open spec fn flagged_groups(
    groups: Seq<GroupView>,
    wanted: spec_fn(Seq<char>, Seq<char>) -> bool,
) -> Seq<GroupView> {
    groups.map_values(
        |g: GroupView|
            GroupView {
                name: g.name,
                endpoints: g.endpoints.map_values(|ep: EndpointView| flagged(ep, wanted)),
            },
    )
}

/// The endpoint with only the operations that `wanted` accepts.
pub open spec fn wanted_part(
    ep: EndpointView,
    wanted: spec_fn(Seq<char>, Seq<char>) -> bool,
) -> EndpointView {
    EndpointView {
        path: ep.path,
        operations: ep.operations.filter(|op: OperationView| wanted(ep.path, op.method)),
    }
}

/// The endpoints with only the operations that `wanted` accepts, without those that are then
/// empty.
pub open spec fn wanted_endpoints(
    endpoints: Seq<EndpointView>,
    wanted: spec_fn(Seq<char>, Seq<char>) -> bool,
) -> Seq<EndpointView> {
    endpoints.map_values(|ep: EndpointView| wanted_part(ep, wanted)).filter(
        |ep: EndpointView| ep.operations.len() > 0,
    )
}

/// The groups with only the operations that `wanted` accepts, without the endpoints and groups
/// that are then empty.
pub open spec fn wanted_groups(
    groups: Seq<GroupView>,
    wanted: spec_fn(Seq<char>, Seq<char>) -> bool,
) -> Seq<GroupView> {
    groups.map_values(
        |g: GroupView|
            GroupView { name: g.name, endpoints: wanted_endpoints(g.endpoints, wanted) },
    ).filter(|g: GroupView| g.endpoints.len() > 0)
}

proof fn lemma_wanted_endpoints_push(
    endpoints: Seq<EndpointView>,
    ep: EndpointView,
    wanted: spec_fn(Seq<char>, Seq<char>) -> bool,
)
    ensures
        wanted_endpoints(endpoints.push(ep), wanted) == if wanted_part(
            ep,
            wanted,
        ).operations.len() > 0 {
            wanted_endpoints(endpoints, wanted).push(wanted_part(ep, wanted))
        } else {
            wanted_endpoints(endpoints, wanted)
        },
{
    let part = |e: EndpointView| wanted_part(e, wanted);
    assert(endpoints.push(ep).map_values(part) =~= endpoints.map_values(part).push(
        wanted_part(ep, wanted),
    ));
    lemma_filter_push(
        endpoints.map_values(part),
        |e: EndpointView| e.operations.len() > 0,
        wanted_part(ep, wanted),
    );
}

spec fn wanted_group(g: GroupView, wanted: spec_fn(Seq<char>, Seq<char>) -> bool) -> GroupView {
    GroupView { name: g.name, endpoints: wanted_endpoints(g.endpoints, wanted) }
}

proof fn lemma_wanted_groups_push(
    groups: Seq<GroupView>,
    g: GroupView,
    wanted: spec_fn(Seq<char>, Seq<char>) -> bool,
)
    ensures
        wanted_groups(groups.push(g), wanted) == if wanted_group(g, wanted).endpoints.len() > 0 {
            wanted_groups(groups, wanted).push(wanted_group(g, wanted))
        } else {
            wanted_groups(groups, wanted)
        },
{
    let part = |e: GroupView|
        GroupView { name: e.name, endpoints: wanted_endpoints(e.endpoints, wanted) };
    assert(groups.push(g).map_values(part) =~= groups.map_values(part).push(
        wanted_group(g, wanted),
    ));
    lemma_filter_push(
        groups.map_values(part),
        |e: GroupView| e.endpoints.len() > 0,
        wanted_group(g, wanted),
    );
}

/// What is left of the endpoints has the paths of some of them.
proof fn lemma_wanted_endpoints_from(
    endpoints: Seq<EndpointView>,
    wanted: spec_fn(Seq<char>, Seq<char>) -> bool,
    i: int,
) -> (k: int)
    requires
        0 <= i < wanted_endpoints(endpoints, wanted).len(),
    ensures
        0 <= k < endpoints.len(),
        wanted_endpoints(endpoints, wanted)[i] == wanted_part(endpoints[k], wanted),
{
    let mapped = endpoints.map_values(|ep: EndpointView| wanted_part(ep, wanted));
    lemma_filter_from(mapped, |ep: EndpointView| ep.operations.len() > 0);
    let left = wanted_endpoints(endpoints, wanted);
    assert(mapped.contains(left[i]));
    let k = choose|k: int| 0 <= k < mapped.len() && mapped[k] == left[i];
    k
}

proof fn lemma_wanted_groups_from(
    groups: Seq<GroupView>,
    wanted: spec_fn(Seq<char>, Seq<char>) -> bool,
    i: int,
) -> (k: int)
    requires
        0 <= i < wanted_groups(groups, wanted).len(),
    ensures
        0 <= k < groups.len(),
        wanted_groups(groups, wanted)[i] == wanted_group(groups[k], wanted),
{
    let mapped = groups.map_values(
        |g: GroupView|
            GroupView { name: g.name, endpoints: wanted_endpoints(g.endpoints, wanted) },
    );
    lemma_filter_from(mapped, |g: GroupView| g.endpoints.len() > 0);
    let left = wanted_groups(groups, wanted);
    assert(mapped.contains(left[i]));
    let k = choose|k: int| 0 <= k < mapped.len() && mapped[k] == left[i];
    k
}

proof fn lemma_wanted_insert(
    endpoints: Seq<EndpointView>,
    ep: EndpointView,
    wanted: spec_fn(Seq<char>, Seq<char>) -> bool,
)
    requires
        paths_ascend(endpoints),
    ensures
        wanted_endpoints(insert_by_path(endpoints, ep), wanted) == if wanted_part(
            ep,
            wanted,
        ).operations.len() > 0 {
            insert_by_path(wanted_endpoints(endpoints, wanted), wanted_part(ep, wanted))
        } else {
            wanted_endpoints(endpoints, wanted)
        },
    decreases endpoints.len(),
{
    let part = wanted_part(ep, wanted);
    let left = wanted_endpoints(endpoints, wanted);
    if endpoints.len() > 0 && text_lt(ep.path, endpoints.last().path) {
        let front = endpoints.drop_last();
        let last = endpoints.last();
        assert(endpoints =~= front.push(last));
        assert forall|i: int, j: int| 0 <= i < j < front.len() implies !text_lt(
            (#[trigger] front[j]).path,
            (#[trigger] front[i]).path,
        ) by {
            assert(front[j] == endpoints[j] && front[i] == endpoints[i]);
        }
        lemma_wanted_insert(front, ep, wanted);
        lemma_wanted_endpoints_push(insert_by_path(front, ep), last, wanted);
        lemma_wanted_endpoints_push(front, last, wanted);
        if wanted_part(last, wanted).operations.len() > 0 {
            let kept = wanted_endpoints(front, wanted);
            assert(left.drop_last() =~= kept);
        }
    } else {
        lemma_wanted_endpoints_push(endpoints, ep, wanted);
        if left.len() > 0 {
            let k = lemma_wanted_endpoints_from(endpoints, wanted, left.len() - 1);
            let last = endpoints.last();
            assert(left.last().path == endpoints[k].path);
            if text_lt(ep.path, endpoints[k].path) && k < endpoints.len() - 1 {
                assert(!text_lt(endpoints[endpoints.len() - 1].path, endpoints[k].path));
                lemma_text_lt_total(last.path, endpoints[k].path);
                if last.path != endpoints[k].path {
                    lemma_text_lt_transitive(ep.path, endpoints[k].path, last.path);
                }
            }
        }
    }
}

proof fn lemma_wanted_add(
    groups: Seq<GroupView>,
    name: Seq<char>,
    ep: EndpointView,
    wanted: spec_fn(Seq<char>, Seq<char>) -> bool,
)
    requires
        names_ascend(groups),
        all_fresh(groups),
    ensures
        wanted_groups(add_endpoint(groups, name, ep), wanted) == if wanted_part(
            ep,
            wanted,
        ).operations.len() > 0 {
            add_endpoint(wanted_groups(groups, wanted), name, wanted_part(ep, wanted))
        } else {
            wanted_groups(groups, wanted)
        },
    decreases groups.len(),
{
    let part = wanted_part(ep, wanted);
    let left = wanted_groups(groups, wanted);
    let front = groups.drop_last();
    lemma_text_lt_irreflexive(name);
    if groups.len() > 0 {
        assert(groups =~= front.push(groups.last()));
        assert forall|i: int, j: int| 0 <= i < j < front.len() implies text_lt(
            (#[trigger] front[i]).name,
            (#[trigger] front[j]).name,
        ) by {
            assert(front[i] == groups[i] && front[j] == groups[j]);
        }
        assert forall|i: int| 0 <= i < front.len() implies crate::extract::is_fresh(
            #[trigger] front[i],
        ) by {
            assert(front[i] == groups[i]);
        }
        assert(crate::extract::is_fresh(groups[groups.len() - 1]));
        lemma_wanted_groups_push(front, groups.last(), wanted);
    }
    if groups.len() > 0 && text_lt(name, groups.last().name) {
        let last = groups.last();
        lemma_wanted_add(front, name, ep, wanted);
        lemma_wanted_groups_push(add_endpoint(front, name, ep), last, wanted);
        if wanted_group(last, wanted).endpoints.len() > 0 {
            assert(left.drop_last() =~= wanted_groups(front, wanted));
        }
    } else if groups.len() > 0 && groups.last().name == name {
        let last = groups.last();
        let changed = GroupView { name, endpoints: insert_by_path(last.endpoints, ep) };
        lemma_wanted_insert(last.endpoints, ep, wanted);
        lemma_wanted_groups_push(front, changed, wanted);
        let kept = wanted_groups(front, wanted);
        if wanted_group(last, wanted).endpoints.len() > 0 {
            assert(left.drop_last() =~= kept);
            lemma_insert_not_empty(wanted_endpoints(last.endpoints, wanted), part);
        } else {
            assert(wanted_endpoints(last.endpoints, wanted) =~= Seq::empty());
            assert(insert_by_path(Seq::empty(), part) =~= seq![part]);
            if kept.len() > 0 {
                let k = lemma_wanted_groups_from(front, wanted, kept.len() - 1);
                assert(kept.last().name == groups[k].name);
                assert(text_lt(groups[k].name, groups[groups.len() - 1].name));
                crate::text::lemma_text_lt_asymmetric(groups[k].name, name);
            }
        }
    } else {
        let added = GroupView { name, endpoints: seq![ep] };
        lemma_wanted_groups_push(groups, added, wanted);
        lemma_wanted_endpoints_push(Seq::empty(), ep, wanted);
        assert(wanted_endpoints(Seq::empty(), wanted) =~= Seq::empty()) by {
            reveal(Seq::filter);
        }
        assert(seq![ep] =~= Seq::empty().push(ep));
        if left.len() > 0 {
            let k = lemma_wanted_groups_from(groups, wanted, left.len() - 1);
            let last = groups.last();
            assert(left.last().name == groups[k].name);
            lemma_text_lt_total(last.name, name);
            if k < groups.len() - 1 {
                assert(text_lt(groups[k].name, groups[groups.len() - 1].name));
                lemma_text_lt_transitive(groups[k].name, last.name, name);
            }
            crate::text::lemma_text_lt_asymmetric(groups[k].name, name);
        }
        assert(wanted_group(added, wanted).endpoints =~= if part.operations.len() > 0 {
            seq![part]
        } else {
            Seq::empty()
        });
    }
}

proof fn lemma_insert_not_empty(endpoints: Seq<EndpointView>, ep: EndpointView)
    ensures
        insert_by_path(endpoints, ep).len() == endpoints.len() + 1,
    decreases endpoints.len(),
{
    if endpoints.len() > 0 && text_lt(ep.path, endpoints.last().path) {
        lemma_insert_not_empty(endpoints.drop_last(), ep);
    }
}

pub proof fn lemma_flagged_endpoints(
    groups: Seq<GroupView>,
    wanted: spec_fn(Seq<char>, Seq<char>) -> bool,
)
    ensures
        all_endpoints(flagged_groups(groups, wanted)) == all_endpoints(groups).map_values(
            |ep: EndpointView| flagged(ep, wanted),
        ),
    decreases groups.len(),
{
    let flag = |ep: EndpointView| flagged(ep, wanted);
    if groups.len() > 0 {
        lemma_flagged_endpoints(groups.drop_last(), wanted);
        let all = flagged_groups(groups, wanted);
        assert(all.drop_last() =~= flagged_groups(groups.drop_last(), wanted));
        assert(all.last().endpoints =~= groups.last().endpoints.map_values(flag));
        assert(all_endpoints(groups).map_values(flag) =~= all_endpoints(
            groups.drop_last(),
        ).map_values(flag) + groups.last().endpoints.map_values(flag));
    } else {
        assert(flagged_groups(groups, wanted) =~= Seq::empty());
        assert(all_endpoints(groups).map_values(flag) =~= Seq::empty());
    }
}

/// The endpoint of a path of the document is the only one with its path, and is listed if it has
/// operations.
proof fn lemma_listed(
    paths: Seq<MemberView>,
    wanted: spec_fn(Seq<char>, Seq<char>) -> bool,
    p: int,
    ep: EndpointView,
)
    requires
        distinct_keys(paths),
        0 <= p < paths.len(),
        ep.path == paths[p].key,
    ensures
        all_endpoints(flagged_groups(grouped(paths), wanted)).contains(ep) <==> ep == flagged(
            endpoint_of(paths[p]),
            wanted,
        ) && ep.operations.len() > 0,
{
    broadcast use vstd::seq_lib::group_to_multiset_ensures;

    let flag = |e: EndpointView| flagged(e, wanted);
    let has_operations = |e: EndpointView| e.operations.len() > 0;
    let plain = all_endpoints(grouped(paths));
    let eps = all_endpoints(flagged_groups(grouped(paths), wanted));
    let ends = paths.map_values(|m: MemberView| endpoint_of(m));
    lemma_flagged_endpoints(grouped(paths), wanted);
    law_groups_hold_every_path(paths);
    lemma_filter_from(ends, has_operations);
    if eps.contains(ep) {
        let i = choose|i: int| 0 <= i < eps.len() && eps[i] == ep;
        assert(eps[i] == flag(plain[i]));
        assert(plain.contains(plain[i]));
        assert(plain.to_multiset().count(plain[i]) > 0);
        assert(endpoints_in(paths).contains(plain[i]));
        let j = choose|j: int|
            0 <= j < endpoints_in(paths).len() && endpoints_in(paths)[j] == plain[i];
        assert(ends.contains(plain[i]));
        let k = choose|k: int| 0 <= k < ends.len() && ends[k] == plain[i];
        assert(paths[k].key == paths[p].key);
        assert(k == p);
    }
    if ep == flagged(endpoint_of(paths[p]), wanted) && ep.operations.len() > 0 {
        assert(ends[p] == endpoint_of(paths[p]));
        lemma_filter_keeps(ends, has_operations, p);
        assert(endpoints_in(paths).to_multiset().count(ends[p]) > 0);
        assert(plain.contains(ends[p]));
        let i = choose|i: int| 0 <= i < plain.len() && plain[i] == ends[p];
        assert(eps[i] == ep);
    }
}

pub proof fn lemma_last_partial(endpoints: Seq<EndpointView>, path: Seq<char>)
    ensures
        match last_partial(endpoints, path) {
            Some(ep) => endpoints.contains(ep) && ep.path == path && is_partial(ep),
            None => forall|i: int|
                0 <= i < endpoints.len() && (#[trigger] endpoints[i]).path == path ==> !is_partial(
                    endpoints[i],
                ),
        },
    decreases endpoints.len(),
{
    if endpoints.len() > 0 {
        let front = endpoints.drop_last();
        let last = endpoints.last();
        assert(endpoints[endpoints.len() - 1] == last);
        if !(last.path == path && is_partial(last)) {
            lemma_last_partial(front, path);
            match last_partial(front, path) {
                Some(ep) => {
                    let i = choose|i: int| 0 <= i < front.len() && front[i] == ep;
                    assert(endpoints[i] == ep);
                },
                None => {
                    assert forall|i: int|
                        0 <= i < endpoints.len() && (
                        #[trigger] endpoints[i]).path == path implies !is_partial(
                        endpoints[i],
                    ) by {
                        if i < front.len() {
                            assert(front[i] == endpoints[i]);
                        }
                    }
                },
            }
        }
    }
}

/// Filtering, changing each element and filtering again is filtering once and changing.
proof fn lemma_filter_map_filter<A, B>(
    s: Seq<A>,
    first: spec_fn(A) -> bool,
    change: spec_fn(A) -> B,
    second: spec_fn(B) -> bool,
    both: spec_fn(A) -> bool,
)
    requires
        forall|i: int|
            0 <= i < s.len() ==> both(#[trigger] s[i]) == (first(s[i]) && second(change(s[i]))),
    ensures
        s.filter(first).map_values(change).filter(second) == s.filter(both).map_values(change),
    decreases s.len(),
{
    if s.len() > 0 {
        let front = s.drop_last();
        let last = s.last();
        assert(s =~= front.push(last));
        assert forall|i: int| 0 <= i < front.len() implies both(#[trigger] front[i]) == (first(
            front[i],
        ) && second(change(front[i]))) by {
            assert(front[i] == s[i]);
        }
        assert(both(s[s.len() - 1]) == (first(last) && second(change(last))));
        lemma_filter_map_filter(front, first, change, second, both);
        lemma_filter_push(front, first, last);
        lemma_filter_push(front, both, last);
        let kept = front.filter(first);
        if first(last) {
            assert(kept.push(last).map_values(change) =~= kept.map_values(change).push(
                change(last),
            ));
            lemma_filter_push(kept.map_values(change), second, change(last));
        }
        if both(last) {
            assert(front.filter(both).push(last).map_values(change) =~= front.filter(
                both,
            ).map_values(change).push(change(last)));
        }
    } else {
        reveal(Seq::filter);
        assert(s.filter(first).map_values(change).filter(second) =~= s.filter(both).map_values(
            change,
        ));
    }
}

/// The operations of an item that was trimmed are those that are wanted.
proof fn lemma_trimmed_operations(
    path: MemberView,
    wanted: spec_fn(Seq<char>, Seq<char>) -> bool,
)
    requires
        path.value.well_formed(),
    ensures
        operations_of(trimmed_item(path.value, flagged(endpoint_of(path), wanted)))
            == wanted_part(endpoint_of(path), wanted).operations,
{
    let item = path.value;
    let ep = flagged(endpoint_of(path), wanted);
    let left = trimmed_item(item, ep);
    let has = |m: Seq<char>| item.get(m) is Some;
    let still = |m: Seq<char>| left.get(m) is Some;
    let make = |m: Seq<char>| OperationView { method: m, selected: true };
    let accept = |op: OperationView| wanted(path.key, op.method);
    let methods = http_methods();
    let operations = operations_of(item);
    lemma_filter_from(methods, has);
    assert forall|i: int| 0 <= i < methods.len() implies still(#[trigger] methods[i]) == (has(
        methods[i],
    ) && accept(make(methods[i]))) by {
        let m = methods[i];
        match item {
            JsonView::Object(members) => {
                lemma_lookup_filter(
                    members,
                    |x: MemberView| !deselects(ep, x.key),
                    m,
                    !deselects(ep, m),
                );
                if has(m) {
                    lemma_filter_keeps(methods, has, i);
                    let k = choose|k: int|
                        0 <= k < methods.filter(has).len() && methods.filter(has)[k] == m;
                    assert(ep.operations[k].method == m);
                    assert(ep.operations[k].selected == wanted(path.key, m));
                }
            },
            _ => {},
        }
    }
    lemma_filter_map_filter(methods, has, make, accept, still);
}

proof fn lemma_filter_empty<A>(s: Seq<A>, pred: spec_fn(A) -> bool)
    ensures
        s.filter(pred).len() == 0 <==> forall|i: int| 0 <= i < s.len() ==> !pred(#[trigger] s[i]),
{
    lemma_filter_from(s, pred);
    if s.filter(pred).len() > 0 {
        assert(pred(s.filter(pred)[0]));
        let i = choose|i: int| 0 <= i < s.len() && s[i] == s.filter(pred)[0];
        assert(pred(s[i]));
    }
    if exists|i: int| 0 <= i < s.len() && pred(#[trigger] s[i]) {
        let i = choose|i: int| 0 <= i < s.len() && pred(#[trigger] s[i]);
        lemma_filter_keeps(s, pred, i);
    }
}

/// What filtering makes of one path of the document.
proof fn lemma_path_after_filtering(
    paths: Seq<MemberView>,
    wanted: spec_fn(Seq<char>, Seq<char>) -> bool,
    p: int,
)
    requires
        JsonView::Object(paths).well_formed(),
        0 <= p < paths.len(),
    ensures
        ({
            let eps = all_endpoints(flagged_groups(grouped(paths), wanted));
            let ep = endpoint_of(paths[p]);
            let part = wanted_part(ep, wanted);
            &&& dropped(eps, paths[p].key) <==> ep.operations.len() > 0 && part.operations.len()
                == 0
            &&& !dropped(eps, paths[p].key) ==> endpoint_of(trimmed_path(paths[p], eps)) == part
        }),
{
    let eps = all_endpoints(flagged_groups(grouped(paths), wanted));
    let path = paths[p];
    assert(path.value.well_formed());
    let ep = endpoint_of(path);
    let marked = flagged(ep, wanted);
    let part = wanted_part(ep, wanted);
    let accept = |op: OperationView| wanted(ep.path, op.method);
    lemma_filter_empty(ep.operations, accept);
    lemma_listed(paths, wanted, p, marked);
    assert(marked.none_selected() <==> part.operations.len() == 0) by {
        if marked.none_selected() {
            assert forall|i: int| 0 <= i < ep.operations.len() implies !accept(
                #[trigger] ep.operations[i],
            ) by {
                assert(!marked.operations[i].selected);
            }
        }
        if part.operations.len() == 0 {
            assert forall|i: int| 0 <= i < marked.operations.len() implies !(
            #[trigger] marked.operations[i]).selected by {
                assert(!accept(ep.operations[i]));
            }
        }
    }
    if dropped(eps, path.key) {
        let i = choose|i: int|
            0 <= i < eps.len() && (#[trigger] eps[i]).path == path.key && eps[i].none_selected();
        assert(eps.contains(eps[i]));
        lemma_listed(paths, wanted, p, eps[i]);
    }
    if ep.operations.len() > 0 {
        assert(eps.contains(marked));
        let i = choose|i: int| 0 <= i < eps.len() && eps[i] == marked;
        if marked.none_selected() {
            assert(eps[i].path == path.key);
        }
    }
    if !dropped(eps, path.key) {
        lemma_last_partial(eps, path.key);
        lemma_trimmed_operations(path, wanted);
        match last_partial(eps, path.key) {
            Some(other) => {
                lemma_listed(paths, wanted, p, other);
                assert(trimmed_path(path, eps) == (MemberView {
                    key: path.key,
                    value: trimmed_item(path.value, marked),
                }));
            },
            None => {
                if ep.operations.len() > 0 {
                    let i = choose|i: int| 0 <= i < eps.len() && eps[i] == marked;
                    assert(!is_partial(eps[i]));
                    assert(marked.all_selected());
                    assert forall|k: int| 0 <= k < ep.operations.len() implies accept(
                        #[trigger] ep.operations[k],
                    ) by {
                        assert(marked.operations[k].selected);
                    }
                    crate::edit::lemma_filter_all(ep.operations, accept);
                } else {
                    assert(part.operations =~= ep.operations);
                }
            },
        }
    }
}

proof fn lemma_filtered_groups(
    paths: Seq<MemberView>,
    wanted: spec_fn(Seq<char>, Seq<char>) -> bool,
    n: int,
)
    requires
        JsonView::Object(paths).well_formed(),
        0 <= n <= paths.len(),
    ensures
        grouped(
            filtered_paths(
                paths.take(n),
                all_endpoints(flagged_groups(grouped(paths), wanted)),
            ),
        ) == wanted_groups(grouped(paths.take(n)), wanted),
    decreases n,
{
    let eps = all_endpoints(flagged_groups(grouped(paths), wanted));
    let keep = |p: MemberView| !dropped(eps, p.key);
    let change = |p: MemberView| trimmed_path(p, eps);
    if n > 0 {
        let front = paths.take(n - 1);
        let last = paths[n - 1];
        lemma_filtered_groups(paths, wanted, n - 1);
        lemma_path_after_filtering(paths, wanted, n - 1);
        law_groups_are_in_order(front);
        assert(paths.take(n) =~= front.push(last));
        assert(front.push(last).drop_last() =~= front);
        lemma_filter_push(front, keep, last);
        let ep = endpoint_of(last);
        let before = filtered_paths(front, eps);
        if keep(last) {
            assert(filtered_paths(paths.take(n), eps) =~= before.push(change(last)));
            assert(before.push(change(last)).drop_last() =~= before);
            assert(change(last).key == last.key);
        }
        if ep.operations.len() > 0 {
            lemma_wanted_add(grouped(front), group_name(last.key), ep, wanted);
        } else {
            assert(wanted_part(ep, wanted).operations.len() == 0) by {
                reveal(Seq::filter);
            }
        }
    } else {
        reveal(Seq::filter);
        assert(filtered_paths(paths.take(0), eps) =~= Seq::empty());
        assert(grouped(paths.take(0)) =~= Seq::empty());
        assert(wanted_groups(Seq::empty(), wanted) =~= Seq::empty());
    }
}

/// However operations are selected in a document, by path and method, the groups of the exported
/// document are those of the document with exactly the selected operations; endpoints and groups
/// of which nothing is selected are gone.
pub proof fn law_export_shows_the_selection(
    spec: JsonView,
    wanted: spec_fn(Seq<char>, Seq<char>) -> bool,
    prune: bool,
)
    requires
        spec.well_formed(),
        extracted(spec) is Ok,
    ensures
        extracted(filtered(spec, flagged_groups(extracted(spec)->Ok_0, wanted), prune)) == Ok::<
            Seq<GroupView>,
            Seq<char>,
        >(wanted_groups(extracted(spec)->Ok_0, wanted)),
{
    let groups = flagged_groups(extracted(spec)->Ok_0, wanted);
    let eps = all_endpoints(groups);
    match spec.get("paths"@) {
        Some(JsonView::Object(paths)) => {
            let members = spec->Object_0;
            let left = JsonView::Object(filtered_paths(paths, eps));
            crate::json::lemma_key_index(members, "paths"@);
            assert(members[crate::json::key_index(members, "paths"@)].value.well_formed());
            lemma_lookup_with_value(members, "paths"@, left, "paths"@);
            reveal_strlit("paths");
            reveal_strlit("components");
            assert("paths"@.len() != "components"@.len());
            law_prune_keeps_other_parts(trimmed(spec, eps), "paths"@);
            lemma_filtered_groups(paths, wanted, paths.len() as int);
            assert(paths.take(paths.len() as int) =~= paths);
        },
        _ => {},
    }
}

/// Everything of the document but its paths and its components is exported as it is.
pub proof fn law_export_keeps_other_parts(
    spec: JsonView,
    groups: Seq<GroupView>,
    prune: bool,
    key: Seq<char>,
)
    requires
        key != "paths"@,
        prune ==> key != "components"@,
    ensures
        filtered(spec, groups, prune).get(key) == spec.get(key),
{
    let eps = all_endpoints(groups);
    match spec.get("paths"@) {
        Some(JsonView::Object(paths)) => {
            lemma_lookup_with_value(
                spec->Object_0,
                "paths"@,
                JsonView::Object(filtered_paths(paths, eps)),
                key,
            );
        },
        _ => {},
    }
    if prune {
        law_prune_keeps_other_parts(trimmed(spec, eps), key);
    }
}

/// The item of a path in the exported document: gone if an endpoint of the path has nothing
/// selected, otherwise without the methods that are not selected and with all else that it had.
pub proof fn law_export_of_a_path(
    spec: JsonView,
    groups: Seq<GroupView>,
    prune: bool,
    path: Seq<char>,
)
    requires
        spec.well_formed(),
        spec.get("paths"@) is Some,
        spec.get("paths"@)->Some_0 is Object,
    ensures
        filtered(spec, groups, prune).get("paths"@) is Some,
        filtered(spec, groups, prune).get("paths"@)->Some_0.get(path) == match spec.get(
            "paths"@,
        )->Some_0.get(path) {
            Some(item) => if dropped(all_endpoints(groups), path) {
                None
            } else {
                Some(trimmed_path(MemberView { key: path, value: item }, all_endpoints(groups)).value)
            },
            None => None,
        },
{
    let eps = all_endpoints(groups);
    let paths = spec.get("paths"@)->Some_0->Object_0;
    let members = spec->Object_0;
    let left = filtered_paths(paths, eps);
    let keep = |p: MemberView| !dropped(eps, p.key);
    crate::json::lemma_key_index(members, "paths"@);
    assert(members[crate::json::key_index(members, "paths"@)].value.well_formed());
    lemma_lookup_with_value(members, "paths"@, JsonView::Object(left), "paths"@);
    reveal_strlit("paths");
    reveal_strlit("components");
    assert("paths"@.len() != "components"@.len());
    law_prune_keeps_other_parts(trimmed(spec, eps), "paths"@);
    let kept = paths.filter(keep);
    lemma_lookup_filter(paths, keep, path, !dropped(eps, path));
    crate::json::lemma_key_index(kept, path);
    let k = crate::json::key_index(kept, path);
    assert forall|i: int| 0 <= i < k implies (#[trigger] left[i]).key != path by {
        assert(kept[i].key != path);
    }
    crate::json::lemma_key_index_is(left, path, k);
}

/// With every operation selected, the document is exported as it is, but for pruning.
pub proof fn law_export_of_everything(spec: JsonView, groups: Seq<GroupView>)
    requires
        forall|i: int|
            0 <= i < all_endpoints(groups).len() ==> (#[trigger] all_endpoints(
                groups,
            )[i]).all_selected() && all_endpoints(groups)[i].operations.len() > 0,
    ensures
        filtered(spec, groups, false) == spec,
{
    let eps = all_endpoints(groups);
    match spec.get("paths"@) {
        Some(JsonView::Object(paths)) => {
            let keep = |p: MemberView| !dropped(eps, p.key);
            assert forall|i: int| 0 <= i < paths.len() implies keep(#[trigger] paths[i]) by {
                if dropped(eps, paths[i].key) {
                    let k = choose|k: int|
                        0 <= k < eps.len() && (#[trigger] eps[k]).path == paths[i].key
                            && eps[k].none_selected();
                    assert(eps[k].operations[0].selected);
                }
            }
            crate::edit::lemma_filter_all(paths, keep);
            assert forall|i: int| 0 <= i < paths.len() implies #[trigger] trimmed_path(
                paths[i],
                eps,
            ) == paths[i] by {
                lemma_last_partial(eps, paths[i].key);
            }
            assert(filtered_paths(paths, eps) =~= paths);
            crate::json::lemma_key_index(spec->Object_0, "paths"@);
            assert(trimmed(spec, eps)->Object_0 =~= spec->Object_0);
        },
        _ => {},
    }
}

/// In a document exported with unused components removed, a reference to a component, or to
/// something inside it, that is made outside the components or by a component, finds the component
/// that the whole document has there.
pub proof fn law_export_leaves_no_dangling_reference(
    spec: JsonView,
    groups: Seq<GroupView>,
    r: Seq<char>,
    section: Seq<char>,
    entry: Seq<char>,
    from_section: Seq<char>,
    from_entry: Seq<char>,
)
    requires
        spec.well_formed(),
        names_entry(r, section, entry),
        seeded(filtered(spec, groups, true), r) || component_mentions(
            filtered(spec, groups, true),
            from_section,
            from_entry,
            r,
        ),
    ensures
        component(filtered(spec, groups, true), section, entry) == component(spec, section, entry),
        resolved(filtered(spec, groups, true), r) == resolved(spec, r),
{
    reveal_strlit("paths");
    reveal_strlit("components");
    assert("paths"@.len() != "components"@.len());
    let left = trimmed(spec, all_endpoints(groups));
    lemma_trimmed_well_formed(spec, all_endpoints(groups));
    law_prune_leaves_no_dangling_reference(left, r, section, entry, from_section, from_entry);
    law_export_keeps_other_parts(spec, groups, false, "components"@);
    let (s, n, rest) = choose|s: Seq<char>, n: Seq<char>, rest: Seq<char>| #[trigger]
        is_entry_ref(r, s, n, rest) && unescaped(s) == section && unescaped(n) == entry;
    lemma_entry_ref_target(spec, r, s, n, rest);
    lemma_entry_ref_target(left, r, s, n, rest);
}

} // verus!
