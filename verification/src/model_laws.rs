//! How the counts of a selection go with what is selected.

use vstd::prelude::*;

use crate::model::{
    groups_operations, groups_selected, lemma_selected_at_most, lemma_selected_total_at_most,
    operation_total, selected_among, selected_total, EndpointView, GroupView, OperationView,
};

verus! {

/// An endpoint has everything selected exactly if it counts as many selected operations as
/// operations, and nothing exactly if it counts no selected ones.
pub proof fn law_endpoint_counts(ep: EndpointView)
    ensures
        ep.all_selected() <==> ep.selected_count() == ep.operation_count(),
        ep.none_selected() <==> ep.selected_count() == 0,
    decreases ep.operations.len(),
{
    let ops = ep.operations;
    if ops.len() > 0 {
        let front = EndpointView { path: ep.path, operations: ops.drop_last() };
        law_endpoint_counts(front);
        lemma_selected_at_most(front.operations);
        assert(forall|i: int| 0 <= i < front.operations.len() ==> front.operations[i] == ops[i]);
        if front.all_selected() && ops.last().selected {
            assert forall|i: int| 0 <= i < ops.len() implies (#[trigger] ops[i]).selected by {
                if i < front.operations.len() {
                    assert(front.operations[i].selected);
                }
            }
        }
        if ep.all_selected() {
            assert(ops[ops.len() - 1].selected);
            assert forall|i: int| 0 <= i < front.operations.len() implies (
            #[trigger] front.operations[i]).selected by {
                assert(ops[i].selected);
            }
        }
        if front.none_selected() && !ops.last().selected {
            assert forall|i: int| 0 <= i < ops.len() implies !(#[trigger] ops[i]).selected by {
                if i < front.operations.len() {
                    assert(!front.operations[i].selected);
                }
            }
        }
        if ep.none_selected() {
            assert(!ops[ops.len() - 1].selected);
            assert forall|i: int| 0 <= i < front.operations.len() implies !(
            #[trigger] front.operations[i]).selected by {
                assert(!ops[i].selected);
            }
        }
    }
}

/// A group has everything selected exactly if it counts as many selected operations as
/// operations, and nothing exactly if it counts no selected ones.
pub proof fn law_group_counts(group: GroupView)
    ensures
        group.all_selected() <==> group.selected_count() == group.operation_count(),
        group.none_selected() <==> group.selected_count() == 0,
    decreases group.endpoints.len(),
{
    let eps = group.endpoints;
    if eps.len() > 0 {
        let front = GroupView { name: group.name, endpoints: eps.drop_last() };
        law_group_counts(front);
        law_endpoint_counts(eps.last());
        lemma_selected_total_at_most(front.endpoints);
        lemma_selected_at_most(eps.last().operations);
        assert(forall|i: int| 0 <= i < front.endpoints.len() ==> front.endpoints[i] == eps[i]);
        if group.all_selected() {
            assert(eps[eps.len() - 1].all_selected());
            assert forall|i: int| 0 <= i < front.endpoints.len() implies (
            #[trigger] front.endpoints[i]).all_selected() by {
                assert(eps[i].all_selected());
            }
        }
        if front.all_selected() && eps.last().all_selected() {
            assert forall|i: int| 0 <= i < eps.len() implies (
            #[trigger] eps[i]).all_selected() by {
                if i < front.endpoints.len() {
                    assert(front.endpoints[i].all_selected());
                }
            }
        }
        if group.none_selected() {
            assert(eps[eps.len() - 1].none_selected());
            assert forall|i: int| 0 <= i < front.endpoints.len() implies (
            #[trigger] front.endpoints[i]).none_selected() by {
                assert(eps[i].none_selected());
            }
        }
        if front.none_selected() && eps.last().none_selected() {
            assert forall|i: int| 0 <= i < eps.len() implies (
            #[trigger] eps[i]).none_selected() by {
                if i < front.endpoints.len() {
                    assert(front.endpoints[i].none_selected());
                }
            }
        }
    }
}

proof fn lemma_with_all_among(operations: Seq<OperationView>, selected: bool)
    ensures
        selected_among(
            operations.map_values(|op: OperationView| OperationView { method: op.method, selected }),
        ) == if selected {
            operations.len()
        } else {
            0
        },
    decreases operations.len(),
{
    let change = |op: OperationView| OperationView { method: op.method, selected };
    if operations.len() > 0 {
        lemma_with_all_among(operations.drop_last(), selected);
        assert(operations.map_values(change).drop_last() =~= operations.drop_last().map_values(
            change,
        ));
    }
}

proof fn lemma_with_all_total(endpoints: Seq<EndpointView>, selected: bool)
    ensures
        selected_total(endpoints.map_values(|ep: EndpointView| ep.with_all(selected))) == if selected {
            operation_total(endpoints)
        } else {
            0
        },
    decreases endpoints.len(),
{
    let change = |ep: EndpointView| ep.with_all(selected);
    if endpoints.len() > 0 {
        lemma_with_all_total(endpoints.drop_last(), selected);
        lemma_with_all_among(endpoints.last().operations, selected);
        assert(endpoints.map_values(change).drop_last() =~= endpoints.drop_last().map_values(
            change,
        ));
    }
}

/// After everything was selected, every operation counts as selected; after nothing was, none
/// does.
pub proof fn law_select_all_counts(groups: Seq<GroupView>, selected: bool)
    ensures
        groups_selected(groups.map_values(|g: GroupView| g.with_all(selected))) == if selected {
            groups_operations(groups)
        } else {
            0
        },
    decreases groups.len(),
{
    let change = |g: GroupView| g.with_all(selected);
    if groups.len() > 0 {
        law_select_all_counts(groups.drop_last(), selected);
        lemma_with_all_total(groups.last().endpoints, selected);
        assert(groups.map_values(change).drop_last() =~= groups.drop_last().map_values(change));
    }
}

/// Counts add up: one more operation, endpoint or group counts for what it has.
pub proof fn law_counts_add_up(
    operations: Seq<OperationView>,
    op: OperationView,
    path: Seq<char>,
    endpoints: Seq<EndpointView>,
    ep: EndpointView,
    name: Seq<char>,
    groups: Seq<GroupView>,
    group: GroupView,
)
    ensures
        (EndpointView { path, operations: Seq::empty() }).selected_count() == 0,
        (EndpointView { path, operations: operations.push(op) }).selected_count() == (EndpointView {
            path,
            operations,
        }).selected_count() + if op.selected {
            1nat
        } else {
            0nat
        },
        (EndpointView { path, operations }).operation_count() == operations.len(),
        (GroupView { name, endpoints: Seq::empty() }).selected_count() == 0,
        (GroupView { name, endpoints: Seq::empty() }).operation_count() == 0,
        (GroupView { name, endpoints: endpoints.push(ep) }).selected_count() == (GroupView {
            name,
            endpoints,
        }).selected_count() + ep.selected_count(),
        (GroupView { name, endpoints: endpoints.push(ep) }).operation_count() == (GroupView {
            name,
            endpoints,
        }).operation_count() + ep.operations.len(),
        groups_selected(Seq::empty()) == 0,
        groups_operations(Seq::empty()) == 0,
        groups_selected(groups.push(group)) == groups_selected(groups) + group.selected_count(),
        groups_operations(groups.push(group)) == groups_operations(groups)
            + group.operation_count(),
{
    assert(operations.push(op).drop_last() =~= operations);
    assert(endpoints.push(ep).drop_last() =~= endpoints);
    assert(groups.push(group).drop_last() =~= groups);
}

/// Selecting everything or nothing sets the flag of each operation and changes nothing else.
pub proof fn law_select_all_sets_every_flag(group: GroupView, selected: bool, e: int, o: int)
    requires
        0 <= e < group.endpoints.len(),
        0 <= o < group.endpoints[e].operations.len(),
    ensures
        group.with_all(selected).name == group.name,
        group.with_all(selected).endpoints.len() == group.endpoints.len(),
        group.with_all(selected).endpoints[e] == group.endpoints[e].with_all(selected),
        group.with_all(selected).endpoints[e].path == group.endpoints[e].path,
        group.with_all(selected).endpoints[e].operations.len()
            == group.endpoints[e].operations.len(),
        group.with_all(selected).endpoints[e].operations[o].method
            == group.endpoints[e].operations[o].method,
        group.with_all(selected).endpoints[e].operations[o].selected == selected,
{
}

} // verus!
