//! Operations, endpoints and groups, and which of them are selected.

use vstd::prelude::*;

verus! {

/// An HTTP method of an endpoint.
pub struct Operation {
    pub method: String,
    pub selected: bool,
}

/// A path of the document with its operations.
pub struct Endpoint {
    pub path: String,
    pub operations: Vec<Operation>,
}

/// Endpoints whose paths begin alike.
pub struct PathGroup {
    pub name: String,
    pub endpoints: Vec<Endpoint>,
}

/// What an [`Operation`] holds.
pub struct OperationView {
    pub method: Seq<char>,
    pub selected: bool,
}

/// What an [`Endpoint`] holds.
pub struct EndpointView {
    pub path: Seq<char>,
    pub operations: Seq<OperationView>,
}

/// What a [`PathGroup`] holds.
pub struct GroupView {
    pub name: Seq<char>,
    pub endpoints: Seq<EndpointView>,
}

impl View for Operation {
    type V = OperationView;

    open spec fn view(&self) -> OperationView {
        OperationView { method: self.method@, selected: self.selected }
    }
}

impl View for Endpoint {
    type V = EndpointView;

    open spec fn view(&self) -> EndpointView {
        EndpointView { path: self.path@, operations: operations_view(self.operations@) }
    }
}

impl View for PathGroup {
    type V = GroupView;

    open spec fn view(&self) -> GroupView {
        GroupView { name: self.name@, endpoints: endpoints_view(self.endpoints@) }
    }
}

/// What a list of operations holds.
pub open spec fn operations_view(operations: Seq<Operation>) -> Seq<OperationView> {
    operations.map_values(|op: Operation| op@)
}

/// What a list of endpoints holds.
pub open spec fn endpoints_view(endpoints: Seq<Endpoint>) -> Seq<EndpointView> {
    endpoints.map_values(|ep: Endpoint| ep@)
}

/// What a list of groups holds.
pub open spec fn groups_view(groups: Seq<PathGroup>) -> Seq<GroupView> {
    groups.map_values(|g: PathGroup| g@)
}

/// The number of selected operations.
pub open spec fn selected_among(operations: Seq<OperationView>) -> nat
    decreases operations.len(),
{
    if operations.len() == 0 {
        0
    } else {
        selected_among(operations.drop_last()) + if operations.last().selected {
            1nat
        } else {
            0nat
        }
    }
}

impl EndpointView {
    pub open spec fn all_selected(self) -> bool {
        forall|i: int| 0 <= i < self.operations.len() ==> (#[trigger] self.operations[i]).selected
    }

    pub open spec fn none_selected(self) -> bool {
        forall|i: int| 0 <= i < self.operations.len() ==> !(#[trigger] self.operations[i]).selected
    }

    pub open spec fn selected_count(self) -> nat {
        selected_among(self.operations)
    }

    pub open spec fn operation_count(self) -> nat {
        self.operations.len()
    }

    /// The endpoint with every operation selected, or none.
    pub open spec fn with_all(self, selected: bool) -> EndpointView {
        EndpointView {
            path: self.path,
            operations: self.operations.map_values(
                |op: OperationView| OperationView { method: op.method, selected },
            ),
        }
    }
}

/// The number of selected operations of all endpoints.
pub open spec fn selected_total(endpoints: Seq<EndpointView>) -> nat
    decreases endpoints.len(),
{
    if endpoints.len() == 0 {
        0
    } else {
        selected_total(endpoints.drop_last()) + endpoints.last().selected_count()
    }
}

/// The number of operations of all endpoints.
pub open spec fn operation_total(endpoints: Seq<EndpointView>) -> nat
    decreases endpoints.len(),
{
    if endpoints.len() == 0 {
        0
    } else {
        operation_total(endpoints.drop_last()) + endpoints.last().operation_count()
    }
}

impl GroupView {
    pub open spec fn all_selected(self) -> bool {
        forall|i: int| 0 <= i < self.endpoints.len() ==> (#[trigger] self.endpoints[i]).all_selected()
    }

    pub open spec fn none_selected(self) -> bool {
        forall|i: int| 0 <= i < self.endpoints.len() ==> (#[trigger] self.endpoints[i]).none_selected()
    }

    pub open spec fn selected_count(self) -> nat {
        selected_total(self.endpoints)
    }

    pub open spec fn operation_count(self) -> nat {
        operation_total(self.endpoints)
    }

    /// The group with every operation selected, or none.
    pub open spec fn with_all(self, selected: bool) -> GroupView {
        GroupView {
            name: self.name,
            endpoints: self.endpoints.map_values(|ep: EndpointView| ep.with_all(selected)),
        }
    }
}

/// All endpoints of the groups, in order.
pub open spec fn all_endpoints(groups: Seq<GroupView>) -> Seq<EndpointView>
    decreases groups.len(),
{
    if groups.len() == 0 {
        Seq::empty()
    } else {
        all_endpoints(groups.drop_last()) + groups.last().endpoints
    }
}

/// The number of selected operations of all groups.
pub open spec fn groups_selected(groups: Seq<GroupView>) -> nat
    decreases groups.len(),
{
    if groups.len() == 0 {
        0
    } else {
        groups_selected(groups.drop_last()) + groups.last().selected_count()
    }
}

/// The number of operations of all groups.
pub open spec fn groups_operations(groups: Seq<GroupView>) -> nat
    decreases groups.len(),
{
    if groups.len() == 0 {
        0
    } else {
        groups_operations(groups.drop_last()) + groups.last().operation_count()
    }
}

/// No more operations are selected than there are.
pub proof fn lemma_selected_at_most(operations: Seq<OperationView>)
    ensures
        selected_among(operations) <= operations.len(),
    decreases operations.len(),
{
    if operations.len() > 0 {
        lemma_selected_at_most(operations.drop_last());
    }
}

pub proof fn lemma_selected_total_at_most(endpoints: Seq<EndpointView>)
    ensures
        selected_total(endpoints) <= operation_total(endpoints),
    decreases endpoints.len(),
{
    if endpoints.len() > 0 {
        lemma_selected_total_at_most(endpoints.drop_last());
        lemma_selected_at_most(endpoints.last().operations);
    }
}

pub proof fn lemma_groups_selected_at_most(groups: Seq<GroupView>)
    ensures
        groups_selected(groups) <= groups_operations(groups),
    decreases groups.len(),
{
    if groups.len() > 0 {
        lemma_groups_selected_at_most(groups.drop_last());
        lemma_selected_total_at_most(groups.last().endpoints);
    }
}

/// Fewer endpoints have no more operations.
pub proof fn lemma_operation_total_prefix(endpoints: Seq<EndpointView>, n: int)
    requires
        0 <= n <= endpoints.len(),
    ensures
        operation_total(endpoints.take(n)) <= operation_total(endpoints),
        selected_total(endpoints.take(n)) <= selected_total(endpoints),
    decreases endpoints.len() - n,
{
    if n < endpoints.len() {
        lemma_operation_total_prefix(endpoints, n + 1);
        assert(endpoints.take(n + 1).drop_last() =~= endpoints.take(n));
    } else {
        assert(endpoints.take(n) =~= endpoints);
    }
}

/// Fewer groups have no more operations.
pub proof fn lemma_groups_operations_prefix(groups: Seq<GroupView>, n: int)
    requires
        0 <= n <= groups.len(),
    ensures
        groups_operations(groups.take(n)) <= groups_operations(groups),
        groups_selected(groups.take(n)) <= groups_selected(groups),
    decreases groups.len() - n,
{
    if n < groups.len() {
        lemma_groups_operations_prefix(groups, n + 1);
        assert(groups.take(n + 1).drop_last() =~= groups.take(n));
    } else {
        assert(groups.take(n) =~= groups);
    }
}

impl Endpoint {
    /// Whether every operation is selected.
    pub fn all_selected(&self) -> (r: bool)
        ensures
            r == self@.all_selected(),
    {
        for i in 0..self.operations.len()
            invariant
                forall|j: int| 0 <= j < i ==> (#[trigger] self.operations@[j]).selected,
        {
            if !self.operations[i].selected {
                proof {
                    assert(!self@.operations[i as int].selected);
                }
                return false;
            }
        }
        true
    }

    /// Whether no operation is selected.
    pub fn none_selected(&self) -> (r: bool)
        ensures
            r == self@.none_selected(),
    {
        for i in 0..self.operations.len()
            invariant
                forall|j: int| 0 <= j < i ==> !(#[trigger] self.operations@[j]).selected,
        {
            if self.operations[i].selected {
                proof {
                    assert(self@.operations[i as int].selected);
                }
                return false;
            }
        }
        true
    }

    /// The number of selected operations.
    pub fn selected_count(&self) -> (r: usize)
        ensures
            r == self@.selected_count(),
    {
        let ghost views = self@.operations;
        let mut count: usize = 0;
        for i in 0..self.operations.len()
            invariant
                views == self@.operations,
                count == selected_among(views.take(i as int)),
                count <= i,
        {
            proof {
                assert(views.take(i + 1).drop_last() =~= views.take(i as int));
            }
            if self.operations[i].selected {
                count += 1;
            }
        }
        proof {
            assert(views.take(views.len() as int) =~= views);
        }
        count
    }

    /// Select every operation, or none.
    pub fn set_all(&mut self, selected: bool)
        ensures
            final(self)@ == old(self)@.with_all(selected),
    {
        let ghost before = self@;
        let n = self.operations.len();
        for i in 0..n
            invariant
                n == before.operations.len(),
                self.operations.len() == n,
                self.path@ == before.path,
                forall|j: int|
                    0 <= j < before.operations.len() ==> (#[trigger] self.operations@[j]).method@
                        == before.operations[j].method,
                forall|j: int|
                    0 <= j < i ==> (#[trigger] self.operations@[j]).selected == selected,
        {
            self.operations[i].selected = selected;
        }
        proof {
            assert(self@.operations =~= before.with_all(selected).operations);
        }
    }

    /// The number of operations.
    pub fn operation_count(&self) -> (r: usize)
        ensures
            r == self@.operation_count(),
    {
        self.operations.len()
    }
}

impl PathGroup {
    /// Whether every operation is selected.
    pub fn all_selected(&self) -> (r: bool)
        ensures
            r == self@.all_selected(),
    {
        for i in 0..self.endpoints.len()
            invariant
                forall|j: int| 0 <= j < i ==> (#[trigger] self.endpoints@[j])@.all_selected(),
        {
            if !self.endpoints[i].all_selected() {
                proof {
                    assert(!self@.endpoints[i as int].all_selected());
                }
                return false;
            }
        }
        true
    }

    /// Whether no operation is selected.
    pub fn none_selected(&self) -> (r: bool)
        ensures
            r == self@.none_selected(),
    {
        for i in 0..self.endpoints.len()
            invariant
                forall|j: int| 0 <= j < i ==> (#[trigger] self.endpoints@[j])@.none_selected(),
        {
            if !self.endpoints[i].none_selected() {
                proof {
                    assert(!self@.endpoints[i as int].none_selected());
                }
                return false;
            }
        }
        true
    }

    /// The number of selected operations.
    pub fn selected_count(&self) -> (r: usize)
        requires
            self@.selected_count() <= usize::MAX,
        ensures
            r == self@.selected_count(),
    {
        let ghost views = self@.endpoints;
        let mut count: usize = 0;
        for i in 0..self.endpoints.len()
            invariant
                views == self@.endpoints,
                selected_total(views) <= usize::MAX,
                count == selected_total(views.take(i as int)),
        {
            proof {
                assert(views.take(i + 1).drop_last() =~= views.take(i as int));
                lemma_operation_total_prefix(views, i + 1);
            }
            count += self.endpoints[i].selected_count();
        }
        proof {
            assert(views.take(views.len() as int) =~= views);
        }
        count
    }

    /// The number of operations.
    pub fn operation_count(&self) -> (r: usize)
        requires
            self@.operation_count() <= usize::MAX,
        ensures
            r == self@.operation_count(),
    {
        let ghost views = self@.endpoints;
        let mut count: usize = 0;
        for i in 0..self.endpoints.len()
            invariant
                views == self@.endpoints,
                operation_total(views) <= usize::MAX,
                count == operation_total(views.take(i as int)),
        {
            proof {
                assert(views.take(i + 1).drop_last() =~= views.take(i as int));
                lemma_operation_total_prefix(views, i + 1);
            }
            count += self.endpoints[i].operation_count();
        }
        proof {
            assert(views.take(views.len() as int) =~= views);
        }
        count
    }

    /// Select every operation, or none.
    pub fn set_all(&mut self, selected: bool)
        ensures
            final(self)@ == old(self)@.with_all(selected),
    {
        let ghost before = self@;
        let n = self.endpoints.len();
        for i in 0..n
            invariant
                n == before.endpoints.len(),
                self.endpoints.len() == n,
                self.name@ == before.name,
                forall|j: int|
                    i <= j < before.endpoints.len() ==> (#[trigger] self.endpoints@[j])@
                        == before.endpoints[j],
                forall|j: int|
                    0 <= j < i ==> (#[trigger] self.endpoints@[j])@
                        == before.endpoints[j].with_all(selected),
        {
            self.endpoints[i].set_all(selected);
        }
        proof {
            assert(self@.endpoints =~= before.with_all(selected).endpoints);
        }
    }
}

/// The number of selected operations of all groups.
pub fn count_selected(groups: &[PathGroup]) -> (r: u128)
    requires
        groups_selected(groups_view(groups@)) <= u128::MAX,
    ensures
        r == groups_selected(groups_view(groups@)),
{
    let ghost views = groups_view(groups@);
    let mut count: u128 = 0;
    for i in 0..groups.len()
        invariant
            views == groups_view(groups@),
            groups_selected(views) <= u128::MAX,
            count == groups_selected(views.take(i as int)),
    {
        let endpoints = &groups[i].endpoints;
        let ghost eps = endpoints_view(endpoints@);
        let ghost before = count;
        proof {
            assert(views.take(i + 1).drop_last() =~= views.take(i as int));
            assert(views.take(i + 1).last() == groups@[i as int]@);
            lemma_groups_operations_prefix(views, i + 1);
        }
        for j in 0..endpoints.len()
            invariant
                eps == endpoints_view(endpoints@),
                before + selected_total(eps) <= u128::MAX,
                count == before + selected_total(eps.take(j as int)),
        {
            proof {
                assert(eps.take(j + 1).drop_last() =~= eps.take(j as int));
                lemma_operation_total_prefix(eps, j + 1);
            }
            count += endpoints[j].selected_count() as u128;
        }
        proof {
            assert(eps.take(eps.len() as int) =~= eps);
        }
    }
    proof {
        assert(views.take(views.len() as int) =~= views);
    }
    count
}

/// The number of operations of all groups.
pub fn count_operations(groups: &[PathGroup]) -> (r: u128)
    requires
        groups_operations(groups_view(groups@)) <= u128::MAX,
    ensures
        r == groups_operations(groups_view(groups@)),
{
    let ghost views = groups_view(groups@);
    let mut count: u128 = 0;
    for i in 0..groups.len()
        invariant
            views == groups_view(groups@),
            groups_operations(views) <= u128::MAX,
            count == groups_operations(views.take(i as int)),
    {
        let endpoints = &groups[i].endpoints;
        let ghost eps = endpoints_view(endpoints@);
        let ghost before = count;
        proof {
            assert(views.take(i + 1).drop_last() =~= views.take(i as int));
            assert(views.take(i + 1).last() == groups@[i as int]@);
            lemma_groups_operations_prefix(views, i + 1);
        }
        for j in 0..endpoints.len()
            invariant
                eps == endpoints_view(endpoints@),
                before + operation_total(eps) <= u128::MAX,
                count == before + operation_total(eps.take(j as int)),
        {
            proof {
                assert(eps.take(j + 1).drop_last() =~= eps.take(j as int));
                lemma_operation_total_prefix(eps, j + 1);
            }
            count += endpoints[j].operation_count() as u128;
        }
        proof {
            assert(eps.take(eps.len() as int) =~= eps);
        }
    }
    proof {
        assert(views.take(views.len() as int) =~= views);
    }
    count
}

/// Select every operation of all groups, or none.
pub fn set_all_groups(groups: &mut Vec<PathGroup>, selected: bool)
    ensures
        groups_view(final(groups)@) == groups_view(old(groups)@).map_values(
            |g: GroupView| g.with_all(selected),
        ),
{
    let ghost before = groups_view(groups@);
    let n = groups.len();
    for i in 0..n
        invariant
            n == before.len(),
            groups.len() == n,
            forall|j: int| i <= j < n ==> (#[trigger] groups@[j])@ == before[j],
            forall|j: int| 0 <= j < i ==> (#[trigger] groups@[j])@ == before[j].with_all(selected),
    {
        groups[i].set_all(selected);
    }
    proof {
        assert(groups_view(groups@) =~= before.map_values(|g: GroupView| g.with_all(selected)));
    }
}

} // verus!
