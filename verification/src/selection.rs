//! Which operations of a source were deselected, kept from one session to the next.

use vstd::prelude::*;

use crate::keyed::KeyedLists;
use crate::model::{
    all_endpoints, endpoints_view, groups_view, Endpoint, EndpointView, GroupView, OperationView,
    PathGroup,
};
use crate::text::{opt_string, texts, with_tail};
use crate::text_set::{set_of, TextSet};

verus! {

/// Persisted map: source identifier (file path or URL) → list of deselected operations.
pub struct SelectionDb {
    /// Source key → list of deselected operations.
    pub deselected: KeyedLists,
    /// Source key → full list of all operations at last export.
    /// Used to detect new/removed operations when the document changes.
    pub all_paths: KeyedLists,
    /// Runtime-only: overridden file path for the database.
    pub custom_path: Option<String>,
}

/// What a [`SelectionDb`] keeps.
pub struct SelectionView {
    pub deselected: Map<Seq<char>, Seq<Seq<char>>>,
    pub all_paths: Map<Seq<char>, Seq<Seq<char>>>,
    pub custom_path: Option<Seq<char>>,
}

impl View for SelectionDb {
    type V = SelectionView;

    open spec fn view(&self) -> SelectionView {
        SelectionView {
            deselected: self.deselected@,
            all_paths: self.all_paths@,
            custom_path: opt_string(self.custom_path),
        }
    }
}

/// A database in which nothing is saved.
pub open spec fn nothing_saved() -> SelectionView {
    SelectionView { deselected: Map::empty(), all_paths: Map::empty(), custom_path: None }
}

/// The text by which an operation is known: its method, a space and its path.
pub open spec fn operation_key(method: Seq<char>, path: Seq<char>) -> Seq<char> {
    method + " "@ + path
}

/// The keys of the operations of an endpoint.
pub open spec fn endpoint_keys(ep: EndpointView) -> Seq<Seq<char>> {
    ep.operations.map_values(|op: OperationView| operation_key(op.method, ep.path))
}

/// The keys of the operations of an endpoint that are not selected.
pub open spec fn endpoint_deselected(ep: EndpointView) -> Seq<Seq<char>> {
    ep.operations.filter(|op: OperationView| !op.selected).map_values(
        |op: OperationView| operation_key(op.method, ep.path),
    )
}

/// The keys of all operations, in order.
pub open spec fn all_keys(endpoints: Seq<EndpointView>) -> Seq<Seq<char>>
    decreases endpoints.len(),
{
    if endpoints.len() == 0 {
        Seq::empty()
    } else {
        all_keys(endpoints.drop_last()) + endpoint_keys(endpoints.last())
    }
}

/// The keys of the operations that are not selected, in order.
pub open spec fn deselected_keys(endpoints: Seq<EndpointView>) -> Seq<Seq<char>>
    decreases endpoints.len(),
{
    if endpoints.len() == 0 {
        Seq::empty()
    } else {
        deselected_keys(endpoints.drop_last()) + endpoint_deselected(endpoints.last())
    }
}

/// The endpoint with the operations deselected whose keys are saved.
pub open spec fn restored_endpoint(ep: EndpointView, saved: Set<Seq<char>>) -> EndpointView {
    EndpointView {
        path: ep.path,
        operations: ep.operations.map_values(
            |op: OperationView|
                OperationView {
                    method: op.method,
                    selected: op.selected && !saved.contains(operation_key(op.method, ep.path)),
                },
        ),
    }
}

/// The group with the operations deselected whose keys are saved.
pub open spec fn restored_group(group: GroupView, saved: Set<Seq<char>>) -> GroupView {
    GroupView {
        name: group.name,
        endpoints: group.endpoints.map_values(|ep: EndpointView| restored_endpoint(ep, saved)),
    }
}

/// The groups with the operations deselected whose keys are saved.
pub open spec fn restored(groups: Seq<GroupView>, saved: Set<Seq<char>>) -> Seq<GroupView> {
    groups.map_values(|g: GroupView| restored_group(g, saved))
}

impl SelectionView {
    /// Something was saved for the source, be it that nothing is deselected.
    pub open spec fn knows(self, key: Seq<char>) -> bool {
        self.deselected.contains_key(key) || self.all_paths.contains_key(key)
    }

    /// What is saved as deselected for the source.
    pub open spec fn deselected_in(self, key: Seq<char>) -> Seq<Seq<char>> {
        if self.deselected.contains_key(key) {
            self.deselected[key]
        } else {
            Seq::empty()
        }
    }

    /// All operations that were known of the source, if they were saved.
    pub open spec fn known_in(self, key: Seq<char>) -> Option<Seq<Seq<char>>> {
        if self.all_paths.contains_key(key) {
            Some(self.all_paths[key])
        } else {
            None
        }
    }

    /// The groups with what is saved for the source deselected.
    pub open spec fn applied(self, key: Seq<char>, groups: Seq<GroupView>) -> Seq<GroupView> {
        if self.deselected.contains_key(key) {
            restored(groups, self.deselected[key].to_set())
        } else {
            groups
        }
    }

    /// What is kept after the selection of a source was saved.
    pub open spec fn recorded(self, key: Seq<char>, groups: Seq<GroupView>) -> SelectionView {
        let endpoints = all_endpoints(groups);
        SelectionView {
            deselected: if deselected_keys(endpoints).len() == 0 {
                self.deselected.remove(key)
            } else {
                self.deselected.insert(key, deselected_keys(endpoints))
            },
            all_paths: self.all_paths.insert(key, all_keys(endpoints)),
            custom_path: self.custom_path,
        }
    }
}

/// The text by which an operation is known.
pub fn operation_key_text(method: &str, path: &str) -> (r: String)
    ensures
        r@ == operation_key(method@, path@),
{
    let mut r = with_tail(method, " ");
    r.append(path);
    r
}

/// Deselect the operations of an endpoint whose keys are saved.
fn restore_endpoint(ep: &mut Endpoint, saved: &TextSet)
    ensures
        final(ep)@ == restored_endpoint(old(ep)@, saved@),
{
    let ghost before = ep@;
    let n = ep.operations.len();
    for i in 0..n
        invariant
            n == before.operations.len(),
            ep.operations.len() == n,
            ep.path@ == before.path,
            forall|j: int|
                0 <= j < i ==> (#[trigger] ep.operations@[j])@ == restored_endpoint(
                    before,
                    saved@,
                ).operations[j],
            forall|j: int| i <= j < n ==> (#[trigger] ep.operations@[j])@ == before.operations[j],
    {
        let key = operation_key_text(ep.operations[i].method.as_str(), ep.path.as_str());
        if saved.contains(key.as_str()) {
            ep.operations[i].selected = false;
        }
    }
    proof {
        assert(ep@.operations =~= restored_endpoint(before, saved@).operations);
    }
}

/// Deselect the operations of a group whose keys are saved.
fn restore_group(group: &mut PathGroup, saved: &TextSet)
    ensures
        final(group)@ == restored_group(old(group)@, saved@),
{
    let ghost before = group@;
    let n = group.endpoints.len();
    for i in 0..n
        invariant
            n == before.endpoints.len(),
            group.endpoints.len() == n,
            group.name@ == before.name,
            forall|j: int|
                0 <= j < i ==> (#[trigger] group.endpoints@[j])@ == restored_endpoint(
                    before.endpoints[j],
                    saved@,
                ),
            forall|j: int| i <= j < n ==> (#[trigger] group.endpoints@[j])@ == before.endpoints[j],
    {
        restore_endpoint(&mut group.endpoints[i], saved);
    }
    proof {
        assert(group@.endpoints =~= restored_group(before, saved@).endpoints);
    }
}

/// Deselect the operations whose keys are saved.
pub fn restore_groups(groups: &mut Vec<PathGroup>, saved: &TextSet)
    ensures
        groups_view(final(groups)@) == restored(groups_view(old(groups)@), saved@),
{
    let ghost before = groups_view(groups@);
    let n = groups.len();
    for i in 0..n
        invariant
            n == before.len(),
            groups.len() == n,
            forall|j: int|
                0 <= j < i ==> (#[trigger] groups@[j])@ == restored_group(before[j], saved@),
            forall|j: int| i <= j < n ==> (#[trigger] groups@[j])@ == before[j],
    {
        restore_group(&mut groups[i], saved);
    }
    proof {
        assert(groups_view(groups@) =~= restored(before, saved@));
    }
}

/// Add the keys of an endpoint's operations to a list: of all, or of those that are not selected.
fn push_keys(ep: &Endpoint, only_deselected: bool, keys: &mut Vec<String>)
    ensures
        texts(final(keys)@) == texts(old(keys)@) + if only_deselected {
            endpoint_deselected(ep@)
        } else {
            endpoint_keys(ep@)
        },
{
    let ghost before = texts(keys@);
    let ghost ops = ep@.operations;
    let ghost pred = |op: OperationView| !only_deselected || !op.selected;
    let ghost make = |op: OperationView| operation_key(op.method, ep@.path);
    proof {
        reveal(Seq::filter);
        assert(before =~= before + ops.take(0).filter(pred).map_values(make));
    }
    for i in 0..ep.operations.len()
        invariant
            ops == ep@.operations,
            pred == (|op: OperationView| !only_deselected || !op.selected),
            make == (|op: OperationView| operation_key(op.method, ep@.path)),
            texts(keys@) == before + ops.take(i as int).filter(pred).map_values(make),
    {
        let ghost now = texts(keys@);
        proof {
            assert(ops[i as int] == ep.operations@[i as int]@);
            assert(ops.take(i + 1) =~= ops.take(i as int).push(ops[i as int]));
            crate::edit::lemma_filter_push(ops.take(i as int), pred, ops[i as int]);
        }
        if !only_deselected || !ep.operations[i].selected {
            keys.push(operation_key_text(ep.operations[i].method.as_str(), ep.path.as_str()));
            proof {
                let kept = ops.take(i as int).filter(pred);
                assert(texts(keys@) =~= now.push(make(ops[i as int])));
                assert(kept.push(ops[i as int]).map_values(make) =~= kept.map_values(make).push(
                    make(ops[i as int]),
                ));
                assert(before + kept.map_values(make).push(make(ops[i as int])) =~= now.push(
                    make(ops[i as int]),
                ));
            }
        }
    }
    proof {
        assert(ops.take(ops.len() as int) =~= ops);
        if only_deselected {
            lemma_filter_same(ops, pred, |op: OperationView| !op.selected);
        } else {
            crate::edit::lemma_filter_all(ops, pred);
        }
    }
}

proof fn lemma_filter_same<A>(s: Seq<A>, p: spec_fn(A) -> bool, q: spec_fn(A) -> bool)
    requires
        forall|a: A| #[trigger] p(a) == q(a),
    ensures
        s.filter(p) == s.filter(q),
    decreases s.len(),
{
    reveal(Seq::filter);
    if s.len() > 0 {
        lemma_filter_same(s.drop_last(), p, q);
    }
}

/// The keys of the operations of all groups: of all, or of those that are not selected.
fn list_keys(groups: &[PathGroup], only_deselected: bool) -> (r: Vec<String>)
    ensures
        texts(r@) == if only_deselected {
            deselected_keys(all_endpoints(groups_view(groups@)))
        } else {
            all_keys(all_endpoints(groups_view(groups@)))
        },
{
    let ghost views = groups_view(groups@);
    let mut r: Vec<String> = Vec::new();
    proof {
        assert(texts(r@) =~= Seq::empty());
    }
    for i in 0..groups.len()
        invariant
            views == groups_view(groups@),
            texts(r@) == if only_deselected {
                deselected_keys(all_endpoints(views.take(i as int)))
            } else {
                all_keys(all_endpoints(views.take(i as int)))
            },
    {
        let endpoints = &groups[i].endpoints;
        let ghost front = all_endpoints(views.take(i as int));
        let ghost eps = endpoints_view(endpoints@);
        proof {
            assert(front + eps.take(0) =~= front);
        }
        for j in 0..endpoints.len()
            invariant
                eps == endpoints_view(endpoints@),
                texts(r@) == if only_deselected {
                    deselected_keys(front + eps.take(j as int))
                } else {
                    all_keys(front + eps.take(j as int))
                },
        {
            push_keys(&endpoints[j], only_deselected, &mut r);
            proof {
                let longer = front + eps.take(j + 1);
                assert(longer.drop_last() =~= front + eps.take(j as int));
                assert(longer.last() == eps[j as int]);
            }
        }
        proof {
            assert(eps.take(eps.len() as int) =~= eps);
            assert(views.take(i + 1).drop_last() =~= views.take(i as int));
            assert(views.take(i + 1).last() == groups@[i as int]@);
        }
    }
    proof {
        assert(views.take(views.len() as int) =~= views);
    }
    r
}

/// The keys of the operations that are not selected.
pub fn list_deselected(groups: &[PathGroup]) -> (r: Vec<String>)
    ensures
        texts(r@) == deselected_keys(all_endpoints(groups_view(groups@))),
{
    list_keys(groups, true)
}

/// The keys of all operations.
pub fn list_operations(groups: &[PathGroup]) -> (r: Vec<String>)
    ensures
        texts(r@) == all_keys(all_endpoints(groups_view(groups@))),
{
    list_keys(groups, false)
}

impl Default for SelectionDb {
    /// Nothing saved yet.
    fn default() -> (r: SelectionDb)
        ensures
            r.well_formed(),
            r@ == nothing_saved(),
    {
        SelectionDb {
            deselected: KeyedLists::new(),
            all_paths: KeyedLists::new(),
            custom_path: None,
        }
    }
}

impl SelectionDb {
    /// Each source has one list of either kind.
    pub open spec fn well_formed(&self) -> bool {
        &&& self.deselected.well_formed()
        &&& self.all_paths.well_formed()
    }

    /// Whether something is deselected for the source.
    pub fn has_selection(&self, key: &str) -> (r: bool)
        requires
            self.well_formed(),
        ensures
            r == self@.deselected.contains_key(key@),
    {
        self.deselected.contains_key(key)
    }

    /// Save the selection of a source.
    pub fn record(&mut self, key: &str, groups: &[PathGroup])
        requires
            old(self).well_formed(),
        ensures
            final(self).well_formed(),
            final(self)@ == old(self)@.recorded(key@, groups_view(groups@)),
    {
        let deselected = list_deselected(groups);
        let all_paths = list_operations(groups);
        proof {
            assert(texts(deselected@).len() == deselected@.len());
        }
        if deselected.len() == 0 {
            self.deselected.remove(key);
        } else {
            self.deselected.insert(key.to_owned(), deselected);
        }
        self.all_paths.insert(key.to_owned(), all_paths);
    }

    /// Deselect what is saved for the source. Whether anything is saved for it is returned.
    pub fn apply(&self, key: &str, groups: &mut Vec<PathGroup>) -> (r: bool)
        requires
            self.well_formed(),
        ensures
            r == self@.deselected.contains_key(key@),
            groups_view(final(groups)@) == self@.applied(key@, groups_view(old(groups)@)),
    {
        match self.deselected.get(key) {
            Some(saved) => {
                let set = set_of(saved);
                restore_groups(groups, &set);
                true
            },
            None => false,
        }
    }
}

} // verus!
