//! The endpoints of a document, in groups.

use vstd::prelude::*;

use crate::json::{Json, JsonView, Member, MemberView};
use crate::model::{
    all_endpoints, endpoints_view, groups_operations, groups_view, operation_total, operations_view,
    Endpoint, EndpointView, GroupView, Operation, OperationView, PathGroup,
};
use crate::text::{
    chars_of, find_char, find_from, lemma_text_lt_asymmetric, lemma_text_lt_total,
    lemma_text_lt_transitive, same_text, text_before, text_lt,
};

verus! {

/// The members of a path item that are operations, in the order in which they are listed.
pub open spec fn http_methods() -> Seq<Seq<char>> {
    seq![
        "get"@,
        "post"@,
        "put"@,
        "patch"@,
        "delete"@,
        "head"@,
        "options"@,
        "trace"@,
    ]
}

/// The number of slashes at the front.
pub open spec fn leading_slashes(path: Seq<char>) -> int
    decreases path.len(),
{
    if path.len() > 0 && path[0] == '/' {
        1 + leading_slashes(path.drop_first())
    } else {
        0
    }
}

/// The group of a path: its first segment, or `/` if that is empty.
pub open spec fn group_name(path: Seq<char>) -> Seq<char> {
    let start = leading_slashes(path);
    let segment = path.subrange(start, find_from(path, '/', start));
    if segment.len() == 0 {
        "/"@
    } else {
        segment
    }
}

/// The operations of a path item: one for each HTTP method that it has, selected.
pub open spec fn operations_of(item: JsonView) -> Seq<OperationView> {
    http_methods().filter(|m: Seq<char>| item.get(m) is Some).map_values(
        |m: Seq<char>| OperationView { method: m, selected: true },
    )
}

/// The endpoint of a path.
pub open spec fn endpoint_of(path: MemberView) -> EndpointView {
    EndpointView { path: path.key, operations: operations_of(path.value) }
}

/// The endpoints with one more, behind those whose paths do not come later.
pub open spec fn insert_by_path(endpoints: Seq<EndpointView>, ep: EndpointView) -> Seq<
    EndpointView,
>
    decreases endpoints.len(),
{
    if endpoints.len() > 0 && text_lt(ep.path, endpoints.last().path) {
        insert_by_path(endpoints.drop_last(), ep).push(endpoints.last())
    } else {
        endpoints.push(ep)
    }
}

/// The groups with one more endpoint, in the group of the given name.
pub open spec fn add_endpoint(groups: Seq<GroupView>, name: Seq<char>, ep: EndpointView) -> Seq<
    GroupView,
>
    decreases groups.len(),
{
    if groups.len() > 0 && text_lt(name, groups.last().name) {
        add_endpoint(groups.drop_last(), name, ep).push(groups.last())
    } else if groups.len() > 0 && groups.last().name == name {
        groups.drop_last().push(
            GroupView { name, endpoints: insert_by_path(groups.last().endpoints, ep) },
        )
    } else {
        groups.push(GroupView { name, endpoints: seq![ep] })
    }
}

/// The groups of the given paths. Paths without operations are left out.
pub open spec fn grouped(paths: Seq<MemberView>) -> Seq<GroupView>
    decreases paths.len(),
{
    if paths.len() == 0 {
        Seq::empty()
    } else {
        let front = grouped(paths.drop_last());
        let ep = endpoint_of(paths.last());
        if ep.operations.len() == 0 {
            front
        } else {
            add_endpoint(front, group_name(paths.last().key), ep)
        }
    }
}

/// What is reported of a document without paths.
pub open spec fn no_paths_error() -> Seq<char> {
    "No 'paths' object found in spec."@
}

/// The groups of a document.
pub open spec fn extracted(spec: JsonView) -> Result<Seq<GroupView>, Seq<char>> {
    match spec.get("paths"@) {
        Some(JsonView::Object(paths)) => Ok(grouped(paths)),
        _ => Err(no_paths_error()),
    }
}

/// What a result with groups holds.
pub open spec fn groups_result(r: Result<Vec<PathGroup>, String>) -> Result<
    Seq<GroupView>,
    Seq<char>,
> {
    match r {
        Ok(groups) => Ok(groups_view(groups@)),
        Err(error) => Err(error@),
    }
}

/// The HTTP methods, in the order in which they are listed.
pub fn http_method_names() -> (r: Vec<&'static str>)
    ensures
        r@.map_values(|m: &'static str| m@) == http_methods(),
        r.len() == 8,
{
    let r: Vec<&'static str> = vec![
        "get",
        "post",
        "put",
        "patch",
        "delete",
        "head",
        "options",
        "trace",
    ];
    proof {
        assert(r@.map_values(|m: &'static str| m@) =~= http_methods());
    }
    r
}

/// The group of a path.
fn group_name_of(path: &str) -> (r: String)
    ensures
        r@ == group_name(path@),
{
    let chars = chars_of(path);
    let mut start: usize = 0;
    proof {
        assert(path@.skip(0) =~= path@);
    }
    while start < chars.len() && chars[start] == '/'
        invariant
            chars@ == path@,
            start <= chars.len(),
            leading_slashes(path@) == start + leading_slashes(path@.skip(start as int)),
        decreases chars.len() - start,
    {
        proof {
            assert(path@.skip(start as int).drop_first() =~= path@.skip(start + 1));
        }
        start += 1;
    }
    let end = find_char(&chars, '/', start);
    if start == end {
        "/".to_owned()
    } else {
        path.substring_char(start, end).to_owned()
    }
}

/// The operations of a path item.
fn list_operations(item: &Json) -> (r: Vec<Operation>)
    ensures
        operations_view(r@) == operations_of(item@),
{
    let methods = http_method_names();
    let ghost names = http_methods();
    let ghost has = |m: Seq<char>| item@.get(m) is Some;
    let ghost make = |m: Seq<char>| OperationView { method: m, selected: true };
    let mut r: Vec<Operation> = Vec::new();
    proof {
        reveal(Seq::filter);
        assert(operations_view(r@) =~= names.take(0).filter(has).map_values(make));
    }
    for i in 0..methods.len()
        invariant
            names == http_methods(),
            methods@.map_values(|m: &'static str| m@) == names,
            has == (|m: Seq<char>| item@.get(m) is Some),
            make == (|m: Seq<char>| OperationView { method: m, selected: true }),
            operations_view(r@) == names.take(i as int).filter(has).map_values(make),
    {
        let ghost before = operations_view(r@);
        proof {
            assert(names[i as int] == methods@[i as int]@);
            assert(names.take(i + 1) =~= names.take(i as int).push(names[i as int]));
            crate::edit::lemma_filter_push(names.take(i as int), has, names[i as int]);
        }
        if item.get(methods[i]).is_some() {
            r.push(Operation { method: methods[i].to_owned(), selected: true });
            proof {
                assert(operations_view(r@) =~= before.push(make(names[i as int])));
                assert(names.take(i + 1).filter(has).map_values(make) =~= before.push(
                    make(names[i as int]),
                ));
            }
        }
    }
    proof {
        assert(names.take(names.len() as int) =~= names);
    }
    r
}

/// Put an endpoint behind those whose paths do not come later.
fn insert_endpoint(endpoints: &mut Vec<Endpoint>, ep: Endpoint)
    ensures
        endpoints_view(final(endpoints)@) == insert_by_path(endpoints_view(old(endpoints)@), ep@),
{
    let ghost views = endpoints_view(endpoints@);
    let mut i: usize = endpoints.len();
    proof {
        assert(views.take(i as int) =~= views);
        assert(insert_by_path(views, ep@) =~= insert_by_path(views.take(i as int), ep@)
            + views.skip(i as int));
    }
    while i > 0 && text_before(ep.path.as_str(), endpoints[i - 1].path.as_str())
        invariant
            i <= endpoints.len(),
            views == endpoints_view(endpoints@),
            insert_by_path(views, ep@) == insert_by_path(views.take(i as int), ep@) + views.skip(
                i as int,
            ),
        decreases i,
    {
        proof {
            let front = views.take(i as int);
            assert(front.last() == endpoints@[i - 1]@);
            assert(front.drop_last() =~= views.take(i - 1));
            assert(insert_by_path(views.take(i - 1), ep@).push(front.last()) + views.skip(i as int)
                =~= insert_by_path(views.take(i - 1), ep@) + views.skip(i - 1));
        }
        i -= 1;
    }
    proof {
        let front = views.take(i as int);
        if i > 0 {
            assert(front.last() == endpoints@[i - 1]@);
        }
        assert(insert_by_path(front, ep@) == front.push(ep@));
    }
    let ghost ep_view = ep@;
    endpoints.insert(i, ep);
    proof {
        assert(endpoints_view(endpoints@) =~= views.take(i as int).push(ep_view) + views.skip(
            i as int,
        ));
    }
}

/// Put an endpoint into the group of the given name.
fn add_to_groups(groups: &mut Vec<PathGroup>, name: String, ep: Endpoint)
    ensures
        groups_view(final(groups)@) == add_endpoint(groups_view(old(groups)@), name@, ep@),
{
    let ghost views = groups_view(groups@);
    let mut i: usize = groups.len();
    proof {
        assert(views.take(i as int) =~= views);
        assert(add_endpoint(views, name@, ep@) =~= add_endpoint(views.take(i as int), name@, ep@)
            + views.skip(i as int));
    }
    while i > 0 && text_before(name.as_str(), groups[i - 1].name.as_str())
        invariant
            i <= groups.len(),
            views == groups_view(groups@),
            add_endpoint(views, name@, ep@) == add_endpoint(views.take(i as int), name@, ep@)
                + views.skip(i as int),
        decreases i,
    {
        proof {
            let front = views.take(i as int);
            assert(front.last() == groups@[i - 1]@);
            assert(front.drop_last() =~= views.take(i - 1));
            assert(add_endpoint(views.take(i - 1), name@, ep@).push(front.last()) + views.skip(
                i as int,
            ) =~= add_endpoint(views.take(i - 1), name@, ep@) + views.skip(i - 1));
        }
        i -= 1;
    }
    let ghost front = views.take(i as int);
    let ghost ep_view = ep@;
    if i > 0 && same_text(groups[i - 1].name.as_str(), name.as_str()) {
        proof {
            assert(front.last() == groups@[i - 1]@);
        }
        insert_endpoint(&mut groups[i - 1].endpoints, ep);
        proof {
            let changed = GroupView {
                name: name@,
                endpoints: insert_by_path(front.last().endpoints, ep_view),
            };
            assert(groups@[i - 1]@ == changed);
            assert(groups_view(groups@) =~= front.drop_last().push(changed) + views.skip(i as int));
        }
    } else {
        proof {
            if i > 0 {
                assert(front.last() == groups@[i - 1]@);
            }
        }
        let mut endpoints: Vec<Endpoint> = Vec::new();
        endpoints.push(ep);
        let ghost added = GroupView { name: name@, endpoints: seq![ep_view] };
        let group = PathGroup { name, endpoints };
        proof {
            assert(endpoints_view(group.endpoints@) =~= seq![ep_view]);
        }
        groups.insert(i, group);
        proof {
            assert(groups_view(groups@) =~= front.push(added) + views.skip(i as int));
        }
    }
}

/// The endpoints of a document in groups, by the first segment of their paths. Groups and
/// endpoints are in the order of their names and paths, and every operation is selected.
pub fn extract_groups(spec: &Json) -> (r: Result<Vec<PathGroup>, String>)
    ensures
        groups_result(r) == extracted(spec@),
        r matches Ok(groups) ==> is_countable(groups_view(groups@)),
{
    let paths: &Vec<Member> = match spec.get("paths") {
        Some(value) => match value.as_object() {
            Some(members) => members,
            None => {
                return Err("No 'paths' object found in spec.".to_owned());
            },
        },
        None => {
            return Err("No 'paths' object found in spec.".to_owned());
        },
    };
    let ghost views = crate::json::members_view(paths@);
    let mut groups: Vec<PathGroup> = Vec::new();
    proof {
        assert(groups_view(groups@) =~= grouped(views.take(0)));
    }
    for i in 0..paths.len()
        invariant
            views == crate::json::members_view(paths@),
            groups_view(groups@) == grouped(views.take(i as int)),
    {
        proof {
            assert(views.take(i + 1).drop_last() =~= views.take(i as int));
            assert(views.take(i + 1).last() == paths@[i as int]@);
        }
        let operations = list_operations(&paths[i].value);
        if operations.len() > 0 {
            let name = group_name_of(paths[i].key.as_str());
            let ep = Endpoint { path: paths[i].key.clone(), operations };
            add_to_groups(&mut groups, name, ep);
        }
    }
    proof {
        assert(views.take(views.len() as int) =~= views);
        lemma_grouped_count(views);
    }
    Ok(groups)
}

/// There are no more operations than documents can have: eight for each path.
pub open spec fn is_countable(groups: Seq<GroupView>) -> bool {
    groups_operations(groups) <= 8 * usize::MAX
}

proof fn lemma_insert_count(endpoints: Seq<EndpointView>, ep: EndpointView)
    ensures
        operation_total(insert_by_path(endpoints, ep)) == operation_total(endpoints)
            + ep.operation_count(),
    decreases endpoints.len(),
{
    let all = insert_by_path(endpoints, ep);
    if endpoints.len() > 0 && text_lt(ep.path, endpoints.last().path) {
        lemma_insert_count(endpoints.drop_last(), ep);
        assert(all.drop_last() =~= insert_by_path(endpoints.drop_last(), ep));
    } else {
        assert(all.drop_last() =~= endpoints);
    }
}

proof fn lemma_add_count(groups: Seq<GroupView>, name: Seq<char>, ep: EndpointView)
    ensures
        groups_operations(add_endpoint(groups, name, ep)) == groups_operations(groups)
            + ep.operation_count(),
    decreases groups.len(),
{
    let all = add_endpoint(groups, name, ep);
    if groups.len() > 0 && text_lt(name, groups.last().name) {
        lemma_add_count(groups.drop_last(), name, ep);
        assert(all.drop_last() =~= add_endpoint(groups.drop_last(), name, ep));
    } else if groups.len() > 0 && groups.last().name == name {
        lemma_insert_count(groups.last().endpoints, ep);
        assert(all.drop_last() =~= groups.drop_last());
    } else {
        assert(all.drop_last() =~= groups);
        reveal_with_fuel(operation_total, 2);
        assert(seq![ep].drop_last() =~= Seq::empty());
    }
}

proof fn lemma_grouped_count(paths: Seq<MemberView>)
    ensures
        groups_operations(grouped(paths)) <= 8 * paths.len(),
    decreases paths.len(),
{
    if paths.len() > 0 {
        let item = paths.last().value;
        lemma_grouped_count(paths.drop_last());
        http_methods().lemma_filter_len(|m: Seq<char>| item.get(m) is Some);
        lemma_add_count(
            grouped(paths.drop_last()),
            group_name(paths.last().key),
            endpoint_of(paths.last()),
        );
    }
}

/// The names of the groups come one after the other, none twice.
pub open spec fn names_ascend(groups: Seq<GroupView>) -> bool {
    forall|i: int, j: int|
        0 <= i < j < groups.len() ==> text_lt(
            (#[trigger] groups[i]).name,
            (#[trigger] groups[j]).name,
        )
}

/// No path of an endpoint comes before the path of an earlier one.
pub open spec fn paths_ascend(endpoints: Seq<EndpointView>) -> bool {
    forall|i: int, j: int|
        0 <= i < j < endpoints.len() ==> !text_lt(
            (#[trigger] endpoints[j]).path,
            (#[trigger] endpoints[i]).path,
        )
}

/// The group is one that comes out of the paths of a document.
pub open spec fn is_fresh(group: GroupView) -> bool {
    &&& group.endpoints.len() > 0
    &&& paths_ascend(group.endpoints)
    &&& forall|i: int|
        0 <= i < group.endpoints.len() ==> {
            &&& group_name((#[trigger] group.endpoints[i]).path) == group.name
            &&& group.endpoints[i].operations.len() > 0
            &&& group.endpoints[i].all_selected()
        }
}

/// The endpoints of the paths that have operations, in the order of the document.
pub open spec fn endpoints_in(paths: Seq<MemberView>) -> Seq<EndpointView> {
    paths.map_values(|p: MemberView| endpoint_of(p)).filter(
        |ep: EndpointView| ep.operations.len() > 0,
    )
}

pub proof fn lemma_insert_by_path(endpoints: Seq<EndpointView>, ep: EndpointView)
    requires
        paths_ascend(endpoints),
    ensures
        paths_ascend(insert_by_path(endpoints, ep)),
        insert_by_path(endpoints, ep).len() == endpoints.len() + 1,
        forall|i: int|
            0 <= i < insert_by_path(endpoints, ep).len() ==> (#[trigger] insert_by_path(
                endpoints,
                ep,
            )[i] == ep || endpoints.contains(insert_by_path(endpoints, ep)[i])),
        insert_by_path(endpoints, ep).to_multiset() == endpoints.to_multiset().insert(ep),
    decreases endpoints.len(),
{
    broadcast use vstd::seq_lib::group_to_multiset_ensures;

    let all = insert_by_path(endpoints, ep);
    if endpoints.len() > 0 && text_lt(ep.path, endpoints.last().path) {
        let front = endpoints.drop_last();
        let rest = insert_by_path(front, ep);
        assert forall|i: int, j: int| 0 <= i < j < front.len() implies !text_lt(
            (#[trigger] front[j]).path,
            (#[trigger] front[i]).path,
        ) by {
            assert(front[j] == endpoints[j] && front[i] == endpoints[i]);
        }
        lemma_insert_by_path(front, ep);
        assert(endpoints =~= front.push(endpoints.last()));
        assert forall|i: int| 0 <= i < all.len() implies #[trigger] all[i] == ep
            || endpoints.contains(all[i]) by {
            if i < rest.len() {
                assert(all[i] == rest[i]);
                if rest[i] != ep {
                    let k = choose|k: int| 0 <= k < front.len() && front[k] == rest[i];
                    assert(endpoints[k] == rest[i]);
                }
            } else {
                assert(all[i] == endpoints[endpoints.len() - 1]);
            }
        }
        assert forall|i: int, j: int| 0 <= i < j < all.len() implies !text_lt(
            (#[trigger] all[j]).path,
            (#[trigger] all[i]).path,
        ) by {
            assert(all[i] == rest[i]);
            if j < rest.len() {
                assert(all[j] == rest[j]);
            } else if rest[i] == ep {
                lemma_text_lt_asymmetric(ep.path, endpoints.last().path);
            } else {
                let k = choose|k: int| 0 <= k < front.len() && front[k] == rest[i];
                assert(endpoints[k] == rest[i]);
                assert(all[j] == endpoints[endpoints.len() - 1]);
            }
        }
        assert(endpoints.to_multiset().insert(ep) =~= front.to_multiset().insert(ep).insert(
            endpoints.last(),
        ));
    } else {
        assert forall|i: int, j: int| 0 <= i < j < all.len() implies !text_lt(
            (#[trigger] all[j]).path,
            (#[trigger] all[i]).path,
        ) by {
            assert(all[i] == endpoints[i]);
            if j == endpoints.len() {
                let last = endpoints.last();
                assert(i == endpoints.len() - 1 || !text_lt(
                    endpoints[endpoints.len() - 1].path,
                    endpoints[i].path,
                ));
                lemma_text_lt_total(ep.path, last.path);
                lemma_text_lt_total(last.path, endpoints[i].path);
                if text_lt(ep.path, endpoints[i].path) {
                    if last.path == endpoints[i].path {
                    } else {
                        lemma_text_lt_transitive(ep.path, endpoints[i].path, last.path);
                    }
                }
            } else {
                assert(all[j] == endpoints[j]);
            }
        }
    }
}

/// Every group is one that comes out of the paths of a document.
pub open spec fn all_fresh(groups: Seq<GroupView>) -> bool {
    forall|i: int| 0 <= i < groups.len() ==> is_fresh(#[trigger] groups[i])
}

proof fn lemma_add_endpoint(groups: Seq<GroupView>, name: Seq<char>, ep: EndpointView)
    requires
        names_ascend(groups),
        all_fresh(groups),
        group_name(ep.path) == name,
        ep.operations.len() > 0,
        ep.all_selected(),
    ensures
        names_ascend(add_endpoint(groups, name, ep)),
        all_fresh(add_endpoint(groups, name, ep)),
        forall|i: int|
            0 <= i < add_endpoint(groups, name, ep).len() ==> {
                ||| (#[trigger] add_endpoint(groups, name, ep)[i]).name == name
                ||| groups.contains(add_endpoint(groups, name, ep)[i])
            },
        all_endpoints(add_endpoint(groups, name, ep)).to_multiset() == all_endpoints(
            groups,
        ).to_multiset().insert(ep),
    decreases groups.len(),
{
    broadcast use vstd::seq_lib::group_to_multiset_ensures;

    let all = add_endpoint(groups, name, ep);
    let front = groups.drop_last();
    if groups.len() > 0 {
        assert(groups =~= front.push(groups.last()));
        assert forall|i: int, j: int| 0 <= i < j < front.len() implies text_lt(
            (#[trigger] front[i]).name,
            (#[trigger] front[j]).name,
        ) by {
            assert(front[i] == groups[i] && front[j] == groups[j]);
        }
        assert forall|i: int| 0 <= i < front.len() implies is_fresh(#[trigger] front[i]) by {
            assert(front[i] == groups[i]);
        }
        assert(is_fresh(groups[groups.len() - 1]));
    }
    if groups.len() > 0 && text_lt(name, groups.last().name) {
        let rest = add_endpoint(front, name, ep);
        let last = groups.last();
        lemma_add_endpoint(front, name, ep);
        assert(all.drop_last() =~= rest);
        assert forall|i: int| 0 <= i < all.len() implies (#[trigger] all[i]).name == name
            || groups.contains(all[i]) by {
            if i < rest.len() {
                assert(all[i] == rest[i]);
                if rest[i].name != name {
                    let k = choose|k: int| 0 <= k < front.len() && front[k] == rest[i];
                    assert(groups[k] == rest[i]);
                }
            } else {
                assert(all[i] == groups[groups.len() - 1]);
            }
        }
        assert forall|i: int, j: int| 0 <= i < j < all.len() implies text_lt(
            (#[trigger] all[i]).name,
            (#[trigger] all[j]).name,
        ) by {
            assert(all[i] == rest[i]);
            if j < rest.len() {
                assert(all[j] == rest[j]);
            } else if rest[i].name != name {
                let k = choose|k: int| 0 <= k < front.len() && front[k] == rest[i];
                assert(groups[k] == rest[i]);
                assert(all[j] == groups[groups.len() - 1]);
            }
        }
        assert forall|i: int| 0 <= i < all.len() implies is_fresh(#[trigger] all[i]) by {
            if i < rest.len() {
                assert(all[i] == rest[i]);
            }
        }
        vstd::seq_lib::lemma_multiset_commutative(all_endpoints(rest), last.endpoints);
        vstd::seq_lib::lemma_multiset_commutative(all_endpoints(front), last.endpoints);
        assert(all_endpoints(all).to_multiset() =~= all_endpoints(groups).to_multiset().insert(ep));
    } else if groups.len() > 0 && groups.last().name == name {
        let last = groups.last();
        let changed = GroupView { name, endpoints: insert_by_path(last.endpoints, ep) };
        lemma_insert_by_path(last.endpoints, ep);
        assert(all.drop_last() =~= front);
        assert(is_fresh(changed)) by {
            assert forall|i: int| 0 <= i < changed.endpoints.len() implies {
                &&& group_name((#[trigger] changed.endpoints[i]).path) == changed.name
                &&& changed.endpoints[i].operations.len() > 0
                &&& changed.endpoints[i].all_selected()
            } by {
                if changed.endpoints[i] != ep {
                    let k = choose|k: int|
                        0 <= k < last.endpoints.len() && last.endpoints[k] == changed.endpoints[i];
                    assert(group_name(last.endpoints[k].path) == last.name);
                }
            }
        }
        assert forall|i: int, j: int| 0 <= i < j < all.len() implies text_lt(
            (#[trigger] all[i]).name,
            (#[trigger] all[j]).name,
        ) by {
            assert(all[i] == groups[i]);
            assert(all[j].name == groups[j].name);
        }
        assert forall|i: int| 0 <= i < all.len() implies (#[trigger] all[i]).name == name
            || groups.contains(all[i]) by {
            if i < front.len() {
                assert(all[i] == groups[i]);
            }
        }
        vstd::seq_lib::lemma_multiset_commutative(all_endpoints(front), changed.endpoints);
        vstd::seq_lib::lemma_multiset_commutative(all_endpoints(front), last.endpoints);
        assert(all_endpoints(all).to_multiset() =~= all_endpoints(groups).to_multiset().insert(ep));
    } else {
        let added = GroupView { name, endpoints: seq![ep] };
        assert(all.drop_last() =~= groups);
        assert(is_fresh(added));
        assert forall|i: int, j: int| 0 <= i < j < all.len() implies text_lt(
            (#[trigger] all[i]).name,
            (#[trigger] all[j]).name,
        ) by {
            assert(all[i] == groups[i]);
            if j == groups.len() {
                let last = groups.last();
                lemma_text_lt_total(last.name, name);
                if i < groups.len() - 1 {
                    assert(text_lt(groups[i].name, groups[groups.len() - 1].name));
                    lemma_text_lt_transitive(groups[i].name, last.name, name);
                }
            } else {
                assert(all[j] == groups[j]);
            }
        }
        assert forall|i: int| 0 <= i < all.len() implies (#[trigger] all[i]).name == name
            || groups.contains(all[i]) by {
            if i < groups.len() {
                assert(all[i] == groups[i]);
            }
        }
        assert(all_endpoints(all) =~= all_endpoints(groups).push(ep));
    }
}

/// The groups of a document are in the order of their names, no name twice. No group is empty;
/// its endpoints are in the order of their paths, belong to it by their paths, and have
/// operations, all of them selected.
pub proof fn law_groups_are_in_order(paths: Seq<MemberView>)
    ensures
        names_ascend(grouped(paths)),
        all_fresh(grouped(paths)),
    decreases paths.len(),
{
    if paths.len() > 0 {
        law_groups_are_in_order(paths.drop_last());
        let ep = endpoint_of(paths.last());
        if ep.operations.len() > 0 {
            lemma_add_endpoint(grouped(paths.drop_last()), group_name(paths.last().key), ep);
        }
    }
}

/// The groups of a document hold the endpoint of every path that has operations, once for each
/// such path, and no other.
pub proof fn law_groups_hold_every_path(paths: Seq<MemberView>)
    ensures
        all_endpoints(grouped(paths)).to_multiset() == endpoints_in(paths).to_multiset(),
    decreases paths.len(),
{
    broadcast use vstd::seq_lib::group_to_multiset_ensures;

    let has_operations = |ep: EndpointView| ep.operations.len() > 0;
    if paths.len() > 0 {
        let front = paths.drop_last();
        let ep = endpoint_of(paths.last());
        law_groups_hold_every_path(front);
        law_groups_are_in_order(front);
        assert(paths.map_values(|p: MemberView| endpoint_of(p)) =~= front.map_values(
            |p: MemberView| endpoint_of(p),
        ).push(ep));
        crate::edit::lemma_filter_push(
            front.map_values(|p: MemberView| endpoint_of(p)),
            has_operations,
            ep,
        );
        if ep.operations.len() > 0 {
            lemma_add_endpoint(grouped(front), group_name(paths.last().key), ep);
        }
    } else {
        reveal(Seq::filter);
        assert(endpoints_in(paths) =~= Seq::empty());
        assert(all_endpoints(grouped(paths)) =~= Seq::empty());
    }
}

} // verus!
