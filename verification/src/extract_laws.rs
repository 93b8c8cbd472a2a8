//! What the groups of a document are, said of its paths and of their characters.

use vstd::prelude::*;

use crate::edit::{lemma_filter_from, lemma_filter_keeps};
use crate::extract::{
    endpoint_of, endpoints_in, extracted, group_name, grouped, http_methods, is_fresh,
    law_groups_are_in_order, law_groups_hold_every_path, leading_slashes,
};
use crate::filter_laws::lemma_place_of_endpoint;
use crate::json::{JsonView, MemberView};
use crate::model::{all_endpoints, EndpointView};
use crate::places::value_at3;
use crate::selection_laws::{lemma_endpoint_place, lemma_from_path};
use crate::text::{find_from, lemma_find_from, text_lt};

verus! {

/// So many slashes.
pub open spec fn slashes(n: nat) -> Seq<char> {
    Seq::new(n, |i: int| '/')
}

/// The place of an HTTP method among those that are listed; behind them for any other text.
pub open spec fn method_rank(method: Seq<char>) -> int {
    if method == "get"@ {
        0
    } else if method == "post"@ {
        1
    } else if method == "put"@ {
        2
    } else if method == "patch"@ {
        3
    } else if method == "delete"@ {
        4
    } else if method == "head"@ {
        5
    } else if method == "options"@ {
        6
    } else if method == "trace"@ {
        7
    } else {
        8
    }
}

proof fn lemma_leading_slashes(path: Seq<char>)
    ensures
        0 <= leading_slashes(path) <= path.len(),
        forall|i: int| 0 <= i < leading_slashes(path) ==> #[trigger] path[i] == '/',
        leading_slashes(path) < path.len() ==> path[leading_slashes(path)] != '/',
    decreases path.len(),
{
    if path.len() > 0 && path[0] == '/' {
        let rest = path.drop_first();
        lemma_leading_slashes(rest);
        assert forall|i: int| 0 <= i < leading_slashes(path) implies #[trigger] path[i] == '/' by {
            if i > 0 {
                assert(rest[i - 1] == path[i]);
            }
        }
    }
}

proof fn lemma_group_name(path: Seq<char>)
    ensures
        group_name(path) != "/"@ ==> {
            &&& group_name(path).len() > 0
            &&& !group_name(path).contains('/')
            &&& exists|n: nat, rest: Seq<char>|
                path == #[trigger] (slashes(n) + group_name(path) + rest) && (rest.len() == 0
                    || rest[0] == '/')
        },
        group_name(path) == "/"@ <==> forall|i: int| 0 <= i < path.len() ==> #[trigger] path[i] == '/',
{
    reveal_strlit("/");
    let start = leading_slashes(path);
    lemma_leading_slashes(path);
    let end = find_from(path, '/', start);
    lemma_find_from(path, '/', start);
    let segment = path.subrange(start, end);
    if segment.len() > 0 {
        assert forall|i: int| 0 <= i < segment.len() implies #[trigger] segment[i] != '/' by {
            assert(path[start + i] != '/');
        }
        assert(segment != "/"@) by {
            assert(segment[0] != "/"@[0]);
        }
        let rest = path.skip(end);
        assert(path =~= slashes(start as nat) + segment + rest);
        assert(path[start] != '/');
    } else {
        assert forall|i: int| 0 <= i < path.len() implies #[trigger] path[i] == '/' by {
            if start < path.len() {
                assert(path[start] != '/');
                assert(end > start);
            }
        }
    }
}

/// The path of an endpoint is some slashes, the name of its group, and nothing or a slash with
/// whatever follows; the name is not empty and holds no slash. Only where the path holds nothing
/// but slashes the group is named by a slash.
pub proof fn law_groups_are_named_by_first_segments(spec: JsonView, g: int, e: int)
    requires
        extracted(spec) is Ok,
        0 <= g < extracted(spec)->Ok_0.len(),
        0 <= e < extracted(spec)->Ok_0[g].endpoints.len(),
    ensures
        ({
            let name = extracted(spec)->Ok_0[g].name;
            let path = extracted(spec)->Ok_0[g].endpoints[e].path;
            &&& name != "/"@ ==> {
                &&& name.len() > 0
                &&& !name.contains('/')
                &&& exists|n: nat, rest: Seq<char>|
                    path == #[trigger] (slashes(n) + name + rest) && (rest.len() == 0 || rest[0]
                        == '/')
            }
            &&& name == "/"@ <==> forall|i: int|
                0 <= i < path.len() ==> #[trigger] path[i] == '/'
        }),
{
    let paths = spec.get("paths"@)->Some_0->Object_0;
    law_groups_are_in_order(paths);
    let group = grouped(paths)[g];
    assert(is_fresh(group));
    assert(group_name(group.endpoints[e].path) == group.name);
    lemma_group_name(group.endpoints[e].path);
}

pub proof fn lemma_method_ranks()
    ensures
        forall|i: int| 0 <= i < 8 ==> method_rank(#[trigger] http_methods()[i]) == i,
{
    reveal_strlit("get");
    reveal_strlit("post");
    reveal_strlit("put");
    reveal_strlit("patch");
    reveal_strlit("delete");
    reveal_strlit("head");
    reveal_strlit("options");
    reveal_strlit("trace");
    let m = http_methods();
    assert(m[0].len() == 3 && m[1].len() == 4 && m[2].len() == 3 && m[3].len() == 5 && m[4].len()
        == 6 && m[5].len() == 4 && m[6].len() == 7 && m[7].len() == 5);
    assert(m[0][0] == 'g' && m[2][0] == 'p' && m[1][0] == 'p' && m[5][0] == 'h' && m[3][0] == 'p'
        && m[7][0] == 't');
}

pub proof fn lemma_filter_order<A>(s: Seq<A>, pred: spec_fn(A) -> bool, a: int, b: int) -> (r: (
    int,
    int,
))
    requires
        0 <= a < b < s.filter(pred).len(),
    ensures
        0 <= r.0 < r.1 < s.len(),
        s[r.0] == s.filter(pred)[a],
        s[r.1] == s.filter(pred)[b],
    decreases s.len(),
{
    reveal(Seq::filter);
    let front = s.drop_last();
    let kept = front.filter(pred);
    if b < kept.len() {
        let r = lemma_filter_order(front, pred, a, b);
        r
    } else {
        lemma_filter_from(front, pred);
        assert(front.contains(kept[a]));
        let i = choose|i: int| 0 <= i < front.len() && front[i] == kept[a];
        (i, s.len() - 1)
    }
}

/// Every operation that is listed stands in the document under its path and its method, is one of
/// the HTTP methods, and is selected; the methods of a path come in their order, none twice; and no
/// group or path is listed without operations.
pub proof fn law_listed_operations_are_in_the_document(spec: JsonView, g: int, e: int, o: int)
    requires
        spec.well_formed(),
        extracted(spec) is Ok,
        0 <= g < extracted(spec)->Ok_0.len(),
    ensures
        ({
            let group = extracted(spec)->Ok_0[g];
            let ep = group.endpoints[e];
            &&& group.endpoints.len() > 0
            &&& 0 <= e < group.endpoints.len() ==> ep.operations.len() > 0
            &&& 0 <= e < group.endpoints.len() && 0 <= o < ep.operations.len() ==> {
                &&& value_at3(spec, "paths"@, ep.path, ep.operations[o].method) is Some
                &&& method_rank(ep.operations[o].method) < 8
                &&& ep.operations[o].selected
                &&& forall|p: int|
                    o < p < ep.operations.len() ==> method_rank(ep.operations[o].method)
                        < method_rank((#[trigger] ep.operations[p]).method)
            }
        }),
{
    let members = spec->Object_0;
    crate::json::lemma_key_index(members, "paths"@);
    assert(members[crate::json::key_index(members, "paths"@)].value.well_formed());
    let paths = spec.get("paths"@)->Some_0->Object_0;
    let groups = grouped(paths);
    law_groups_are_in_order(paths);
    let group = groups[g];
    assert(is_fresh(group));
    if 0 <= e < group.endpoints.len() {
        let ep = group.endpoints[e];
        assert(ep.operations.len() > 0 && ep.all_selected());
        let at = lemma_endpoint_place(groups, g, e);
        let k = lemma_from_path(paths, at);
        let item = paths[k].value;
        let has = |m: Seq<char>| item.get(m) is Some;
        let methods = http_methods().filter(has);
        crate::edit::lemma_lookup_member(paths, k);
        lemma_filter_from(http_methods(), has);
        lemma_method_ranks();
        if 0 <= o < ep.operations.len() {
            assert(ep.operations[o].method == methods[o]);
            assert(has(methods[o]));
            let i = choose|i: int| 0 <= i < http_methods().len() && http_methods()[i] == methods[o];
            assert(method_rank(http_methods()[i]) == i);
            assert(ep.operations[o].selected);
            assert forall|p: int| o < p < ep.operations.len() implies method_rank(
                ep.operations[o].method,
            ) < method_rank((#[trigger] ep.operations[p]).method) by {
                assert(ep.operations[p].method == methods[p]);
                let (x, y) = lemma_filter_order(http_methods(), has, o, p);
                assert(method_rank(http_methods()[x]) == x);
                assert(method_rank(http_methods()[y]) == y);
            }
        }
    }
}

/// Every HTTP method of a path of the document is listed.
pub proof fn law_operations_of_the_document_are_listed(
    spec: JsonView,
    path: Seq<char>,
    method: Seq<char>,
)
    requires
        spec.well_formed(),
        extracted(spec) is Ok,
        value_at3(spec, "paths"@, path, method) is Some,
        method_rank(method) < 8,
    ensures
        exists|g: int, e: int, o: int|
            {
                &&& 0 <= g < extracted(spec)->Ok_0.len()
                &&& 0 <= e < extracted(spec)->Ok_0[g].endpoints.len()
                &&& 0 <= o < extracted(spec)->Ok_0[g].endpoints[e].operations.len()
                &&& extracted(spec)->Ok_0[g].endpoints[e].path == path
                &&& (#[trigger] extracted(spec)->Ok_0[g].endpoints[e].operations[o]).method
                    == method
            },
{
    broadcast use vstd::seq_lib::group_to_multiset_ensures;

    let paths = spec.get("paths"@)->Some_0->Object_0;
    let groups = grouped(paths);
    crate::json::lemma_key_index(paths, path);
    let k = crate::json::key_index(paths, path);
    let item = paths[k].value;
    let has = |m: Seq<char>| item.get(m) is Some;
    lemma_method_ranks();
    let rank = method_rank(method);
    assert(http_methods()[rank] == method);
    lemma_filter_keeps(http_methods(), has, rank);
    let methods = http_methods().filter(has);
    let o = choose|o: int| 0 <= o < methods.len() && methods[o] == method;
    let ep = endpoint_of(paths[k]);
    assert(ep.operations[o].method == method);
    let ends = paths.map_values(|m: MemberView| endpoint_of(m));
    let full = |x: EndpointView| x.operations.len() > 0;
    assert(ends[k] == ep);
    lemma_filter_keeps(ends, full, k);
    law_groups_hold_every_path(paths);
    let eps = all_endpoints(groups);
    assert(endpoints_in(paths).to_multiset().count(ep) > 0);
    assert(eps.contains(ep));
    let i = choose|i: int| 0 <= i < eps.len() && eps[i] == ep;
    let (g, e) = lemma_place_of_endpoint(groups, i);
    assert(extracted(spec)->Ok_0[g].endpoints[e].operations[o].method == method);
}

/// A document has groups exactly if it has an object of paths; otherwise that is reported.
pub proof fn law_documents_without_paths_are_refused(spec: JsonView)
    ensures
        extracted(spec) is Ok <==> (spec.get("paths"@) matches Some(paths) && paths is Object),
        extracted(spec) matches Err(error) ==> error == "No 'paths' object found in spec."@,
{
}

/// The groups come in the order of their names, none twice, and the paths of a group in the order of
/// their characters.
pub proof fn law_groups_and_paths_are_sorted(spec: JsonView, g: int, h: int, e: int, f: int)
    requires
        extracted(spec) is Ok,
    ensures
        ({
            let groups = extracted(spec)->Ok_0;
            &&& 0 <= g < h < groups.len() ==> text_lt(groups[g].name, groups[h].name)
            &&& 0 <= g < groups.len() && 0 <= e < f < groups[g].endpoints.len() ==> !text_lt(
                groups[g].endpoints[f].path,
                groups[g].endpoints[e].path,
            )
        }),
{
    let paths = spec.get("paths"@)->Some_0->Object_0;
    law_groups_are_in_order(paths);
    if 0 <= g < grouped(paths).len() {
        assert(is_fresh(grouped(paths)[g]));
    }
}

} // verus!
