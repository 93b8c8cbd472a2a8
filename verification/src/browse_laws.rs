//! What the list of groups shows, said of the paths and of the search text.

use vstd::prelude::*;

use crate::browse::{
    color_of, group_heading, is_shown, lowercase, shown_operations, shown_positions,
};
use crate::edit::{lemma_filter_from, lemma_filter_keeps, lemma_filter_push};
use crate::extract_laws::lemma_filter_order;
use crate::model::EndpointView;
use crate::text::decimal;
use crate::text_laws::law_occurring_is_standing_inside;

verus! {

/// The text stands somewhere in the other.
pub open spec fn stands_in(needle: Seq<char>, hay: Seq<char>) -> bool {
    exists|front: Seq<char>, back: Seq<char>| hay == #[trigger] (front + needle + back)
}

proof fn lemma_is_shown(ep: EndpointView, query: Seq<char>)
    ensures
        is_shown(ep, query) <==> stands_in(query, lowercase(ep.path)),
{
    law_occurring_is_standing_inside(query, lowercase(ep.path));
    if query.len() == 0 {
        let path = lowercase(ep.path);
        assert(path =~= Seq::<char>::empty() + query + path);
    }
}

/// Exactly the endpoints are shown in whose path, in lowercase, the search text stands, each once
/// and in their order. An empty text stands in every path.
pub proof fn law_search_shows_the_paths_that_hold_it(
    endpoints: Seq<EndpointView>,
    query: Seq<char>,
    i: usize,
)
    requires
        endpoints.len() <= usize::MAX,
    ensures
        shown_positions(endpoints, query).contains(i) <==> i < endpoints.len() && stands_in(
            query,
            lowercase(endpoints[i as int].path),
        ),
        forall|a: int, b: int|
            0 <= a < b < shown_positions(endpoints, query).len() ==> #[trigger] shown_positions(
                endpoints,
                query,
            )[a] < #[trigger] shown_positions(endpoints, query)[b],
        stands_in(Seq::empty(), lowercase(endpoints[i as int].path)),
{
    let all = Seq::new(endpoints.len(), |k: int| k as usize);
    let at = |k: usize| is_shown(endpoints[k as int], query);
    let shown = shown_positions(endpoints, query);
    lemma_filter_from(all, at);
    lemma_is_shown(endpoints[i as int], query);
    lemma_is_shown(endpoints[i as int], Seq::empty());
    if shown.contains(i) {
        let a = choose|a: int| 0 <= a < shown.len() && shown[a] == i;
        assert(at(shown[a]));
        assert(all.contains(shown[a]));
        let k = choose|k: int| 0 <= k < all.len() && all[k] == i;
        assert(all[k] == k);
    }
    if i < endpoints.len() && is_shown(endpoints[i as int], query) {
        assert(all[i as int] == i);
        lemma_filter_keeps(all, at, i as int);
    }
    assert forall|a: int, b: int| 0 <= a < b < shown.len() implies #[trigger] shown[a]
        < #[trigger] shown[b] by {
        let (x, y) = lemma_filter_order(all, at, a, b);
        assert(all[x] == x && all[y] == y);
    }
}

/// The operations of exactly the endpoints that are shown are counted.
pub proof fn law_search_counts_what_it_shows(
    endpoints: Seq<EndpointView>,
    ep: EndpointView,
    query: Seq<char>,
)
    ensures
        shown_operations(Seq::empty(), query) == 0,
        shown_operations(endpoints.push(ep), query) == shown_operations(endpoints, query)
            + if stands_in(query, lowercase(ep.path)) {
            ep.operations.len()
        } else {
            0
        },
{
    let pred = |x: EndpointView| is_shown(x, query);
    reveal(Seq::filter);
    lemma_is_shown(ep, query);
    lemma_filter_push(endpoints, pred, ep);
    let kept = endpoints.filter(pred);
    assert(kept.push(ep).drop_last() =~= kept);
    assert(Seq::<EndpointView>::empty().filter(pred) =~= Seq::empty());
}

/// The heading of a group is a slash, its name, and in brackets the number of operations.
pub proof fn law_heading_counts_in_words(name: Seq<char>, n: nat)
    ensures
        n == 1 ==> group_heading(name, n) == "/"@ + name + " (1 operation)"@,
        n != 1 ==> group_heading(name, n) == "/"@ + name + " ("@ + decimal(n) + " operations)"@,
{
    reveal_strlit(" (");
    reveal_strlit(" operation");
    reveal_strlit("s");
    reveal_strlit(")");
    reveal_strlit(" (1 operation)");
    reveal_strlit(" operations)");
    assert(" operation"@ + "s"@ + ")"@ =~= " operations)"@);
    if n == 1 {
        assert(decimal(1) =~= seq!['1']);
        assert(" ("@ + decimal(1) + " operation"@ + Seq::<char>::empty() + ")"@
            =~= " (1 operation)"@);
        assert(group_heading(name, n) =~= "/"@ + name + (" ("@ + decimal(1) + " operation"@
            + Seq::<char>::empty() + ")"@));
    } else {
        assert(group_heading(name, n) =~= "/"@ + name + " ("@ + decimal(n) + (" operation"@ + "s"@
            + ")"@));
    }
}

/// Each of five methods has a colour of its own; all others share one.
pub proof fn law_methods_have_colours(method: Seq<char>)
    ensures
        color_of("get"@) == (97u8, 175u8, 254u8),
        color_of("post"@) == (73u8, 204u8, 144u8),
        color_of("put"@) == (252u8, 161u8, 48u8),
        color_of("patch"@) == (80u8, 227u8, 194u8),
        color_of("delete"@) == (249u8, 62u8, 62u8),
        method != "get"@ && method != "post"@ && method != "put"@ && method != "patch"@ && method
            != "delete"@ ==> color_of(method) == (183u8, 183u8, 183u8),
{
    reveal_strlit("get");
    reveal_strlit("post");
    reveal_strlit("put");
    reveal_strlit("patch");
    reveal_strlit("delete");
    assert("get"@.len() == 3 && "post"@.len() == 4 && "put"@.len() == 3 && "patch"@.len() == 5
        && "delete"@.len() == 6);
    assert("get"@[0] == 'g' && "put"@[0] == 'p');
}

} // verus!
