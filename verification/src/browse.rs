//! The list of groups as it is shown, and the search in it.

use vstd::prelude::*;

use crate::edit::{lemma_filter_all, lemma_filter_push};
use crate::model::{
    lemma_operation_total_prefix, operation_total, Endpoint, EndpointView, PathGroup,
};
use crate::text::{contains_text, decimal, decimal_text, occurs_in, same_text, with_tail};

verus! {

/// The lowercase equivalent of a text, as `str::to_lowercase` gives it.
pub uninterp spec fn lowercase(text: Seq<char>) -> Seq<char>;

/// The uppercase equivalent of a text, as `str::to_uppercase` gives it.
pub uninterp spec fn uppercase(text: Seq<char>) -> Seq<char>;

/// `str::to_lowercase`. The text that it gives, which depends on its argument alone, is named
/// [`lowercase`]; nothing more is said of it.
#[verifier::external_body]
fn std_lowercase(text: &str) -> (r: String)
    ensures
        r@ == lowercase(text@),
{
    text.to_lowercase()
}

/// `str::to_uppercase`. The text that it gives, which depends on its argument alone, is named
/// [`uppercase`]; nothing more is said of it.
#[verifier::external_body]
fn std_uppercase(text: &str) -> (r: String)
    ensures
        r@ == uppercase(text@),
{
    text.to_uppercase()
}

/// A path, in lowercase, is shown for a search text, in lowercase: one that is empty or occurs in
/// the path.
pub open spec fn is_match(lower_path: Seq<char>, lower_query: Seq<char>) -> bool {
    lower_query.len() == 0 || occurs_in(lower_query, lower_path)
}

/// The endpoint is shown for a search text in lowercase.
pub open spec fn is_shown(ep: EndpointView, lower_query: Seq<char>) -> bool {
    is_match(lowercase(ep.path), lower_query)
}

/// The positions of the endpoints that are shown, in order.
pub open spec fn shown_positions(endpoints: Seq<EndpointView>, lower_query: Seq<char>) -> Seq<
    usize,
> {
    Seq::new(endpoints.len(), |i: int| i as usize).filter(
        |i: usize| is_shown(endpoints[i as int], lower_query),
    )
}

/// The number of operations of the endpoints that are shown.
pub open spec fn shown_operations(endpoints: Seq<EndpointView>, lower_query: Seq<char>) -> nat {
    operation_total(endpoints.filter(|ep: EndpointView| is_shown(ep, lower_query)))
}

/// The heading of a group.
pub open spec fn group_heading(name: Seq<char>, operations: nat) -> Seq<char> {
    "/"@ + name + " ("@ + decimal(operations) + " operation"@ + (if operations == 1 {
        Seq::empty()
    } else {
        "s"@
    }) + ")"@
}

/// A group as it is shown.
pub struct GroupRow {
    /// The positions of the endpoints that are shown.
    pub visible: Vec<usize>,
    pub heading: String,
}

/// The state of a checkbox that stands for several operations.
pub struct CheckState {
    /// Any operation is selected.
    pub checked: bool,
    /// Some operations are selected and some are not.
    pub mixed: bool,
}

/// The search text as it is compared with paths.
pub fn search_text(query: &str) -> (r: String)
    ensures
        r@ == lowercase(query@),
{
    std_lowercase(query)
}

/// The name of a method as it is shown.
pub fn method_label(method: &str) -> (r: String)
    ensures
        r@ == uppercase(method@),
{
    std_uppercase(method)
}

/// Whether a path, in lowercase, is shown for a search text, in lowercase.
pub fn matches_query(lower_path: &str, lower_query: &str) -> (r: bool)
    ensures
        r == is_match(lower_path@, lower_query@),
{
    lower_query.is_empty() || contains_text(lower_path, lower_query)
}

/// The endpoints of a group that are shown for a search text in lowercase, and the heading of the
/// group. `None` if the search leaves nothing of it.
pub fn group_row(group: &PathGroup, lower_query: &str) -> (r: Option<GroupRow>)
    requires
        group@.operation_count() <= u128::MAX,
    ensures
        match r {
            Some(row) => {
                &&& row.visible@ == shown_positions(group@.endpoints, lower_query@)
                &&& row.heading@ == group_heading(
                    group@.name,
                    shown_operations(group@.endpoints, lower_query@),
                )
                &&& lower_query@.len() == 0 || row.visible@.len() > 0
            },
            None => lower_query@.len() > 0 && shown_positions(
                group@.endpoints,
                lower_query@,
            ).len() == 0,
        },
{
    let ghost eps = group@.endpoints;
    let ghost all = Seq::new(eps.len(), |i: int| i as usize);
    let ghost at = |i: usize| is_shown(eps[i as int], lower_query@);
    let ghost shown = |ep: EndpointView| is_shown(ep, lower_query@);
    let mut visible: Vec<usize> = Vec::new();
    let mut count: u128 = 0;
    proof {
        reveal(Seq::filter);
        assert(visible@ =~= all.take(0).filter(at));
        assert(eps.take(0).filter(shown) =~= Seq::empty());
    }
    for i in 0..group.endpoints.len()
        invariant
            eps == group@.endpoints,
            all == Seq::new(eps.len(), |i: int| i as usize),
            at == (|i: usize| is_shown(eps[i as int], lower_query@)),
            shown == (|ep: EndpointView| is_shown(ep, lower_query@)),
            operation_total(eps) <= u128::MAX,
            visible@ == all.take(i as int).filter(at),
            count == operation_total(eps.take(i as int).filter(shown)),
            count <= operation_total(eps.take(i as int)),
    {
        let ghost before = visible@;
        let ghost kept = eps.take(i as int).filter(shown);
        proof {
            assert(eps[i as int] == group.endpoints@[i as int]@);
            assert(all.take(i + 1) =~= all.take(i as int).push(i));
            assert(eps.take(i + 1) =~= eps.take(i as int).push(eps[i as int]));
            assert(eps.take(i + 1).drop_last() =~= eps.take(i as int));
            lemma_filter_push(all.take(i as int), at, i);
            lemma_filter_push(eps.take(i as int), shown, eps[i as int]);
            lemma_operation_total_prefix(eps, i + 1);
            assert(kept.push(eps[i as int]).drop_last() =~= kept);
        }
        if matches_query(std_lowercase(group.endpoints[i].path.as_str()).as_str(), lower_query) {
            visible.push(i);
            count += group.endpoints[i].operation_count() as u128;
        }
    }
    proof {
        assert(all.take(all.len() as int) =~= all);
        assert(eps.take(eps.len() as int) =~= eps);
    }
    if visible.len() == 0 && !lower_query.is_empty() {
        return None;
    }
    let mut heading = with_tail("/", group.name.as_str());
    heading.append(" (");
    heading.append(decimal_text(count).as_str());
    heading.append(" operation");
    if count != 1 {
        heading.append("s");
    }
    heading.append(")");
    proof {
        let shown_count = shown_operations(eps, lower_query@);
        assert(heading@ =~= group_heading(group@.name, shown_count));
    }
    Some(GroupRow { visible, heading })
}

impl PathGroup {
    /// The state of the checkbox of the group.
    pub fn check_state(&self) -> (r: CheckState)
        ensures
            r.checked == !self@.none_selected(),
            r.mixed == (!self@.all_selected() && !self@.none_selected()),
    {
        let all = self.all_selected();
        let none = self.none_selected();
        CheckState { checked: !none, mixed: !all && !none }
    }
}

impl Endpoint {
    /// The state of the checkbox of the endpoint.
    pub fn check_state(&self) -> (r: CheckState)
        ensures
            r.checked == !self@.none_selected(),
            r.mixed == (!self@.all_selected() && !self@.none_selected()),
    {
        let all = self.all_selected();
        let none = self.none_selected();
        CheckState { checked: !none, mixed: !all && !none }
    }
}

/// The colour of a method, as red, green and blue.
pub open spec fn color_of(method: Seq<char>) -> (u8, u8, u8) {
    if method == "get"@ {
        (97, 175, 254)
    } else if method == "post"@ {
        (73, 204, 144)
    } else if method == "put"@ {
        (252, 161, 48)
    } else if method == "patch"@ {
        (80, 227, 194)
    } else if method == "delete"@ {
        (249, 62, 62)
    } else {
        (183, 183, 183)
    }
}

/// The colour in which a method is shown, as red, green and blue.
pub fn method_color(method: &str) -> (r: (u8, u8, u8))
    ensures
        r == color_of(method@),
{
    if same_text(method, "get") {
        (97, 175, 254)
    } else if same_text(method, "post") {
        (73, 204, 144)
    } else if same_text(method, "put") {
        (252, 161, 48)
    } else if same_text(method, "patch") {
        (80, 227, 194)
    } else if same_text(method, "delete") {
        (249, 62, 62)
    } else {
        (183, 183, 183)
    }
}

/// Without a search text every endpoint is shown and every operation counted.
pub proof fn law_empty_search_shows_everything(endpoints: Seq<EndpointView>)
    ensures
        shown_positions(endpoints, Seq::empty()) == Seq::new(
            endpoints.len(),
            |i: int| i as usize,
        ),
        shown_operations(endpoints, Seq::empty()) == operation_total(endpoints),
{
    lemma_filter_all(
        Seq::new(endpoints.len(), |i: int| i as usize),
        |i: usize| is_shown(endpoints[i as int], Seq::empty()),
    );
    lemma_filter_all(endpoints, |ep: EndpointView| is_shown(ep, Seq::empty()));
}

} // verus!
