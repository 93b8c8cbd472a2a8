//! What is shown of an endpoint, said of the members of the document.

use vstd::prelude::*;

use crate::edit::{lemma_filter_from, lemma_filter_keeps};
use crate::extract::http_methods;
use crate::extract_laws::{lemma_filter_order, lemma_method_ranks, method_rank};
use crate::info::{endpoint_info_of, listed_parameters, operation_info, texts_among, ParameterView};
use crate::json::{JsonView, MemberView};
use crate::places::{value_at2, value_at3};
use crate::text::joined;

verus! {

/// The number of items in the array under a key; none if there is no array.
pub open spec fn count_under(node: JsonView, key: Seq<char>) -> nat {
    match node.get(key) {
        Some(JsonView::Array(items)) => items.len(),
        _ => 0,
    }
}

/// The item at a position in the array under a key.
pub open spec fn item_under(node: JsonView, key: Seq<char>, i: int) -> JsonView {
    node.get(key)->Some_0->Array_0[i]
}

/// A text is shown exactly if one stands under the key, and it is that one.
pub open spec fn shows_text(shown: Option<Seq<char>>, node: JsonView, key: Seq<char>) -> bool {
    match node.get(key) {
        Some(JsonView::Text(text)) => shown == Some(text),
        _ => shown is None,
    }
}

/// The text that stands under the key is shown, and a stand-in where there is none.
pub open spec fn shows_text_or(
    shown: Seq<char>,
    node: JsonView,
    key: Seq<char>,
    other: Seq<char>,
) -> bool {
    node.get(key) == Some(JsonView::Text(shown)) || (shown == other && !(node.get(key) matches Some(
        value,
    ) && value is Text))
}

/// The row shows a parameter: its name, its place, the type of its schema, and whether it is
/// required.
pub open spec fn shows_parameter(row: ParameterView, param: JsonView) -> bool {
    &&& shows_text_or(row.name, param, "name"@, "?"@)
    &&& shows_text_or(row.location, param, "in"@, "?"@)
    &&& param.get("schema"@) matches Some(schema) ==> shows_text_or(
        row.kind,
        schema,
        "type"@,
        "-"@,
    )
    &&& param.get("schema"@) is None ==> row.kind == "-"@
    &&& row.required <==> param.get("required"@) == Some(JsonView::Bool(true))
}

/// The positions lead, in ascending order, to all texts among the items.
pub open spec fn lists_texts(items: Seq<JsonView>, at: Seq<int>) -> bool {
    &&& forall|i: int| 0 <= i < at.len() ==> 0 <= #[trigger] at[i] < items.len() && items[at[i]] is Text
    &&& forall|i: int, j: int| 0 <= i < j < at.len() ==> #[trigger] at[i] < #[trigger] at[j]
    &&& forall|k: int| 0 <= k < items.len() && (#[trigger] items[k]) is Text ==> at.contains(k)
}

/// An endpoint is found exactly if the document has its path, and exactly the HTTP methods of the
/// path are shown, in their order.
pub proof fn law_endpoint_shows_its_methods(spec: JsonView, path: Seq<char>, method: Seq<char>)
    ensures
        endpoint_info_of(spec, path) is Some <==> value_at2(spec, "paths"@, path) is Some,
        endpoint_info_of(spec, path) matches Some(list) ==> {
            &&& (exists|i: int| 0 <= i < list.len() && (#[trigger] list[i]).method == method) <==> (
            value_at3(spec, "paths"@, path, method) is Some && method_rank(method) < 8)
            &&& forall|i: int, j: int|
                0 <= i < j < list.len() ==> method_rank((#[trigger] list[i]).method) < method_rank(
                    (#[trigger] list[j]).method,
                )
        },
{
    match value_at2(spec, "paths"@, path) {
        Some(item) => {
            let list = endpoint_info_of(spec, path)->Some_0;
            let has = |m: Seq<char>| item.get(m) is Some;
            let methods = http_methods().filter(has);
            lemma_filter_from(http_methods(), has);
            lemma_method_ranks();
            assert forall|i: int, j: int| 0 <= i < j < list.len() implies method_rank(
                (#[trigger] list[i]).method,
            ) < method_rank((#[trigger] list[j]).method) by {
                let (x, y) = lemma_filter_order(http_methods(), has, i, j);
                assert(list[i].method == methods[i] && list[j].method == methods[j]);
                assert(method_rank(http_methods()[x]) == x);
                assert(method_rank(http_methods()[y]) == y);
            }
            if exists|i: int| 0 <= i < list.len() && (#[trigger] list[i]).method == method {
                let i = choose|i: int| 0 <= i < list.len() && (#[trigger] list[i]).method == method;
                assert(list[i].method == methods[i]);
                assert(has(methods[i]));
                let k = choose|k: int|
                    0 <= k < http_methods().len() && http_methods()[k] == methods[i];
                assert(method_rank(http_methods()[k]) == k);
            }
            if item.get(method) is Some && method_rank(method) < 8 {
                let rank = method_rank(method);
                assert(http_methods()[rank] == method);
                lemma_filter_keeps(http_methods(), has, rank);
                let i = choose|i: int| 0 <= i < methods.len() && methods[i] == method;
                assert(list[i].method == method);
            }
        },
        None => {},
    }
}

/// An operation shows a row for each item in the array of parameters of its path item, and then for
/// each in its own; every item has its row whatever the other array holds.
pub proof fn law_operation_shows_its_parameters(spec: JsonView, path: Seq<char>, i: int, k: int)
    requires
        endpoint_info_of(spec, path) is Some,
        0 <= i < endpoint_info_of(spec, path)->Some_0.len(),
    ensures
        ({
            let info = endpoint_info_of(spec, path)->Some_0[i];
            let item = value_at2(spec, "paths"@, path)->Some_0;
            let op = value_at3(spec, "paths"@, path, info.method)->Some_0;
            let first = count_under(item, "parameters"@);
            let second = count_under(op, "parameters"@);
            &&& info.parameters.len() == first + second
            &&& 0 <= k < first ==> shows_parameter(
                info.parameters[k],
                item_under(item, "parameters"@, k),
            )
            &&& 0 <= k < second ==> shows_parameter(
                info.parameters[first + k],
                item_under(op, "parameters"@, k),
            )
        }),
{
    let item = value_at2(spec, "paths"@, path)->Some_0;
    let info = endpoint_info_of(spec, path)->Some_0[i];
    let op = item.get(info.method)->Some_0;
    let all = listed_parameters(item) + listed_parameters(op);
    assert(info == operation_info(item, info.method));
    assert(listed_parameters(item).len() == count_under(item, "parameters"@));
    assert(listed_parameters(op).len() == count_under(op, "parameters"@));
}

/// An operation shows its summary, its description and its id where they are texts.
pub proof fn law_operation_shows_its_texts(spec: JsonView, path: Seq<char>, i: int)
    requires
        endpoint_info_of(spec, path) is Some,
        0 <= i < endpoint_info_of(spec, path)->Some_0.len(),
    ensures
        ({
            let info = endpoint_info_of(spec, path)->Some_0[i];
            let op = value_at3(spec, "paths"@, path, info.method)->Some_0;
            &&& shows_text(info.summary, op, "summary"@)
            &&& shows_text(info.description, op, "description"@)
            &&& shows_text(info.operation_id, op, "operationId"@)
        }),
{
}

proof fn lemma_text_positions(items: Seq<JsonView>) -> (at: Seq<int>)
    ensures
        lists_texts(items, at),
        texts_among(items).len() == at.len(),
        forall|i: int|
            0 <= i < at.len() ==> JsonView::Text(#[trigger] texts_among(items)[i])
                == items[at[i]],
    decreases items.len(),
{
    let is_text = |item: JsonView| item is Text;
    reveal(Seq::filter);
    if items.len() == 0 {
        Seq::<int>::empty()
    } else {
        let front = items.drop_last();
        let before = lemma_text_positions(front);
        let last = items.len() - 1;
        if items.last() is Text {
            let at = before.push(last);
            assert forall|k: int| 0 <= k < items.len() && (
            #[trigger] items[k]) is Text implies at.contains(k) by {
                if k < last {
                    assert(front[k] is Text);
                    let j = choose|j: int| 0 <= j < before.len() && before[j] == k;
                    assert(at[j] == k);
                } else {
                    assert(at[before.len() as int] == k);
                }
            }
            assert forall|i: int| 0 <= i < at.len() implies JsonView::Text(
                #[trigger] texts_among(items)[i],
            ) == items[at[i]] by {
                if i < before.len() {
                    assert(texts_among(items)[i] == texts_among(front)[i]);
                    assert(front[before[i]] == items[before[i]]);
                }
            }
            assert forall|i: int| 0 <= i < at.len() implies 0 <= #[trigger] at[i] < items.len()
                && items[at[i]] is Text by {
                if i < before.len() {
                    assert(at[i] == before[i]);
                    assert(front[before[i]] == items[before[i]]);
                }
            }
            at
        } else {
            assert forall|i: int| 0 <= i < before.len() implies JsonView::Text(
                #[trigger] texts_among(items)[i],
            ) == items[before[i]] by {
                assert(texts_among(items)[i] == texts_among(front)[i]);
                assert(front[before[i]] == items[before[i]]);
            }
            assert forall|i: int| 0 <= i < before.len() implies 0 <= #[trigger] before[i]
                < items.len() && items[before[i]] is Text by {
                assert(front[before[i]] == items[before[i]]);
            }
            assert forall|k: int| 0 <= k < items.len() && (
            #[trigger] items[k]) is Text implies before.contains(k) by {
                assert(front[k] is Text);
            }
            before
        }
    }
}

/// An operation shows the texts in its array of tags, in their order, with a comma and a space
/// between them; nothing where there are none.
pub proof fn law_operation_shows_its_tags(spec: JsonView, path: Seq<char>, i: int) -> (at: Seq<int>)
    requires
        endpoint_info_of(spec, path) is Some,
        0 <= i < endpoint_info_of(spec, path)->Some_0.len(),
    ensures
        ({
            let info = endpoint_info_of(spec, path)->Some_0[i];
            let op = value_at3(spec, "paths"@, path, info.method)->Some_0;
            match op.get("tags"@) {
                Some(JsonView::Array(items)) => {
                    &&& lists_texts(items, at)
                    &&& info.tags == if at.len() == 0 {
                        None
                    } else {
                        Some(joined(at.map_values(|k: int| items[k]->Text_0), ", "@))
                    }
                },
                _ => info.tags is None,
            }
        }),
{
    let info = endpoint_info_of(spec, path)->Some_0[i];
    let op = value_at3(spec, "paths"@, path, info.method)->Some_0;
    match op.get("tags"@) {
        Some(JsonView::Array(items)) => {
            let at = lemma_text_positions(items);
            let named = at.map_values(|k: int| items[k]->Text_0);
            assert forall|j: int| 0 <= j < at.len() implies #[trigger] named[j] == texts_among(
                items,
            )[j] by {
                assert(JsonView::Text(texts_among(items)[j]) == items[at[j]]);
            }
            assert(named =~= texts_among(items));
            at
        },
        _ => Seq::<int>::empty(),
    }
}

/// An operation shows the body that it takes, if it takes one: its description, and the types of
/// its content in a row; and a row for each of its responses.
pub proof fn law_operation_shows_its_body_and_responses(
    spec: JsonView,
    path: Seq<char>,
    i: int,
    k: int,
)
    requires
        endpoint_info_of(spec, path) is Some,
        0 <= i < endpoint_info_of(spec, path)->Some_0.len(),
    ensures
        ({
            let info = endpoint_info_of(spec, path)->Some_0[i];
            let op = value_at3(spec, "paths"@, path, info.method)->Some_0;
            &&& info.request_body is Some <==> op.get("requestBody"@) is Some
            &&& info.request_body matches Some(shown) ==> {
                let body = op.get("requestBody"@)->Some_0;
                &&& shows_text(shown.description, body, "description"@)
                &&& match body.get("content"@) {
                    Some(JsonView::Object(types)) => shown.content_types == Some(
                        joined(types.map_values(|m: MemberView| m.key), ", "@),
                    ),
                    _ => shown.content_types is None,
                }
            }
            &&& match op.get("responses"@) {
                Some(JsonView::Object(responses)) => info.responses matches Some(rows)
                    && rows.len() == responses.len() && (0 <= k < rows.len() ==> rows[k].status
                    == responses[k].key && shows_text_or(
                    rows[k].description,
                    responses[k].value,
                    "description"@,
                    "-"@,
                )),
                _ => info.responses is None,
            }
        }),
{
}

} // verus!
