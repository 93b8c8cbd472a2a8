//! What is shown of an endpoint.

use vstd::prelude::*;

use crate::edit::lemma_filter_push;
use crate::extract::{http_method_names, http_methods};
use crate::json::{items_view, members_view, Json, JsonView, Member, MemberView};
use crate::text::{join_texts, joined, opt_string, texts};

verus! {

/// A parameter of an operation.
pub struct ParameterInfo {
    pub name: String,
    pub location: String,
    pub kind: String,
    pub required: bool,
}

/// The body that an operation takes.
pub struct BodyInfo {
    pub description: Option<String>,
    /// The content types in a row, if the body has any listed.
    pub content_types: Option<String>,
}

/// A response of an operation.
pub struct ResponseInfo {
    pub status: String,
    pub description: String,
}

/// What is shown of an operation.
pub struct OperationInfo {
    pub method: String,
    pub summary: Option<String>,
    pub description: Option<String>,
    pub operation_id: Option<String>,
    /// The tags in a row, if there are any.
    pub tags: Option<String>,
    pub parameters: Vec<ParameterInfo>,
    pub request_body: Option<BodyInfo>,
    pub responses: Option<Vec<ResponseInfo>>,
}

pub struct ParameterView {
    pub name: Seq<char>,
    pub location: Seq<char>,
    pub kind: Seq<char>,
    pub required: bool,
}

pub struct BodyView {
    pub description: Option<Seq<char>>,
    pub content_types: Option<Seq<char>>,
}

pub struct ResponseView {
    pub status: Seq<char>,
    pub description: Seq<char>,
}

pub struct OperationInfoView {
    pub method: Seq<char>,
    pub summary: Option<Seq<char>>,
    pub description: Option<Seq<char>>,
    pub operation_id: Option<Seq<char>>,
    pub tags: Option<Seq<char>>,
    pub parameters: Seq<ParameterView>,
    pub request_body: Option<BodyView>,
    pub responses: Option<Seq<ResponseView>>,
}

impl View for ParameterInfo {
    type V = ParameterView;

    open spec fn view(&self) -> ParameterView {
        ParameterView {
            name: self.name@,
            location: self.location@,
            kind: self.kind@,
            required: self.required,
        }
    }
}

impl View for BodyInfo {
    type V = BodyView;

    open spec fn view(&self) -> BodyView {
        BodyView {
            description: opt_string(self.description),
            content_types: opt_string(self.content_types),
        }
    }
}

impl View for ResponseInfo {
    type V = ResponseView;

    open spec fn view(&self) -> ResponseView {
        ResponseView { status: self.status@, description: self.description@ }
    }
}

impl View for OperationInfo {
    type V = OperationInfoView;

    open spec fn view(&self) -> OperationInfoView {
        OperationInfoView {
            method: self.method@,
            summary: opt_string(self.summary),
            description: opt_string(self.description),
            operation_id: opt_string(self.operation_id),
            tags: opt_string(self.tags),
            parameters: self.parameters@.map_values(|p: ParameterInfo| p@),
            request_body: match self.request_body {
                Some(body) => Some(body@),
                None => None,
            },
            responses: match self.responses {
                Some(rows) => Some(rows@.map_values(|r: ResponseInfo| r@)),
                None => None,
            },
        }
    }
}

/// The text under a key.
pub open spec fn text_at(node: JsonView, key: Seq<char>) -> Option<Seq<char>> {
    match node.get(key) {
        Some(value) => value.as_text(),
        None => None,
    }
}

/// The text under a key, or a stand-in.
pub open spec fn text_or(node: JsonView, key: Seq<char>, other: Seq<char>) -> Seq<char> {
    match text_at(node, key) {
        Some(text) => text,
        None => other,
    }
}

/// The texts among the items, in order.
pub open spec fn texts_among(items: Seq<JsonView>) -> Seq<Seq<char>> {
    items.filter(|item: JsonView| item is Text).map_values(|item: JsonView| item->Text_0)
}

/// The tags of an operation in a row, if there are any.
pub open spec fn tags_of(op: JsonView) -> Option<Seq<char>> {
    match op.get("tags"@) {
        Some(JsonView::Array(items)) => if texts_among(items).len() > 0 {
            Some(joined(texts_among(items), ", "@))
        } else {
            None
        },
        _ => None,
    }
}

/// The parameters listed in a node.
pub open spec fn listed_parameters(node: JsonView) -> Seq<JsonView> {
    match node.get("parameters"@) {
        Some(JsonView::Array(items)) => items,
        _ => Seq::empty(),
    }
}

/// What is shown of a parameter.
pub open spec fn parameter_info(param: JsonView) -> ParameterView {
    ParameterView {
        name: text_or(param, "name"@, "?"@),
        location: text_or(param, "in"@, "?"@),
        kind: match param.get("schema"@) {
            Some(schema) => text_or(schema, "type"@, "-"@),
            None => "-"@,
        },
        required: param.get("required"@) == Some(JsonView::Bool(true)),
    }
}

/// What is shown of the body of an operation.
pub open spec fn body_info(op: JsonView) -> Option<BodyView> {
    match op.get("requestBody"@) {
        Some(body) => Some(
            BodyView {
                description: text_at(body, "description"@),
                content_types: match body.get("content"@) {
                    Some(JsonView::Object(members)) => Some(
                        joined(members.map_values(|m: MemberView| m.key), ", "@),
                    ),
                    _ => None,
                },
            },
        ),
        None => None,
    }
}

/// What is shown of a response.
pub open spec fn response_info(response: MemberView) -> ResponseView {
    ResponseView {
        status: response.key,
        description: text_or(response.value, "description"@, "-"@),
    }
}

/// What is shown of the responses of an operation.
pub open spec fn responses_info(op: JsonView) -> Option<Seq<ResponseView>> {
    match op.get("responses"@) {
        Some(JsonView::Object(members)) => Some(
            members.map_values(|m: MemberView| response_info(m)),
        ),
        _ => None,
    }
}

/// What is shown of an operation of a path item. The parameters of the path item come before
/// those of the operation.
pub open spec fn operation_info(item: JsonView, method: Seq<char>) -> OperationInfoView {
    let op = item.get(method)->Some_0;
    OperationInfoView {
        method,
        summary: text_at(op, "summary"@),
        description: text_at(op, "description"@),
        operation_id: text_at(op, "operationId"@),
        tags: tags_of(op),
        parameters: (listed_parameters(item) + listed_parameters(op)).map_values(
            |p: JsonView| parameter_info(p),
        ),
        request_body: body_info(op),
        responses: responses_info(op),
    }
}

/// What is shown of an endpoint: its operations in the order of the HTTP methods. `None` if the
/// document has no such path.
pub open spec fn endpoint_info_of(spec: JsonView, path: Seq<char>) -> Option<
    Seq<OperationInfoView>,
> {
    match spec.get("paths"@) {
        Some(paths) => match paths.get(path) {
            Some(item) => Some(
                http_methods().filter(|m: Seq<char>| item.get(m) is Some).map_values(
                    |m: Seq<char>| operation_info(item, m),
                ),
            ),
            None => None,
        },
        None => None,
    }
}

/// The text under a key.
fn read_text(node: &Json, key: &str) -> (r: Option<String>)
    ensures
        opt_string(r) == text_at(node@, key@),
{
    match node.get(key) {
        Some(value) => match value.as_str() {
            Some(text) => Some(text.to_owned()),
            None => None,
        },
        None => None,
    }
}

/// The text under a key, or a stand-in.
fn read_text_or(node: &Json, key: &str, other: &str) -> (r: String)
    ensures
        r@ == text_or(node@, key@, other@),
{
    match read_text(node, key) {
        Some(text) => text,
        None => other.to_owned(),
    }
}

/// The texts among the items, in order.
fn collect_texts(items: &Vec<Json>) -> (r: Vec<String>)
    ensures
        texts(r@) == texts_among(items_view(items@)),
{
    let ghost views = items_view(items@);
    let ghost is_text = |item: JsonView| item is Text;
    let ghost get = |item: JsonView| item->Text_0;
    let mut r: Vec<String> = Vec::new();
    proof {
        reveal(Seq::filter);
        assert(texts(r@) =~= views.take(0).filter(is_text).map_values(get));
    }
    for i in 0..items.len()
        invariant
            views == items_view(items@),
            is_text == (|item: JsonView| item is Text),
            get == (|item: JsonView| item->Text_0),
            texts(r@) == views.take(i as int).filter(is_text).map_values(get),
    {
        let ghost before = texts(r@);
        proof {
            assert(views[i as int] == items@[i as int]@);
            assert(views.take(i + 1) =~= views.take(i as int).push(views[i as int]));
            lemma_filter_push(views.take(i as int), is_text, views[i as int]);
        }
        match items[i].as_str() {
            Some(text) => {
                r.push(text.to_owned());
                proof {
                    let kept = views.take(i as int).filter(is_text);
                    assert(texts(r@) =~= before.push(text@));
                    assert(kept.push(views[i as int]).map_values(get) =~= kept.map_values(
                        get,
                    ).push(text@));
                }
            },
            None => {},
        }
    }
    proof {
        assert(views.take(views.len() as int) =~= views);
    }
    r
}

/// The tags of an operation in a row, if there are any.
fn read_tags(op: &Json) -> (r: Option<String>)
    ensures
        opt_string(r) == tags_of(op@),
{
    match op.get("tags") {
        Some(value) => match value.as_array() {
            Some(items) => {
                let tags = collect_texts(items);
                proof {
                    assert(texts(tags@).len() == tags@.len());
                }
                if tags.len() > 0 {
                    Some(join_texts(&tags, ", "))
                } else {
                    None
                }
            },
            None => None,
        },
        None => None,
    }
}

/// What is shown of a parameter.
fn read_parameter(param: &Json) -> (r: ParameterInfo)
    ensures
        r@ == parameter_info(param@),
{
    let kind = match param.get("schema") {
        Some(schema) => read_text_or(schema, "type", "-"),
        None => "-".to_owned(),
    };
    let required = match param.get("required") {
        Some(value) => match value.as_bool() {
            Some(b) => b,
            None => false,
        },
        None => false,
    };
    ParameterInfo {
        name: read_text_or(param, "name", "?"),
        location: read_text_or(param, "in", "?"),
        kind,
        required,
    }
}

/// Add what is shown of the parameters listed in a node.
fn push_parameters(node: &Json, rows: &mut Vec<ParameterInfo>)
    ensures
        final(rows)@.map_values(|p: ParameterInfo| p@) == old(rows)@.map_values(
            |p: ParameterInfo| p@,
        ) + listed_parameters(node@).map_values(|p: JsonView| parameter_info(p)),
{
    let ghost show = |p: JsonView| parameter_info(p);
    let ghost view = |p: ParameterInfo| p@;
    let ghost before = rows@.map_values(view);
    match node.get("parameters") {
        Some(value) => match value.as_array() {
            Some(items) => {
                let ghost views = items_view(items@);
                proof {
                    assert(before =~= before + views.take(0).map_values(show));
                }
                for i in 0..items.len()
                    invariant
                        views == items_view(items@),
                        show == (|p: JsonView| parameter_info(p)),
                        view == (|p: ParameterInfo| p@),
                        rows@.map_values(view) == before + views.take(i as int).map_values(show),
                {
                    let ghost now = rows@.map_values(view);
                    rows.push(read_parameter(&items[i]));
                    proof {
                        assert(rows@.map_values(view) =~= now.push(show(views[i as int])));
                        assert(before + views.take(i + 1).map_values(show) =~= now.push(
                            show(views[i as int]),
                        ));
                    }
                }
                proof {
                    assert(views.take(views.len() as int) =~= views);
                }
                return ;
            },
            None => {},
        },
        None => {},
    }
    proof {
        assert(listed_parameters(node@) =~= Seq::empty());
        assert(before =~= before + Seq::<JsonView>::empty().map_values(show));
    }
}

/// The keys of the members, in order.
fn collect_keys(members: &Vec<Member>) -> (r: Vec<String>)
    ensures
        texts(r@) == members_view(members@).map_values(|m: MemberView| m.key),
{
    let mut r: Vec<String> = Vec::new();
    for i in 0..members.len()
        invariant
            r.len() == i,
            forall|j: int| 0 <= j < i ==> (#[trigger] r@[j])@ == members@[j].key@,
    {
        r.push(members[i].key.clone());
    }
    proof {
        assert(texts(r@) =~= members_view(members@).map_values(|m: MemberView| m.key));
    }
    r
}

/// What is shown of the body of an operation.
fn read_body(op: &Json) -> (r: Option<BodyInfo>)
    ensures
        match r {
            Some(body) => body_info(op@) == Some(body@),
            None => body_info(op@) is None,
        },
{
    match op.get("requestBody") {
        Some(body) => {
            let content_types = match body.get("content") {
                Some(content) => match content.as_object() {
                    Some(members) => Some(join_texts(&collect_keys(members), ", ")),
                    None => None,
                },
                None => None,
            };
            Some(BodyInfo { description: read_text(body, "description"), content_types })
        },
        None => None,
    }
}

/// What is shown of the responses of an operation.
fn read_responses(op: &Json) -> (r: Option<Vec<ResponseInfo>>)
    ensures
        match r {
            Some(rows) => responses_info(op@) == Some(rows@.map_values(|r: ResponseInfo| r@)),
            None => responses_info(op@) is None,
        },
{
    match op.get("responses") {
        Some(value) => match value.as_object() {
            Some(members) => {
                let mut rows: Vec<ResponseInfo> = Vec::new();
                for i in 0..members.len()
                    invariant
                        rows.len() == i,
                        forall|j: int|
                            0 <= j < i ==> (#[trigger] rows@[j])@ == response_info(members@[j]@),
                {
                    rows.push(
                        ResponseInfo {
                            status: members[i].key.clone(),
                            description: read_text_or(&members[i].value, "description", "-"),
                        },
                    );
                }
                proof {
                    assert(rows@.map_values(|r: ResponseInfo| r@) =~= members_view(
                        members@,
                    ).map_values(|m: MemberView| response_info(m)));
                }
                Some(rows)
            },
            None => None,
        },
        None => None,
    }
}

/// What is shown of an operation of a path item.
fn read_operation(item: &Json, op: &Json, method: &str) -> (r: OperationInfo)
    requires
        item@.get(method@) == Some(op@),
    ensures
        r@ == operation_info(item@, method@),
{
    let mut parameters: Vec<ParameterInfo> = Vec::new();
    push_parameters(item, &mut parameters);
    push_parameters(op, &mut parameters);
    proof {
        let show = |p: JsonView| parameter_info(p);
        let first = listed_parameters(item@);
        let second = listed_parameters(op@);
        assert(parameters@.map_values(|p: ParameterInfo| p@) =~= (first + second).map_values(show));
    }
    OperationInfo {
        method: method.to_owned(),
        summary: read_text(op, "summary"),
        description: read_text(op, "description"),
        operation_id: read_text(op, "operationId"),
        tags: read_tags(op),
        parameters,
        request_body: read_body(op),
        responses: read_responses(op),
    }
}

/// What is shown of an endpoint: its operations in the order of the HTTP methods. `None` if the
/// document has no such path.
pub fn endpoint_info(spec: &Json, path: &str) -> (r: Option<Vec<OperationInfo>>)
    ensures
        match r {
            Some(list) => endpoint_info_of(spec@, path@) == Some(
                list@.map_values(|op: OperationInfo| op@),
            ),
            None => endpoint_info_of(spec@, path@) is None,
        },
{
    let item = match spec.get("paths") {
        Some(paths) => match paths.get(path) {
            Some(item) => item,
            None => {
                return None;
            },
        },
        None => {
            return None;
        },
    };
    let methods = http_method_names();
    let ghost names = http_methods();
    let ghost has = |m: Seq<char>| item@.get(m) is Some;
    let ghost show = |m: Seq<char>| operation_info(item@, m);
    let ghost view = |op: OperationInfo| op@;
    let mut list: Vec<OperationInfo> = Vec::new();
    proof {
        reveal(Seq::filter);
        assert(list@.map_values(view) =~= names.take(0).filter(has).map_values(show));
    }
    for i in 0..methods.len()
        invariant
            names == http_methods(),
            methods@.map_values(|m: &'static str| m@) == names,
            has == (|m: Seq<char>| item@.get(m) is Some),
            show == (|m: Seq<char>| operation_info(item@, m)),
            view == (|op: OperationInfo| op@),
            list@.map_values(view) == names.take(i as int).filter(has).map_values(show),
    {
        let ghost before = list@.map_values(view);
        let method = methods[i];
        proof {
            assert(names[i as int] == method@);
            assert(names.take(i + 1) =~= names.take(i as int).push(names[i as int]));
            lemma_filter_push(names.take(i as int), has, names[i as int]);
        }
        match item.get(method) {
            Some(op) => {
                list.push(read_operation(item, op, method));
                proof {
                    let kept = names.take(i as int).filter(has);
                    assert(list@.map_values(view) =~= before.push(show(method@)));
                    assert(kept.push(names[i as int]).map_values(show) =~= before.push(
                        show(method@),
                    ));
                }
            },
            None => {},
        }
    }
    proof {
        assert(names.take(names.len() as int) =~= names);
    }
    Some(list)
}

} // verus!
