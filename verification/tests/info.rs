use openapi_edit::codec::parse_spec_string;
use openapi_edit::format::SpecFormat;
use openapi_edit::info::endpoint_info;
use openapi_edit::json::Json;

const SOURCE: &str = "paths:
  /pets/{id}:
    parameters:
      - {name: id, in: path, required: true, schema: {type: string}}
    delete: {}
    get:
      summary: Find a pet
      description: By its id
      operationId: findPet
      tags: [pets, 3, read]
      parameters:
        - {name: deep, in: query, schema: {}}
        - $ref: '#/x'
        - {name: 1, in: query, required: 'true', schema: {type: integer}}
      requestBody:
        description: None needed
        content: {application/json: {}, text/plain: {}}
      responses:
        '200': {description: ok}
        default: {}
  /bare: {summary: nothing}
  /odd:
    post:
      tags: [1, 2]
      parameters: none
      requestBody: {content: [1]}
      responses: []
      summary: 4
    get: text
";

fn doc() -> Json {
    parse_spec_string(SOURCE, SpecFormat::Yaml).unwrap()
}

#[test]
fn an_operation_is_shown_with_all_it_says() {
    let list = endpoint_info(&doc(), "/pets/{id}").unwrap();
    assert_eq!(list.len(), 2);
    let get = &list[0];
    assert_eq!(get.method, "get");
    assert_eq!(get.summary, Some("Find a pet".to_string()));
    assert_eq!(get.description, Some("By its id".to_string()));
    assert_eq!(get.operation_id, Some("findPet".to_string()));
    assert_eq!(get.tags, Some("pets, read".to_string()));
    let rows: Vec<String> = get
        .parameters
        .iter()
        .map(|p| format!("{} {} {} {}", p.name, p.location, p.kind, p.required))
        .collect();
    assert_eq!(
        rows,
        vec!["id path string true", "deep query - false", "? ? - false", "? query integer false"]
    );
    let body = get.request_body.as_ref().unwrap();
    assert_eq!(body.description, Some("None needed".to_string()));
    assert_eq!(body.content_types, Some("application/json, text/plain".to_string()));
    let responses: Vec<String> = get
        .responses
        .as_ref()
        .unwrap()
        .iter()
        .map(|r| format!("{} {}", r.status, r.description))
        .collect();
    assert_eq!(responses, vec!["200 ok", "default -"]);
}

#[test]
fn an_operation_that_says_nothing_is_shown_bare() {
    let list = endpoint_info(&doc(), "/pets/{id}").unwrap();
    let delete = &list[1];
    assert_eq!(delete.method, "delete");
    assert_eq!(delete.summary, None);
    assert_eq!(delete.description, None);
    assert_eq!(delete.operation_id, None);
    assert_eq!(delete.tags, None);
    assert_eq!(delete.parameters.len(), 1);
    assert!(delete.request_body.is_none());
    assert!(delete.responses.is_none());
}

#[test]
fn values_of_other_types_are_passed_over() {
    let list = endpoint_info(&doc(), "/odd").unwrap();
    assert_eq!(list.len(), 2);
    assert_eq!(list[0].method, "get");
    assert_eq!(list[0].parameters.len(), 0);
    let post = &list[1];
    assert_eq!(post.summary, None);
    assert_eq!(post.tags, None);
    assert_eq!(post.parameters.len(), 0);
    assert!(post.responses.is_none());
    let body = post.request_body.as_ref().unwrap();
    assert_eq!(body.description, None);
    assert_eq!(body.content_types, None);
}

#[test]
fn an_endpoint_without_methods_has_an_empty_list() {
    assert_eq!(endpoint_info(&doc(), "/bare").unwrap().len(), 0);
}

#[test]
fn an_endpoint_that_is_not_in_the_document_is_not_found() {
    assert!(endpoint_info(&doc(), "/missing").is_none());
    assert!(endpoint_info(&Json::Null, "/pets").is_none());
    assert!(endpoint_info(&Json::Object(vec![]), "/pets").is_none());
}
