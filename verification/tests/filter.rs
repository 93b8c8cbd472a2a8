use openapi_edit::codec::{parse_spec_string, serialize_spec};
use openapi_edit::extract::extract_groups;
use openapi_edit::filter::build_filtered_spec;
use openapi_edit::format::SpecFormat;
use openapi_edit::json::Json;
use openapi_edit::model::{Endpoint, Operation, PathGroup};

const SOURCE: &str = r##"{
  "openapi": "3.0.0",
  "paths": {
    "/pets": {
      "parameters": [{"name": "x"}],
      "get": {"$ref": "#/components/schemas/A"},
      "post": {"$ref": "#/components/schemas/B"}
    },
    "/users": {"get": {}, "summary": "s"},
    "/docs": {"description": "no operations"}
  },
  "components": {
    "schemas": {
      "A": {"properties": {"c": {"$ref": "#/components/schemas/C"}}},
      "B": {},
      "C": {},
      "D": {"$ref": "#/components/schemas/A"}
    },
    "responses": {"R": {}}
  }
}"##;

fn doc(source: &str) -> Json {
    parse_spec_string(source, SpecFormat::Json).unwrap()
}

fn written(tree: &Json) -> String {
    serialize_spec(tree, SpecFormat::Json).unwrap()
}

fn deselect(groups: &mut Vec<PathGroup>, path: &str, method: &str) {
    for g in groups.iter_mut() {
        for ep in g.endpoints.iter_mut() {
            for op in ep.operations.iter_mut() {
                if ep.path == path && op.method == method {
                    op.selected = false;
                }
            }
        }
    }
}

fn kept(groups: &[PathGroup]) -> Vec<String> {
    let mut lines = Vec::new();
    for g in groups {
        for ep in &g.endpoints {
            for op in &ep.operations {
                if op.selected {
                    lines.push(format!("{} {} {}", g.name, op.method, ep.path));
                }
            }
        }
    }
    lines
}

#[test]
fn everything_selected_exports_the_document_as_it_is() {
    let tree = doc(SOURCE);
    let groups = extract_groups(&tree).ok().unwrap();
    let out = build_filtered_spec(&tree, &groups, false);
    assert_eq!(written(&out), written(&tree));
}

#[test]
fn deselected_operations_and_paths_are_left_out() {
    let tree = doc(SOURCE);
    let mut groups = extract_groups(&tree).ok().unwrap();
    deselect(&mut groups, "/pets", "get");
    deselect(&mut groups, "/users", "get");
    let out = build_filtered_spec(&tree, &groups, false);
    let expected = doc(
        r##"{
  "openapi": "3.0.0",
  "paths": {
    "/pets": {
      "parameters": [{"name": "x"}],
      "post": {"$ref": "#/components/schemas/B"}
    },
    "/docs": {"description": "no operations"}
  },
  "components": {
    "schemas": {
      "A": {"properties": {"c": {"$ref": "#/components/schemas/C"}}},
      "B": {},
      "C": {},
      "D": {"$ref": "#/components/schemas/A"}
    },
    "responses": {"R": {}}
  }
}"##,
    );
    assert_eq!(written(&out), written(&expected));
}

#[test]
fn unused_components_are_left_out_on_request() {
    let tree = doc(SOURCE);
    let mut groups = extract_groups(&tree).ok().unwrap();
    let out = build_filtered_spec(&tree, &groups, true);
    let schemas = out.get("components").unwrap().get("schemas").unwrap();
    let names: Vec<&str> =
        schemas.as_object().unwrap().iter().map(|m| m.key.as_str()).collect();
    assert_eq!(names, vec!["A", "B", "C"]);
    assert!(out.get("components").unwrap().get("responses").is_none());

    deselect(&mut groups, "/pets", "get");
    let out = build_filtered_spec(&tree, &groups, true);
    let expected = r#"{"schemas": {"B": {}}}"#;
    assert_eq!(written(out.get("components").unwrap()), written(&doc(expected)));
}

#[test]
fn the_export_shows_what_was_selected() {
    let tree = doc(SOURCE);
    let mut groups = extract_groups(&tree).ok().unwrap();
    deselect(&mut groups, "/pets", "post");
    let before = kept(&groups);
    assert_eq!(before, vec!["pets get /pets", "users get /users"]);
    for prune in [false, true] {
        let out = build_filtered_spec(&tree, &groups, prune);
        let again = extract_groups(&out).ok().unwrap();
        assert_eq!(kept(&again), before);
        assert!(again.iter().all(|g| g.all_selected()));
    }
}

#[test]
fn other_parts_of_the_document_stay() {
    let tree = doc(SOURCE);
    let mut groups = extract_groups(&tree).ok().unwrap();
    deselect(&mut groups, "/users", "get");
    let out = build_filtered_spec(&tree, &groups, true);
    assert_eq!(out.get("openapi").unwrap().as_str(), Some("3.0.0"));
    let docs = out.get("paths").unwrap().get("/docs").unwrap();
    assert_eq!(docs.get("description").unwrap().as_str(), Some("no operations"));
    assert!(out.get("paths").unwrap().get("/users").is_none());
}

fn endpoint(path: &str, flags: Vec<(&str, bool)>) -> Endpoint {
    let mut operations = Vec::new();
    for (method, selected) in flags {
        operations.push(Operation { method: method.to_string(), selected });
    }
    Endpoint { path: path.to_string(), operations }
}

#[test]
fn of_two_endpoints_of_a_path_the_later_one_decides() {
    let tree = doc(r#"{"paths": {"/a": {"get": 1, "post": 2, "put": 3}}}"#);
    let groups = vec![PathGroup {
        name: "a".to_string(),
        endpoints: vec![
            endpoint("/a", vec![("get", false), ("post", true)]),
            endpoint("/a", vec![("post", false), ("put", true)]),
        ],
    }];
    let out = build_filtered_spec(&tree, &groups, false);
    assert_eq!(written(&out), written(&doc(r#"{"paths": {"/a": {"get": 1, "put": 3}}}"#)));
}

#[test]
fn an_endpoint_without_operations_drops_its_path() {
    let tree = doc(r#"{"paths": {"/a": {"get": 1}, "/b": {}}}"#);
    let groups =
        vec![PathGroup { name: "a".to_string(), endpoints: vec![endpoint("/a", vec![])] }];
    let out = build_filtered_spec(&tree, &groups, false);
    assert_eq!(written(&out), written(&doc(r#"{"paths": {"/b": {}}}"#)));
}

#[test]
fn documents_without_paths_are_left_alone() {
    let groups = vec![PathGroup {
        name: "a".to_string(),
        endpoints: vec![endpoint("/a", vec![("get", false)])],
    }];
    for source in ["{}", "[1]", r#"{"paths": [1]}"#, "null"] {
        let tree = doc(source);
        assert_eq!(written(&build_filtered_spec(&tree, &groups, true)), written(&tree));
    }
}

#[test]
fn references_that_stay_find_their_components() {
    let tree = doc(SOURCE);
    let mut groups = extract_groups(&tree).ok().unwrap();
    deselect(&mut groups, "/pets", "post");
    let out = build_filtered_spec(&tree, &groups, true);
    let schemas = out.get("components").unwrap().get("schemas").unwrap();
    let whole = tree.get("components").unwrap().get("schemas").unwrap();
    for name in ["A", "C"] {
        assert_eq!(written(schemas.get(name).unwrap()), written(whole.get(name).unwrap()));
    }
    assert!(schemas.get("B").is_none());
}
