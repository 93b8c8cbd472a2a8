use openapi_edit::codec::parse_spec_string;
use openapi_edit::extract::{extract_groups, http_method_names};
use openapi_edit::format::SpecFormat;
use openapi_edit::json::Json;
use openapi_edit::model::PathGroup;

fn groups_of(source: &str) -> Vec<PathGroup> {
    let tree = parse_spec_string(source, SpecFormat::Yaml).unwrap();
    extract_groups(&tree).ok().unwrap()
}

fn shape(groups: &[PathGroup]) -> Vec<String> {
    let mut lines = Vec::new();
    for g in groups {
        for ep in &g.endpoints {
            let methods: Vec<&str> = ep.operations.iter().map(|o| o.method.as_str()).collect();
            lines.push(format!("{} | {} | {}", g.name, ep.path, methods.join(",")));
        }
    }
    lines
}

#[test]
fn paths_are_grouped_by_their_first_segment() {
    let source = "paths:
  /users/{id}: {get: {}}
  /pets: {post: {}, get: {}}
  /users: {get: {}}
  /pets/{id}: {delete: {}}
";
    let groups = groups_of(source);
    assert_eq!(
        shape(&groups),
        vec![
            "pets | /pets | get,post",
            "pets | /pets/{id} | delete",
            "users | /users | get",
            "users | /users/{id} | get",
        ]
    );
    assert!(groups.iter().all(|g| g.all_selected()));
}

#[test]
fn the_root_and_odd_paths_have_groups() {
    let source = "paths:
  /: {get: {}}
  //a//b: {get: {}}
  plain/x: {get: {}}
  '': {get: {}}
  ///: {put: {}}
";
    assert_eq!(
        shape(&groups_of(source)),
        vec!["/ |  | get", "/ | / | get", "/ | /// | put", "a | //a//b | get", "plain | plain/x | get"]
    );
}

#[test]
fn methods_come_in_their_own_order_and_nothing_else_counts() {
    let source = "paths:
  /a: {trace: {}, parameters: [], options: null, head: 1, GET: {}, delete: {}, patch: {}, put: {}, post: {}, get: {}}
  /b: {parameters: [], summary: none}
  /c: [get]
  /d: get
";
    let groups = groups_of(source);
    assert_eq!(shape(&groups), vec!["a | /a | get,post,put,patch,delete,head,options,trace"]);
    assert_eq!(
        http_method_names(),
        vec!["get", "post", "put", "patch", "delete", "head", "options", "trace"]
    );
}

#[test]
fn paths_are_in_the_order_of_their_characters() {
    let source = "paths:
  /a/z: {get: {}}
  /a/é: {get: {}}
  /a/B: {get: {}}
  /a: {get: {}}
  /a/b: {get: {}}
  /B: {get: {}}
";
    assert_eq!(
        shape(&groups_of(source)),
        vec![
            "B | /B | get",
            "a | /a | get",
            "a | /a/B | get",
            "a | /a/b | get",
            "a | /a/z | get",
            "a | /a/é | get",
        ]
    );
}

#[test]
fn a_document_without_paths_is_refused() {
    let error = "No 'paths' object found in spec.".to_string();
    for source in ["{}", "paths: []", "paths: null", "[]", "text"] {
        let tree = parse_spec_string(source, SpecFormat::Yaml).unwrap();
        assert_eq!(extract_groups(&tree).err(), Some(error.clone()));
    }
    assert_eq!(extract_groups(&Json::Null).err(), Some(error));
}

#[test]
fn empty_paths_have_no_groups() {
    assert_eq!(groups_of("paths: {}").len(), 0);
}
