use openapi_edit::codec::{parse_spec_string, serialize_spec};
use openapi_edit::component::read_entry_ref;
use openapi_edit::format::SpecFormat;
use openapi_edit::json::Json;
use openapi_edit::prune::{
    prune_unused_components, reachable_component_refs, resolve_local_ref,
};
use openapi_edit::refs::collect_refs;
use openapi_edit::text_set::TextSet;

fn doc(source: &str) -> Json {
    parse_spec_string(source, SpecFormat::Json).unwrap()
}

fn written(tree: &Json) -> String {
    serialize_spec(tree, SpecFormat::Json).unwrap()
}

fn sorted(set: &TextSet) -> Vec<String> {
    let mut list: Vec<String> = (0..set.len()).map(|i| set.nth(i).to_string()).collect();
    list.sort();
    list
}

fn pruned(source: &str) -> String {
    let mut tree = doc(source);
    prune_unused_components(&mut tree);
    written(&tree)
}

#[test]
fn references_are_collected_at_any_depth() {
    let tree = doc(
        r##"{"$ref": "a", "x": [{"y": {"$ref": "b"}}, "$ref", {"$ref": 3}], "z": {"$ref": {"$ref": "c"}}}"##,
    );
    let mut set = TextSet::new();
    set.insert("old");
    collect_refs(&tree, &mut set);
    assert_eq!(sorted(&set), vec!["a", "b", "c", "old"]);
}

#[test]
fn references_are_followed_through_components() {
    let tree = doc(
        r##"{
  "paths": {"/a": {"get": {"$ref": "#/components/schemas/A"}}},
  "components": {"schemas": {
    "A": {"items": {"$ref": "#/components/schemas/B"}},
    "B": {"items": {"$ref": "#/components/responses/A"}},
    "C": {"items": {"$ref": "#/components/schemas/D"}},
    "D": {}
  }, "responses": {"A": {"x": {"$ref": "other.yaml#/X"}}}}
}"##,
    );
    assert_eq!(
        sorted(&reachable_component_refs(&tree)),
        vec![
            "#/components/responses/A",
            "#/components/schemas/A",
            "#/components/schemas/B",
            "other.yaml#/X",
        ]
    );
}

#[test]
fn a_document_that_is_no_object_reaches_nothing() {
    assert_eq!(reachable_component_refs(&doc(r##"[{"$ref": "#/a"}]"##)).len(), 0);
    assert_eq!(reachable_component_refs(&doc("3")).len(), 0);
}

#[test]
fn circular_references_are_followed_once() {
    let source = r##"{
  "paths": {"$ref": "#/components/schemas/A"},
  "components": {"schemas": {
    "A": {"$ref": "#/components/schemas/B"},
    "B": {"$ref": "#/components/schemas/A"},
    "C": {"$ref": "#/components/schemas/C"}
  }}
}"##;
    assert_eq!(
        sorted(&reachable_component_refs(&doc(source))),
        vec!["#/components/schemas/A", "#/components/schemas/B"]
    );
    let expected = r##"{
  "paths": {"$ref": "#/components/schemas/A"},
  "components": {"schemas": {
    "A": {"$ref": "#/components/schemas/B"},
    "B": {"$ref": "#/components/schemas/A"}
  }}
}"##;
    assert_eq!(pruned(source), written(&doc(expected)));
}

#[test]
fn unreferenced_entries_and_empty_sections_go() {
    let source = r##"{
  "paths": {"/a": {"$ref": "#/components/schemas/A"}},
  "components": {
    "schemas": {"B": 1, "A": 2},
    "responses": {"A": 3},
    "empty": {},
    "x-list": [1],
    "x-text": "t"
  },
  "info": {"title": "t"}
}"##;
    let expected = r##"{
  "paths": {"/a": {"$ref": "#/components/schemas/A"}},
  "components": {
    "schemas": {"A": 2},
    "x-list": [1],
    "x-text": "t"
  },
  "info": {"title": "t"}
}"##;
    assert_eq!(pruned(source), written(&doc(expected)));
}

#[test]
fn pruning_twice_is_pruning_once() {
    let source = r##"{
  "paths": {"/a": {"$ref": "#/components/schemas/A"}},
  "components": {"schemas": {"A": {"$ref": "#/components/schemas/B"}, "B": {}, "C": {}}}
}"##;
    let once = pruned(source);
    assert_eq!(pruned(&once), once);
    assert!(once.contains("\"B\""));
    assert!(!once.contains("\"C\""));
}

#[test]
fn pruning_twice_may_go_further_where_a_whole_section_is_referenced() {
    let source = r##"{
  "paths": {"/a": {"$ref": "#/components/schemas"}},
  "components": {"schemas": {"A": {"$ref": "#/components/responses/B"}}, "responses": {"B": {}}}
}"##;
    let once = pruned(source);
    assert!(once.contains("\"B\""));
    assert!(!once.contains("\"A\""));
    assert!(!pruned(&once).contains("\"B\""));
}

#[test]
fn components_that_are_no_object_are_left_alone() {
    for source in [r#"{"components": [1]}"#, r#"{"components": null}"#, "{}", "[]", "7"] {
        assert_eq!(pruned(source), written(&doc(source)));
    }
    assert_eq!(pruned(r#"{"components": {}}"#), written(&doc(r#"{"components": {}}"#)));
}

#[test]
fn references_are_resolved_as_json_pointers() {
    let source = r##"{
  "a": {"b/c": 1, "m~n": 2, "": 3, "~1": 4},
  "list": [10, 11, 12],
  "": {"": 5}
}"##;
    let tree = doc(source);
    let value: serde_json::Value = serde_json::from_str(source).unwrap();
    let references = [
        "#", "#/", "#//", "#/a", "#/a/", "#/a/b~1c", "#/a/m~0n", "#/a/~01", "#/a/b/c", "#/a/~2",
        "#/list/0", "#/list/2", "#/list/3", "#/list/00", "#/list/01", "#/list/+1", "#/list/-",
        "#/list/", "#/list/1/x", "#/list/18446744073709551616", "#/missing", "#a", "#list/0",
    ];
    for reference in references {
        let found = resolve_local_ref(&tree, reference).map(|j| written(&j));
        let expected =
            value.pointer(&reference[1..]).map(|v| serde_json::to_string_pretty(v).unwrap());
        assert_eq!(found, expected, "{}", reference);
    }
    assert_eq!(resolve_local_ref(&tree, "#/a/b~1c").map(|j| written(&j)), Some("1".to_string()));
    assert_eq!(resolve_local_ref(&tree, "#/list/1").map(|j| written(&j)), Some("11".to_string()));
}

#[test]
fn references_into_other_documents_resolve_to_nothing() {
    let tree = doc(r#"{"a": 1}"#);
    assert!(resolve_local_ref(&tree, "").is_none());
    assert!(resolve_local_ref(&tree, "/a").is_none());
    assert!(resolve_local_ref(&tree, "other.json#/a").is_none());
    assert!(resolve_local_ref(&tree, "é").is_none());
    assert!(resolve_local_ref(&tree, "#/a").is_some());
}

#[test]
fn references_into_a_component_keep_it_and_what_it_refers_to() {
    let source = r##"{
  "paths": {"/a": {"$ref": "#/components/schemas/A/properties/x"}},
  "components": {"schemas": {
    "A": {"properties": {"x": {}, "y": {"$ref": "#/components/schemas/B"}}},
    "B": {},
    "C": {}
  }}
}"##;
    let mut tree = doc(source);
    prune_unused_components(&mut tree);
    let schemas = tree.get("components").unwrap().get("schemas").unwrap();
    assert!(schemas.get("A").is_some());
    assert!(schemas.get("B").is_some());
    assert!(schemas.get("C").is_none());
}

#[test]
fn names_that_need_escaping_are_found_by_their_pointers() {
    let source = r##"{
  "paths": {
    "/a": {"$ref": "#/components/schemas/a~1b"},
    "/c": {"$ref": "#/components/schemas/c~0d~01"},
    "/e": {"$ref": "#/components/x~1y/e"}
  },
  "components": {
    "schemas": {"a/b": {"$ref": "#/components/schemas/D"}, "c~d~1": {}, "D": {}, "a~1b": {}, "a": {}},
    "x/y": {"e": 1, "f": 2}
  }
}"##;
    let mut tree = doc(source);
    prune_unused_components(&mut tree);
    let expected = r##"{
    "schemas": {"a/b": {"$ref": "#/components/schemas/D"}, "c~d~1": {}, "D": {}},
    "x/y": {"e": 1}
  }"##;
    assert_eq!(written(tree.get("components").unwrap()), written(&doc(expected)));
    let once = written(&tree);
    assert_eq!(pruned(&once), once);
}

#[test]
fn a_document_whose_components_are_all_referenced_is_unchanged() {
    let source = r##"{
  "paths": {"/x": {"get": {"$ref": "#/components/schemas/a~1b"}}},
  "components": {"schemas": {"a/b": {"type": "string"}}}
}"##;
    assert_eq!(pruned(source), written(&doc(source)));
}

#[test]
fn references_are_read_as_names_of_entries() {
    let named = |r: &str| read_entry_ref(r);
    let pair = |s: &str, n: &str| Some((s.to_string(), n.to_string()));
    assert_eq!(named("#/components/schemas/Foo"), pair("schemas", "Foo"));
    assert_eq!(named("#/components/schemas/Foo/items/0"), pair("schemas", "Foo"));
    assert_eq!(named("#/components/a~1b/~0c~01"), pair("a/b", "~c~1"));
    assert_eq!(named("#/components//"), pair("", ""));
    assert_eq!(named("#/components/schemas/"), pair("schemas", ""));
    assert_eq!(named("#/components/schemas"), None);
    assert_eq!(named("#/components"), None);
    assert_eq!(named("#/paths/a/b"), None);
    assert_eq!(named("other#/components/schemas/Foo"), None);
    assert_eq!(named(""), None);
}
