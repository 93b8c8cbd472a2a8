use openapi_edit::codec::parse_spec_string;
use openapi_edit::drift::{apply_saved_selection_cli, report_lines, DriftReport};
use openapi_edit::extract::extract_groups;
use openapi_edit::format::SpecFormat;
use openapi_edit::model::PathGroup;
use openapi_edit::selection::{list_deselected, SelectionDb};

fn groups_of(source: &str) -> Vec<PathGroup> {
    let tree = parse_spec_string(source, SpecFormat::Yaml).unwrap();
    extract_groups(&tree).ok().unwrap()
}

const OLD: &str = "paths:
  /a: {get: {}, post: {}}
  /b: {get: {}, put: {}}
  /c: {get: {}}
";

const NEW: &str = "paths:
  /z: {get: {}}
  /a: {get: {}, post: {}}
  /b: {get: {}, delete: {}}
";

fn saved() -> SelectionDb {
    let mut db = SelectionDb::default();
    let mut chosen = groups_of(OLD);
    // post /a and put /b are not wanted.
    chosen[0].endpoints[0].operations[1].selected = false;
    chosen[1].endpoints[0].operations[1].selected = false;
    db.record("key", &chosen);
    db
}

#[test]
fn an_unchanged_document_shows_no_drift() {
    let mut current = groups_of(OLD);
    let report = apply_saved_selection_cli(&mut current, &saved(), "key").unwrap();
    assert_eq!(report.removed.len(), 0);
    assert_eq!(report.removed_selected.len(), 0);
    assert_eq!(report.new_ops.len(), 0);
    assert_eq!(report_lines(&report).len(), 0);
    assert_eq!(list_deselected(&current), vec!["post /a", "put /b"]);
}

#[test]
fn a_changed_document_is_reported() {
    let mut current = groups_of(NEW);
    let report = apply_saved_selection_cli(&mut current, &saved(), "key").unwrap();
    assert_eq!(report.removed, vec!["put /b"]);
    assert_eq!(report.removed_selected, vec!["get /c"]);
    assert_eq!(report.new_ops, vec!["delete /b", "get /z"]);
    assert_eq!(
        report_lines(&report),
        vec![
            "Warning: 1 previously deselected operation(s) no longer exist in the spec:",
            "  - put /b",
            "Warning: 1 previously selected operation(s) no longer exist in the spec:",
            "  - get /c",
            "Info: 2 new operation(s) found in the spec (auto-selected):",
            "  + delete /b",
            "  + get /z",
        ]
    );
}

#[test]
fn new_operations_stay_selected() {
    let mut current = groups_of(NEW);
    assert!(apply_saved_selection_cli(&mut current, &saved(), "key").is_some());
    assert_eq!(list_deselected(&current), vec!["post /a"]);
}

#[test]
fn an_unknown_source_is_left_alone() {
    let mut current = groups_of(NEW);
    assert!(apply_saved_selection_cli(&mut current, &saved(), "other").is_none());
    assert_eq!(list_deselected(&current).len(), 0);
}

#[test]
fn without_known_operations_only_removed_ones_are_reported() {
    let mut db = saved();
    db.all_paths.remove("key");
    let mut current = groups_of(NEW);
    let report = apply_saved_selection_cli(&mut current, &db, "key").unwrap();
    assert_eq!(report.removed, vec!["put /b"]);
    assert_eq!(report.removed_selected.len(), 0);
    assert_eq!(report.new_ops.len(), 0);
}

#[test]
fn an_operation_saved_twice_is_reported_twice() {
    let mut db = SelectionDb::default();
    let gone = "get /gone".to_string();
    db.deselected.insert("key".to_string(), vec![gone.clone(), gone.clone()]);
    db.all_paths.insert("key".to_string(), vec!["x".to_string(), "x".to_string(), gone]);
    let mut current = groups_of("paths: {/a: {get: {}}}");
    let report = apply_saved_selection_cli(&mut current, &db, "key").unwrap();
    assert_eq!(report.removed, vec!["get /gone", "get /gone"]);
    assert_eq!(report.removed_selected, vec!["x"]);
    assert_eq!(report.new_ops, vec!["get /a"]);
}

#[test]
fn counts_are_written_in_decimal() {
    let many: Vec<String> = (0..120).map(|i| format!("get /{}", i)).collect();
    let report = DriftReport { removed: many, removed_selected: vec![], new_ops: vec![] };
    let lines = report_lines(&report);
    assert_eq!(lines.len(), 121);
    assert_eq!(
        lines[0],
        "Warning: 120 previously deselected operation(s) no longer exist in the spec:"
    );
    assert_eq!(lines[120], "  - get /119");
}
