use openapi_edit::codec::parse_spec_string;
use openapi_edit::extract::extract_groups;
use openapi_edit::format::SpecFormat;
use openapi_edit::model::PathGroup;
use openapi_edit::selection::{
    list_deselected, list_operations, operation_key_text, SelectionDb,
};
use openapi_edit::storage::{dirs, Platform, Variables};

fn groups() -> Vec<PathGroup> {
    let source = "paths:
  /pets: {get: {}, post: {}}
  /users: {get: {}}
";
    let tree = parse_spec_string(source, SpecFormat::Yaml).unwrap();
    extract_groups(&tree).ok().unwrap()
}

fn variables(
    home: Option<&str>,
    userprofile: Option<&str>,
    appdata: Option<&str>,
    xdg: Option<&str>,
) -> Variables {
    Variables {
        home: home.map(|s| s.to_string()),
        userprofile: userprofile.map(|s| s.to_string()),
        appdata: appdata.map(|s| s.to_string()),
        xdg_config_home: xdg.map(|s| s.to_string()),
    }
}

#[test]
fn an_operation_is_known_by_its_method_and_path() {
    assert_eq!(operation_key_text("get", "/pets"), "get /pets");
    assert_ne!(operation_key_text("get", "/a b"), operation_key_text("get", "/a"));
}

#[test]
fn operations_are_listed_in_order() {
    let mut list = groups();
    assert_eq!(list_operations(&list), vec!["get /pets", "post /pets", "get /users"]);
    assert_eq!(list_deselected(&list).len(), 0);
    list[0].endpoints[0].operations[1].selected = false;
    list[1].set_all(false);
    assert_eq!(list_deselected(&list), vec!["post /pets", "get /users"]);
    assert_eq!(list_operations(&list).len(), 3);
}

#[test]
fn a_saved_selection_comes_back() {
    let mut db = SelectionDb::default();
    let mut chosen = groups();
    chosen[0].endpoints[0].operations[0].selected = false;
    assert!(!db.has_selection("file"));
    db.record("file", &chosen);
    assert!(db.has_selection("file"));
    let mut fresh = groups();
    assert!(db.apply("file", &mut fresh));
    assert_eq!(list_deselected(&fresh), vec!["get /pets"]);
    assert_eq!(list_operations(&fresh), list_operations(&chosen));
}

#[test]
fn nothing_deselected_is_not_kept_as_a_selection() {
    let mut db = SelectionDb::default();
    let mut chosen = groups();
    chosen[1].set_all(false);
    db.record("file", &chosen);
    assert!(db.has_selection("file"));
    db.record("file", &groups());
    assert!(!db.has_selection("file"));
    assert_eq!(db.all_paths.get("file").unwrap().len(), 3);
    let mut fresh = groups();
    assert!(!db.apply("file", &mut fresh));
    assert_eq!(list_deselected(&fresh).len(), 0);
}

#[test]
fn saving_one_source_leaves_the_others() {
    let mut db = SelectionDb::default();
    let mut chosen = groups();
    chosen[1].set_all(false);
    db.record("first", &chosen);
    db.record("second", &groups());
    assert!(db.has_selection("first"));
    assert!(!db.has_selection("second"));
    assert_eq!(db.deselected.get("first").unwrap(), &vec!["get /users".to_string()]);
    db.record("second", &chosen);
    db.record("first", &groups());
    assert!(!db.has_selection("first"));
    assert!(db.has_selection("second"));
}

#[test]
fn restoring_does_not_select_what_was_deselected() {
    let mut db = SelectionDb::default();
    let mut chosen = groups();
    chosen[1].set_all(false);
    db.record("file", &chosen);
    let mut fresh = groups();
    fresh[0].set_all(false);
    assert!(db.apply("file", &mut fresh));
    assert_eq!(list_deselected(&fresh), vec!["get /pets", "post /pets", "get /users"]);
}

#[test]
fn the_home_directory_is_looked_up_in_order() {
    assert_eq!(dirs(&variables(Some("/h"), Some("/u"), None, None)), "/h");
    assert_eq!(dirs(&variables(None, Some("/u"), None, None)), "/u");
    assert_eq!(dirs(&variables(None, None, None, None)), ".");
}

#[test]
fn the_database_is_in_the_directory_of_the_platform() {
    let full = variables(Some("/h"), None, Some("/app"), Some("/xdg"));
    let bare = variables(Some("/h"), None, None, None);
    let last = |mut parts: Vec<&'static str>| {
        parts.push("openapi-edit");
        parts.push("selections.json");
        parts
    };
    assert_eq!(
        SelectionDb::db_path(Platform::MacOs, &full),
        last(vec!["/h", "Library/Application Support"])
    );
    assert_eq!(SelectionDb::db_path(Platform::Windows, &full), last(vec!["/app"]));
    assert_eq!(SelectionDb::db_path(Platform::Windows, &bare), last(vec!["/h"]));
    assert_eq!(SelectionDb::db_path(Platform::Other, &full), last(vec!["/xdg"]));
    assert_eq!(SelectionDb::db_path(Platform::Other, &bare), last(vec!["/h", ".config"]));
    assert_eq!(
        SelectionDb::config_dir(Platform::Other, &bare),
        vec!["/h", ".config", "openapi-edit"]
    );
}

#[test]
fn a_custom_path_takes_the_place_of_the_platform_one() {
    let bare = variables(Some("/h"), None, None, None);
    let custom = Some("/tmp/db.json".to_string());
    assert_eq!(
        SelectionDb::storage_path(&custom, Platform::Other, &bare),
        vec!["/tmp/db.json"]
    );
    assert_eq!(
        SelectionDb::storage_path(&None, Platform::Other, &bare),
        SelectionDb::db_path(Platform::Other, &bare)
    );
}

#[test]
fn a_loaded_database_keeps_its_lists_and_takes_the_path() {
    let mut stored = SelectionDb::default();
    stored.deselected.insert("k".to_string(), vec!["get /a".to_string()]);
    let db = SelectionDb::load(Some(stored), Some("/db".to_string()));
    assert!(db.has_selection("k"));
    assert_eq!(db.custom_path, Some("/db".to_string()));
    let empty = SelectionDb::load(None, None);
    assert!(!empty.has_selection("k"));
    assert_eq!(empty.custom_path, None);
}

#[test]
fn a_list_is_replaced_and_removed_by_its_key() {
    let mut db = SelectionDb::default();
    db.all_paths.insert("a".to_string(), vec!["1".to_string()]);
    db.all_paths.insert("b".to_string(), vec!["2".to_string()]);
    db.all_paths.insert("a".to_string(), vec!["3".to_string()]);
    assert_eq!(db.all_paths.get("a"), Some(&vec!["3".to_string()]));
    assert_eq!(db.all_paths.get("b"), Some(&vec!["2".to_string()]));
    db.all_paths.remove("a");
    assert!(!db.all_paths.contains_key("a"));
    assert!(db.all_paths.contains_key("b"));
    db.all_paths.remove("missing");
    assert_eq!(db.all_paths.get("c"), None);
}
