use openapi_edit::browse::{group_row, matches_query, method_color, method_label, search_text};
use openapi_edit::model::{Endpoint, Operation, PathGroup};

fn endpoint(path: &str, methods: Vec<&str>) -> Endpoint {
    let mut operations = Vec::new();
    for method in methods {
        operations.push(Operation { method: method.to_string(), selected: true });
    }
    Endpoint { path: path.to_string(), operations }
}

fn group() -> PathGroup {
    PathGroup {
        name: "Pets".to_string(),
        endpoints: vec![
            endpoint("/Pets", vec!["get", "post"]),
            endpoint("/Pets/{id}", vec!["get"]),
            endpoint("/Pets/{id}/Owner", vec!["put"]),
        ],
    }
}

#[test]
fn search_texts_are_in_lowercase_and_labels_in_uppercase() {
    assert_eq!(search_text("PeTs/ÄÖ"), "pets/äö");
    assert_eq!(method_label("delete"), "DELETE");
    assert_eq!(method_label("straße"), "STRASSE");
}

#[test]
fn a_path_matches_where_the_search_text_occurs() {
    assert!(matches_query("/pets/{id}", ""));
    assert!(matches_query("/pets/{id}", "ts/{"));
    assert!(matches_query("/pets/{id}", "/pets/{id}"));
    assert!(!matches_query("/pets/{id}", "/pets/{id}/"));
    assert!(!matches_query("/pets/{id}", "PETS"));
    assert!(matches_query("", ""));
    assert!(!matches_query("", "a"));
}

#[test]
fn an_empty_search_shows_the_whole_group() {
    let row = group_row(&group(), "").unwrap();
    assert_eq!(row.visible, vec![0, 1, 2]);
    assert_eq!(row.heading, "/Pets (4 operations)");
}

#[test]
fn a_search_shows_the_endpoints_that_match() {
    let row = group_row(&group(), "{id}").unwrap();
    assert_eq!(row.visible, vec![1, 2]);
    assert_eq!(row.heading, "/Pets (2 operations)");
    let row = group_row(&group(), "owner").unwrap();
    assert_eq!(row.visible, vec![2]);
    assert_eq!(row.heading, "/Pets (1 operation)");
}

#[test]
fn a_group_without_matches_is_not_shown() {
    assert!(group_row(&group(), "users").is_none());
    assert!(group_row(&group(), "Owner").is_none());
    let empty = PathGroup { name: "x".to_string(), endpoints: vec![] };
    assert_eq!(group_row(&empty, "").unwrap().heading, "/x (0 operations)");
    assert!(group_row(&empty, "x").is_none());
}

#[test]
fn checkboxes_have_three_states() {
    let mut g = group();
    let state = g.check_state();
    assert!(state.checked && !state.mixed);
    g.endpoints[0].operations[0].selected = false;
    let state = g.check_state();
    assert!(state.checked && state.mixed);
    let state = g.endpoints[0].check_state();
    assert!(state.checked && state.mixed);
    let state = g.endpoints[1].check_state();
    assert!(state.checked && !state.mixed);
    g.set_all(false);
    let state = g.check_state();
    assert!(!state.checked && !state.mixed);
    let state = g.endpoints[2].check_state();
    assert!(!state.checked && !state.mixed);
}

#[test]
fn methods_have_colours() {
    assert_eq!(method_color("get"), (97, 175, 254));
    assert_eq!(method_color("post"), (73, 204, 144));
    assert_eq!(method_color("put"), (252, 161, 48));
    assert_eq!(method_color("patch"), (80, 227, 194));
    assert_eq!(method_color("delete"), (249, 62, 62));
    assert_eq!(method_color("head"), (183, 183, 183));
    assert_eq!(method_color("GET"), (183, 183, 183));
}
