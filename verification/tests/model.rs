use openapi_edit::model::{
    count_operations, count_selected, set_all_groups, Endpoint, Operation, PathGroup,
};

fn op(method: &str, selected: bool) -> Operation {
    Operation { method: method.to_string(), selected }
}

fn endpoint(path: &str, operations: Vec<Operation>) -> Endpoint {
    Endpoint { path: path.to_string(), operations }
}

fn group() -> PathGroup {
    PathGroup {
        name: "pets".to_string(),
        endpoints: vec![
            endpoint("/pets", vec![op("get", true), op("post", false)]),
            endpoint("/pets/{id}", vec![op("get", true), op("put", true), op("delete", false)]),
        ],
    }
}

#[test]
fn endpoint_without_operations_is_all_and_none_selected() {
    let ep = endpoint("/a", vec![]);
    assert!(ep.all_selected());
    assert!(ep.none_selected());
    assert_eq!(ep.selected_count(), 0);
    assert_eq!(ep.operation_count(), 0);
}

#[test]
fn endpoint_counts_go_with_the_selection() {
    let mixed = endpoint("/a", vec![op("get", true), op("post", false), op("put", true)]);
    assert!(!mixed.all_selected());
    assert!(!mixed.none_selected());
    assert_eq!(mixed.selected_count(), 2);
    assert_eq!(mixed.operation_count(), 3);

    let full = endpoint("/a", vec![op("get", true), op("post", true)]);
    assert!(full.all_selected());
    assert_eq!(full.selected_count(), full.operation_count());

    let none = endpoint("/a", vec![op("get", false)]);
    assert!(none.none_selected());
    assert_eq!(none.selected_count(), 0);
}

#[test]
fn endpoint_set_all_changes_only_the_flags() {
    let mut ep = endpoint("/a", vec![op("get", true), op("post", false)]);
    ep.set_all(true);
    assert!(ep.all_selected());
    ep.set_all(false);
    assert!(ep.none_selected());
    assert_eq!(ep.path, "/a");
    assert_eq!(ep.operations[0].method, "get");
    assert_eq!(ep.operations[1].method, "post");
}

#[test]
fn group_counts_go_with_the_selection() {
    let mut g = group();
    assert_eq!(g.selected_count(), 3);
    assert_eq!(g.operation_count(), 5);
    assert!(!g.all_selected());
    assert!(!g.none_selected());
    g.set_all(true);
    assert!(g.all_selected());
    assert_eq!(g.selected_count(), 5);
    g.set_all(false);
    assert!(g.none_selected());
    assert_eq!(g.selected_count(), 0);
    assert_eq!(g.operation_count(), 5);
}

#[test]
fn group_without_endpoints_is_all_and_none_selected() {
    let g = PathGroup { name: "x".to_string(), endpoints: vec![] };
    assert!(g.all_selected());
    assert!(g.none_selected());
    assert_eq!(g.operation_count(), 0);
}

#[test]
fn all_groups_are_counted_and_set_together() {
    let mut groups = vec![group(), group()];
    assert_eq!(count_selected(&groups), 6);
    assert_eq!(count_operations(&groups), 10);
    set_all_groups(&mut groups, false);
    assert_eq!(count_selected(&groups), 0);
    set_all_groups(&mut groups, true);
    assert_eq!(count_selected(&groups), 10);
    assert_eq!(count_operations(&groups), 10);
}
