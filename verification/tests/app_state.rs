use openapi_edit::app_state::App;
use openapi_edit::format::SpecFormat;
use openapi_edit::selection::{list_deselected, SelectionDb};

const SOURCE: &str = "openapi: 3.0.0
paths:
  /pets:
    get: {$ref: '#/components/schemas/A'}
    post: {$ref: '#/components/schemas/B'}
  /users:
    get: {}
components:
  schemas:
    A: {}
    B: {}
    C: {}
";

fn app() -> App {
    App::new(SelectionDb::default(), None)
}

#[test]
fn a_new_editor_has_nothing_open() {
    let app = App::new(SelectionDb::default(), Some("/out.yaml".to_string()));
    assert!(app.spec.is_none());
    assert_eq!(app.status, "Open an OpenAPI spec to get started.");
    assert!(app.source_format == SpecFormat::Yaml);
    assert!(app.export_format == SpecFormat::Yaml);
    assert!(app.prune_components);
    assert_eq!(app.groups.len(), 0);
    assert_eq!(app.search_query, "");
    assert_eq!(app.source_key, None);
    assert_eq!(app.loaded_file_name, None);
    assert_eq!(app.force_export_path, Some("/out.yaml".to_string()));
    assert_eq!(app.info_endpoint, None);
    assert_eq!(app.selection_summary(), None);
    assert!(app.prepare_export().is_none());
}

#[test]
fn a_document_is_loaded_from_text() {
    let mut app = app();
    app.search_query = "x".to_string();
    app.load_from_string(SOURCE, "api.yaml", "https://h/api.yaml", SpecFormat::Yaml);
    assert_eq!(app.status, "Loaded api.yaml — 3 operations");
    assert_eq!(app.loaded_file_name, Some("api.yaml".to_string()));
    assert_eq!(app.source_key, Some("https://h/api.yaml".to_string()));
    assert_eq!(app.search_query, "");
    assert_eq!(app.groups.len(), 2);
    assert_eq!(app.selection_summary(), Some("Selected: 3 / 3 operations".to_string()));
}

#[test]
fn a_document_is_loaded_from_a_file() {
    let mut app = app();
    let text = "{\"paths\": {\"/a\": {\"get\": {}}}}".to_string();
    app.load_from_path(Ok(text), "/dir/a.json", "a.json", "/dir/a.json");
    assert_eq!(app.status, "Loaded a.json — 1 operations");
    assert!(app.source_format == SpecFormat::Json);
    assert!(app.export_format == SpecFormat::Json);
    assert_eq!(app.source_key, Some("/dir/a.json".to_string()));
}

#[test]
fn what_cannot_be_loaded_is_reported_and_changes_nothing_else() {
    let mut app = app();
    app.load_from_string(SOURCE, "api.yaml", "key", SpecFormat::Yaml);
    app.load_from_path(Err("denied".to_string()), "b.yaml", "b.yaml", "other");
    assert_eq!(app.status, "Read error: denied");
    app.load_from_string("{}", "c.json", "other", SpecFormat::Json);
    assert_eq!(app.status, "No 'paths' object found in spec.");
    app.load_from_path(Ok("{".to_string()), "d.json", "d.json", "other");
    assert!(app.status.starts_with("JSON parse error: "));
    assert_eq!(app.loaded_file_name, Some("api.yaml".to_string()));
    assert_eq!(app.source_key, Some("key".to_string()));
    assert_eq!(app.groups.len(), 2);
}

#[test]
fn everything_is_selected_or_nothing() {
    let mut app = app();
    app.load_from_string(SOURCE, "api.yaml", "key", SpecFormat::Yaml);
    app.select_all(false);
    assert_eq!(app.selection_summary(), Some("Selected: 0 / 3 operations".to_string()));
    app.select_all(true);
    assert_eq!(app.selection_summary(), Some("Selected: 3 / 3 operations".to_string()));
}

#[test]
fn an_export_is_written_and_its_selection_saved() {
    let mut app = app();
    app.load_from_string(SOURCE, "api.yaml", "key", SpecFormat::Yaml);
    app.groups[0].endpoints[0].operations[1].selected = false;
    let text = app.prepare_export().unwrap().unwrap();
    assert_eq!(
        text,
        "openapi: 3.0.0\npaths:\n  /pets:\n    get:\n      $ref: '#/components/schemas/A'\n  /users:\n    get: {}\ncomponents:\n  schemas:\n    A: {}\n"
    );
    assert!(app.finish_export(Ok(()), "/out.yaml"));
    assert_eq!(app.status, "Exported 2 operations to /out.yaml");
    assert_eq!(app.selection_db.deselected.get("key").unwrap(), &vec!["post /pets".to_string()]);
    assert_eq!(app.selection_db.all_paths.get("key").unwrap().len(), 3);
}

#[test]
fn the_format_and_the_pruning_of_an_export_can_be_chosen() {
    let mut app = app();
    app.load_from_string(SOURCE, "api.yaml", "key", SpecFormat::Yaml);
    assert_eq!(app.default_export_name(), "filtered.yaml");
    app.export_format = SpecFormat::Json;
    app.prune_components = false;
    assert_eq!(app.default_export_name(), "filtered.json");
    let text = app.prepare_export().unwrap().unwrap();
    assert!(text.starts_with("{\n  \"openapi\": \"3.0.0\""));
    assert!(text.contains("\"C\": {}"));
}

#[test]
fn a_failed_export_saves_nothing() {
    let mut app = app();
    app.load_from_string(SOURCE, "api.yaml", "key", SpecFormat::Yaml);
    app.select_all(false);
    assert!(!app.finish_export(Err("disk full".to_string()), "/out.yaml"));
    assert_eq!(app.status, "Write error: disk full");
    assert!(!app.selection_db.has_selection("key"));
    app.report("YAML write error: e".to_string());
    assert_eq!(app.status, "YAML write error: e");
}

#[test]
fn a_saved_selection_is_restored_with_the_document() {
    let mut first = app();
    first.load_from_string(SOURCE, "api.yaml", "key", SpecFormat::Yaml);
    first.groups[1].set_all(false);
    assert!(first.save_selection());
    let mut second = App::new(first.selection_db, None);
    second.load_from_string(SOURCE, "api.yaml", "key", SpecFormat::Yaml);
    assert_eq!(
        second.status,
        "Loaded api.yaml — 3 operations — restored previous selection (2/3)"
    );
    assert_eq!(list_deselected(&second.groups), vec!["get /users"]);
    second.load_from_string(SOURCE, "api.yaml", "other", SpecFormat::Yaml);
    assert_eq!(second.status, "Loaded api.yaml — 3 operations");
    assert_eq!(list_deselected(&second.groups).len(), 0);
}

#[test]
fn a_restored_selection_that_leaves_nothing_out_is_not_mentioned() {
    let mut db = SelectionDb::default();
    db.deselected.insert("key".to_string(), vec!["get /gone".to_string()]);
    let mut app = App::new(db, None);
    app.load_from_string(SOURCE, "api.yaml", "key", SpecFormat::Yaml);
    assert_eq!(app.status, "Loaded api.yaml — 3 operations");
}

#[test]
fn without_a_source_nothing_is_saved_or_restored() {
    let mut app = app();
    assert!(!app.save_selection());
    app.apply_saved_selection();
    assert_eq!(app.status, "Open an OpenAPI spec to get started.");
    assert!(!app.finish_export(Ok(()), "x"));
    assert_eq!(app.status, "Exported 0 operations to x");
}

#[test]
fn the_path_of_a_file_tells_how_it_is_read() {
    let text = "paths: {/a: {get: {}}}";
    let mut app = app();
    app.load_from_path(Ok(text.to_string()), "a.json", "a.json", "key");
    assert!(app.status.starts_with("JSON parse error: "));
    app.load_from_path(Ok(text.to_string()), "a.yml", "a.yml", "key");
    assert_eq!(app.status, "Loaded a.yml — 1 operations");
    assert!(app.export_format == SpecFormat::Yaml);
    app.load_in_format(Ok(text.to_string()), SpecFormat::Yaml, "a.json", "key");
    assert_eq!(app.status, "Loaded a.json — 1 operations");
}
