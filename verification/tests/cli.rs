use openapi_edit::app_state::App;
use openapi_edit::cli::{
    export_in_format, finish_cli_export, missing_message, parse_args, prepare_cli_export, usage, CliArgs, Flag,
    InputSource, Invocation,
};
use openapi_edit::codec::parse_spec_string;
use openapi_edit::drift::report_lines;
use openapi_edit::format::SpecFormat;
use openapi_edit::json::Json;
use openapi_edit::selection::SelectionDb;

fn words(line: &str) -> Vec<String> {
    line.split_whitespace().map(|w| w.to_string()).collect()
}

fn run(line: &str) -> CliArgs {
    match parse_args(&words(line)) {
        Invocation::Run(args) => args,
        _ => panic!("not run: {}", line),
    }
}

const SOURCE: &str = "paths:
  /a: {get: {$ref: '#/components/schemas/A'}, post: {}}
  /b: {get: {}}
components: {schemas: {A: {}, B: {}}}
";

fn doc() -> Json {
    parse_spec_string(SOURCE, SpecFormat::Yaml).unwrap()
}

#[test]
fn arguments_are_read() {
    let args = run("in.yaml --export out.json --db d.json --user u --password p --force-export-path f");
    assert_eq!(args.input, Some("in.yaml".to_string()));
    assert_eq!(args.export_path, Some("out.json".to_string()));
    assert_eq!(args.db_path, Some("d.json".to_string()));
    assert_eq!(args.user, Some("u".to_string()));
    assert_eq!(args.password, Some("p".to_string()));
    assert_eq!(args.force_export_path, Some("f".to_string()));
}

#[test]
fn no_arguments_ask_for_nothing() {
    let args = run("");
    assert_eq!(args.input, None);
    assert_eq!(args.export_path, None);
    assert_eq!(args.db_path, None);
    assert_eq!(args.user, None);
    assert_eq!(args.password, None);
    assert_eq!(args.force_export_path, None);
}

#[test]
fn the_last_of_several_wins() {
    let args = run("one --db a two --db b --unknown");
    assert_eq!(args.input, Some("--unknown".to_string()));
    assert_eq!(args.db_path, Some("b".to_string()));
}

#[test]
fn an_option_takes_whatever_follows() {
    let args = run("--export --help --user --db x");
    assert_eq!(args.export_path, Some("--help".to_string()));
    assert_eq!(args.user, Some("--db".to_string()));
    assert_eq!(args.input, Some("x".to_string()));
    assert_eq!(args.db_path, None);
}

#[test]
fn help_is_asked_for_before_anything_behind_it() {
    assert!(matches!(parse_args(&words("--help")), Invocation::Help));
    assert!(matches!(parse_args(&words("in -h --export")), Invocation::Help));
    assert!(matches!(parse_args(&words("in --export")), Invocation::Missing(Flag::Export)));
}

#[test]
fn options_without_a_value_are_refused() {
    let cases = [
        ("--export", "Error: --export requires an output file path"),
        ("--db", "Error: --db requires a file path"),
        ("--user", "Error: --user requires a username"),
        ("--password", "Error: --password requires a password"),
        ("--force-export-path", "Error: --force-export-path requires a file path"),
    ];
    for (option, message) in cases {
        match parse_args(&words(&format!("in.yaml {}", option))) {
            Invocation::Missing(flag) => assert_eq!(missing_message(flag), message),
            _ => panic!("accepted: {}", option),
        }
    }
}

#[test]
fn the_help_text_names_every_option() {
    let lines = usage();
    assert_eq!(lines.len(), 17);
    assert_eq!(lines[0], "Usage: openapi-edit [INPUT] [OPTIONS]");
    assert_eq!(lines[1], "");
    for option in ["--export", "--force-export-path", "--db", "--user", "--password"] {
        assert!(lines.iter().any(|l| l.starts_with(&format!("  {} ", option))));
    }
}

#[test]
fn the_input_is_a_url_by_its_scheme() {
    assert!(matches!(run("").source(), InputSource::Nowhere));
    assert!(matches!(run("a.yaml").source(), InputSource::File(p) if p == "a.yaml"));
    assert!(matches!(run("ftp://h/a").source(), InputSource::File(_)));
    assert!(matches!(run("HTTP://h/a").source(), InputSource::File(_)));
    assert!(matches!(run("http://h/a").source(), InputSource::Url(u, None) if u == "http://h/a"));
    assert!(matches!(run("https://h/a").source(), InputSource::Url(_, None)));
}

#[test]
fn a_user_and_a_password_count_together() {
    assert!(matches!(run("http://h --user u").source(), InputSource::Url(_, None)));
    assert!(matches!(run("http://h --password p").source(), InputSource::Url(_, None)));
    match run("http://h --user u --password p").source() {
        InputSource::Url(_, Some((user, password))) => {
            assert_eq!(user, "u");
            assert_eq!(password, "p");
        }
        _ => panic!("no credentials"),
    }
    assert!(matches!(run("f --user u --password p").source(), InputSource::File(_)));
}

#[test]
fn an_export_needs_an_input() {
    assert_eq!(
        run("--export o").refusal(),
        Some("Error: --export requires an input file or URL")
    );
    assert_eq!(run("--export o in").refusal(), None);
    assert_eq!(run("").refusal(), None);
}

#[test]
fn without_a_saved_selection_no_export_is_made() {
    let db = SelectionDb::default();
    assert!(matches!(prepare_cli_export("key", &doc(), "out.yaml", &db), Ok(None)));
    // A document that cannot be used is not even looked at.
    assert!(matches!(prepare_cli_export("key", &Json::Null, "out", &db), Ok(None)));
}

#[test]
fn a_selection_of_everything_is_exported_too() {
    let mut app = App::new(SelectionDb::default(), None);
    app.load_from_string(SOURCE, "s.yaml", "key", SpecFormat::Yaml);
    let text = app.prepare_export().unwrap().unwrap();
    assert!(app.finish_export(Ok(()), "out.yaml"));
    let mut db = app.selection_db;
    assert!(!db.has_selection("key"));
    let export =
        prepare_cli_export("key", &doc(), "out.yaml", &db).unwrap_or(None).unwrap();
    assert_eq!(export.output, Ok(text.clone()));
    assert_eq!(report_lines(&export.report).len(), 0);
    let summary = finish_cli_export(&mut db, "key", &export.groups, Ok(()), "out.yaml");
    assert_eq!(summary, Ok("Exported 3/3 operations to out.yaml".to_string()));
    let again =
        prepare_cli_export("key", &doc(), "out.yaml", &db).unwrap_or(None).unwrap();
    assert_eq!(again.output, Ok(text));
    let error = prepare_cli_export("key", &Json::Null, "out", &db).err();
    assert_eq!(error, Some("No 'paths' object found in spec.".to_string()));
}

#[test]
fn drift_from_a_selection_of_everything_is_reported() {
    let mut db = SelectionDb::default();
    db.all_paths.insert("k".to_string(), vec!["get /a".to_string(), "get /gone".to_string()]);
    let tree = parse_spec_string("paths: {/a: {get: {}, put: {}}}", SpecFormat::Yaml).unwrap();
    let export = prepare_cli_export("k", &tree, "out.json", &db).unwrap_or(None).unwrap();
    assert_eq!(export.report.removed.len(), 0);
    assert_eq!(export.report.removed_selected, vec!["get /gone"]);
    assert_eq!(export.report.new_ops, vec!["put /a"]);
    assert!(export.groups.iter().all(|g| g.all_selected()));
    let value: serde_json::Value = serde_json::from_str(&export.output.unwrap()).unwrap();
    assert_eq!(value.to_string(), r#"{"paths":{"/a":{"get":{},"put":{}}}}"#);
}

#[test]
fn an_export_without_window_repeats_the_one_with_it() {
    let mut app = App::new(SelectionDb::default(), None);
    app.load_from_string(SOURCE, "s.yaml", "key", SpecFormat::Yaml);
    app.groups[0].endpoints[0].operations[0].selected = false;
    let text = app.prepare_export().unwrap().unwrap();
    assert!(app.finish_export(Ok(()), "out.yaml"));
    let mut db = app.selection_db;
    let export = prepare_cli_export("key", &doc(), "out.yaml", &db).unwrap_or(None).unwrap();
    assert_eq!(export.output, Ok(text.clone()));
    assert_eq!(report_lines(&export.report).len(), 0);
    assert_eq!(text, "paths:\n  /a:\n    post: {}\n  /b:\n    get: {}\ncomponents: {}\n");

    let summary = finish_cli_export(&mut db, "key", &export.groups, Ok(()), "out.yaml");
    assert_eq!(summary, Ok("Exported 2/3 operations to out.yaml".to_string()));
    let again = prepare_cli_export("key", &doc(), "out.yaml", &db).unwrap_or(None).unwrap();
    assert_eq!(again.output, Ok(text));
}

#[test]
fn the_path_of_the_export_tells_its_format() {
    let mut db = SelectionDb::default();
    db.deselected.insert("key".to_string(), vec!["get /a".to_string()]);
    let export = prepare_cli_export("key", &doc(), "dir/out.json", &db).unwrap_or(None).unwrap();
    assert!(export.output.unwrap().starts_with("{\n  \"paths\": {\n    \"/a\": {\n      \"post\""));
    let error = prepare_cli_export("key", &Json::Null, "out", &db).err();
    assert_eq!(error, Some("No 'paths' object found in spec.".to_string()));
}

#[test]
fn an_export_can_be_made_in_either_format() {
    let mut db = SelectionDb::default();
    db.deselected.insert("key".to_string(), vec!["get /a".to_string()]);
    let yaml = export_in_format("key", &doc(), SpecFormat::Yaml, &db).unwrap_or(None).unwrap();
    assert!(yaml.output.unwrap().starts_with("paths:\n  /a:\n    post: {}\n"));
    let json = export_in_format("key", &doc(), SpecFormat::Json, &db).unwrap_or(None).unwrap();
    assert!(json.output.unwrap().starts_with("{\n  \"paths\""));
}

#[test]
fn an_export_that_leaves_nothing_deselected_can_be_repeated() {
    let mut db = SelectionDb::default();
    db.deselected.insert("key".to_string(), vec!["get /gone".to_string()]);
    let export =
        prepare_cli_export("key", &doc(), "out.yaml", &db).unwrap_or(None).unwrap();
    assert_eq!(export.report.removed, vec!["get /gone"]);
    let summary = finish_cli_export(&mut db, "key", &export.groups, Ok(()), "o");
    assert_eq!(summary, Ok("Exported 3/3 operations to o".to_string()));
    assert!(!db.has_selection("key"));
    let again =
        prepare_cli_export("key", &doc(), "out.yaml", &db).unwrap_or(None).unwrap();
    assert_eq!(again.output, export.output);
    assert_eq!(report_lines(&again.report).len(), 0);
}

#[test]
fn an_export_that_cannot_be_written_changes_nothing() {
    let mut db = SelectionDb::default();
    db.deselected.insert("key".to_string(), vec!["get /gone".to_string()]);
    let export = prepare_cli_export("key", &doc(), "out.yaml", &db).unwrap_or(None).unwrap();
    let outcome = Err("denied".to_string());
    let result = finish_cli_export(&mut db, "key", &export.groups, outcome, "o");
    assert_eq!(result, Err("Write error: denied".to_string()));
    assert!(db.has_selection("key"));
    assert!(!db.all_paths.contains_key("key"));
}
