use openapi_edit::codec::{
    label_parse_result, label_write_result, load_in_format, load_spec, parse_spec_string,
    serialize_spec,
};
use openapi_edit::format::SpecFormat;
use openapi_edit::json::{Json, Member};
use openapi_edit::limits::{is_writable_as_yaml, DOCUMENT_LIMIT};

fn member(key: &str, value: Json) -> Member {
    Member { key: key.to_string(), value }
}

fn text(s: &str) -> Json {
    Json::Text(s.to_string())
}

#[test]
fn json_text_is_read_into_a_tree() {
    let source = r#"{"z": null, "a": [true, "x", 1.50], "m": {"k": -3}}"#;
    let tree = parse_spec_string(source, SpecFormat::Json).unwrap();
    let members = tree.as_object().unwrap();
    let keys: Vec<&str> = members.iter().map(|m| m.key.as_str()).collect();
    assert_eq!(keys, vec!["z", "a", "m"]);
    assert!(matches!(members[0].value, Json::Null));
    let items = tree.get("a").unwrap().as_array().unwrap();
    assert_eq!(items[0].as_bool(), Some(true));
    assert_eq!(items[1].as_str(), Some("x"));
    assert!(matches!(&items[2], Json::Number(n) if n.to_string() == "1.5"));
    let inner = tree.get("m").unwrap();
    assert!(matches!(inner.get("k"), Some(Json::Number(n)) if n.to_string() == "-3"));
    assert!(inner.get("missing").is_none());
    assert!(items[1].get("k").is_none());
}

#[test]
fn a_key_that_comes_twice_is_held_once() {
    let tree = parse_spec_string(r#"{"a": 1, "b": 2, "a": 3}"#, SpecFormat::Json).unwrap();
    let members = tree.as_object().unwrap();
    assert_eq!(members.len(), 2);
    assert_eq!(members[0].key, "a");
    assert!(matches!(&members[0].value, Json::Number(n) if n.to_string() == "3"));
    assert_eq!(members[1].key, "b");
}

#[test]
fn yaml_text_is_read_into_a_tree() {
    let source = "openapi: 3.0.0\npaths:\n  /a:\n    get: {}\nlist:\n  - yes\n  - true\n  - 7\n";
    let tree = parse_spec_string(source, SpecFormat::Yaml).unwrap();
    assert_eq!(tree.get("openapi").unwrap().as_str(), Some("3.0.0"));
    let item = tree.get("paths").unwrap().get("/a").unwrap();
    assert_eq!(item.get("get").unwrap().as_object().unwrap().len(), 0);
    let list = tree.get("list").unwrap().as_array().unwrap();
    assert_eq!(list[0].as_str(), Some("yes"));
    assert_eq!(list[1].as_bool(), Some(true));
    assert!(matches!(&list[2], Json::Number(n) if n.to_string() == "7"));
}

#[test]
fn trees_are_written_as_json() {
    let tree = Json::Object(vec![
        member("z", Json::Array(vec![Json::Bool(false), Json::Null])),
        member("a", Json::Object(vec![member("k", text("v"))])),
    ]);
    let written = serialize_spec(&tree, SpecFormat::Json).unwrap();
    let expected = "{\n  \"z\": [\n    false,\n    null\n  ],\n  \"a\": {\n    \"k\": \"v\"\n  }\n}";
    assert_eq!(written, expected);
}

#[test]
fn trees_are_written_as_yaml() {
    let tree = Json::Object(vec![
        member("z", Json::Array(vec![Json::Bool(false), Json::Null])),
        member("a", Json::Object(vec![member("k", text("v"))])),
    ]);
    let written = serialize_spec(&tree, SpecFormat::Yaml).unwrap();
    assert_eq!(written, "z:\n- false\n- null\na:\n  k: v\n");
}

#[test]
fn numbers_are_carried_through() {
    let source = r#"[0,1,-1,18446744073709551615,-9223372036854775808,0.5,1e300]"#;
    let tree = parse_spec_string(source, SpecFormat::Json).unwrap();
    let value: serde_json::Value = serde_json::from_str(source).unwrap();
    let expected = serde_json::to_string_pretty(&value).unwrap();
    assert_eq!(serialize_spec(&tree, SpecFormat::Json).unwrap(), expected);
    let as_yaml = serde_yaml::to_string(&value).unwrap();
    assert_eq!(serialize_spec(&tree, SpecFormat::Yaml).unwrap(), as_yaml);
}

#[test]
fn a_written_tree_is_read_back() {
    let source = r#"{"b":{"$ref":"x"},"a":["1","true","null","~",""," : ","ä\n\t\"\\"]}"#;
    let tree = parse_spec_string(source, SpecFormat::Json).unwrap();
    let once = serialize_spec(&tree, SpecFormat::Json).unwrap();
    for format in [SpecFormat::Json, SpecFormat::Yaml] {
        let written = serialize_spec(&tree, format).unwrap();
        let read = parse_spec_string(&written, format).unwrap();
        assert_eq!(serialize_spec(&read, SpecFormat::Json).unwrap(), once);
    }
}

#[test]
fn reading_errors_are_labelled() {
    let json = parse_spec_string("{", SpecFormat::Json).err().unwrap();
    let own: Result<serde_json::Value, serde_json::Error> = serde_json::from_str("{");
    assert_eq!(json, format!("JSON parse error: {}", own.err().unwrap()));
    let yaml = parse_spec_string("a: [", SpecFormat::Yaml).err().unwrap();
    let other: Result<serde_json::Value, serde_yaml::Error> = serde_yaml::from_str("a: [");
    assert_eq!(yaml, format!("YAML parse error: {}", other.err().unwrap()));
    let json_as_yaml = parse_spec_string("{\"a\": 1}", SpecFormat::Yaml);
    assert!(json_as_yaml.is_ok());
}

#[test]
fn labels_go_with_the_format() {
    let parse = |format| label_parse_result(Err("e".to_string()), format).err().unwrap();
    assert_eq!(parse(SpecFormat::Json), "JSON parse error: e");
    assert_eq!(parse(SpecFormat::Yaml), "YAML parse error: e");
    let write = |format| label_write_result(Err("e".to_string()), format).err().unwrap();
    assert_eq!(write(SpecFormat::Json), "JSON write error: e");
    assert_eq!(write(SpecFormat::Yaml), "YAML write error: e");
    assert_eq!(label_write_result(Ok("t".to_string()), SpecFormat::Json), Ok("t".to_string()));
    assert!(matches!(label_parse_result(Ok(Json::Null), SpecFormat::Json), Ok(Json::Null)));
}

#[test]
fn files_are_read_in_their_format() {
    let (tree, format) = load_in_format(Ok("{\"a\": 1}".to_string()), SpecFormat::Json).ok().unwrap();
    assert!(format == SpecFormat::Json);
    assert!(tree.get("a").is_some());
    let (tree, format) = load_in_format(Ok("a: 1".to_string()), SpecFormat::Yaml).ok().unwrap();
    assert!(format == SpecFormat::Yaml);
    assert!(tree.get("a").is_some());
    assert!(load_in_format(Ok("a: 1".to_string()), SpecFormat::Json).is_err());
    let error = load_in_format(Err("no such file".to_string()), SpecFormat::Json).err().unwrap();
    assert_eq!(error, "Read error: no such file");
}

#[test]
fn the_path_of_a_file_tells_its_format() {
    let (_, format) = load_spec(Ok("{\"a\": 1}".to_string()), "dir/a.json").ok().unwrap();
    assert!(format == SpecFormat::Json);
    let (_, format) = load_spec(Ok("a: 1".to_string()), "a.json/b").ok().unwrap();
    assert!(format == SpecFormat::Yaml);
    assert!(load_spec(Ok("a: 1".to_string()), "a.json").is_err());
    let error = load_spec(Err("denied".to_string()), "a.json").err();
    assert_eq!(error, Some("Read error: denied".to_string()));
}

#[test]
fn a_tree_that_is_too_large_is_not_written_as_yaml() {
    let small = Json::Object(vec![member("a", Json::Array(vec![text("b"), Json::Null]))]);
    assert!(is_writable_as_yaml(&small));
    // A text of so many bytes is at the limit together with what stands around it.
    let length = (DOCUMENT_LIMIT - 64) / 4;
    let mut large = Json::Text("a".repeat(length));
    assert!(!is_writable_as_yaml(&large));
    let error = serialize_spec(&large, SpecFormat::Yaml).err();
    assert_eq!(error, Some("YAML write error: document is too large".to_string()));
    if let Json::Text(s) = &mut large {
        s.truncate(length - 1);
    }
    assert!(is_writable_as_yaml(&large));
    let nested = Json::Array(vec![large]);
    assert!(!is_writable_as_yaml(&nested));
}
