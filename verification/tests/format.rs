use openapi_edit::format::{
    detect_format, detect_format_from_url, format_by_extension, SpecFormat,
};

#[test]
fn formats_have_a_label_and_an_extension() {
    assert_eq!(SpecFormat::Yaml.label(), "YAML");
    assert_eq!(SpecFormat::Json.label(), "JSON");
    assert_eq!(SpecFormat::Yaml.extension(), "yaml");
    assert_eq!(SpecFormat::Json.extension(), "json");
}

#[test]
fn the_extension_tells_the_format() {
    assert!(format_by_extension(Some("json")) == SpecFormat::Json);
    assert!(format_by_extension(Some("yaml")) == SpecFormat::Yaml);
    assert!(format_by_extension(Some("yml")) == SpecFormat::Yaml);
    assert!(format_by_extension(Some("JSON")) == SpecFormat::Yaml);
    assert!(format_by_extension(Some("")) == SpecFormat::Yaml);
    assert!(format_by_extension(None) == SpecFormat::Yaml);
}

#[test]
fn the_end_of_a_url_tells_the_format() {
    assert!(detect_format_from_url("https://example.org/openapi.json") == SpecFormat::Json);
    assert!(detect_format_from_url("https://example.org/openapi.json?v=1") == SpecFormat::Json);
    assert!(detect_format_from_url("https://example.org/openapi.json#top?x") == SpecFormat::Json);
    assert!(detect_format_from_url("https://example.org/openapi?file=a.json") == SpecFormat::Yaml);
    assert!(detect_format_from_url("https://example.org/openapi#/a.json") == SpecFormat::Yaml);
    assert!(detect_format_from_url("https://example.org/openapi.yaml") == SpecFormat::Yaml);
    assert!(detect_format_from_url("https://example.org/json") == SpecFormat::Yaml);
    assert!(detect_format_from_url(".json") == SpecFormat::Json);
    assert!(detect_format_from_url("json") == SpecFormat::Yaml);
}

#[test]
fn the_path_of_a_file_tells_the_format() {
    let json = [
        "a.json", "dir/a.json", "/home/u/a.b.json", "../x.json", "..json", "a.json/", "a.json//./",
        "a:b.json", "C:/dir/a.json", "C:\\dir\\a.json", "C:/a.json/",
    ];
    for path in json {
        assert!(detect_format(path) == SpecFormat::Json, "{}", path);
    }
    let yaml = [
        "a.yaml", "a.yml", "a.JSON", "a", "", "json", ".json", "dir/.json", "C:/.json", "a.json/b",
        "a.json/..", "a.json/.x", "a.json.bak", "a.json.", "a.", ".", "..", "/",
        "C:/a.", "C:\\dir\\a.json.", "C:\\dir\\a.yaml",
    ];
    for path in yaml {
        assert!(detect_format(path) == SpecFormat::Yaml, "{}", path);
    }
}

#[test]
fn the_extension_of_a_format_tells_it() {
    for format in [SpecFormat::Yaml, SpecFormat::Json] {
        assert!(detect_format(&format!("filtered.{}", format.extension())) == format);
    }
}
