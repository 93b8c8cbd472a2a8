use openapi_edit::download::{authorization, download_spec, url_name, Response};
use openapi_edit::format::SpecFormat;

#[test]
fn credentials_are_sent_in_base64() {
    assert_eq!(authorization("Aladdin", "open sesame"), "Basic QWxhZGRpbjpvcGVuIHNlc2FtZQ==");
    assert_eq!(authorization("", ""), "Basic Og==");
    assert_eq!(authorization("a", ""), "Basic YTo=");
    assert_eq!(authorization("a", "b"), "Basic YTpi");
    assert_eq!(authorization("ü", "ÿ?>~"), "Basic w7w6w78/Pn4=");
    assert_eq!(authorization("~~>", "??"), "Basic fn4+Oj8/");
}

#[test]
fn a_url_is_named_by_its_end() {
    assert_eq!(url_name("https://h/dir/api.json"), "api.json");
    assert_eq!(url_name("https://h/dir/"), "");
    assert_eq!(url_name("https://h"), "h");
    assert_eq!(url_name("plain"), "plain");
    assert_eq!(url_name(""), "");
}

#[test]
fn a_response_gives_contents_name_and_format() {
    let (contents, name, format) =
        download_spec("https://h/api.json", Response::Body("{}".to_string())).ok().unwrap();
    assert_eq!(contents, "{}");
    assert_eq!(name, "api.json");
    assert!(format == SpecFormat::Json);
    let (_, name, format) =
        download_spec("https://h/api?x=1", Response::Body(String::new())).ok().unwrap();
    assert_eq!(name, "api?x=1");
    assert!(format == SpecFormat::Yaml);
}

#[test]
fn failed_requests_are_reported() {
    let failed = download_spec("u", Response::Failed("timeout".to_string())).err();
    assert_eq!(failed, Some("HTTP request failed: timeout".to_string()));
    let cut = download_spec("u", Response::Unreadable("cut off".to_string())).err();
    assert_eq!(cut, Some("Failed to read response body: cut off".to_string()));
}
