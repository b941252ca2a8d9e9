//! Finding strings in JSON text.

use versioner::scan::in_json::{skip_value, string_at};

fn version_of(source: &str) -> Option<&str> {
    string_at(source, &["version"]).map(|span| &source[span])
}

#[test]
fn finds_the_top_level_version() {
    assert_eq!(version_of(r#"{"version": "1.2.3"}"#), Some("1.2.3"));
    assert_eq!(
        version_of("{\n\t\"version\": \"1.2.3\"\n}\n"),
        Some("1.2.3")
    );
}

#[test]
fn ignores_a_nested_version() {
    let source = r#"{"engines": {"version": "nested"}, "version": "1.2.3"}"#;

    assert_eq!(version_of(source), Some("1.2.3"));
}

#[test]
fn ignores_version_used_as_a_value() {
    let source = r#"{"type": "version", "version": "1.2.3"}"#;

    assert_eq!(version_of(source), Some("1.2.3"));
}

#[test]
fn ignores_version_inside_an_array() {
    let source = r#"{"keywords": ["version", {"version": "x"}], "version": "1.2.3"}"#;

    assert_eq!(version_of(source), Some("1.2.3"));
}

#[test]
fn skips_numbers_booleans_and_null() {
    let source = r#"{"private": true, "n": -1.5e3, "x": null, "version": "1.2.3"}"#;

    assert_eq!(version_of(source), Some("1.2.3"));
}

#[test]
fn tolerates_whitespace_around_the_colon() {
    assert_eq!(version_of("{\"version\"\n  :\t\"1.2.3\"}"), Some("1.2.3"));
}

#[test]
fn skips_escaped_quotes_and_multibyte_text() {
    let source = r#"{"description": "héllo \"version\": ✓", "version": "1.2.3"}"#;

    assert_eq!(version_of(source), Some("1.2.3"));
}

#[test]
fn spans_only_the_value() {
    let source = r#"{"version": "1.2.3"}"#;
    let span = string_at(source, &["version"]).unwrap();

    assert_eq!(&source[span.start - 1..span.end + 1], r#""1.2.3""#);
}

#[test]
fn follows_a_path_of_keys() {
    let source = r#"{
        "version": "1.0.0",
        "packages": {
            "": {"name": "root", "version": "1.0.0"},
            "node_modules/backend": {"link": true},
            "backend": {"version": "2.0.0"}
        }
    }"#;

    let at = |path: &[&str]| string_at(source, path).map(|span| &source[span]);

    assert_eq!(at(&["packages", "", "version"]), Some("1.0.0"));
    assert_eq!(at(&["packages", "backend", "version"]), Some("2.0.0"));
    assert_eq!(at(&["packages", "node_modules/backend", "version"]), None);
    assert_eq!(at(&["packages", "missing", "version"]), None);
}

#[test]
fn finds_nothing_without_a_top_level_version() {
    assert_eq!(version_of(r#"{"name": "demo"}"#), None);
    assert_eq!(version_of(r#"{"a": {"version": "1.2.3"}}"#), None);
    assert_eq!(version_of(r#"[]"#), None);
}

#[test]
fn finds_nothing_when_the_version_is_not_a_string() {
    assert_eq!(version_of(r#"{"version": 3}"#), None);
    assert_eq!(version_of(r#"{"version": null}"#), None);
}

#[test]
fn skips_values_whole() {
    let source = r#"[{"a": "]}", "b": [[], {"c\"": "{"}]}, -1.5e3, null]  , 7"#;
    let bytes = source.as_bytes();

    assert_eq!(skip_value(bytes, 0), source.find("  ,"));
    assert_eq!(skip_value(b"\"a\\\"b\" ", 0), Some(6));
    assert_eq!(skip_value(b"-1.5e3,", 0), Some(6));
}

#[test]
fn strings_at_different_paths_do_not_overlap() {
    let source = r#"{"version": "1.0.0", "packages": {"": {"version": "1.0.0"}}}"#;
    let outer = string_at(source, &["version"]).unwrap();
    let inner = string_at(source, &["packages", "", "version"]).unwrap();

    assert_eq!(&source[outer.clone()], "1.0.0");
    assert_eq!(&source[inner.clone()], "1.0.0");
    assert!(outer.end < inner.start);
}
