//! Looking up and replacing strings.

use versioner::scan::{json_string, replace, toml_string};

#[test]
fn replaces_spans_in_any_order() {
    let source = "a=1 b=1 c=1";

    assert_eq!(replace(source, &[10..11, 2..3], "22"), "a=22 b=1 c=22");
    assert_eq!(replace(source, &[], "x"), source);
}

#[test]
fn looks_up_strings_by_path() {
    let document: serde_json::Value =
        serde_json::from_str(r#"{"packages": {"": {"version": "1.0.0"}}, "n": 1}"#).unwrap();

    assert_eq!(
        json_string(&document, &["packages", "", "version"]),
        Some("1.0.0")
    );
    assert_eq!(json_string(&document, &["n"]), None);

    let document: ::toml::Table = "[tool.poetry]\nversion = \"2.0.0\"\n".parse().unwrap();

    assert_eq!(
        toml_string(&document, &["tool", "poetry", "version"]),
        Some("2.0.0")
    );
    assert_eq!(toml_string(&document, &["tool", "version"]), None);
}

#[test]
fn replacing_keeps_everything_between_the_spans() {
    let source = "é=1, b=22, c=333;";
    let spans = [3..4, 8..10, 14..17];
    let result = replace(source, &spans, "ß");

    assert_eq!(result, "é=ß, b=ß, c=ß;");
    assert_eq!(result.len(), source.len() - 6 + 3 * "ß".len());

    for order in [[0, 2, 1], [1, 0, 2], [1, 2, 0], [2, 0, 1], [2, 1, 0]] {
        let shuffled = order.map(|at: usize| spans[at].clone());

        assert_eq!(replace(source, &shuffled, "ß"), result);
    }
}

#[test]
fn replacing_by_the_same_text_changes_nothing() {
    assert_eq!(replace("1.0-1.0", &[4..7, 0..3], "1.0"), "1.0-1.0");
}
