//! Finding keys and packages in TOML text.

use versioner::scan::in_toml::{entries, packages, string_at};

fn at<'a>(source: &'a str, path: &[&str]) -> Option<&'a str> {
    string_at(source, path).map(|span| &source[span])
}

#[test]
fn finds_a_key_under_its_table() {
    let source =
        "[package]\nname = \"demo\"\nversion = \"1.2.3\"\n\n[dependencies]\nversion = \"no\"\n";

    assert_eq!(at(source, &["package", "version"]), Some("1.2.3"));
    assert_eq!(at(source, &["dependencies", "version"]), Some("no"));
}

#[test]
fn reads_nested_headers_and_dotted_keys() {
    let source = "[workspace.package]\nversion = \"2.0.0\"\n";
    assert_eq!(
        at(source, &["workspace", "package", "version"]),
        Some("2.0.0")
    );

    let source = "package.version = '3.0.0'\n";
    assert_eq!(at(source, &["package", "version"]), Some("3.0.0"));

    let source = "[ tool . \"poetry\" ]\nversion='4.0.0' # trailing comment\n";
    assert_eq!(at(source, &["tool", "poetry", "version"]), Some("4.0.0"));
}

#[test]
fn is_not_fooled_by_headers_inside_values() {
    let source = r#"
[project]
description = """
[tool.poetry]
version = "fake"
"""
matrix = [
  [1, 2],   # [tool.poetry]
  ["[x]", '''[y]'''],
]
version = "1.0.0"
"#;

    assert_eq!(at(source, &["project", "version"]), Some("1.0.0"));
    assert_eq!(at(source, &["tool", "poetry", "version"]), None);
}

#[test]
fn skips_escaped_quotes() {
    let source = "[package]\ndescription = \"say \\\"version = 9\\\"\"\nversion = \"1.0.0\"\n";

    assert_eq!(at(source, &["package", "version"]), Some("1.0.0"));
}

#[test]
fn only_reports_single_line_strings() {
    assert_eq!(at("version = 3\n", &["version"]), None);
    assert_eq!(at("version = \"\"\"1.0.0\"\"\"\n", &["version"]), None);
    assert_eq!(
        at(
            "[package]\nversion.workspace = true\n",
            &["package", "version"]
        ),
        None
    );
}

#[test]
fn keeps_array_blocks_out_of_plain_lookups() {
    let source = "[[package]]\nname = \"a\"\nversion = \"1.0.0\"\n";

    assert_eq!(at(source, &["package", "version"]), None);
}

#[test]
fn groups_lockfile_packages() {
    let source = r#"version = 4

[[package]]
name = "demo"
version = "0.1.0"
dependencies = [
 "serde",
]

[[package]]
name = "serde"
version = "1.0.0"
source = "registry+https://github.com/rust-lang/crates.io-index"
"#;

    let found = packages(source);
    let versions: Vec<_> = found
        .iter()
        .map(|package| {
            (
                package.name.as_str(),
                &source[package.version.clone().unwrap()],
            )
        })
        .collect();

    assert_eq!(versions, [("demo", "0.1.0"), ("serde", "1.0.0")]);
    assert!(found[0].source.is_none());
    assert!(found[1].source.as_deref().unwrap().contains("registry"));
}

#[test]
fn keeps_inline_table_sources_whole() {
    let source =
        "[[package]]\nname = \"demo\"\nversion = \"0.1.0\"\nsource = { editable = \".\" }\n";

    assert_eq!(
        packages(source)[0].source.as_deref(),
        Some("{ editable = \".\" }")
    );
}

#[test]
fn lists_the_entries_that_are_written() {
    let source = "# [no.header]\r\n\r\n  a = 1 # x = 2\n[t] # ]\nlist = [\n  \"]\", # [y]\n  { z = '''\n[w]\nv = 1\n''' },\n]\n[[p]]\n\"k = 1\" = 'raw'\nlong = \"\"\"a\"\"\"\"\nlast = \"\"";
    let found: Vec<(String, Option<usize>, &str, Option<&str>)> = entries(source)
        .into_iter()
        .map(|entry| {
            (
                entry.key,
                entry.block,
                &source[entry.value],
                entry.string.map(|span| &source[span]),
            )
        })
        .collect();

    assert_eq!(
        found,
        [
            ("a".to_owned(), None, "1 ", None),
            (
                "t.list".to_owned(),
                None,
                "[\n  \"]\", # [y]\n  { z = '''\n[w]\nv = 1\n''' },\n]",
                None
            ),
            ("p.k = 1".to_owned(), Some(1), "'raw'", Some("raw")),
            ("p.long".to_owned(), Some(1), "\"\"\"a\"\"\"\"", None),
            ("p.last".to_owned(), Some(1), "\"\"", Some("")),
        ]
    );
}
