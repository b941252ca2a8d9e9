//! Reading and rewriting manifests.

use versioner::document::parse_toml;
use versioner::error::VersionerError;
use versioner::manifest::{cargo, inherits, npm, python, Format, Key, Manifest};

fn parts(path: &str) -> Vec<String> {
    path.split('/').map(str::to_owned).collect()
}

fn read(file_name: &str, source: &str) -> Result<Manifest, VersionerError> {
    Manifest::read(&parts(file_name), file_name, Ok(source.to_owned()))
}

#[test]
fn reads_each_format() {
    let npm = read("package.json", r#"{"name": "web", "version": "1.0.0"}"#).unwrap();
    assert_eq!((npm.version(), npm.name.as_deref()), ("1.0.0", Some("web")));

    let cargo = read(
        "Cargo.toml",
        "[package]\nname = \"cli\"\nversion = \"2.0.0\"\n",
    )
    .unwrap();
    assert_eq!(
        (cargo.version(), cargo.name.as_deref()),
        ("2.0.0", Some("cli"))
    );
    assert!(!cargo.is_workspace());

    let python = read(
        "pyproject.toml",
        "[project]\nname = \"lib\"\nversion = \"3.0.0\"\n",
    )
    .unwrap();
    assert_eq!(
        (python.version(), python.name.as_deref()),
        ("3.0.0", Some("lib"))
    );

    let poetry = read(
        "pyproject.toml",
        "[tool.poetry]\nname = \"old\"\nversion = \"4.0.0\"\n",
    )
    .unwrap();
    assert_eq!(
        (poetry.version(), poetry.name.as_deref()),
        ("4.0.0", Some("old"))
    );
}

#[test]
fn reads_a_cargo_workspace_version() {
    let source =
        "[workspace]\nmembers = [\"crates/*\"]\n\n[workspace.package]\nversion = \"0.3.0\"\n";
    let manifest = read("Cargo.toml", source).unwrap();

    assert_eq!(manifest.version(), "0.3.0");
    assert!(manifest.is_workspace());

    let source = "[package]\nname = \"root\"\nversion.workspace = true\n\n[workspace.package]\nversion = \"0.3.0\"\n";
    assert!(read("Cargo.toml", source).unwrap().is_workspace());
}

#[test]
fn explains_versions_it_cannot_bump() {
    let inherited = read(
        "Cargo.toml",
        "[package]\nname = \"a\"\nversion.workspace = true\n",
    );
    assert!(matches!(
        inherited,
        Err(VersionerError::UnsupportedVersion(..))
    ));

    let dynamic = read(
        "pyproject.toml",
        "[project]\nname = \"a\"\ndynamic = [\"version\"]\n",
    );
    assert!(matches!(
        dynamic,
        Err(VersionerError::UnsupportedVersion(..))
    ));

    let missing = read("package.json", r#"{"name": "a"}"#);
    assert!(matches!(missing, Err(VersionerError::MissingVersion(_))));

    let number = read("package.json", r#"{"version": 1}"#);
    assert!(matches!(number, Err(VersionerError::InvalidVersion(_))));
}

#[test]
fn refuses_a_version_whose_text_differs_from_its_value() {
    let escaped = read("package.json", r#"{"version": "1.0.\u0030"}"#);

    assert!(
        matches!(escaped, Err(VersionerError::Unlocatable(_))),
        "{:?}",
        escaped.err()
    );
}

#[test]
fn rewrites_only_the_version() {
    let source = "[package]\nname = \"cli\"  # keep me\nversion = \"2.0.0\" # and me\n";
    let manifest = read("Cargo.toml", source).unwrap();

    assert_eq!(
        manifest.rewritten("2.1.0").unwrap(),
        "[package]\nname = \"cli\"  # keep me\nversion = \"2.1.0\" # and me\n"
    );
}

#[test]
fn rewriting_the_same_version_changes_nothing() {
    let source = "{ \"version\" : \"1.0.0\",\n\t\"name\": \"é\" }";
    let manifest = read("package.json", source).unwrap();

    assert_eq!(manifest.rewritten("1.0.0").unwrap(), source);
}

#[test]
fn refuses_a_rewrite_that_a_parser_reads_otherwise() {
    let manifest = read("package.json", r#"{"version": "1.0.0"}"#).unwrap();

    assert!(matches!(
        manifest.rewritten("1\", \"x\": \"2"),
        Err(VersionerError::Unlocatable(label)) if label == "package.json"
    ));

    // The parser takes the last of two equal keys, the scanner the first.
    let doubled = read("package.json", r#"{"version": "1.0.0", "version": "1.0.0"}"#).unwrap();

    assert!(matches!(
        doubled.rewritten("2.0.0"),
        Err(VersionerError::Unlocatable(_))
    ));
}

#[test]
fn knows_a_format_by_its_file_name() {
    for format in [Format::Npm, Format::Cargo, Format::Python] {
        assert_eq!(Format::of(&parts(format.file_name())), Some(format));
        assert_eq!(
            Format::of(&["/".to_owned(), "repo".to_owned(), format.file_name().to_owned()]),
            Some(format)
        );
    }

    assert_eq!(Format::of(&parts("setup.py")), None);
    assert_eq!(Format::of(&parts("package.json/src")), None);
    assert_eq!(Format::of(&[]), None);
}

#[test]
fn passes_on_what_is_wrong_with_a_file() {
    assert!(matches!(
        read("setup.py", ""),
        Err(VersionerError::UnsupportedManifest(label)) if label == "setup.py"
    ));

    let unreadable = Manifest::read(
        &parts("Cargo.toml"),
        "Cargo.toml",
        Err("permission denied".to_owned()),
    );
    assert!(matches!(
        unreadable,
        Err(VersionerError::InvalidManifest(label, reason))
            if label == "Cargo.toml" && reason == "permission denied"
    ));

    assert!(matches!(
        read("package.json", "{"),
        Err(VersionerError::InvalidManifest(_, reason))
            if reason == "EOF while parsing an object at line 1 column 1"
    ));

    let broken = read("Cargo.toml", "[package\n");
    let reason = parse_toml("[package\n").unwrap_err();
    assert!(!reason.is_empty());
    assert!(matches!(
        broken,
        Err(VersionerError::InvalidManifest(_, given)) if given == reason
    ));
}

#[test]
fn shows_a_version_that_is_no_string_as_it_prints() {
    assert!(matches!(
        read("package.json", r#"{"version": {"a": [1, null]}}"#),
        Err(VersionerError::InvalidVersion(text)) if text == r#"{"a":[1,null]}"#
    ));
    assert!(matches!(
        read("Cargo.toml", "[package]\nversion = 1979-05-27\n"),
        Err(VersionerError::InvalidVersion(text)) if text == "1979-05-27"
    ));
    assert!(matches!(
        read("pyproject.toml", "[project]\nversion = true\n"),
        Err(VersionerError::InvalidVersion(text)) if text == "true"
    ));
}

#[test]
fn readers_take_a_parsed_document() {
    let document: serde_json::Value =
        serde_json::from_str(r#"{"name": 3, "version": "1.0.0"}"#).unwrap();
    let found = npm(&document, "package.json").unwrap();
    assert_eq!(found.key, Key::Version);
    assert_eq!(found.version, "1.0.0");
    assert_eq!(found.name, None);

    let document = parse_toml(
        "[package]\nname = \"a\"\nversion = \"1.0.0\"\n[workspace.package]\nversion = \"2.0.0\"\n",
    )
    .unwrap();
    let found = cargo(&document, "Cargo.toml").unwrap();
    assert_eq!(found.key, Key::Package);
    assert_eq!(found.version, "1.0.0");

    let document = parse_toml(
        "[project]\ndynamic = [\"readme\"]\n[tool.poetry]\nname = \"b\"\nversion = \"3.0.0\"\n",
    )
    .unwrap();
    let found = python(&document, "pyproject.toml").unwrap();
    assert_eq!(found.key, Key::Poetry);
    assert_eq!(found.version, "3.0.0");
    assert_eq!(found.name.as_deref(), Some("b"));

    let document = parse_toml("[project]\ndynamic = [\"readme\", 1]\n").unwrap();
    assert!(matches!(
        python(&document, "pyproject.toml"),
        Err(VersionerError::MissingVersion(_))
    ));
}

#[test]
fn only_a_true_flag_inherits() {
    let table = parse_toml(
        "a.workspace = true\nb.workspace = false\nc.workspace = \"true\"\nd = \"workspace\"\n",
    )
    .unwrap();

    assert!(inherits(&table["a"]));
    assert!(!inherits(&table["b"]));
    assert!(!inherits(&table["c"]));
    assert!(!inherits(&table["d"]));
}

#[test]
fn a_rewritten_manifest_reads_back() {
    for (file_name, source) in [
        (
            "package.json",
            "{\"x\": [\"version\", {\"version\": 1}], \"name\": \"é\", \"version\" : \"1.0.0\"}",
        ),
        (
            "Cargo.toml",
            "a = \"\"\"\n[package]\n\"\"\"\n[package] # x\nname = 'é'\nversion = '1.0.0' # y\n[z]\n",
        ),
        (
            "Cargo.toml",
            "[workspace]\nmembers = [\"]\"]\n[workspace.package]\nversion = \"1.0.0\"\n",
        ),
        ("pyproject.toml", "[project]\nname = \"p\"\nversion=\"1.0.0\""),
        (
            "pyproject.toml",
            "[tool.poetry]\nname = \"p\"\nversion = \"1.0.0\"\r\n",
        ),
    ] {
        let manifest = read(file_name, source).unwrap();
        let updated = manifest.rewritten("12.0.0-rc.1+b").unwrap();
        let again = read(file_name, &updated).unwrap();

        assert_eq!(again.version(), "12.0.0-rc.1+b");
        assert_eq!(again.span.start, manifest.span.start);
        assert_eq!((again.key, again.name), (manifest.key, manifest.name));
    }
}

#[test]
fn a_version_reads_back_where_the_quotes_can_hold_it() {
    for (file_name, source, next) in [
        ("package.json", "{\"version\": \"1\"}", "it's"),
        ("package.json", "{\"version\": \"1\"}", ""),
        ("Cargo.toml", "[package]\nversion = \"1\"\n", "it's"),
        ("Cargo.toml", "[package]\nversion = '1'\n", "a\\b\"c"),
        ("pyproject.toml", "[project]\nversion = ''", "é"),
        ("pyproject.toml", "[project]\nversion = '1'", ""),
    ] {
        let manifest = read(file_name, source).unwrap();
        let updated = manifest.rewritten(next).unwrap();
        let again = read(file_name, &updated).unwrap();

        assert_eq!(again.version(), next);
        assert_eq!((again.path, again.label), (manifest.path, manifest.label));
    }

    for (file_name, source, next) in [
        ("package.json", "{\"version\": \"1\"}", "a\\b"),
        ("Cargo.toml", "[package]\nversion = \"1\"\n", "a\"b"),
        ("pyproject.toml", "[project]\nversion = '1'\n", "a\nb"),
    ] {
        assert!(matches!(
            read(file_name, source).unwrap().rewritten(next),
            Err(VersionerError::Unlocatable(label)) if label == file_name
        ));
    }
}
