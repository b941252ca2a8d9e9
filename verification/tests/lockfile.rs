//! Lockfiles and workspace members.

use versioner::disk::{Disk, File, Listing, Lookup};
use versioner::edit::Edit;
use versioner::error::VersionerError;
use versioner::lockfile::{
    expand, inheriting_members, locked_packages, normalize_python, npm_edit, wildcard, Own,
};
use versioner::manifest::Manifest;

#[test]
fn matches_wildcards() {
    assert!(wildcard(b"*", b"core"));
    assert!(wildcard(b"crate-*", b"crate-cli"));
    assert!(wildcard(b"c?re", b"core"));
    assert!(!wildcard(b"crate-*", b"core"));
    assert!(!wildcard(b"c?re", b"cre"));
}

#[test]
fn normalizes_python_names() {
    assert_eq!(normalize_python("My_Package.Name"), "my-package-name");
    assert_eq!(normalize_python("a--_b"), "a-b");
}

fn parts(path: &str) -> Vec<String> {
    path.split('/').map(str::to_owned).collect()
}

#[test]
fn stars_take_any_number_of_bytes() {
    assert!(wildcard(b"a*b*c", b"a-b-b-c"));
    assert!(wildcard(b"**", b""));
    assert!(!wildcard(b"a*b", b"a-b-"));
    assert!(!wildcard(b"", b"a"));
    assert!(wildcard(b"?*", b"x"));
    assert!(!wildcard(b"?*", b""));
}

#[test]
fn normalizes_letters_of_any_alphabet() {
    assert_eq!(normalize_python("ÄÖ.İ"), "äö-i\u{307}");
    assert_eq!(normalize_python("-"), "-");
    assert_eq!(normalize_python(""), "");
    assert_eq!(normalize_python("a.-_b"), normalize_python("A_b"));
}

#[test]
fn expands_patterns_step_by_step() {
    let mut disk = Disk::new();
    let base = parts("repo");

    // Literal segments need no listing.
    assert!(matches!(
        expand(&base, "./crates//cli", &disk),
        Lookup::Done(found) if found == [parts("repo/crates/cli")]
    ));
    assert!(matches!(
        expand(&base, "", &disk),
        Lookup::Done(found) if found == [base.clone()]
    ));
    assert!(matches!(
        expand(&base, "crates/c*/x", &disk),
        Lookup::List(path) if path == parts("repo/crates")
    ));

    disk.listings.push(Listing {
        path: parts("repo/crates"),
        directories: ["core", "app", "cli"].map(str::to_owned).to_vec(),
    });

    assert!(matches!(
        expand(&base, "crates/c*/x", &disk),
        Lookup::Done(found) if found == [parts("repo/crates/cli/x"), parts("repo/crates/core/x")]
    ));
}

fn npm(source: &str, key: &str) -> Result<Option<Edit>, VersionerError> {
    npm_edit(&parts("lock"), "lock", source, key, "2.0.0")
}

#[test]
fn edits_only_the_versions_that_are_there() {
    let source = r#"{"version": "1.0.0", "packages": {"a": {"version": "0.1.0"}}}"#;

    let edit = npm(source, "").unwrap().unwrap();
    assert_eq!(edit.from, "1.0.0");
    assert_eq!(edit.original, source);
    assert_eq!(edit.updated, source.replace("1.0.0", "2.0.0"));

    let edit = npm(source, "a").unwrap().unwrap();
    assert_eq!(edit.from, "0.1.0");
    assert_eq!(edit.updated, source.replace("0.1.0", "2.0.0"));

    assert!(npm(source, "b").unwrap().is_none());
}

#[test]
fn refuses_npm_locks_that_it_cannot_pin_down() {
    assert!(matches!(
        npm("{", "a"),
        Err(VersionerError::InvalidManifest(label, _)) if label == "lock"
    ));
    // The parser reads the last of two equal keys, the scanner the first.
    assert!(matches!(
        npm(r#"{"version": "1.0.0", "version": "1.1.0"}"#, ""),
        Err(VersionerError::Unlocatable(_))
    ));
    assert!(matches!(
        npm(r#"{"version": "1.0.0", "version": "1.0.0"}"#, ""),
        Err(VersionerError::Unlocatable(_))
    ));
}

fn crates(source: &str, names: &[&str]) -> Result<Option<Edit>, VersionerError> {
    let own = Own::Crates(names.iter().map(|name| (*name).to_owned()).collect());

    locked_packages(&parts("Cargo.lock"), "Cargo.lock", source, "2.0.0", &own)
}

#[test]
fn edits_every_own_package() {
    let source = "[[package]]\nname = \"b\"\nversion = \"1.0.0\"\n\n[[package]]\nname = \"a\"\nversion = '0.9.0' # é\n\n[[package]]\nname = \"a\"\nversion = \"0.9.0\"\nsource = \"registry\"\n";

    let edit = crates(source, &["a", "b"]).unwrap().unwrap();

    assert_eq!(edit.from, "1.0.0");
    assert_eq!(
        edit.updated,
        source
            .replacen("1.0.0", "2.0.0", 1)
            .replacen("0.9.0", "2.0.0", 1)
    );
    assert!(crates(source, &["c"]).unwrap().is_none());
}

#[test]
fn refuses_locks_that_a_parser_reads_otherwise() {
    // The scanner leaves escapes as they are.
    assert!(matches!(
        crates(
            "[[package]]\nname = \"a\"\nversion = \"1.0\\u002e0\"\n",
            &["a"]
        ),
        Err(VersionerError::Unlocatable(label)) if label == "Cargo.lock"
    ));
    // Every package needs a name.
    assert!(matches!(
        crates(
            "[[package]]\nname = \"a\"\nversion = \"1.0.0\"\n[[package]]\nversion = \"1.0.0\"\n",
            &["a"]
        ),
        Err(VersionerError::Unlocatable(_))
    ));
    assert!(matches!(
        crates("[[package]]\nname = \"a\"\nversion = \"1.0.0\"\nbroken", &["a"]),
        Err(VersionerError::Unlocatable(_))
    ));
}

#[test]
fn knows_the_own_packages() {
    let own = Own::Project("my-lib".to_owned());

    assert!(own.matches("My.Lib", Some("{ editable = \".\" }")));
    assert!(own.matches("my_lib", Some("{ virtual = \".\" }")));
    assert!(!own.matches("my_lib", Some("{ registry = \"x\" }")));
    assert!(!own.matches("my_lib", None));
    assert!(!own.matches("other", Some("editable")));

    let own = Own::Crates(vec!["a".to_owned()]);

    assert!(own.matches("a", None));
    assert!(!own.matches("A", None));
    assert!(!own.matches("a", Some("registry")));
}

#[test]
fn finds_inheriting_members_in_order_and_once() {
    let manifest = Manifest::read(
        &parts("repo/Cargo.toml"),
        "Cargo.toml",
        Ok("[package]\nname = \"z\"\nversion.workspace = true\n[workspace]\nmembers = [\"b\", \"a\", \"b\", 3]\n[workspace.package]\nversion = \"1.0.0\"\n".to_owned()),
    )
    .unwrap();
    let mut disk = Disk::new();
    let mut asked = Vec::new();

    let names = loop {
        match inheriting_members(&manifest, &disk) {
            Lookup::Done(names) => break names,
            Lookup::List(path) => panic!("lists {path:?}"),
            Lookup::Look(path) => {
                asked.push(path.join("/"));

                let contents = if path.len() == 2 {
                    Ok(manifest.source.clone())
                } else {
                    Ok(format!(
                        "[package]\nname = \"{}\"\nversion.workspace = true\n",
                        path[1]
                    ))
                };

                disk.files.push(File {
                    path,
                    is_file: true,
                    contents,
                });
            }
        }
    };

    assert_eq!(names, ["a", "b", "z"]);
    assert_eq!(
        asked,
        ["repo/Cargo.toml", "repo/b/Cargo.toml", "repo/a/Cargo.toml"]
    );
}

#[test]
fn python_names_compare_by_letters_and_places_of_separators() {
    for name in ["Zope.Interface", "zope-interface", "ZOPE__-.INTERFACE", "zope_interface"] {
        assert_eq!(normalize_python(name), "zope-interface");
    }

    for name in ["_A.B-", "x1--Y2", "AZaz@[`{", ""] {
        let normalized = normalize_python(name);

        assert_eq!(normalize_python(&normalized), normalized);
        assert!(!normalized.contains("--") && !normalized.contains(['_', '.']));
        assert!(!normalized.contains(|character: char| character.is_ascii_uppercase()));
    }
}
