//! Finding a project, its tags and its edits.

use versioner::disk::{label, nearest, parent, Disk, File, Listing, Lookup};
use versioner::error::VersionerError;
use versioner::project::{choose_manifest, find, slugify, tag_scope, Explicit, Project};
use versioner::version::Version;

/// A path below `/repo`.
fn at(path: &str) -> Vec<String> {
    let mut parts = vec!["/".to_owned(), "repo".to_owned()];

    parts.extend(
        path.split('/')
            .filter(|part| !part.is_empty() && *part != ".")
            .map(str::to_owned),
    );
    parts
}

/// Files below `/repo`, by path.
struct Tree {
    files: Vec<(Vec<String>, String)>,
}

impl Tree {
    fn new(files: &[(&str, &str)]) -> Self {
        Self {
            files: files
                .iter()
                .map(|(path, contents)| (at(path), (*contents).to_owned()))
                .collect(),
        }
    }

    fn look(&self, path: Vec<String>) -> File {
        match self.files.iter().find(|(held, _)| *held == path) {
            Some((_, contents)) => File {
                path,
                is_file: true,
                contents: Ok(contents.clone()),
            },
            None => File {
                path,
                is_file: false,
                contents: Err("no such file".to_owned()),
            },
        }
    }

    fn list(&self, path: Vec<String>) -> Listing {
        let mut directories: Vec<String> = self
            .files
            .iter()
            .filter(|(held, _)| held.len() > path.len() + 1 && held.starts_with(&path))
            .map(|(held, _)| held[path.len()].clone())
            .collect();

        directories.dedup();
        Listing { path, directories }
    }

    /// Answers a search until it is over.
    fn settle<T>(&self, ask: impl Fn(&Disk) -> Lookup<T>) -> T {
        let mut disk = Disk::new();

        loop {
            match ask(&disk) {
                Lookup::Done(result) => return result,
                Lookup::Look(path) => disk.files.push(self.look(path)),
                Lookup::List(path) => disk.listings.push(self.list(path)),
            }
        }
    }

    fn found(&self, from: &str) -> Result<String, VersionerError> {
        self.settle(|disk| find(&at(from), &at(""), disk))
            .map(|manifest| manifest.label)
    }

    fn project(&self, from: &str) -> Result<Project, VersionerError> {
        self.settle(|disk| Project::locate(&at(""), &None, &Some(at(from)), disk))
    }
}

const NPM: &str = r#"{"version": "1.0.0"}"#;
const CARGO: &str = "[package]\nname = \"core\"\nversion = \"1.0.0\"\n";

#[test]
fn finds_the_manifest_in_the_current_directory() {
    let tree = Tree::new(&[("package.json", NPM), ("backend/package.json", NPM)]);

    assert_eq!(tree.found(".").unwrap(), "package.json");
    assert_eq!(tree.found("backend").unwrap(), "backend/package.json");
}

#[test]
fn walks_up_to_the_nearest_manifest() {
    let tree = Tree::new(&[("package.json", NPM), ("backend/Cargo.toml", CARGO)]);

    assert_eq!(tree.found("backend/src").unwrap(), "backend/Cargo.toml");
}

#[test]
fn walks_past_directories_without_a_manifest() {
    let tree = Tree::new(&[("pyproject.toml", "[project]\nversion = \"1.0.0\"\n")]);

    assert_eq!(tree.found("backend/src").unwrap(), "pyproject.toml");
}

#[test]
fn never_climbs_past_the_repository_root() {
    let tree = Tree::new(&[]);

    assert!(matches!(
        tree.found("backend/src"),
        Err(VersionerError::ManifestNotFound)
    ));
}

#[test]
fn prefers_the_one_manifest_with_a_version() {
    let tree = Tree::new(&[
        ("package.json", r#"{"private": true}"#),
        ("Cargo.toml", CARGO),
    ]);

    assert_eq!(tree.found(".").unwrap(), "Cargo.toml");
}

#[test]
fn refuses_to_guess_between_versioned_manifests() {
    let tree = Tree::new(&[("package.json", NPM), ("Cargo.toml", CARGO)]);

    let Err(VersionerError::AmbiguousManifest(labels)) = tree.found(".") else {
        panic!("expected an ambiguity error");
    };

    assert_eq!(labels, ["package.json", "Cargo.toml"]);
}

#[test]
fn reports_the_most_useful_failure() {
    let inherited = "[package]\nname = \"a\"\nversion.workspace = true\n";
    let tree = Tree::new(&[("package.json", "{}"), ("Cargo.toml", inherited)]);

    assert!(matches!(
        tree.found("."),
        Err(VersionerError::UnsupportedVersion(..))
    ));
}

#[test]
fn reports_the_first_failure_where_only_versions_are_missing() {
    let tree = Tree::new(&[
        ("package.json", "{}"),
        ("Cargo.toml", ""),
        ("pyproject.toml", ""),
    ]);

    assert!(matches!(
        tree.found("."),
        Err(VersionerError::MissingVersion(label)) if label == "package.json"
    ));
}

#[test]
fn chooses_among_what_was_read() {
    assert!(matches!(
        choose_manifest(vec![
            Err(VersionerError::MissingVersion("a".to_owned())),
            Err(VersionerError::InvalidVersion("b".to_owned())),
            Err(VersionerError::InvalidVersion("c".to_owned())),
        ]),
        Err(VersionerError::InvalidVersion(text)) if text == "b"
    ));
    assert!(matches!(
        choose_manifest(vec![Err(VersionerError::MissingVersion("a".to_owned()))]),
        Err(VersionerError::MissingVersion(_))
    ));
}

#[test]
fn scopes_a_tag_by_the_unscoped_package_name() {
    let path = at("backend/package.json");

    assert_eq!(tag_scope(Some("@airisk/backend"), &path), "backend");
    assert_eq!(tag_scope(Some("backend"), &path), "backend");
}

#[test]
fn falls_back_to_the_directory_without_a_usable_name() {
    let path = at("backend/package.json");

    assert_eq!(tag_scope(None, &path), "backend");
    assert_eq!(tag_scope(Some("@scope/"), &path), "backend");
    assert_eq!(tag_scope(None, &at("%%%/package.json")), "package");
    assert_eq!(tag_scope(None, &["package.json".to_owned()]), "package");
}

#[test]
fn keeps_slugs_valid_as_git_refs() {
    assert_eq!(slugify("web app"), "web-app");
    assert_eq!(slugify("a:b^c~d?e*f[g"), "a-b-c-d-e-f-g");
    assert_eq!(slugify("--lead.."), "lead");
    assert_eq!(slugify("cache.lock"), "cache");
    assert_eq!(slugify("..."), "");
}

#[test]
fn tags_the_root_plainly_and_the_rest_by_scope() {
    let tree = Tree::new(&[
        ("package.json", NPM),
        ("backend/package.json", r#"{"name": "@x/api", "version": "1.0.0"}"#),
        ("web/package.json", NPM),
    ]);
    let version = Version::parse("1.2.3").unwrap();
    let tag = |from: &str| tree.project(from).unwrap().tag(&version);

    assert_eq!(tag(""), "v1.2.3");
    assert_eq!(tag("backend"), "api-v1.2.3");
    assert_eq!(tag("web"), "web-v1.2.3");
}

#[test]
fn tags_collide_only_across_a_pre_release_with_a_dash_v() {
    let tree = Tree::new(&[
        ("a/package.json", NPM),
        ("b/package.json", r#"{"name": "a-v1.0.0-b", "version": "1.0.0"}"#),
    ]);
    let tag = |from: &str, version: &str| {
        tree.project(from)
            .unwrap()
            .tag(&Version::parse(version).unwrap())
    };

    assert_eq!(tag("a", "1.0.0-b-v2.0.0"), tag("b", "2.0.0"));
    assert_ne!(tag("a", "2.0.0"), tag("b", "2.0.0"));
}

#[test]
fn takes_an_explicit_manifest_inside_the_repository_only() {
    let tree = Tree::new(&[("package.json", NPM), ("Cargo.toml", CARGO)]);
    let locate = |path: Vec<String>| {
        let explicit = Some(Explicit {
            path,
            shown: "given".to_owned(),
        });

        tree.settle(|disk| Project::locate(&at(""), &explicit, &None, disk))
    };

    assert_eq!(locate(at("Cargo.toml")).unwrap().manifest.label, "Cargo.toml");
    assert!(matches!(
        locate(vec!["/".to_owned(), "other".to_owned(), "package.json".to_owned()]),
        Err(VersionerError::OutsideRepository(shown)) if shown == "given"
    ));
    assert!(matches!(
        locate(at("setup.py")),
        Err(VersionerError::UnsupportedManifest(_))
    ));
    assert!(matches!(
        locate(at("x/package.json")),
        Err(VersionerError::InvalidManifest(label, reason))
            if label == "x/package.json" && reason == "no such file"
    ));
}

#[test]
fn finds_nothing_without_a_current_directory() {
    let located = Project::locate(&at(""), &None, &None, &Disk::new());

    assert!(matches!(
        located,
        Lookup::Done(Err(VersionerError::ManifestNotFound))
    ));
}

#[test]
fn searches_upwards_in_the_order_of_the_names() {
    let tree = Tree::new(&[("b.lock", ""), ("a/b.lock", ""), ("a/a.lock", "")]);
    let search = |from: &str| {
        tree.settle(|disk| nearest(&at(from), &at(""), &["a.lock", "b.lock"], disk))
    };

    assert_eq!(search("a/src"), Some(at("a/a.lock")));
    assert_eq!(search(""), Some(at("b.lock")));
    assert_eq!(
        tree.settle(|disk| nearest(&at("a"), &at("a"), &["c.lock"], disk)),
        None
    );
    // Never outside the root, nor from outside it.
    assert_eq!(
        tree.settle(|disk| nearest(&at(""), &at("a"), &["b.lock"], disk)),
        None
    );
}

#[test]
fn labels_are_relative_to_the_root() {
    assert_eq!(label(&at(""), &at("a/b.json")), "a/b.json");
    assert_eq!(label(&at("a"), &at("a")), "");
    assert_eq!(label(&at("x"), &at("a")), "//repo/a");
    assert_eq!(parent(&at("a")), &at("")[..]);
    assert_eq!(parent(&[]), &[] as &[String]);
}

#[test]
fn edits_the_manifest_and_its_lockfile() {
    let tree = Tree::new(&[
        ("Cargo.toml", CARGO),
        (
            "Cargo.lock",
            "[[package]]\nname = \"core\"\nversion = \"0.9.0\"\n",
        ),
    ]);
    let project = tree.project("").unwrap();
    let next = Version::parse("1.1.0").unwrap();
    let edits = tree.settle(|disk| project.edits(&next, disk)).unwrap();

    assert_eq!(edits.len(), 2);
    assert_eq!(edits[0].label, "Cargo.toml");
    assert_eq!(edits[0].path, at("Cargo.toml"));
    assert_eq!(edits[0].from, "1.0.0");
    assert_eq!(edits[0].original, CARGO);
    assert_eq!(edits[0].updated, CARGO.replace("1.0.0", "1.1.0"));
    assert_eq!(edits[1].label, "Cargo.lock");
    assert_eq!(edits[1].from, "0.9.0");
    assert_eq!(
        edits[1].updated,
        "[[package]]\nname = \"core\"\nversion = \"1.1.0\"\n"
    );
}

#[test]
fn slugs_have_nothing_that_git_rejects() {
    for (name, slug) in [
        ("a..b", "a.-b"),
        ("a...b", "a.--b"),
        ("a.lock.lock", "a"),
        ("a..lock", "a"),
        ("a.lock.", "a"),
        ("a-.lock", "a-"),
        ("a-.lock.", "a-"),
        ("a..lock.lock", "a"),
        (".lock", "lock"),
        ("-.-", ""),
        ("a.é..b", "a.-.-b"),
    ] {
        assert_eq!(slugify(name), slug, "{name}");
    }
}

#[test]
fn slugs_keep_what_git_accepts() {
    for name in ["web", "web-app", "a.b_c-1", "lock", "x.locks"] {
        assert_eq!(slugify(name), name);
    }
}

#[test]
fn scopes_always_fit_a_git_ref() {
    assert_eq!(tag_scope(Some("@x/a..b"), &at("dir/package.json")), "a.-b");
    assert_eq!(tag_scope(Some("..."), &at("d.lock/package.json")), "d");
    assert_eq!(tag_scope(Some("..."), &at("--/package.json")), "package");
}
