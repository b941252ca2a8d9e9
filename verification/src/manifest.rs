//! Manifests: which files are one, where their version is written, and what
//! they look like with another version in its place.

use core::ops::Range;

use vstd::prelude::*;
use vstd::string::*;
use vstd::utf8::*;

use crate::ascii::{APOSTROPHE, BACKSLASH, LINE_FEED, QUOTE};
use crate::disk::contents_model;
use crate::document::{
    all_print, descend, entry, entry_text_at, json_document, json_get, json_node,
    lemma_field_prints, parse_json, parse_toml, print_json, print_toml, text_at, toml_document,
    toml_entries, toml_field, toml_get, toml_node, Node, Shape,
};
use crate::error::{outcome, Failure, VersionerError};
use crate::scan::{
    all_ends, ends, in_json, in_toml, json_string, lemma_in_order, replace, replaced, toml_string,
    lemma_replace_one, law_replace_same_text,
};
use crate::scan::json_grammar::is_raw;
use crate::scan::splice::{
    fits_in_quotes, is_plain, law_json_string_is_found_again, law_toml_string_is_found_again,
    lemma_found_behind, lemma_plain, spliced,
};
use crate::text::{
    copied_texts, joined, maybe_slice, maybe_text, same_text, slices, texts,
};
use crate::utf8::{cut, is_cut, lemma_ascii_boundaries, text_between};
use crate::version::{
    is_version_char, law_versions_are_plain_text, lemma_version, version_of, VersionModel,
};

verus! {

// ---------------------------------------------------------------------------
// Formats and keys

#[derive(Debug, Clone, Copy, PartialEq, Eq, Structural)]
pub enum Format {
    Npm,
    Cargo,
    Python,
}

/// The format of the manifests of this file name.
pub open spec fn format_named(name: Seq<char>) -> Option<Format> {
    if name == "package.json"@ {
        Some(Format::Npm)
    } else if name == "Cargo.toml"@ {
        Some(Format::Cargo)
    } else if name == "pyproject.toml"@ {
        Some(Format::Python)
    } else {
        None
    }
}

/// The format of the manifest at a path, going by its last component.
pub open spec fn format_of(path: Seq<Seq<char>>) -> Option<Format> {
    if path.len() == 0 {
        None
    } else {
        format_named(path.last())
    }
}

impl Format {
    /// The name of the manifests of this format.
    pub open spec fn named(self) -> Seq<char> {
        match self {
            Format::Npm => "package.json"@,
            Format::Cargo => "Cargo.toml"@,
            Format::Python => "pyproject.toml"@,
        }
    }

    /// The name of the manifests of this format.
    pub fn file_name(self) -> (name: &'static str)
        ensures
            name@ == self.named(),
    {
        match self {
            Format::Npm => "package.json",
            Format::Cargo => "Cargo.toml",
            Format::Python => "pyproject.toml",
        }
    }

    /// The format of the manifest at `path`, a list of components.
    pub fn of(path: &[String]) -> (format: Option<Self>)
        ensures
            format == format_of(texts(path@)),
    {
        if path.len() == 0 {
            return None;
        }
        let name = path[path.len() - 1].as_str();
        assert(texts(path@).last() == name@);
        if same_text(name, "package.json") {
            Some(Format::Npm)
        } else if same_text(name, "Cargo.toml") {
            Some(Format::Cargo)
        } else if same_text(name, "pyproject.toml") {
            Some(Format::Python)
        } else {
            None
        }
    }
}

/// A manifest of each format is known by its own name.
pub proof fn law_file_names_tell_formats_apart(format: Format)
    ensures
        format_named(format.named()) == Some(format),
{
    reveal_strlit("package.json");
    reveal_strlit("Cargo.toml");
    reveal_strlit("pyproject.toml");
    assert("package.json"@[1] == 'a');
    assert("Cargo.toml"@[0] == 'C');
    assert("pyproject.toml"@[0] == 'p');
    assert("pyproject.toml"@[1] == 'y');
}

/// Where a manifest's version lives.
#[derive(Debug, Clone, Copy, PartialEq, Eq, Structural)]
pub enum Key {
    /// `version`
    Version,
    /// `package.version`
    Package,
    /// `workspace.package.version`
    Workspace,
    /// `project.version`
    Project,
    /// `tool.poetry.version`
    Poetry,
}

impl Key {
    /// The keys on the way to the version.
    pub open spec fn keys(self) -> Seq<Seq<char>> {
        match self {
            Key::Version => seq!["version"@],
            Key::Package => seq!["package"@, "version"@],
            Key::Workspace => seq!["workspace"@, "package"@, "version"@],
            Key::Project => seq!["project"@, "version"@],
            Key::Poetry => seq!["tool"@, "poetry"@, "version"@],
        }
    }

    /// Whether a text at this key is the version, whatever else the document
    /// says.
    pub open spec fn decides_alone(self) -> bool {
        self == Key::Version || self == Key::Package || self == Key::Project
    }

    /// The keys on the way to the version.
    pub fn path(self) -> (path: Vec<&'static str>)
        ensures
            slices(path@) == self.keys(),
    {
        let path = match self {
            Key::Version => vec!["version"],
            Key::Package => vec!["package", "version"],
            Key::Workspace => vec!["workspace", "package", "version"],
            Key::Project => vec!["project", "version"],
            Key::Poetry => vec!["tool", "poetry", "version"],
        };
        assert(slices(path@) =~= self.keys());
        path
    }
}

// ---------------------------------------------------------------------------
// What the readers pull out of a parsed manifest

/// What a format-specific reader pulls out of a parsed manifest.
#[derive(Debug)]
pub struct Found {
    pub key: Key,
    pub version: String,
    pub name: Option<String>,
}

/// A [`Found`] with its texts as sequences of characters.
pub struct FoundModel {
    pub key: Key,
    pub version: Seq<char>,
    pub name: Option<Seq<char>>,
}

impl View for Found {
    type V = FoundModel;

    open spec fn view(&self) -> FoundModel {
        FoundModel { key: self.key, version: self.version@, name: maybe_text(self.name) }
    }
}

/// The value under one key of the table under another.
pub open spec fn nested(
    entries: Map<Seq<char>, Node>,
    table: Seq<char>,
    key: Seq<char>,
) -> Option<Node> {
    match entry(entries, table) {
        Some(inner) => inner.field(key),
        None => None,
    }
}

/// The name in a parsed `package.json`.
pub open spec fn npm_name(document: Node) -> Option<Seq<char>> {
    match document.field("name"@) {
        Some(name) => name.text(),
        None => None,
    }
}

/// What a parsed `package.json` says.
pub open spec fn npm_found(document: Node, label: Seq<char>) -> Result<FoundModel, Failure> {
    match document.field("version"@) {
        Some(value) => match value.text() {
            Some(version) => Ok(
                FoundModel { key: Key::Version, version, name: npm_name(document) },
            ),
            None => Err(Failure::InvalidVersion(value.printed->0)),
        },
        None => Err(Failure::MissingVersion(label)),
    }
}

/// `version.workspace = true`
pub open spec fn is_inherited(value: Node) -> bool {
    value.field("workspace"@) matches Some(flag) && flag.shape == Shape::Flag(true)
}

/// The name in a parsed `Cargo.toml`.
pub open spec fn cargo_name(entries: Map<Seq<char>, Node>) -> Option<Seq<char>> {
    entry_text_at(entries, seq!["package"@, "name"@])
}

/// What a parsed `Cargo.toml` says. The package's own version comes first,
/// then that of the workspace, which members and maybe the own package inherit.
pub open spec fn cargo_found(
    entries: Map<Seq<char>, Node>,
    label: Seq<char>,
) -> Result<FoundModel, Failure> {
    let name = cargo_name(entries);
    let own = nested(entries, "package"@, "version"@);
    let shared = entry_text_at(entries, Key::Workspace.keys());
    if own matches Some(value) && value.text() is Some {
        Ok(FoundModel { key: Key::Package, version: own->0.text()->0, name })
    } else if shared is Some {
        Ok(FoundModel { key: Key::Workspace, version: shared->0, name })
    } else {
        match own {
            Some(value) => if is_inherited(value) {
                Err(
                    Failure::UnsupportedVersion(
                        label,
                        "the version is inherited from the workspace, run versioner from the workspace root"@,
                    ),
                )
            } else {
                Err(Failure::InvalidVersion(value.printed->0))
            },
            None => Err(Failure::MissingVersion(label)),
        }
    }
}

/// Whether a `pyproject.toml` leaves the version to its build backend.
pub open spec fn is_dynamic(entries: Map<Seq<char>, Node>) -> bool {
    nested(entries, "project"@, "dynamic"@) matches Some(value) && value.items() matches Some(items)
        && exists|i: int|
        0 <= i < items.len() && (#[trigger] items[i]).text() == Some("version"@)
}

/// The name in a parsed `pyproject.toml`: that of `[project]`, or else that of
/// `[tool.poetry]`.
pub open spec fn python_name(entries: Map<Seq<char>, Node>) -> Option<Seq<char>> {
    let project = entry_text_at(entries, seq!["project"@, "name"@]);
    if project is Some {
        project
    } else {
        entry_text_at(entries, seq!["tool"@, "poetry"@, "name"@])
    }
}

/// What a parsed `pyproject.toml` says. `[project]` comes first, then
/// `[tool.poetry]`.
pub open spec fn python_found(
    entries: Map<Seq<char>, Node>,
    label: Seq<char>,
) -> Result<FoundModel, Failure> {
    let name = python_name(entries);
    let poetry = entry_text_at(entries, Key::Poetry.keys());
    match nested(entries, "project"@, "version"@) {
        Some(value) => match value.text() {
            Some(version) => Ok(FoundModel { key: Key::Project, version, name }),
            None => Err(Failure::InvalidVersion(value.printed->0)),
        },
        None => if poetry is Some {
            Ok(FoundModel { key: Key::Poetry, version: poetry->0, name })
        } else if is_dynamic(entries) {
            Err(
                Failure::UnsupportedVersion(
                    label,
                    "the version is dynamic, bump it wherever your build backend reads it from"@,
                ),
            )
        } else {
            Err(Failure::MissingVersion(label))
        },
    }
}

/// A string that may be missing, owned.
fn owned(text: Option<&str>) -> (copy: Option<String>)
    ensures
        maybe_text(copy) == maybe_slice(text),
{
    match text {
        Some(held) => Some(held.to_owned()),
        None => None,
    }
}

/// What a parsed `package.json` says.
pub fn npm(document: &serde_json::Value, label: &str) -> (found: Result<Found, VersionerError>)
    ensures
        outcome(found) == npm_found(json_node(*document), label@),
{
    let name = match json_get(document, "name") {
        Some(value) => owned(value.as_str()),
        None => None,
    };
    match json_get(document, "version") {
        Some(value) => match value.as_str() {
            Some(version) => Ok(Found { key: Key::Version, version: version.to_owned(), name }),
            None => Err(VersionerError::InvalidVersion(print_json(value))),
        },
        None => Err(VersionerError::MissingVersion(label.to_owned())),
    }
}

/// `version.workspace = true`
pub fn inherits(value: &toml::Value) -> (inherited: bool)
    ensures
        inherited == is_inherited(toml_node(*value)),
{
    match toml_field(value, "workspace") {
        Some(flag) => match flag.as_bool() {
            Some(set) => set,
            None => false,
        },
        None => false,
    }
}

/// The value under one key of the table under another.
pub fn nested_value<'a>(document: &'a toml::Table, table: &str, key: &str) -> (value: Option<
    &'a toml::Value,
>)
    ensures
        match value {
            Some(inner) => nested(toml_entries(*document), table@, key@) == Some(toml_node(*inner)),
            None => nested(toml_entries(*document), table@, key@) is None,
        },
{
    match toml_get(document, table) {
        Some(value) => toml_field(value, key),
        None => None,
    }
}

/// What is in a table of a document whose values all print can be printed.
proof fn lemma_nested_prints(entries: Map<Seq<char>, Node>, table: Seq<char>, key: Seq<char>)
    requires
        all_print(entries),
    ensures
        nested(entries, table, key) matches Some(value) ==> value.printed is Some,
{
    if let Some(inner) = entry(entries, table) {
        assert(entries[table].prints());
        lemma_field_prints(inner, key);
    }
}

/// What a parsed `Cargo.toml` says.
pub fn cargo(document: &toml::Table, label: &str) -> (found: Result<Found, VersionerError>)
    requires
        nested(toml_entries(*document), "package"@, "version"@) matches Some(value)
            ==> value.printed is Some,
    ensures
        outcome(found) == cargo_found(toml_entries(*document), label@),
{
    let name_path = vec!["package", "name"];
    assert(slices(name_path@) =~= seq!["package"@, "name"@]);
    let name = owned(toml_string(document, name_path.as_slice()));
    let own = nested_value(document, "package", "version");
    if let Some(value) = own {
        if let Some(version) = value.as_str() {
            return Ok(Found { key: Key::Package, version: version.to_owned(), name });
        }
    }
    // A workspace root: its members, and maybe its own package, inherit this.

    let shared_path = Key::Workspace.path();
    if let Some(version) = toml_string(document, shared_path.as_slice()) {
        return Ok(Found { key: Key::Workspace, version: version.to_owned(), name });
    }
    match own {
        Some(value) => if inherits(value) {
            Err(
                VersionerError::UnsupportedVersion(
                    label.to_owned(),
                    "the version is inherited from the workspace, run versioner from the workspace root".to_owned(),
                ),
            )
        } else {
            Err(VersionerError::InvalidVersion(print_toml(value)))
        },
        None => Err(VersionerError::MissingVersion(label.to_owned())),
    }
}

/// Whether a list holds the string `wanted`.
fn lists(items: &[toml::Value], wanted: &str) -> (listed: bool)
    ensures
        listed == exists|i: int|
            0 <= i < items@.len() && toml_node(#[trigger] items@[i]).text() == Some(wanted@),
{
    let mut at: usize = 0;
    while at < items.len()
        invariant
            at <= items@.len(),
            forall|i: int|
                0 <= i < at ==> toml_node(#[trigger] items@[i]).text() != Some(wanted@),
        decreases items@.len() - at,
    {
        if let Some(text) = items[at].as_str() {
            if same_text(text, wanted) {
                assert(toml_node(items@[at as int]).text() == Some(wanted@));
                return true;
            }
        }
        at = at + 1;
    }
    false
}

/// What a parsed `pyproject.toml` says.
pub fn python(document: &toml::Table, label: &str) -> (found: Result<Found, VersionerError>)
    requires
        nested(toml_entries(*document), "project"@, "version"@) matches Some(value)
            ==> value.printed is Some,
    ensures
        outcome(found) == python_found(toml_entries(*document), label@),
{
    let project_path = vec!["project", "name"];
    let poetry_path = vec!["tool", "poetry", "name"];
    assert(slices(project_path@) =~= seq!["project"@, "name"@]);
    assert(slices(poetry_path@) =~= seq!["tool"@, "poetry"@, "name"@]);
    let name = match toml_string(document, project_path.as_slice()) {
        Some(name) => Some(name.to_owned()),
        None => owned(toml_string(document, poetry_path.as_slice())),
    };
    if let Some(value) = nested_value(document, "project", "version") {
        return match value.as_str() {
            Some(version) => Ok(Found { key: Key::Project, version: version.to_owned(), name }),
            None => Err(VersionerError::InvalidVersion(print_toml(value))),
        };
    }
    let version_path = Key::Poetry.path();
    if let Some(version) = toml_string(document, version_path.as_slice()) {
        return Ok(Found { key: Key::Poetry, version: version.to_owned(), name });
    }
    let mut dynamic = false;
    if let Some(value) = nested_value(document, "project", "dynamic") {
        if let Some(fields) = value.as_array() {
            dynamic = lists(fields.as_slice(), "version");
            proof {
                let items = toml_node(*value).items()->0;
                if dynamic {
                    let i = choose|i: int|
                        0 <= i < fields@.len() && toml_node(#[trigger] fields@[i]).text() == Some(
                            "version"@,
                        );
                    assert(items[i].text() == Some("version"@));
                } else {
                    assert forall|i: int| 0 <= i < items.len() implies (
                    #[trigger] items[i]).text() != Some("version"@) by {
                        assert(items[i] == toml_node(fields@[i]));
                    }
                }
            }
        }
    }
    if dynamic {
        Err(
            VersionerError::UnsupportedVersion(
                label.to_owned(),
                "the version is dynamic, bump it wherever your build backend reads it from".to_owned(),
            ),
        )
    } else {
        Err(VersionerError::MissingVersion(label.to_owned()))
    }
}

// ---------------------------------------------------------------------------
// Manifests

/// A manifest file and where exactly its version sits inside it.
#[derive(Debug)]
pub struct Manifest {
    pub format: Format,
    /// The components of its path.
    pub path: Vec<String>,
    /// Repo relative path, for logs and git pathspecs.
    pub label: String,
    pub source: String,
    /// Where the version lives.
    pub key: Key,
    pub span: Range<usize>,
    pub name: Option<String>,
}

/// A [`Manifest`] with its texts as sequences of characters.
pub struct ManifestModel {
    pub format: Format,
    pub path: Seq<Seq<char>>,
    pub label: Seq<char>,
    pub source: Seq<char>,
    pub key: Key,
    pub span: (int, int),
    pub name: Option<Seq<char>>,
}

impl View for Manifest {
    type V = ManifestModel;

    open spec fn view(&self) -> ManifestModel {
        ManifestModel {
            format: self.format,
            path: texts(self.path@),
            label: self.label@,
            source: self.source@,
            key: self.key,
            span: ends(self.span),
            name: maybe_text(self.name),
        }
    }
}

impl ManifestModel {
    /// The version text can be cut out of the source.
    pub open spec fn wf(self) -> bool {
        is_cut(encode_utf8(self.source), self.span.0, self.span.1)
    }

    /// The version as the file spells it.
    pub open spec fn version(self) -> Seq<char> {
        text_between(encode_utf8(self.source), self.span.0, self.span.1)
    }

    /// The file with `next` in place of its version, if a parser then reads
    /// `next` at the version's key.
    pub open spec fn rewritten(self, next: Seq<char>) -> Result<Seq<char>, Failure> {
        let updated = replaced(encode_utf8(self.source), seq![self.span], next);
        if reads(self.format, updated, self.key, next) {
            Ok(updated)
        } else {
            Err(Failure::Unlocatable(self.label))
        }
    }
}

/// What a manifest of this format says.
pub open spec fn found_in(format: Format, source: Seq<char>, label: Seq<char>) -> Result<
    FoundModel,
    Failure,
> {
    match format {
        Format::Npm => match json_document(source) {
            Ok(document) => npm_found(document, label),
            Err(reason) => Err(Failure::InvalidManifest(label, reason)),
        },
        Format::Cargo => match toml_document(source) {
            Ok(entries) => cargo_found(entries, label),
            Err(reason) => Err(Failure::InvalidManifest(label, reason)),
        },
        Format::Python => match toml_document(source) {
            Ok(entries) => python_found(entries, label),
            Err(reason) => Err(Failure::InvalidManifest(label, reason)),
        },
    }
}

/// The name that a parser of this format reads.
pub open spec fn name_in(format: Format, source: Seq<char>) -> Option<Seq<char>> {
    match format {
        Format::Npm => match json_document(source) {
            Ok(document) => npm_name(document),
            Err(_) => None,
        },
        Format::Cargo => match toml_document(source) {
            Ok(entries) => cargo_name(entries),
            Err(_) => None,
        },
        Format::Python => match toml_document(source) {
            Ok(entries) => python_name(entries),
            Err(_) => None,
        },
    }
}

/// Whether the version of such a manifest is taken from this key.
pub open spec fn settles_on(
    format: Format,
    source: Seq<char>,
    label: Seq<char>,
    key: Key,
) -> bool {
    found_in(format, source, label) matches Ok(found) && found.key == key
}

/// Where the scanner of this format sees the string at a key.
pub open spec fn scanned(format: Format, source: Seq<char>, key: Key) -> Option<(int, int)> {
    match format {
        Format::Npm => in_json::contents_at(encode_utf8(source), key.keys()),
        _ => in_toml::plain_string(
            in_toml::entries_of(encode_utf8(source)),
            joined(key.keys(), "."@),
        ),
    }
}

/// Whether a parser of this format reads `value` at the key.
pub open spec fn reads(format: Format, source: Seq<char>, key: Key, value: Seq<char>) -> bool {
    match format {
        Format::Npm => json_document(source) matches Ok(document) && text_at(document, key.keys())
            == Some(value),
        _ => toml_document(source) matches Ok(entries) && entry_text_at(entries, key.keys())
            == Some(value),
    }
}

/// The manifest at a path, given the contents of the file or the reason why it
/// could not be read. The scanner must see exactly what the parser decoded.
pub open spec fn manifest_of(
    path: Seq<Seq<char>>,
    label: Seq<char>,
    contents: Result<Seq<char>, Seq<char>>,
) -> Result<ManifestModel, Failure> {
    match (format_of(path), contents) {
        (None, _) => Err(Failure::UnsupportedManifest(label)),
        (Some(_), Err(reason)) => Err(Failure::InvalidManifest(label, reason)),
        (Some(format), Ok(source)) => match found_in(format, source, label) {
            Err(failure) => Err(failure),
            Ok(found) => match scanned(format, source, found.key) {
                Some(span) => if text_between(encode_utf8(source), span.0, span.1)
                    == found.version {
                    Ok(
                        ManifestModel {
                            format,
                            path,
                            label,
                            source,
                            key: found.key,
                            span,
                            name: found.name,
                        },
                    )
                } else {
                    Err(Failure::Unlocatable(label))
                },
                None => Err(Failure::Unlocatable(label)),
            },
        },
    }
}

/// What a manifest of this format says.
fn find_version(format: Format, source: &str, label: &str) -> (found: Result<Found, VersionerError>)
    ensures
        outcome(found) == found_in(format, source@, label@),
{
    match format {
        Format::Npm => match parse_json(source) {
            Ok(document) => npm(&document, label),
            Err(reason) => Err(VersionerError::InvalidManifest(label.to_owned(), reason)),
        },
        Format::Cargo => match parse_toml(source) {
            Ok(document) => {
                proof {
                    lemma_nested_prints(toml_entries(document), "package"@, "version"@);
                }
                cargo(&document, label)
            },
            Err(reason) => Err(VersionerError::InvalidManifest(label.to_owned(), reason)),
        },
        Format::Python => match parse_toml(source) {
            Ok(document) => {
                proof {
                    lemma_nested_prints(toml_entries(document), "project"@, "version"@);
                }
                python(&document, label)
            },
            Err(reason) => Err(VersionerError::InvalidManifest(label.to_owned(), reason)),
        },
    }
}

impl Manifest {
    /// The manifest at `path`, given the contents of that file, or the reason
    /// why it could not be read.
    pub fn read(path: &[String], label: &str, contents: Result<String, String>) -> (manifest: Result<
        Self,
        VersionerError,
    >)
        ensures
            outcome(manifest) == manifest_of(texts(path@), label@, contents_model(contents)),
            manifest matches Ok(read) ==> read@.wf(),
    {
        let format = match Format::of(path) {
            Some(format) => format,
            None => {
                return Err(VersionerError::UnsupportedManifest(label.to_owned()));
            },
        };
        let source = match contents {
            Ok(source) => source,
            Err(reason) => {
                return Err(VersionerError::InvalidManifest(label.to_owned(), reason));
            },
        };
        let found = match find_version(format, source.as_str(), label) {
            Ok(found) => found,
            Err(error) => {
                return Err(error);
            },
        };
        let key = found.key.path();
        let span = match format {
            Format::Npm => in_json::string_at(source.as_str(), key.as_slice()),
            Format::Cargo => in_toml::string_at(source.as_str(), key.as_slice()),
            Format::Python => in_toml::string_at(source.as_str(), key.as_slice()),
        };
        // The raw text must be exactly what the parser decoded; an escaped or
        // oddly spelled value is refused rather than guessed at.

        match span {
            Some(span) => {
                if !same_text(
                    cut(source.as_str(), span.start, span.end),
                    found.version.as_str(),
                ) {
                    return Err(VersionerError::Unlocatable(label.to_owned()));
                }
                let path = copied_texts(path);
                Ok(
                    Manifest {
                        format,
                        path,
                        label: label.to_owned(),
                        source,
                        key: found.key,
                        span,
                        name: found.name,
                    },
                )
            },
            None => Err(VersionerError::Unlocatable(label.to_owned())),
        }
    }

    /// The version as the file spells it.
    pub fn version(&self) -> (version: &str)
        requires
            self@.wf(),
        ensures
            version@ == self@.version(),
    {
        cut(self.source.as_str(), self.span.start, self.span.end)
    }

    /// Cargo only: the version sits in `[workspace.package]` and every member
    /// with `version.workspace = true` inherits it.
    pub fn is_workspace(&self) -> (is: bool)
        ensures
            is == (self@.key == Key::Workspace),
    {
        self.key == Key::Workspace
    }

    /// The file with its version set to `next`, re-parsed to prove the new
    /// value landed exactly where the parser expects it.
    pub fn rewritten(&self, next: &str) -> (updated: Result<String, VersionerError>)
        requires
            self@.wf(),
        ensures
            outcome(updated) == self@.rewritten(next@),
    {
        let spans = vec![Range { start: self.span.start, end: self.span.end }];
        proof {
            assert(all_ends(spans@) =~= seq![self@.span]);
            lemma_in_order(all_ends(spans@));
        }
        let updated = replace(self.source.as_str(), spans.as_slice(), next);
        let key = self.key.path();
        let reads = match self.format {
            Format::Npm => match parse_json(updated.as_str()) {
                Ok(document) => match json_string(&document, key.as_slice()) {
                    Some(text) => same_text(text, next),
                    None => false,
                },
                Err(_) => false,
            },
            _ => match parse_toml(updated.as_str()) {
                Ok(document) => match toml_string(&document, key.as_slice()) {
                    Some(text) => same_text(text, next),
                    None => false,
                },
                Err(_) => false,
            },
        };
        if reads {
            Ok(updated)
        } else {
            Err(VersionerError::Unlocatable(self.label.clone()))
        }
    }
}

// ---------------------------------------------------------------------------
// Laws

/// A text right under a key, as a path of one key.
proof fn lemma_text_under(node: Node, key: Seq<char>)
    ensures
        text_at(node, seq![key]) == match node.field(key) {
            Some(inner) => inner.text(),
            None => None,
        },
{
    let path = seq![key];
    assert(path.drop_first() =~= Seq::empty());
    if let Some(inner) = node.field(key) {
        assert(descend(inner, path.drop_first()) == Some(inner));
    }
}

/// A text under a key of the table under another, as a path of two keys.
proof fn lemma_nested_text(entries: Map<Seq<char>, Node>, table: Seq<char>, key: Seq<char>)
    ensures
        entry_text_at(entries, seq![table, key]) == match nested(entries, table, key) {
            Some(value) => value.text(),
            None => None,
        },
{
    let path = seq![table, key];
    assert(path.drop_first() =~= seq![key]);
    if let Some(inner) = entry(entries, table) {
        lemma_text_under(inner, key);
    }
}

/// The version of a manifest, as its scanner sees it, is what its parser reads
/// at its key.
pub proof fn law_version_is_what_the_parser_reads(
    path: Seq<Seq<char>>,
    label: Seq<char>,
    contents: Result<Seq<char>, Seq<char>>,
)
    ensures
        manifest_of(path, label, contents) matches Ok(manifest) ==> reads(
            manifest.format,
            manifest.source,
            manifest.key,
            manifest.version(),
        ),
{
    if let Ok(manifest) = manifest_of(path, label, contents) {
        match manifest.format {
            Format::Npm => {
                lemma_text_under(json_document(manifest.source)->Ok_0, "version"@);
            },
            Format::Cargo => {
                lemma_nested_text(
                    toml_document(manifest.source)->Ok_0,
                    "package"@,
                    "version"@,
                );
            },
            Format::Python => {
                lemma_nested_text(
                    toml_document(manifest.source)->Ok_0,
                    "project"@,
                    "version"@,
                );
            },
        }
    }
}

/// What the scanner sees of a version can be cut out of the text.
pub proof fn lemma_scanned_is_cut(format: Format, source: Seq<char>, key: Key)
    ensures
        scanned(format, source, key) matches Some((start, end)) ==> is_cut(
            encode_utf8(source),
            start,
            end,
        ) && end < encode_utf8(source).len(),
{
    let bytes = encode_utf8(source);
    encode_utf8_valid_utf8(source);
    if let Some((start, end)) = scanned(format, source, key) {
        if format == Format::Npm {
            in_json::lemma_closing_quote(bytes, start);
        } else {
            lemma_found_behind(bytes, 0, in_toml::top(), joined(key.keys(), "."@));
        }
        lemma_ascii_boundaries(bytes, start - 1);
        lemma_ascii_boundaries(bytes, end);
    }
}

/// Every manifest that is read is well formed.
pub proof fn law_manifests_are_well_formed(
    path: Seq<Seq<char>>,
    label: Seq<char>,
    contents: Result<Seq<char>, Seq<char>>,
)
    ensures
        manifest_of(path, label, contents) matches Ok(manifest) ==> manifest.wf(),
{
    if let Ok(manifest) = manifest_of(path, label, contents) {
        lemma_scanned_is_cut(manifest.format, manifest.source, manifest.key);
    }
}

/// A rewritten manifest reads as the new version, and every byte before and
/// behind the version is as it was. The only error is that the version cannot
/// be located.
pub proof fn law_rewriting_changes_only_the_version(manifest: ManifestModel, next: Seq<char>)
    requires
        manifest.wf(),
    ensures
        match manifest.rewritten(next) {
            Ok(updated) => {
                let bytes = encode_utf8(manifest.source);
                &&& reads(manifest.format, updated, manifest.key, next)
                &&& encode_utf8(updated) == bytes.subrange(0, manifest.span.0) + encode_utf8(next)
                    + bytes.subrange(manifest.span.1, bytes.len() as int)
            },
            Err(failure) => failure == Failure::Unlocatable(manifest.label),
        },
{
    lemma_replace_one(manifest.source, manifest.span, next);
}

/// Writing the version that a manifest already has changes nothing.
pub proof fn law_rewriting_the_same_version(
    path: Seq<Seq<char>>,
    label: Seq<char>,
    contents: Result<Seq<char>, Seq<char>>,
)
    ensures
        manifest_of(path, label, contents) matches Ok(manifest) ==> manifest.rewritten(
            manifest.version(),
        ) == Ok::<_, Failure>(manifest.source),
{
    if let Ok(manifest) = manifest_of(path, label, contents) {
        let spans = seq![manifest.span];
        law_version_is_what_the_parser_reads(path, label, contents);
        law_manifests_are_well_formed(path, label, contents);
        lemma_in_order(spans);
        law_replace_same_text(manifest.source, spans, manifest.version());
    }
}

/// Where a parser reads a value at the key that it takes the version from, that
/// value is the version.
proof fn lemma_found_is_read(
    format: Format,
    source: Seq<char>,
    label: Seq<char>,
    key: Key,
    value: Seq<char>,
)
    requires
        reads(format, source, key, value),
        match format {
            Format::Npm => key == Key::Version,
            Format::Cargo => key == Key::Package || key == Key::Workspace,
            Format::Python => key == Key::Project || key == Key::Poetry,
        },
    ensures
        key.decides_alone() ==> settles_on(format, source, label, key),
        found_in(format, source, label) matches Ok(found) ==> (found.key == key ==> found.version
            == value),
{
    match format {
        Format::Npm => {
            lemma_text_under(json_document(source)->Ok_0, "version"@);
        },
        Format::Cargo => {
            lemma_nested_text(toml_document(source)->Ok_0, "package"@, "version"@);
        },
        Format::Python => {
            lemma_nested_text(toml_document(source)->Ok_0, "project"@, "version"@);
        },
    }
}

/// The name of a manifest is what its parser reads.
pub proof fn law_name_is_what_the_parser_reads(
    path: Seq<Seq<char>>,
    label: Seq<char>,
    contents: Result<Seq<char>, Seq<char>>,
)
    ensures
        manifest_of(path, label, contents) matches Ok(manifest) ==> manifest.name == name_in(
            manifest.format,
            manifest.source,
        ),
{
}

/// Whether the version text of a manifest can be `next`, between the quotes that
/// are there: the quote that closed the old version closes `next`, and no
/// earlier one does.
pub open spec fn can_hold(manifest: ManifestModel, next: Seq<char>) -> bool {
    match manifest.format {
        Format::Npm => is_raw(encode_utf8(next)),
        _ => fits_in_quotes(
            encode_utf8(manifest.source),
            manifest.span.0,
            manifest.span.1,
            encode_utf8(next),
        ),
    }
}

/// A rewritten manifest, read again, has the new version at the same key, under
/// the same path and label, and the name that the parser reads in it. Where the
/// parser reads the same name as before, that is the same name. The one error
/// is that the version cannot be located any more, and it does not come where
/// the quotes can hold the new version.
///
/// Where another value decides between two keys, as it does for the version of
/// a workspace and for that of Poetry, all this holds if the parser still
/// settles on the same key.
pub proof fn law_rewritten_manifests_read_back(
    path: Seq<Seq<char>>,
    label: Seq<char>,
    source: Seq<char>,
    next: Seq<char>,
    manifest: ManifestModel,
    updated: Seq<char>,
)
    requires
        manifest_of(path, label, Ok(source)) == Ok::<_, Failure>(manifest),
        manifest.rewritten(next) == Ok::<_, Failure>(updated),
        manifest.key.decides_alone() || settles_on(
            manifest.format,
            updated,
            label,
            manifest.key,
        ),
    ensures
        match manifest_of(path, label, Ok(updated)) {
            Ok(again) => {
                &&& again.version() == next
                &&& again.source == updated
                &&& again.path == path
                &&& again.label == label
                &&& again.format == manifest.format
                &&& again.key == manifest.key
                &&& again.name == name_in(manifest.format, updated)
                &&& name_in(manifest.format, updated) == name_in(manifest.format, source)
                    ==> again.name == manifest.name
            },
            Err(failure) => failure == Failure::Unlocatable(label) && !can_hold(manifest, next),
        },
        can_hold(manifest, next) ==> (manifest_of(path, label, Ok(updated)) matches Ok(again)
            && again.span == (
            manifest.span.0,
            manifest.span.0 + encode_utf8(next).len(),
        )),
{
    let bytes = encode_utf8(source);
    let value = encode_utf8(next);
    let start = manifest.span.0;
    let end = manifest.span.1;
    lemma_scanned_is_cut(manifest.format, source, manifest.key);
    lemma_replace_one(source, manifest.span, next);
    let after = encode_utf8(updated);
    assert(after == spliced(bytes, start, end, value));
    lemma_found_is_read(manifest.format, updated, label, manifest.key, next);
    law_name_is_what_the_parser_reads(path, label, Ok(source));
    law_name_is_what_the_parser_reads(path, label, Ok(updated));
    if can_hold(manifest, next) {
        if manifest.format == Format::Npm {
            law_json_string_is_found_again(bytes, manifest.key.keys(), start, end, value);
        } else {
            law_toml_string_is_found_again(
                bytes,
                joined(manifest.key.keys(), "."@),
                start,
                end,
                value,
            );
        }
        assert(after.subrange(start, start + value.len()) =~= value);
        encode_utf8_decode_utf8(next);
    }
}

/// Texts of the characters of versions are plain.
proof fn lemma_version_text_is_plain(text: Seq<char>)
    requires
        text.len() > 0,
        forall|i: int| 0 <= i < text.len() ==> is_version_char(#[trigger] text[i]),
    ensures
        is_plain(encode_utf8(text)),
{
    assert forall|i: int| 0 <= i < text.len() implies '\0' <= #[trigger] text[i] <= '\u{7f}' by {
        assert(is_version_char(text[i]));
    }
    is_ascii_chars_encode_utf8(text);
    let bytes = encode_utf8(text);
    assert forall|i: int| 0 <= i < bytes.len() implies (#[trigger] bytes[i]) != QUOTE && bytes[i]
        != APOSTROPHE && bytes[i] != BACKSLASH && bytes[i] != LINE_FEED by {
        assert(is_version_char(text[i]));
        assert(text[i] as u8 == bytes[i]);
    }
}

/// A manifest that is rewritten to a version reads back as that version.
pub proof fn law_bumped_manifests_read_back(
    path: Seq<Seq<char>>,
    label: Seq<char>,
    source: Seq<char>,
    version: VersionModel,
    manifest: ManifestModel,
    updated: Seq<char>,
)
    requires
        version.valid(),
        manifest_of(path, label, Ok(source)) == Ok::<_, Failure>(manifest),
        manifest.rewritten(version.printed()) == Ok::<_, Failure>(updated),
        manifest.key.decides_alone() || settles_on(
            manifest.format,
            updated,
            label,
            manifest.key,
        ),
    ensures
        manifest_of(path, label, Ok(updated)) matches Ok(again) && {
            &&& version_of(again.version()) == Some(version)
            &&& again.path == path
            &&& again.label == label
            &&& again.name == name_in(manifest.format, updated)
        },
{
    let next = version.printed();
    law_versions_are_plain_text(version);
    lemma_version_text_is_plain(next);
    lemma_scanned_is_cut(manifest.format, source, manifest.key);
    if manifest.format == Format::Npm {
        lemma_plain(encode_utf8(next), QUOTE);
    } else {
        lemma_found_behind(
            encode_utf8(source),
            0,
            in_toml::top(),
            joined(manifest.key.keys(), "."@),
        );
        lemma_plain(encode_utf8(next), encode_utf8(source)[manifest.span.0 - 1]);
    }
    assert(can_hold(manifest, next));
    law_rewritten_manifests_read_back(path, label, source, next, manifest, updated);
    lemma_version(next, version);
}

} // verus!
