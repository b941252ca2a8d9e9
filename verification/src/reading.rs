//! What is read of a manifest, key by key.

use vstd::prelude::*;
use vstd::string::*;
use vstd::utf8::*;

use crate::document::{
    descend, entry, entry_text_at, json_document, text_at, toml_document, Node, Shape,
};
use crate::error::Failure;
use crate::manifest::{
    cargo_found, found_in, format_of, manifest_of, npm_found, python_found, reads, Format,
    FoundModel, Key, ManifestModel,
};
use crate::scan::{in_json, in_toml, replaced};
use crate::scan::splice::spliced;
use crate::text::joined;
use crate::utf8::text_between;

verus! {

/// The text that a value is.
pub open spec fn text_in(value: Option<Node>) -> Option<Seq<char>> {
    match value {
        Some(node) => match node.shape {
            Shape::Text(text) => Some(text),
            _ => None,
        },
        None => None,
    }
}

/// The value under a key of a value.
pub open spec fn under(value: Option<Node>, key: Seq<char>) -> Option<Node> {
    match value {
        Some(node) => match node.shape {
            Shape::Table(entries) => at_key(entries, key),
            _ => None,
        },
        None => None,
    }
}

/// The value under a key.
pub open spec fn at_key(entries: Map<Seq<char>, Node>, key: Seq<char>) -> Option<Node> {
    if entries.dom().contains(key) {
        Some(entries[key])
    } else {
        None
    }
}

proof fn lemma_two(entries: Map<Seq<char>, Node>, first: Seq<char>, second: Seq<char>)
    ensures
        entry_text_at(entries, seq![first, second]) == text_in(
            under(at_key(entries, first), second),
        ),
{
    let path = seq![first, second];
    assert(path.drop_first() =~= seq![second]);
    assert(seq![second].drop_first() =~= Seq::empty());
    if let Some(outer) = entry(entries, first) {
        if let Some(inner) = outer.field(second) {
            assert(descend(inner, seq![second].drop_first()) == Some(inner));
        }
        assert(text_at(outer, seq![second]) == text_in(under(Some(outer), second)));
    }
}

proof fn lemma_three(
    entries: Map<Seq<char>, Node>,
    first: Seq<char>,
    second: Seq<char>,
    third: Seq<char>,
)
    ensures
        entry_text_at(entries, seq![first, second, third]) == text_in(
            under(under(at_key(entries, first), second), third),
        ),
{
    let path = seq![first, second, third];
    assert(path.drop_first() =~= seq![second, third]);
    assert(seq![second, third].drop_first() =~= seq![third]);
    assert(seq![third].drop_first() =~= Seq::empty());
    if let Some(outer) = entry(entries, first) {
        if let Some(inner) = outer.field(second) {
            if let Some(innermost) = inner.field(third) {
                assert(descend(innermost, seq![third].drop_first()) == Some(innermost));
            }
            assert(descend(inner, seq![third]) == inner.field(third));
        }
        assert(descend(outer, seq![second, third]) == match outer.field(second) {
            Some(inner) => descend(inner, seq![third]),
            None => None,
        });
    }
}

/// A `package.json` has its version under `version` and its name under `name`.
pub proof fn law_package_json(document: Node, label: Seq<char>)
    ensures
        ({
            let version = under(Some(document), "version"@);
            match (version, npm_found(document, label)) {
                (None, Err(failure)) => failure == Failure::MissingVersion(label),
                (Some(value), Ok(found)) => {
                    &&& value.shape == Shape::Text(found.version)
                    &&& found.key == Key::Version
                    &&& found.name == text_in(under(Some(document), "name"@))
                },
                (Some(value), Err(failure)) => text_in(version) is None && failure
                    == Failure::InvalidVersion(value.printed->0),
                _ => false,
            }
        }),
{
}

/// A `Cargo.toml` has its version under `package.version` or, where that is no
/// text, under `workspace.package.version`. Where neither is a text, a version
/// that says `workspace = true` is inherited, any other is invalid, and none is
/// missing. The name is under `package.name`, whichever version counts.
pub proof fn law_cargo_toml(entries: Map<Seq<char>, Node>, label: Seq<char>)
    ensures
        ({
            let own = under(at_key(entries, "package"@), "version"@);
            let shared = text_in(
                under(under(at_key(entries, "workspace"@), "package"@), "version"@),
            );
            let inherited = under(own, "workspace"@) matches Some(flag) && flag.shape
                == Shape::Flag(true);
            match cargo_found(entries, label) {
                Ok(found) => {
                    &&& found.name == text_in(under(at_key(entries, "package"@), "name"@))
                    &&& text_in(own) is Some ==> found.key == Key::Package && text_in(own) == Some(
                        found.version,
                    )
                    &&& text_in(own) is None ==> found.key == Key::Workspace && shared == Some(
                        found.version,
                    )
                },
                Err(failure) => {
                    &&& text_in(own) is None && shared is None
                    &&& own is None ==> failure == Failure::MissingVersion(label)
                    &&& own is Some && inherited ==> failure == Failure::UnsupportedVersion(
                        label,
                        "the version is inherited from the workspace, run versioner from the workspace root"@,
                    )
                    &&& own is Some && !inherited ==> failure == Failure::InvalidVersion(
                        own->0.printed->0,
                    )
                },
            }
        }),
{
    lemma_two(entries, "package"@, "name"@);
    lemma_three(entries, "workspace"@, "package"@, "version"@);
}

/// A `pyproject.toml` has its version under `project.version`, where nothing
/// but a text will do, or, where that is missing, under `tool.poetry.version`.
/// Where both are missing, the version is dynamic if `project.dynamic` lists
/// it. The name is under `project.name`, or else `tool.poetry.name`.
pub proof fn law_pyproject_toml(entries: Map<Seq<char>, Node>, label: Seq<char>)
    ensures
        ({
            let own = under(at_key(entries, "project"@), "version"@);
            let poetry = text_in(under(under(at_key(entries, "tool"@), "poetry"@), "version"@));
            let name = text_in(under(at_key(entries, "project"@), "name"@));
            let poetry_name = text_in(under(under(at_key(entries, "tool"@), "poetry"@), "name"@));
            let dynamic = under(at_key(entries, "project"@), "dynamic"@) matches Some(list)
                && list.shape matches Shape::List(items) && exists|i: int|
                0 <= i < items.len() && (#[trigger] items[i]).shape == Shape::Text("version"@);
            match python_found(entries, label) {
                Ok(found) => {
                    &&& found.name == if name is Some {
                        name
                    } else {
                        poetry_name
                    }
                    &&& own is Some ==> found.key == Key::Project && text_in(own) == Some(
                        found.version,
                    )
                    &&& own is None ==> found.key == Key::Poetry && poetry == Some(found.version)
                },
                Err(failure) => {
                    &&& text_in(own) is None
                    &&& own is Some ==> failure == Failure::InvalidVersion(own->0.printed->0)
                    &&& own is None ==> poetry is None
                    &&& own is None && dynamic ==> failure == Failure::UnsupportedVersion(
                        label,
                        "the version is dynamic, bump it wherever your build backend reads it from"@,
                    )
                    &&& own is None && !dynamic ==> failure == Failure::MissingVersion(label)
                },
            }
        }),
{
    lemma_two(entries, "project"@, "name"@);
    lemma_three(entries, "tool"@, "poetry"@, "name"@);
    lemma_three(entries, "tool"@, "poetry"@, "version"@);
    if let Some(list) = under(at_key(entries, "project"@), "dynamic"@) {
        if let Shape::List(items) = list.shape {
            assert forall|i: int| 0 <= i < items.len() implies ((
            #[trigger] items[i]).shape == Shape::Text("version"@) <==> items[i].text() == Some(
                "version"@,
            )) by {}
            if exists|i: int|
                0 <= i < items.len() && (#[trigger] items[i]).shape == Shape::Text("version"@) {
                let i = choose|i: int|
                    0 <= i < items.len() && (#[trigger] items[i]).shape == Shape::Text("version"@);
                assert(items[i].text() == Some("version"@));
            }
        }
    }
}

/// Which parser reads a manifest goes by its format.
pub proof fn law_formats_are_parsed(format: Format, source: Seq<char>, label: Seq<char>)
    ensures
        format == Format::Npm ==> match json_document(source) {
            Ok(document) => found_in(format, source, label) == npm_found(document, label),
            Err(reason) => found_in(format, source, label) == Err::<FoundModel, _>(
                Failure::InvalidManifest(label, reason),
            ),
        },
        format == Format::Cargo ==> match toml_document(source) {
            Ok(entries) => found_in(format, source, label) == cargo_found(entries, label),
            Err(reason) => found_in(format, source, label) == Err::<FoundModel, _>(
                Failure::InvalidManifest(label, reason),
            ),
        },
        format == Format::Python ==> match toml_document(source) {
            Ok(entries) => found_in(format, source, label) == python_found(entries, label),
            Err(reason) => found_in(format, source, label) == Err::<FoundModel, _>(
                Failure::InvalidManifest(label, reason),
            ),
        },
{
}

/// The dotted form of a key.
pub open spec fn dotted(key: Key) -> Seq<char> {
    match key {
        Key::Version => "version"@,
        Key::Package => "package"@ + "."@ + "version"@,
        Key::Workspace => "workspace"@ + "."@ + "package"@ + "."@ + "version"@,
        Key::Project => "project"@ + "."@ + "version"@,
        Key::Poetry => "tool"@ + "."@ + "poetry"@ + "."@ + "version"@,
    }
}

proof fn lemma_dotted(key: Key)
    ensures
        joined(key.keys(), "."@) == dotted(key),
{
    let keys = key.keys();
    assert(joined(keys.take(1), "."@) == keys[0]);
    if keys.len() > 1 {
        assert(keys.take(2).drop_last() =~= keys.take(1));
        assert(joined(keys.take(2), "."@) == keys[0] + "."@ + keys[1]);
    }
    if keys.len() == 3 {
        assert(keys.drop_last() =~= keys.take(2));
    } else if keys.len() == 2 {
        assert(keys =~= keys.take(2));
    }
}

/// A manifest is read exactly where its format is known, its contents can be
/// read and parsed, it has a version, and the scanner sees that very text at
/// its key. It keeps the path, the label and the contents that it is given.
pub proof fn law_manifests(
    path: Seq<Seq<char>>,
    label: Seq<char>,
    contents: Result<Seq<char>, Seq<char>>,
)
    ensures
        format_of(path) is None ==> manifest_of(path, label, contents) == Err::<ManifestModel, _>(
            Failure::UnsupportedManifest(label),
        ),
        format_of(path) is Some ==> match contents {
            Err(reason) => manifest_of(path, label, contents) == Err::<ManifestModel, _>(
                Failure::InvalidManifest(label, reason),
            ),
            Ok(source) => match found_in(format_of(path)->0, source, label) {
                Err(failure) => manifest_of(path, label, contents) == Err::<ManifestModel, _>(
                    failure,
                ),
                Ok(found) => {
                    let bytes = encode_utf8(source);
                    let seen = if format_of(path) == Some(Format::Npm) {
                        in_json::contents_at(bytes, seq!["version"@])
                    } else {
                        in_toml::plain_string(in_toml::entries_of(bytes), dotted(found.key))
                    };
                    match manifest_of(path, label, contents) {
                        Ok(manifest) => {
                            &&& seen == Some(manifest.span)
                            &&& text_between(bytes, manifest.span.0, manifest.span.1)
                                == found.version
                            &&& manifest.version() == found.version
                            &&& manifest.path == path && manifest.label == label
                            &&& manifest.source == source
                            &&& Some(manifest.format) == format_of(path)
                            &&& manifest.key == found.key && manifest.name == found.name
                        },
                        Err(failure) => failure == Failure::Unlocatable(label) && (seen is None
                            || text_between(bytes, (seen->0).0, (seen->0).1) != found.version),
                    }
                },
            },
        },
{
    if let (Some(format), Ok(source)) = (format_of(path), contents) {
        if let Ok(found) = found_in(format, source, label) {
            lemma_dotted(found.key);
            if format == Format::Npm {
                assert(found.key == Key::Version);
                assert(found.key.keys() =~= seq!["version"@]);
            }
        }
    }
}

/// What a parser reads at a key.
pub proof fn law_keys(source: Seq<char>, value: Seq<char>)
    ensures
        reads(Format::Npm, source, Key::Version, value) <==> json_document(source) is Ok
            && text_in(under(Some(json_document(source)->Ok_0), "version"@)) == Some(value),
        toml_document(source) is Err ==> !reads(Format::Cargo, source, Key::Package, value),
        toml_document(source) matches Ok(entries) ==> {
            &&& reads(Format::Cargo, source, Key::Package, value) <==> text_in(
                under(at_key(entries, "package"@), "version"@),
            ) == Some(value)
            &&& reads(Format::Cargo, source, Key::Workspace, value) <==> text_in(
                under(under(at_key(entries, "workspace"@), "package"@), "version"@),
            ) == Some(value)
            &&& reads(Format::Python, source, Key::Project, value) <==> text_in(
                under(at_key(entries, "project"@), "version"@),
            ) == Some(value)
            &&& reads(Format::Python, source, Key::Poetry, value) <==> text_in(
                under(under(at_key(entries, "tool"@), "poetry"@), "version"@),
            ) == Some(value)
        },
{
    if let Ok(document) = json_document(source) {
        let path = seq!["version"@];
        assert(Key::Version.keys() =~= path);
        assert(path.drop_first() =~= Seq::empty());
        if let Some(inner) = document.field("version"@) {
            assert(descend(inner, path.drop_first()) == Some(inner));
        }
    }
    if let Ok(entries) = toml_document(source) {
        lemma_two(entries, "package"@, "version"@);
        lemma_two(entries, "project"@, "version"@);
        lemma_three(entries, "workspace"@, "package"@, "version"@);
        lemma_three(entries, "tool"@, "poetry"@, "version"@);
    }
}

/// A manifest is rewritten exactly where a parser then reads the new version at
/// its key.
pub proof fn law_rewriting(manifest: ManifestModel, next: Seq<char>, updated: Seq<char>)
    requires
        manifest.wf(),
        encode_utf8(updated) == spliced(
            encode_utf8(manifest.source),
            manifest.span.0,
            manifest.span.1,
            encode_utf8(next),
        ),
    ensures
        reads(manifest.format, updated, manifest.key, next) ==> manifest.rewritten(next) == Ok::<
            _,
            Failure,
        >(updated),
        !reads(manifest.format, updated, manifest.key, next) ==> manifest.rewritten(next) == Err::<
            Seq<char>,
            _,
        >(Failure::Unlocatable(manifest.label)),
{
    crate::scan::lemma_replace_one(manifest.source, manifest.span, next);
    let written = replaced(encode_utf8(manifest.source), seq![manifest.span], next);
    crate::utf8::lemma_encode_injective(written, updated);
}

} // verus!
