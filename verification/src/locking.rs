//! Which versions in which lockfile follow that of a manifest.

use vstd::prelude::*;
use vstd::string::*;
use vstd::utf8::*;

use crate::disk::{label_of, nearest_file, DiskModel, Progress};
use crate::document::{json_document, text_at, toml_document, Node, Shape};
use crate::edit::EditModel;
use crate::error::Failure;
use crate::lockfile::{
    all_read, cargo_lock_edit, located, locked, lockfile_edits, members_of, normalized_python,
    npm_lock_edit, npm_locked, npm_paths, own_among, own_parsed, own_scanned, own_texts,
    spans_of, uv_lock_edit, OwnModel,
};
use crate::manifest::{Format, Key, ManifestModel};
use crate::project::{project_edits, ProjectModel};
use crate::reading::{at_key, text_in, under};
use crate::scan::in_toml::{packages_of, PackageModel};
use crate::scan::{apart, by_start, in_json, replaced};
use crate::text::occurs;
use crate::utf8::text_between;

verus! {

// ---------------------------------------------------------------------------
// npm

/// The package at the lockfile's own directory is recorded under `packages`,
/// the empty name, and at the top; one in another directory only under
/// `packages` and the name of that directory.
pub proof fn law_npm_paths(key: Seq<char>)
    ensures
        npm_paths(key).len() == (if key.len() == 0 {
            2int
        } else {
            1
        }),
        npm_paths(key)[0] == seq!["packages"@, key, "version"@],
        key.len() == 0 ==> npm_paths(key)[1] == seq!["version"@],
{
}

/// Whether the scanner sees the text that a parser reads at a path.
pub open spec fn seen_as_read(document: Node, bytes: Seq<u8>, path: Seq<Seq<char>>) -> bool {
    in_json::contents_at(bytes, path) matches Some(span) && Some(
        text_between(bytes, span.0, span.1),
    ) == text_at(document, path)
}

/// What is located of a `package-lock.json`, path by path.
proof fn lemma_located(document: Node, bytes: Seq<u8>, key: Seq<char>)
    ensures
        ({
            let inner = seq!["packages"@, key, "version"@];
            let outer = seq!["version"@];
            let first = text_at(document, inner) is Some;
            let second = key.len() == 0 && text_at(document, outer) is Some;
            let fine = (first ==> seen_as_read(document, bytes, inner)) && (second
                ==> seen_as_read(document, bytes, outer));
            let found = located(document, bytes, npm_paths(key));
            &&& found is Some <==> fine
            &&& fine && !first && !second ==> found->0.len() == 0
            &&& fine && first && !second ==> found->0 == seq![
                (inner, in_json::contents_at(bytes, inner)->0),
            ]
            &&& fine && !first && second ==> found->0 == seq![
                (outer, in_json::contents_at(bytes, outer)->0),
            ]
            &&& fine && first && second ==> found->0 == seq![
                (inner, in_json::contents_at(bytes, inner)->0),
                (outer, in_json::contents_at(bytes, outer)->0),
            ]
        }),
{
    let inner = seq!["packages"@, key, "version"@];
    let outer = seq!["version"@];
    let paths = npm_paths(key);
    let one = seq![inner];
    assert(one.drop_last() =~= Seq::empty());
    assert(located(document, bytes, one.drop_last()) == Some(
        Seq::<(Seq<Seq<char>>, (int, int))>::empty(),
    ));
    let alone = located(document, bytes, one);
    if alone is Some && text_at(document, inner) is Some {
        assert(alone->0 =~= seq![(inner, in_json::contents_at(bytes, inner)->0)]);
    }
    if key.len() == 0 {
        assert(paths.drop_last() =~= one);
        assert(paths.last() == outer);
        let found = located(document, bytes, paths);
        if found is Some && text_at(document, outer) is Some {
            if text_at(document, inner) is Some {
                assert(found->0 =~= seq![
                    (inner, in_json::contents_at(bytes, inner)->0),
                    (outer, in_json::contents_at(bytes, outer)->0),
                ]);
            } else {
                assert(found->0 =~= seq![(outer, in_json::contents_at(bytes, outer)->0)]);
            }
        }
    } else {
        assert(paths =~= one);
    }
}

/// A `package-lock.json` is edited exactly where it records a version of the
/// package. The edit keeps the path, the label and the contents it is given,
/// and tells the version under `packages`, or else the one at the top.
pub proof fn law_npm_locks(
    path: Seq<Seq<char>>,
    label: Seq<char>,
    source: Seq<char>,
    key: Seq<char>,
    next: Seq<char>,
)
    ensures
        match json_document(source) {
            Err(reason) => npm_locked(path, label, source, key, next) == Err::<
                Option<EditModel>,
                _,
            >(Failure::InvalidManifest(label, reason)),
            Ok(document) => {
                let bytes = encode_utf8(source);
                let inner = seq!["packages"@, key, "version"@];
                let outer = seq!["version"@];
                let first = text_at(document, inner);
                let second = if key.len() == 0 {
                    text_at(document, outer)
                } else {
                    None
                };
                let spans = (if first is Some {
                    seq![in_json::contents_at(bytes, inner)->0]
                } else {
                    Seq::empty()
                }) + (if second is Some {
                    seq![in_json::contents_at(bytes, outer)->0]
                } else {
                    Seq::empty()
                });
                let updated = replaced(bytes, spans, next);
                let lands = json_document(updated) matches Ok(after) && (first is Some ==> text_at(
                    after,
                    inner,
                ) == Some(next)) && (second is Some ==> text_at(after, outer) == Some(next));
                match npm_locked(path, label, source, key, next) {
                    Ok(None) => first is None && second is None,
                    Ok(Some(edit)) => {
                        &&& first is Some || second is Some
                        &&& Some(edit.from) == if first is Some {
                            first
                        } else {
                            second
                        }
                        &&& edit.path == path && edit.label == label
                        &&& edit.original == source && edit.updated == updated
                        &&& first is Some ==> seen_as_read(document, bytes, inner)
                        &&& second is Some ==> seen_as_read(document, bytes, outer)
                        &&& lands
                    },
                    Err(failure) => failure == Failure::Unlocatable(label) && (first is Some
                        || second is Some) && !((first is Some ==> seen_as_read(
                        document,
                        bytes,
                        inner,
                    )) && (second is Some ==> seen_as_read(document, bytes, outer)) && apart(
                        bytes,
                        by_start(spans),
                    ) && lands),
                }
            },
        },
{
    if let Ok(document) = json_document(source) {
        let bytes = encode_utf8(source);
        let inner = seq!["packages"@, key, "version"@];
        let outer = seq!["version"@];
        let first = text_at(document, inner) is Some;
        let second = key.len() == 0 && text_at(document, outer) is Some;
        lemma_located(document, bytes, key);
        if let Some(found) = located(document, bytes, npm_paths(key)) {
            let spans = (if first {
                seq![in_json::contents_at(bytes, inner)->0]
            } else {
                Seq::empty()
            }) + (if second {
                seq![in_json::contents_at(bytes, outer)->0]
            } else {
                Seq::empty()
            });
            assert(spans_of(found) =~= spans);
            if let Ok(after) = json_document(replaced(bytes, spans, next)) {
                if all_read(after, found, next) {
                    if first {
                        assert(found[0].0 == inner);
                    }
                    if second {
                        assert(found[found.len() - 1].0 == outer);
                    }
                }
            }
        }
    }
}

/// The one edit of a `package-lock.json` that records one version is not
/// refused where the scanner sees what a parser reads, and a parser then reads
/// the new version there.
pub proof fn law_npm_members_are_edited(
    path: Seq<Seq<char>>,
    label: Seq<char>,
    source: Seq<char>,
    key: Seq<char>,
    next: Seq<char>,
    document: Node,
    span: (int, int),
)
    requires
        key.len() > 0,
        json_document(source) == Ok::<_, Seq<char>>(document),
        text_at(document, seq!["packages"@, key, "version"@]) == Some(
            text_between(encode_utf8(source), span.0, span.1),
        ),
        in_json::contents_at(encode_utf8(source), seq!["packages"@, key, "version"@]) == Some(
            span,
        ),
        apart(encode_utf8(source), seq![span]),
        json_document(replaced(encode_utf8(source), seq![span], next)) matches Ok(after)
            && text_at(after, seq!["packages"@, key, "version"@]) == Some(next),
    ensures
        npm_locked(path, label, source, key, next) matches Ok(Some(edit)) && edit.updated
            == replaced(encode_utf8(source), seq![span], next),
{
    let bytes = encode_utf8(source);
    lemma_located(document, bytes, key);
    let found = located(document, bytes, npm_paths(key))->0;
    assert(spans_of(found) =~= seq![span]);
    crate::scan::lemma_in_order(seq![span]);
}

/// The lockfile of a `package.json` is the nearest `npm-shrinkwrap.json` or
/// `package-lock.json`, in this order, at or above it. The package is recorded
/// under its directory as seen from that of the lockfile.
pub proof fn law_npm_lockfiles(
    manifest: ManifestModel,
    root: Seq<Seq<char>>,
    next: Seq<char>,
    disk: DiskModel,
)
    requires
        manifest.path.len() > 0,
    ensures
        ({
            let directory = manifest.path.drop_last();
            match nearest_file(
                directory,
                root,
                seq!["npm-shrinkwrap.json"@, "package-lock.json"@],
                disk,
            ) {
                Progress::Done(None) => npm_lock_edit(manifest, root, next, disk)
                    == Progress::Done(Ok::<Option<EditModel>, Failure>(None)),
                Progress::Done(Some(lock)) => lock.len() > 0 ==> match disk.file(lock) {
                    None => npm_lock_edit(manifest, root, next, disk) == Progress::<
                        Result<Option<EditModel>, Failure>,
                    >::Look(lock),
                    Some(file) => match file.contents {
                        Ok(source) => npm_lock_edit(manifest, root, next, disk) == Progress::Done(
                            npm_locked(
                                lock,
                                label_of(root, lock),
                                source,
                                label_of(lock.drop_last(), directory),
                                next,
                            ),
                        ),
                        Err(reason) => npm_lock_edit(manifest, root, next, disk)
                            == Progress::Done(
                            Err::<Option<EditModel>, _>(
                                Failure::InvalidManifest(label_of(root, lock), reason),
                            ),
                        ),
                    },
                },
                Progress::Look(path) => npm_lock_edit(manifest, root, next, disk) == Progress::<
                    Result<Option<EditModel>, Failure>,
                >::Look(path),
                Progress::List(path) => npm_lock_edit(manifest, root, next, disk) == Progress::<
                    Result<Option<EditModel>, Failure>,
                >::List(path),
            }
        }),
{
}

// ---------------------------------------------------------------------------
// Cargo and uv

/// A crate in a `Cargo.lock` is the project's own exactly where it has one of
/// its names and no source.
pub proof fn law_own_crates(names: Seq<Seq<char>>, name: Seq<char>, source: Option<Seq<char>>)
    ensures
        OwnModel::Crates(names).matches(name, source) <==> source is None && exists|i: int|
            0 <= i < names.len() && (#[trigger] names[i]) == name,
{
}

/// A package in a `uv.lock` is the project itself exactly where its name is
/// that of the project, and its source speaks of `editable` or `virtual`.
pub proof fn law_own_project(own: Seq<char>, name: Seq<char>, source: Option<Seq<char>>)
    ensures
        OwnModel::Project(own).matches(name, source) <==> normalized_python(name) == own && (
        source matches Some(origin) && (occurs(origin, "editable"@) || occurs(
            origin,
            "virtual"@,
        ))),
{
}

/// The lockfile of a `Cargo.toml` is the nearest `Cargo.lock`. The own crates
/// are the one of the package, or, where the version is the workspace's, those
/// of the members that inherit it.
pub proof fn law_cargo_lockfiles(
    manifest: ManifestModel,
    root: Seq<Seq<char>>,
    next: Seq<char>,
    disk: DiskModel,
    lock: Seq<Seq<char>>,
    names: Seq<Seq<char>>,
    source: Seq<char>,
)
    requires
        manifest.path.len() > 0,
        nearest_file(manifest.path.drop_last(), root, seq!["Cargo.lock"@], disk)
            == Progress::Done(Some(lock)),
        if manifest.key == Key::Workspace {
            members_of(manifest.source, manifest.path.drop_last(), disk) == Progress::Done(names)
        } else {
            names == match manifest.name {
                Some(name) => seq![name],
                None => Seq::empty(),
            }
        },
        disk.file(lock) matches Some(file) && file.contents == Ok::<_, Seq<char>>(source),
    ensures
        cargo_lock_edit(manifest, root, next, disk) == Progress::Done(
            locked(lock, label_of(root, lock), source, next, OwnModel::Crates(names)),
        ),
{
}

/// The lockfile of a `pyproject.toml` with a name is the nearest `uv.lock`.
/// Without a name there is none to edit.
pub proof fn law_uv_lockfiles(
    manifest: ManifestModel,
    root: Seq<Seq<char>>,
    next: Seq<char>,
    disk: DiskModel,
    lock: Seq<Seq<char>>,
    source: Seq<char>,
)
    requires
        manifest.path.len() > 0,
        nearest_file(manifest.path.drop_last(), root, seq!["uv.lock"@], disk) == Progress::Done(
            Some(lock),
        ),
        disk.file(lock) matches Some(file) && file.contents == Ok::<_, Seq<char>>(source),
    ensures
        match manifest.name {
            None => uv_lock_edit(manifest, root, next, disk) == Progress::Done(
                Ok::<Option<EditModel>, Failure>(None),
            ),
            Some(name) => uv_lock_edit(manifest, root, next, disk) == Progress::Done(
                locked(
                    lock,
                    label_of(root, lock),
                    source,
                    next,
                    OwnModel::Project(normalized_python(name)),
                ),
            ),
        },
{
}

/// Without a lockfile there is nothing to edit, and one that cannot be read is
/// told.
pub proof fn law_missing_lockfiles(
    manifest: ManifestModel,
    root: Seq<Seq<char>>,
    next: Seq<char>,
    disk: DiskModel,
    lock: Seq<Seq<char>>,
    reason: Seq<char>,
)
    requires
        manifest.path.len() > 0,
    ensures
        nearest_file(manifest.path.drop_last(), root, seq!["Cargo.lock"@], disk)
            == Progress::Done(None::<Seq<Seq<char>>>) ==> cargo_lock_edit(
            manifest,
            root,
            next,
            disk,
        ) == Progress::Done(Ok::<Option<EditModel>, Failure>(None)),
        nearest_file(manifest.path.drop_last(), root, seq!["uv.lock"@], disk) == Progress::Done(
            None::<Seq<Seq<char>>>,
        ) ==> uv_lock_edit(manifest, root, next, disk) == Progress::Done(
            Ok::<Option<EditModel>, Failure>(None),
        ),
        manifest.name is Some && nearest_file(
            manifest.path.drop_last(),
            root,
            seq!["uv.lock"@],
            disk,
        ) == Progress::Done(Some(lock)) && (disk.file(lock) matches Some(file) && file.contents
            == Err::<Seq<char>, _>(reason)) ==> uv_lock_edit(manifest, root, next, disk)
            == Progress::Done(
            Err::<Option<EditModel>, _>(Failure::InvalidManifest(label_of(root, lock), reason)),
        ),
        manifest.key != Key::Workspace && nearest_file(
            manifest.path.drop_last(),
            root,
            seq!["Cargo.lock"@],
            disk,
        ) == Progress::Done(Some(lock)) && (disk.file(lock) matches Some(file) && file.contents
            == Err::<Seq<char>, _>(reason)) ==> cargo_lock_edit(manifest, root, next, disk)
            == Progress::Done(
            Err::<Option<EditModel>, _>(Failure::InvalidManifest(label_of(root, lock), reason)),
        ),
{
}

/// The own packages that the scanner sees are those with a version that are the
/// project's own, in order: one more package adds itself or nothing.
pub proof fn law_own_packages_are_scanned(
    packages: Seq<PackageModel>,
    more: PackageModel,
    own: OwnModel,
)
    ensures
        own_scanned(Seq::empty(), own).len() == 0,
        own_scanned(packages.push(more), own) == if more.version is Some && own.matches(
            more.name,
            more.source,
        ) {
            own_scanned(packages, own).push((more.name, more.version->0))
        } else {
            own_scanned(packages, own)
        },
{
    assert(packages.push(more).drop_last() =~= packages);
}

/// The own packages that a parser reads are those that are the project's own by
/// their name and the source that is printed. All need a name, and the own ones
/// a version.
pub proof fn law_own_packages_are_parsed(items: Seq<Node>, more: Node, own: OwnModel)
    ensures
        own_among(Seq::empty(), own) matches Some(none) && none.len() == 0,
        own_among(items, own) is None ==> own_among(items.push(more), own) is None,
        own_among(items, own) matches Some(prior) ==> match (
            text_in(under(Some(more), "name"@)),
            own_among(items.push(more), own),
        ) {
            (None, after) => after is None,
            (Some(name), after) => {
                let source = match under(Some(more), "source"@) {
                    Some(value) => value.printed,
                    None => None,
                };
                if own.matches(name, source) {
                    match text_in(under(Some(more), "version"@)) {
                        Some(version) => after == Some(prior.push((name, version))),
                        None => after is None,
                    }
                } else {
                    after == Some(prior)
                }
            },
        },
{
    assert(items.push(more).drop_last() =~= items);
}

/// A parser finds the packages of a lockfile under `package`.
pub proof fn law_packages_are_parsed(source: Seq<char>, own: OwnModel)
    ensures
        toml_document(source) is Err ==> own_parsed(source, own) is None,
        toml_document(source) matches Ok(entries) ==> match at_key(entries, "package"@) {
            Some(list) => match list.shape {
                Shape::List(items) => own_parsed(source, own) == own_among(items, own),
                _ => own_parsed(source, own) is None,
            },
            None => own_parsed(source, own) is None,
        },
{
}

/// A `Cargo.lock` or `uv.lock` is edited exactly where the scanner sees an own
/// package in it, a parser reads the same names and versions, each as often,
/// and reads the new version in as many afterwards.
pub proof fn law_locks(
    path: Seq<Seq<char>>,
    label: Seq<char>,
    source: Seq<char>,
    next: Seq<char>,
    own: OwnModel,
)
    ensures
        ({
            let bytes = encode_utf8(source);
            let seen = own_scanned(packages_of(bytes), own);
            let spans = Seq::new(seen.len(), |i: int| seen[i].1);
            let texts = Seq::new(
                seen.len(),
                |i: int| (seen[i].0, text_between(bytes, seen[i].1.0, seen[i].1.1)),
            );
            let updated = replaced(bytes, spans, next);
            let agrees = own_parsed(source, own) matches Some(read) && read.to_multiset()
                == texts.to_multiset();
            let lands = own_parsed(updated, own) matches Some(read) && read.len() == seen.len()
                && forall|i: int| 0 <= i < read.len() ==> (#[trigger] read[i]).1 == next;
            match locked(path, label, source, next, own) {
                Ok(None) => seen.len() == 0,
                Ok(Some(edit)) => {
                    &&& seen.len() > 0 && agrees && lands
                    &&& edit.path == path && edit.label == label && edit.original == source
                    &&& edit.from == text_between(bytes, seen[0].1.0, seen[0].1.1)
                    &&& edit.updated == updated
                },
                Err(failure) => failure == Failure::Unlocatable(label) && seen.len() > 0 && !(
                agrees && lands),
            }
        }),
{
    let bytes = encode_utf8(source);
    let seen = own_scanned(packages_of(bytes), own);
    assert(spans_of(seen) =~= Seq::new(seen.len(), |i: int| seen[i].1));
    assert(own_texts(bytes, seen) =~= Seq::new(
        seen.len(),
        |i: int| (seen[i].0, text_between(bytes, seen[i].1.0, seen[i].1.1)),
    ));
}

// ---------------------------------------------------------------------------
// All edits

/// Which lockfile goes with a manifest goes by its format.
pub proof fn law_lockfiles_go_by_format(
    manifest: ManifestModel,
    root: Seq<Seq<char>>,
    next: Seq<char>,
    disk: DiskModel,
)
    ensures
        ({
            let edit = if manifest.format == Format::Npm {
                npm_lock_edit(manifest, root, next, disk)
            } else if manifest.format == Format::Cargo {
                cargo_lock_edit(manifest, root, next, disk)
            } else {
                uv_lock_edit(manifest, root, next, disk)
            };
            match (edit, lockfile_edits(manifest, root, next, disk)) {
                (Progress::Done(Ok(None)), Progress::Done(Ok(edits))) => edits.len() == 0,
                (Progress::Done(Ok(Some(edit))), Progress::Done(Ok(edits))) => edits == seq![edit],
                (Progress::Done(Err(failure)), Progress::Done(Err(told))) => told == failure,
                (Progress::Look(path), Progress::Look(asked)) => asked == path,
                (Progress::List(path), Progress::List(asked)) => asked == path,
                _ => false,
            }
        }),
{
}

/// The edits of a project are that of its manifest and those of its lockfiles
/// behind it, all or none.
pub proof fn law_project_edits(project: ProjectModel, next: Seq<char>, disk: DiskModel)
    ensures
        match (
            project.manifest.rewritten(next),
            lockfile_edits(project.manifest, project.root, next, disk),
            project_edits(project, next, disk),
        ) {
            (Err(failure), _, Progress::Done(Err(told))) => told == failure,
            (Ok(updated), Progress::Done(Ok(locks)), Progress::Done(Ok(edits))) => {
                &&& edits.len() == locks.len() + 1
                &&& edits[0].path == project.manifest.path
                &&& edits[0].label == project.manifest.label
                &&& edits[0].from == project.manifest.version()
                &&& edits[0].original == project.manifest.source
                &&& edits[0].updated == updated
                &&& forall|i: int| 0 <= i < locks.len() ==> edits[i + 1] == #[trigger] locks[i]
            },
            (Ok(_), Progress::Done(Err(failure)), Progress::Done(Err(told))) => told == failure,
            (Ok(_), Progress::Look(path), Progress::Look(asked)) => asked == path,
            (Ok(_), Progress::List(path), Progress::List(asked)) => asked == path,
            _ => false,
        },
{
}

// ---------------------------------------------------------------------------
// Values and names

/// A path leads through the tables of a document, key by key, to the text that
/// is the value at its end.
pub proof fn law_paths_lead_through_tables(node: Node, path: Seq<Seq<char>>, key: Seq<char>)
    ensures
        text_at(node, Seq::empty()) == match node.shape {
            Shape::Text(text) => Some(text),
            _ => None,
        },
        text_at(node, seq![key] + path) == match node.shape {
            Shape::Table(entries) => if entries.dom().contains(key) {
                text_at(entries[key], path)
            } else {
                None
            },
            _ => None,
        },
{
    assert((seq![key] + path).drop_first() =~= path);
}

/// In a Python name small letters stand for capitals, and a dash for every run
/// of dashes, underscores and dots. Other ASCII characters stand for
/// themselves.
pub proof fn law_python_names(name: Seq<char>, more: char)
    ensures
        ({
            let prior = normalized_python(name);
            let next = normalized_python(name.push(more));
            &&& more == '-' || more == '_' || more == '.' ==> next == if prior.len() > 0
                && prior.last() == '-' {
                prior
            } else {
                prior.push('-')
            }
            &&& 'a' <= more <= 'z' || '0' <= more <= '9' ==> next == prior.push(more)
            &&& more == 'A' ==> next == prior.push('a')
            &&& more == 'Z' ==> next == prior.push('z')
            &&& 'A' <= more <= 'Z' ==> next.len() == prior.len() + 1 && next.drop_last() == prior
                && next.last() as u32 == more as u32 + 32
        }),
        normalized_python(Seq::empty()).len() == 0,
{
    assert(name.push(more).drop_last() =~= name);
    let prior = normalized_python(name);
    let next = normalized_python(name.push(more));
    if 'A' <= more <= 'Z' {
        let letter = (more as u32 + 32) as char;
        assert(next =~= prior.push(letter));
        assert(next.drop_last() =~= prior);
    } else if 'a' <= more <= 'z' || '0' <= more <= '9' {
        assert(next =~= prior.push(more));
    }
}

} // verus!
