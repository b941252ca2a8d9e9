//! Which files a release is about, and how they are called.

use vstd::prelude::*;
use vstd::string::*;

use crate::disk::{
    file_in, first_file, label_of, listing_in, nearest_file, parent_of, DiskModel, FileModel,
    ListingModel, Progress,
};
use crate::error::Failure;
use crate::manifest::{format_of, manifest_of, Format, ManifestModel};
use crate::project::{
    chosen, labels, located_project, manifest_names, manifests_in, most_useful, nearest_manifest,
    versioned, ExplicitModel, ProjectModel,
};
use crate::text::joined;

verus! {

// ---------------------------------------------------------------------------
// What is known

/// What is known of a file is what the first look at its path found.
pub proof fn law_first_look_counts(files: Seq<FileModel>, path: Seq<Seq<char>>, at: int)
    requires
        0 <= at <= files.len(),
        forall|i: int| 0 <= i < at ==> (#[trigger] files[i]).path != path,
        at < files.len() ==> files[at].path == path,
    ensures
        file_in(files, path) == if at < files.len() {
            Some(files[at])
        } else {
            None
        },
    decreases files.len(),
{
    if at > 0 {
        let rest = files.drop_first();
        assert(files[0].path != path);
        assert forall|i: int| 0 <= i < at - 1 implies (#[trigger] rest[i]).path != path by {
            assert(rest[i] == files[i + 1]);
        }
        law_first_look_counts(rest, path, at - 1);
    }
}

/// What is known of a directory is what the first listing of it told.
pub proof fn law_first_listing_counts(
    listings: Seq<ListingModel>,
    path: Seq<Seq<char>>,
    at: int,
)
    requires
        0 <= at <= listings.len(),
        forall|i: int| 0 <= i < at ==> (#[trigger] listings[i]).path != path,
        at < listings.len() ==> listings[at].path == path,
    ensures
        listing_in(listings, path) == if at < listings.len() {
            Some(listings[at].directories)
        } else {
            None
        },
    decreases listings.len(),
{
    if at > 0 {
        let rest = listings.drop_first();
        assert(listings[0].path != path);
        assert forall|i: int| 0 <= i < at - 1 implies (#[trigger] rest[i]).path != path by {
            assert(rest[i] == listings[i + 1]);
        }
        law_first_listing_counts(rest, path, at - 1);
    }
}

/// Joining puts the separator between each two parts and nowhere else.
pub proof fn law_joining(parts: Seq<Seq<char>>, more: Seq<char>, separator: Seq<char>)
    ensures
        joined(Seq::empty(), separator).len() == 0,
        joined(seq![more], separator) == more,
        parts.len() > 0 ==> joined(parts.push(more), separator) == joined(parts, separator)
            + separator + more,
{
    assert(parts.push(more).drop_last() =~= parts);
}

/// A path inside the root is called by what is behind the root, with `/`
/// between its components; one outside by all of it.
pub proof fn law_labels(root: Seq<Seq<char>>, path: Seq<Seq<char>>)
    ensures
        root.len() <= path.len() && path.take(root.len() as int) == root ==> label_of(root, path)
            == joined(path.skip(root.len() as int), seq!['/']),
        root.len() > path.len() || path.take(root.len() as int) != root ==> label_of(root, path)
            == joined(path, seq!['/']),
{
    reveal_strlit("/");
    assert("/"@ =~= seq!['/']);
    if root.len() <= path.len() {
        assert(path.subrange(0, root.len() as int) =~= path.take(root.len() as int));
    }
}

/// The directory of a path is the path without its last component.
pub proof fn law_parents(path: Seq<Seq<char>>)
    ensures
        path.len() > 0 ==> parent_of(path) == path.take(path.len() - 1),
{
    if path.len() > 0 {
        assert(path.drop_last() =~= path.take(path.len() - 1));
    }
}

/// Whether it is known that no file is at a path.
pub open spec fn no_file(disk: DiskModel, path: Seq<Seq<char>>) -> bool {
    disk.file(path) matches Some(file) && !file.is_file
}

/// Whether it is known that a file is at a path.
pub open spec fn a_file(disk: DiskModel, path: Seq<Seq<char>>) -> bool {
    disk.file(path) matches Some(file) && file.is_file
}

// ---------------------------------------------------------------------------
// Lockfiles

proof fn lemma_first_file(
    directory: Seq<Seq<char>>,
    names: Seq<Seq<char>>,
    disk: DiskModel,
    at: int,
)
    requires
        0 <= at <= names.len(),
        forall|k: int| 0 <= k < at ==> no_file(disk, directory.push(#[trigger] names[k])),
    ensures
        at == names.len() ==> first_file(directory, names, disk) == Progress::<
            Option<Seq<Seq<char>>>,
        >::Done(None),
        at < names.len() && a_file(disk, directory.push(names[at])) ==> first_file(
            directory,
            names,
            disk,
        ) == Progress::Done(Some(directory.push(names[at]))),
        at < names.len() && disk.file(directory.push(names[at])) is None ==> first_file(
            directory,
            names,
            disk,
        ) == Progress::<Option<Seq<Seq<char>>>>::Look(directory.push(names[at])),
    decreases names.len(),
{
    if at > 0 {
        let rest = names.drop_first();
        assert(no_file(disk, directory.push(names[0])));
        assert forall|k: int| 0 <= k < at - 1 implies no_file(
            disk,
            directory.push(#[trigger] rest[k]),
        ) by {
            assert(rest[k] == names[k + 1]);
        }
        lemma_first_file(directory, rest, disk, at - 1);
    }
}

/// A lockfile is looked for at or above a directory. The first directory on the
/// way up that has a file of one of the names decides, and in it the first of
/// the names.
pub proof fn law_nearest_lockfile(
    directory: Seq<Seq<char>>,
    root: Seq<Seq<char>>,
    names: Seq<Seq<char>>,
    disk: DiskModel,
    depth: int,
    at: int,
)
    requires
        root.len() <= depth <= directory.len(),
        directory.take(root.len() as int) == root,
        0 <= at < names.len(),
        forall|d: int, k: int|
            depth < d <= directory.len() && 0 <= k < names.len() ==> no_file(
                disk,
                (#[trigger] directory.take(d)).push(#[trigger] names[k]),
            ),
        forall|k: int|
            0 <= k < at ==> no_file(disk, directory.take(depth).push(#[trigger] names[k])),
        a_file(disk, directory.take(depth).push(names[at])),
    ensures
        nearest_file(directory, root, names, disk) == Progress::Done(
            Some(directory.take(depth).push(names[at])),
        ),
    decreases directory.len(),
{
    assert(directory.take(directory.len() as int) =~= directory);
    assert(directory.subrange(0, root.len() as int) =~= directory.take(root.len() as int));
    if depth == directory.len() {
        lemma_first_file(directory, names, disk, at);
    } else {
        let above = directory.drop_last();
        assert forall|k: int| 0 <= k < names.len() implies no_file(
            disk,
            directory.push(#[trigger] names[k]),
        ) by {
            assert(no_file(disk, directory.take(directory.len() as int).push(names[k])));
        }
        lemma_first_file(directory, names, disk, names.len() as int);
        assert(above.take(root.len() as int) =~= directory.take(root.len() as int));
        assert(above.take(depth) =~= directory.take(depth));
        assert forall|d: int, k: int| depth < d <= above.len() && 0 <= k < names.len() implies
            no_file(disk, (#[trigger] above.take(d)).push(#[trigger] names[k])) by {
            assert(above.take(d) =~= directory.take(d));
            assert(no_file(disk, directory.take(d).push(names[k])));
        }
        law_nearest_lockfile(above, root, names, disk, depth, at);
    }
}

/// Where no directory from the given one up to the root has a file of these
/// names, there is none.
pub proof fn law_no_lockfile(
    directory: Seq<Seq<char>>,
    root: Seq<Seq<char>>,
    names: Seq<Seq<char>>,
    disk: DiskModel,
)
    requires
        root.len() <= directory.len(),
        directory.take(root.len() as int) == root,
        forall|d: int, k: int|
            root.len() <= d <= directory.len() && 0 <= k < names.len() ==> no_file(
                disk,
                (#[trigger] directory.take(d)).push(#[trigger] names[k]),
            ),
    ensures
        nearest_file(directory, root, names, disk) == Progress::<Option<Seq<Seq<char>>>>::Done(
            None,
        ),
    decreases directory.len(),
{
    assert(directory.take(directory.len() as int) =~= directory);
    assert(directory.subrange(0, root.len() as int) =~= directory.take(root.len() as int));
    assert forall|k: int| 0 <= k < names.len() implies no_file(
        disk,
        directory.push(#[trigger] names[k]),
    ) by {
        assert(no_file(disk, directory.take(directory.len() as int).push(names[k])));
    }
    lemma_first_file(directory, names, disk, names.len() as int);
    if directory.len() > root.len() {
        let above = directory.drop_last();
        assert(above.take(root.len() as int) =~= directory.take(root.len() as int));
        assert forall|d: int, k: int|
            root.len() <= d <= above.len() && 0 <= k < names.len() implies no_file(
            disk,
            (#[trigger] above.take(d)).push(#[trigger] names[k]),
        ) by {
            assert(above.take(d) =~= directory.take(d));
            assert(no_file(disk, directory.take(d).push(names[k])));
        }
        law_no_lockfile(above, root, names, disk);
    } else if directory.len() > 0 {
        let above = directory.drop_last();
        assert(!root.is_prefix_of(above));
        assert(nearest_file(above, root, names, disk) == Progress::<
            Option<Seq<Seq<char>>>,
        >::Done(None));
    }
}

// ---------------------------------------------------------------------------
// Manifests

/// The three names of manifests, in their order.
pub proof fn law_manifest_names()
    ensures
        manifest_names() == seq!["package.json"@, "Cargo.toml"@, "pyproject.toml"@],
{
    assert(manifest_names() =~= seq!["package.json"@, "Cargo.toml"@, "pyproject.toml"@]);
}

/// The format goes by the last component of the path alone.
pub proof fn law_formats(path: Seq<Seq<char>>)
    ensures
        format_of(path) == Some(Format::Npm) <==> path.len() > 0 && path.last()
            == "package.json"@,
        format_of(path) == Some(Format::Cargo) <==> path.len() > 0 && path.last() == "Cargo.toml"@,
        format_of(path) == Some(Format::Python) <==> path.len() > 0 && path.last()
            == "pyproject.toml"@,
{
    reveal_strlit("package.json");
    reveal_strlit("Cargo.toml");
    reveal_strlit("pyproject.toml");
    assert("package.json"@.len() == 12);
    assert("Cargo.toml"@.len() == 10);
    assert("pyproject.toml"@.len() == 14);
}

/// What is in a directory about a project: the manifests that are files there,
/// each read, in the order of their names.
pub open spec fn read_there(
    directory: Seq<Seq<char>>,
    root: Seq<Seq<char>>,
    disk: DiskModel,
) -> Seq<Result<ManifestModel, Failure>> {
    let one = |name: Seq<char>|
        {
            let path = directory.push(name);
            if a_file(disk, path) {
                seq![manifest_of(path, label_of(root, path), disk.file(path)->0.contents)]
            } else {
                Seq::empty()
            }
        };
    one("package.json"@) + one("Cargo.toml"@) + one("pyproject.toml"@)
}

/// Whether it is known of each manifest whether it is in a directory.
pub open spec fn all_known(directory: Seq<Seq<char>>, disk: DiskModel) -> bool {
    &&& disk.file(directory.push("package.json"@)) is Some
    &&& disk.file(directory.push("Cargo.toml"@)) is Some
    &&& disk.file(directory.push("pyproject.toml"@)) is Some
}

proof fn lemma_manifests_in(directory: Seq<Seq<char>>, root: Seq<Seq<char>>, disk: DiskModel)
    requires
        all_known(directory, disk),
    ensures
        manifests_in(directory, root, manifest_names(), disk) == Progress::Done(
            read_there(directory, root, disk),
        ),
{
    law_manifest_names();
    let names = manifest_names();
    let two = names.drop_last();
    let first = two.drop_last();
    assert(names.last() == "pyproject.toml"@);
    assert(two.last() == "Cargo.toml"@);
    assert(first.last() == "package.json"@);
    assert(first.drop_last() =~= Seq::empty());
    assert(manifests_in(directory, root, first.drop_last(), disk) == Progress::Done(
        Seq::<Result<ManifestModel, Failure>>::empty(),
    ));
    let given = manifests_in(directory, root, first, disk);
    let both = manifests_in(directory, root, two, disk);
    let all = manifests_in(directory, root, names, disk);
    assert(given is Done && both is Done && all is Done);
    assert(all->Done_0 =~= read_there(directory, root, disk));
}

/// Without a manifest that is asked for, the nearest directory at or above the
/// current one that has any manifest decides. Where that is one, it is taken,
/// with whatever is wrong with it.
pub proof fn law_nearest_manifest(
    root: Seq<Seq<char>>,
    directory: Seq<Seq<char>>,
    disk: DiskModel,
    depth: int,
)
    requires
        root.len() <= depth <= directory.len(),
        directory.take(root.len() as int) == root,
        forall|d: int|
            depth <= d <= directory.len() ==> all_known(#[trigger] directory.take(d), disk),
        forall|d: int|
            depth < d <= directory.len() ==> read_there(
                #[trigger] directory.take(d),
                root,
                disk,
            ).len() == 0,
        read_there(directory.take(depth), root, disk).len() > 0,
    ensures
        nearest_manifest(directory, root, disk) == Progress::Done(
            chosen(read_there(directory.take(depth), root, disk)),
        ),
    decreases directory.len(),
{
    assert(directory.take(directory.len() as int) =~= directory);
    assert(directory.subrange(0, root.len() as int) =~= directory.take(root.len() as int));
    assert(all_known(directory.take(directory.len() as int), disk));
    lemma_manifests_in(directory, root, disk);
    if depth < directory.len() {
        let above = directory.drop_last();
        assert(read_there(directory.take(directory.len() as int), root, disk).len() == 0);
        assert(above.take(root.len() as int) =~= directory.take(root.len() as int));
        assert(above.take(depth) =~= directory.take(depth));
        assert forall|d: int| depth <= d <= above.len() implies all_known(
            #[trigger] above.take(d),
            disk,
        ) by {
            assert(above.take(d) =~= directory.take(d));
            assert(all_known(directory.take(d), disk));
        }
        assert forall|d: int| depth < d <= above.len() implies read_there(
            #[trigger] above.take(d),
            root,
            disk,
        ).len() == 0 by {
            assert(above.take(d) =~= directory.take(d));
            assert(read_there(directory.take(d), root, disk).len() == 0);
        }
        law_nearest_manifest(root, above, disk, depth);
    }
}

/// Where there is no manifest from the current directory up to the root, none
/// is found, even if there are some above the root.
pub proof fn law_no_manifest(root: Seq<Seq<char>>, directory: Seq<Seq<char>>, disk: DiskModel)
    requires
        root.len() <= directory.len(),
        directory.take(root.len() as int) == root,
        forall|d: int|
            root.len() <= d <= directory.len() ==> all_known(#[trigger] directory.take(d), disk)
                && read_there(directory.take(d), root, disk).len() == 0,
    ensures
        nearest_manifest(directory, root, disk) == Progress::Done(
            Err::<ManifestModel, _>(Failure::ManifestNotFound),
        ),
    decreases directory.len(),
{
    assert(directory.take(directory.len() as int) =~= directory);
    assert(directory.subrange(0, root.len() as int) =~= directory.take(root.len() as int));
    assert(all_known(directory.take(directory.len() as int), disk));
    lemma_manifests_in(directory, root, disk);
    if directory.len() > root.len() {
        let above = directory.drop_last();
        assert(above.take(root.len() as int) =~= directory.take(root.len() as int));
        assert forall|d: int| root.len() <= d <= above.len() implies all_known(
            #[trigger] above.take(d),
            disk,
        ) && read_there(above.take(d), root, disk).len() == 0 by {
            assert(above.take(d) =~= directory.take(d));
            assert(all_known(directory.take(d), disk));
        }
        law_no_manifest(root, above, disk);
    } else if directory.len() > 0 {
        let above = directory.drop_last();
        assert(!root.is_prefix_of(above));
        assert(nearest_manifest(above, root, disk) == Progress::Done(
            Err::<ManifestModel, _>(Failure::ManifestNotFound),
        ));
    }
}

/// Of several manifests none of which can be taken, the first failure that is
/// about more than a missing version is told, or else the first.
pub proof fn law_most_useful_failure(read: Seq<Result<ManifestModel, Failure>>, at: int)
    requires
        0 <= at < read.len(),
        forall|i: int| 0 <= i < read.len() ==> (#[trigger] read[i]) is Err,
        forall|i: int| 0 <= i < at ==> (#[trigger] read[i])->Err_0 is MissingVersion,
        !(read[at]->Err_0 is MissingVersion) || (at == 0 && forall|i: int|
            0 <= i < read.len() ==> (#[trigger] read[i])->Err_0 is MissingVersion),
    ensures
        chosen(read) == read[at],
    decreases read.len(),
{
    if read.len() > 1 {
        lemma_none_versioned(read);
        lemma_most_useful(read, at);
    }
}

proof fn lemma_none_versioned(read: Seq<Result<ManifestModel, Failure>>)
    requires
        forall|i: int| 0 <= i < read.len() ==> (#[trigger] read[i]) is Err,
    ensures
        versioned(read).len() == 0,
    decreases read.len(),
{
    if read.len() > 0 {
        let fewer = read.drop_last();
        assert(read[read.len() - 1] is Err);
        assert forall|i: int| 0 <= i < fewer.len() implies (#[trigger] fewer[i]) is Err by {
            assert(fewer[i] == read[i]);
        }
        lemma_none_versioned(fewer);
    }
}

proof fn lemma_most_useful(read: Seq<Result<ManifestModel, Failure>>, at: int)
    requires
        0 <= at < read.len(),
        forall|i: int| 0 <= i < at ==> (#[trigger] read[i])->Err_0 is MissingVersion,
        !(read[at]->Err_0 is MissingVersion) || (at == 0 && forall|i: int|
            0 <= i < read.len() ==> (#[trigger] read[i])->Err_0 is MissingVersion),
    ensures
        most_useful(read) == read[at]->Err_0,
    decreases read.len(),
{
    if read.len() > 1 {
        let fewer = read.drop_last();
        assert(read[read.len() - 1] == read.last());
        if at < fewer.len() {
            assert forall|i: int| 0 <= i < at implies (
            #[trigger] fewer[i])->Err_0 is MissingVersion by {
                assert(fewer[i] == read[i]);
            }
            if read[at]->Err_0 is MissingVersion {
                assert forall|i: int| 0 <= i < fewer.len() implies (
                #[trigger] fewer[i])->Err_0 is MissingVersion by {
                    assert(fewer[i] == read[i]);
                }
            }
            lemma_most_useful(fewer, at);
        } else {
            assert forall|i: int| 0 <= i < fewer.len() implies (
            #[trigger] fewer[i])->Err_0 is MissingVersion by {
                assert(fewer[i] == read[i]);
            }
            lemma_most_useful(fewer, 0);
        }
    }
}

/// Where several carry a version, their labels are told in order.
pub proof fn law_ambiguous_labels(
    read: Seq<Result<ManifestModel, Failure>>,
    one: ManifestModel,
    other: ManifestModel,
)
    requires
        read.len() == 2,
        read[0] == Ok::<_, Failure>(one),
        read[1] == Ok::<_, Failure>(other),
    ensures
        chosen(read) == Err::<ManifestModel, _>(
            Failure::AmbiguousManifest(seq![one.label, other.label]),
        ),
{
    let first = read.drop_last();
    assert(first.last() == read[0] && read.last() == read[1]);
    assert(first.drop_last() =~= Seq::empty());
    assert(versioned(first.drop_last()) =~= Seq::empty());
    assert(versioned(first) =~= seq![one]);
    assert(versioned(read) =~= seq![one, other]);
    assert(labels(versioned(read)) =~= seq![one.label, other.label]);
}

/// A manifest that is asked for is taken as it is inside the repository, and
/// refused outside, wherever the current directory is.
pub proof fn law_explicit_manifests(
    root: Seq<Seq<char>>,
    given: ExplicitModel,
    directory: Option<Seq<Seq<char>>>,
    disk: DiskModel,
)
    ensures
        root.len() > given.path.len() || given.path.take(root.len() as int) != root
            ==> located_project(root, Some(given), directory, disk) == Progress::Done(
            Err::<ProjectModel, _>(Failure::OutsideRepository(given.shown)),
        ),
        root.len() <= given.path.len() && given.path.take(root.len() as int) == root ==> match (
            disk.file(given.path),
            located_project(root, Some(given), directory, disk),
        ) {
            (None, Progress::Look(path)) => path == given.path,
            (Some(file), Progress::Done(Ok(project))) => manifest_of(
                given.path,
                label_of(root, given.path),
                file.contents,
            ) == Ok::<_, Failure>(project.manifest),
            (Some(file), Progress::Done(Err(failure))) => manifest_of(
                given.path,
                label_of(root, given.path),
                file.contents,
            ) == Err::<ManifestModel, _>(failure),
            _ => false,
        },
{
    if root.len() <= given.path.len() {
        assert(given.path.subrange(0, root.len() as int) =~= given.path.take(root.len() as int));
    }
}

/// Without one, the nearest manifest is taken; without a current directory
/// there is none.
pub proof fn law_nearest_is_located(
    root: Seq<Seq<char>>,
    directory: Option<Seq<Seq<char>>>,
    disk: DiskModel,
)
    ensures
        match directory {
            None => located_project(root, None, directory, disk) == Progress::Done(
                Err::<ProjectModel, _>(Failure::ManifestNotFound),
            ),
            Some(directory) => match (
                nearest_manifest(directory, root, disk),
                located_project(root, None, Some(directory), disk),
            ) {
                (Progress::Done(Ok(manifest)), Progress::Done(Ok(project))) => project.manifest
                    == manifest,
                (Progress::Done(Err(failure)), Progress::Done(Err(told))) => told == failure,
                (Progress::Look(path), Progress::Look(asked)) => asked == path,
                (Progress::List(path), Progress::List(asked)) => asked == path,
                _ => false,
            },
        },
{
}

} // verus!
