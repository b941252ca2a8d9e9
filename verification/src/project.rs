//! The project that a release is about: its manifest, its tags and its edits.

use vstd::prelude::*;
use vstd::slice::slice_subrange;
use vstd::string::*;

use crate::disk::{
    child, label, label_of, maybe_path, progress, same_path, starts_with, Disk, DiskModel, File,
    Lookup, Progress,
};
use crate::edit::{edit_models, Edit, EditModel};
use crate::error::{outcome, Failure, VersionerError};
use crate::lockfile::{edits_model, lockfile_edits};
use crate::manifest::{manifest_of, Format, Manifest, ManifestModel};
use crate::text::{
    before_suffix, chars_of, copied_texts, maybe_slice, maybe_text, occurs, split, split_at_each,
    stands_at, strip_suffix, text_of, texts,
};
use crate::version::{Version, VersionModel};

verus! {

// ---------------------------------------------------------------------------
// Tag scopes

/// Whether a character may stand in a tag scope: `[A-Za-z0-9._-]`.
pub open spec fn is_slug_char(character: char) -> bool {
    ||| 'a' <= character <= 'z'
    ||| 'A' <= character <= 'Z'
    ||| '0' <= character <= '9'
    ||| character == '.'
    ||| character == '_'
    ||| character == '-'
}

/// The text with `-` in place of each character that may not stand in a tag
/// scope.
pub open spec fn dashed(name: Seq<char>) -> Seq<char> {
    Seq::new(
        name.len(),
        |i: int|
            if is_slug_char(name[i]) {
                name[i]
            } else {
                '-'
            },
    )
}

/// The text without the `.` and `-` at its ends.
pub open spec fn bared(text: Seq<char>) -> Seq<char>
    decreases text.len(),
{
    if text.len() == 0 {
        text
    } else if text[0] == '.' || text[0] == '-' {
        bared(text.drop_first())
    } else if text.last() == '.' || text.last() == '-' {
        bared(text.drop_last())
    } else {
        text
    }
}

/// The text without a `.lock` at its end.
pub open spec fn unlocked(text: Seq<char>) -> Seq<char> {
    match before_suffix(text, ".lock"@) {
        Some(shorter) => shorter,
        None => text,
    }
}

/// The text without the `.lock` or the `.` at its end, if it ends in one.
pub open spec fn shortened(text: Seq<char>) -> Option<Seq<char>> {
    match before_suffix(text, ".lock"@) {
        Some(shorter) => Some(shorter),
        None => before_suffix(text, "."@),
    }
}

/// The text without any `.lock` and `.` at its end.
pub open spec fn tailed(text: Seq<char>) -> Seq<char>
    decreases text.len(),
{
    proof {
        lemma_shortened(text);
    }
    match shortened(text) {
        Some(shorter) => tailed(shorter),
        None => text,
    }
}

/// The text with `-` in place of each `.` right behind another.
pub open spec fn undoubled(text: Seq<char>) -> Seq<char> {
    Seq::new(
        text.len(),
        |i: int|
            if i > 0 && text[i] == '.' && text[i - 1] == '.' {
                '-'
            } else {
                text[i]
            },
    )
}

/// A name as part of a git ref.
pub open spec fn slug(name: Seq<char>) -> Seq<char> {
    undoubled(tailed(bared(dashed(name))))
}

/// Whether a text is a ref component that `git check-ref-format` accepts, of
/// the characters of a tag scope and without punctuation at its start.
pub open spec fn fits_git_ref(text: Seq<char>) -> bool {
    &&& text.len() > 0
    &&& forall|i: int| 0 <= i < text.len() ==> is_slug_char(#[trigger] text[i])
    &&& text[0] != '.' && text[0] != '-'
    &&& !occurs(text, ".."@)
    &&& text.last() != '.'
    &&& before_suffix(text, ".lock"@) is None
}

/// What is left of a text is its start, and ends where the suffix began.
pub proof fn lemma_shortened(text: Seq<char>)
    ensures
        shortened(text) matches Some(shorter) ==> shorter.len() < text.len() && shorter
            == text.take(shorter.len() as int) && text[shorter.len() as int] == '.',
        shortened(text) is None <==> before_suffix(text, ".lock"@) is None && (text.len() > 0
            ==> text.last() != '.'),
{
    reveal_strlit(".");
    reveal_strlit(".lock");
    assert("."@.len() == 1 && "."@[0] == '.');
    assert(".lock"@.len() == 5 && ".lock"@[0] == '.');
    if text.len() > 0 {
        let end = text.subrange(text.len() - 1, text.len() as int);
        assert(end[0] == text.last());
        if text.last() == '.' {
            assert(end =~= "."@);
        }
    }
    if let Some(shorter) = before_suffix(text, ".lock"@) {
        assert(text.subrange(text.len() - 5, text.len() as int)[0] == text[text.len() - 5]);
    }
}

/// Keeps only what `git check-ref-format` is happy with, and drops the `.lock`
/// suffix and leading punctuation git rejects outright.
pub fn slugify(name: &str) -> (slug: String)
    ensures
        slug@ == self::slug(name@),
        slug@.len() > 0 ==> fits_git_ref(slug@),
{
    let given = chars_of(name);
    let mut kept: Vec<char> = Vec::new();
    let mut at: usize = 0;
    while at < given.len()
        invariant
            at <= given@.len(),
            given@ == name@,
            kept@.len() == at,
            forall|i: int| 0 <= i < at ==> #[trigger] kept@[i] == dashed(name@)[i],
        decreases given@.len() - at,
    {
        let character = given[at];
        if ('a' <= character && character <= 'z') || ('A' <= character && character <= 'Z') || ('0'
            <= character && character <= '9') || character == '.' || character == '_' || character
            == '-' {
            kept.push(character);
        } else {
            kept.push('-');
        }
        at = at + 1;
    }
    let ghost all = dashed(name@);
    assert(kept@ =~= all);
    let mut start: usize = 0;
    let mut end: usize = kept.len();
    assert(all.subrange(0, end as int) =~= all);
    while start < end && (kept[start] == '.' || kept[start] == '-')
        invariant
            start <= end == kept@.len(),
            kept@ == all,
            bared(all) == bared(all.subrange(start as int, end as int)),
        decreases end - start,
    {
        assert(all.subrange(start as int, end as int).drop_first() =~= all.subrange(
            start + 1,
            end as int,
        ));
        start = start + 1;
    }
    while start < end && (kept[end - 1] == '.' || kept[end - 1] == '-')
        invariant
            start <= end <= kept@.len(),
            kept@ == all,
            start < end ==> all[start as int] != '.' && all[start as int] != '-',
            bared(all) == bared(all.subrange(start as int, end as int)),
        decreases end - start,
    {
        assert(all.subrange(start as int, end as int).drop_last() =~= all.subrange(
            start as int,
            end - 1,
        ));
        end = end - 1;
    }
    let trimmed = text_of(kept.as_slice(), start, end);
    assert(trimmed@ == bared(all));
    let ended = end_slug(trimmed);
    proof {
        law_slugs_fit_git_refs(name@);
    }
    part_dots(ended.as_str())
}

/// Drops every `.lock` and `.` at the end.
fn end_slug(text: String) -> (ended: String)
    ensures
        ended@ == tailed(text@),
{
    let mut ended = text;
    loop
        invariant
            tailed(ended@) == tailed(text@),
        decreases ended@.len(),
    {
        proof {
            lemma_shortened(ended@);
        }
        if let Some(shorter) = strip_suffix(ended.as_str(), ".lock") {
            ended = shorter;
        } else if let Some(shorter) = strip_suffix(ended.as_str(), ".") {
            ended = shorter;
        } else {
            return ended;
        }
    }
}

/// Writes `-` for each `.` right behind another.
fn part_dots(text: &str) -> (parted: String)
    ensures
        parted@ == undoubled(text@),
{
    let given = chars_of(text);
    let mut parted: Vec<char> = Vec::new();
    let mut at: usize = 0;
    while at < given.len()
        invariant
            at <= given@.len(),
            given@ == text@,
            parted@.len() == at,
            forall|i: int| 0 <= i < at ==> #[trigger] parted@[i] == undoubled(text@)[i],
        decreases given@.len() - at,
    {
        if at > 0 && given[at] == '.' && given[at - 1] == '.' {
            parted.push('-');
        } else {
            parted.push(given[at]);
        }
        at = at + 1;
    }
    let result = text_of(parted.as_slice(), 0, parted.len());
    assert(result@ =~= undoubled(text@));
    result
}

proof fn lemma_bared(text: Seq<char>)
    ensures
        bared(text).len() > 0 ==> {
            &&& bared(text)[0] != '.' && bared(text)[0] != '-'
            &&& bared(text).last() != '.' && bared(text).last() != '-'
        },
        forall|i: int| 0 <= i < bared(text).len() ==> text.contains(#[trigger] bared(text)[i]),
        bared(text).len() == 0 <==> forall|i: int|
            0 <= i < text.len() ==> (#[trigger] text[i]) == '.' || text[i] == '-',
    decreases text.len(),
{
    if text.len() > 0 {
        let first = text[0] == '.' || text[0] == '-';
        let shorter = if first {
            text.drop_first()
        } else {
            text.drop_last()
        };
        assert forall|character: char| shorter.contains(character) implies text.contains(
            character,
        ) by {
            let at = choose|at: int| 0 <= at < shorter.len() && shorter[at] == character;
            if first {
                assert(text[at + 1] == character);
            } else {
                assert(text[at] == character);
            }
        }
        lemma_bared(shorter);
        if first {
            if bared(text).len() == 0 {
                assert forall|i: int| 0 <= i < text.len() implies (#[trigger] text[i]) == '.'
                    || text[i] == '-' by {
                    if i > 0 {
                        assert(shorter[i - 1] == text[i]);
                    }
                }
            } else {
                let i = choose|i: int|
                    0 <= i < shorter.len() && !((#[trigger] shorter[i]) == '.' || shorter[i]
                        == '-');
                assert(text[i + 1] == shorter[i]);
            }
        } else {
            assert(!(text[0] == '.' || text[0] == '-'));
            if bared(text).len() == 0 {
                assert(shorter.len() > 0);
                assert(shorter[0] == text[0]);
            }
        }
    }
}

proof fn lemma_tailed(text: Seq<char>)
    ensures
        tailed(text).len() <= text.len(),
        tailed(text) == text.take(tailed(text).len() as int),
        shortened(tailed(text)) is None,
        text.len() > 0 && text[0] != '.' ==> tailed(text).len() > 0,
    decreases text.len(),
{
    lemma_shortened(text);
    match shortened(text) {
        Some(shorter) => {
            lemma_tailed(shorter);
            assert(tailed(text) =~= text.take(tailed(text).len() as int));
        },
        None => {
            assert(text.take(text.len() as int) =~= text);
        },
    }
}

/// A tag scope is a ref component that git accepts: it has only characters that
/// git takes, no two dots in a row, neither `.` nor `-` at its start, and
/// neither `.` nor `.lock` at its end. It is empty only for a name that has
/// nothing but punctuation.
pub proof fn law_slugs_fit_git_refs(name: Seq<char>)
    ensures
        slug(name).len() > 0 ==> fits_git_ref(slug(name)),
        slug(name).len() == 0 <==> forall|i: int|
            0 <= i < name.len() ==> (#[trigger] dashed(name)[i]) == '.' || dashed(name)[i] == '-',
{
    let all = dashed(name);
    let body = bared(all);
    let ended = tailed(body);
    let result = slug(name);
    lemma_bared(all);
    lemma_tailed(body);
    lemma_shortened(ended);
    assert forall|i: int| 0 <= i < result.len() implies is_slug_char(#[trigger] result[i]) by {
        assert(ended[i] == body[i]);
        assert(all.contains(body[i]));
        let at = choose|at: int| 0 <= at < all.len() && all[at] == body[i];
        assert(is_slug_char(all[at]));
    }
    reveal_strlit("..");
    assert(".."@.len() == 2 && ".."@[0] == '.' && ".."@[1] == '.');
    if occurs(result, ".."@) {
        let at = choose|at: int| stands_at(result, ".."@, at);
        let found = result.subrange(at, at + 2);
        assert(found[0] == result[at] && found[1] == result[at + 1]);
        assert(ended[at] == '.' && ended[at + 1] == '.');
    }
    if result.len() > 0 {
        assert(result.last() == result[result.len() - 1]);
        assert(ended.last() == ended[ended.len() - 1]);
        assert(ended[0] == body[0]);
        assert(result[0] == ended[0]);
    }
    reveal_strlit(".lock");
    let lock = ".lock"@;
    assert(lock.len() == 5 && lock[0] == '.' && lock[1] == 'l' && lock[2] == 'o' && lock[3] == 'c'
        && lock[4] == 'k');
    if before_suffix(result, lock) is Some {
        let first = result.len() - 5;
        let end = result.subrange(first, result.len() as int);
        assert forall|i: int| 0 <= i < 5 implies ended.subrange(first, ended.len() as int)[i]
            == lock[i] by {
            assert(end[i] == result[first + i]);
            assert(result[first + i] == lock[i]);
            assert(ended[first + i] == lock[i]);
        }
        assert(ended.subrange(first, ended.len() as int) =~= lock);
        assert(stands_at(ended, lock, first));
    }
}

/// Dropping the punctuation at the ends and one `.lock` is all that happens to a
/// name, apart from its characters, where git accepts what that leaves.
pub proof fn law_slugs_change_only_what_git_rejects(name: Seq<char>)
    ensures
        ({
            let plain = unlocked(bared(dashed(name)));
            plain.len() == 0 || fits_git_ref(plain) ==> slug(name) == plain
        }),
{
    let body = bared(dashed(name));
    let plain = unlocked(body);
    lemma_bared(dashed(name));
    lemma_shortened(body);
    lemma_shortened(plain);
    if plain.len() == 0 || fits_git_ref(plain) {
        lemma_tailed(body);
        assert(shortened(plain) is None) by {
            reveal_strlit(".lock");
            assert(".lock"@.len() == 5);
        }
        assert(tailed(plain) == plain);
        assert(tailed(body) == plain);
        lemma_undoubled(plain);
    }
}

/// A text without two dots in a row stays as it is.
proof fn lemma_undoubled(text: Seq<char>)
    requires
        text.len() == 0 || !occurs(text, ".."@),
    ensures
        undoubled(text) == text,
{
    reveal_strlit("..");
    assert forall|i: int| 0 <= i < text.len() implies undoubled(text)[i] == text[i] by {
        if i > 0 && text[i] == '.' && text[i - 1] == '.' {
            assert(text.subrange(i - 1, i + 1) =~= ".."@);
            assert(stands_at(text, ".."@, i - 1));
        }
    }
    assert(undoubled(text) =~= text);
}

/// A name that git accepts as it is stays as it is, if it does not end in `-`.
pub proof fn law_fitting_names_are_kept(name: Seq<char>)
    requires
        fits_git_ref(name),
        name.last() != '-',
    ensures
        slug(name) == name,
{
    assert(dashed(name) =~= name);
    lemma_shortened(name);
    lemma_undoubled(name);
}

/// The tag namespace of the package of this name whose manifest is at this
/// path: the unscoped half of its name, or else the directory it lives in.
pub open spec fn scope_of(name: Option<Seq<char>>, path: Seq<Seq<char>>) -> Seq<char> {
    let unscoped = slug(
        match name {
            Some(name) => split_at_each(name, '/').last(),
            None => Seq::empty(),
        },
    );
    let directory = slug(
        if path.len() >= 2 {
            path[path.len() - 2]
        } else {
            Seq::empty()
        },
    );
    if unscoped.len() > 0 {
        unscoped
    } else if directory.len() > 0 {
        directory
    } else {
        "package"@
    }
}

/// Every tag namespace is a ref component that git accepts.
pub proof fn law_scopes_fit_git_refs(name: Option<Seq<char>>, path: Seq<Seq<char>>)
    ensures
        fits_git_ref(scope_of(name, path)),
{
    let unscoped = match name {
        Some(name) => split_at_each(name, '/').last(),
        None => Seq::empty(),
    };
    let directory = if path.len() >= 2 {
        path[path.len() - 2]
    } else {
        Seq::empty()
    };
    law_slugs_fit_git_refs(unscoped);
    law_slugs_fit_git_refs(directory);
    reveal_strlit("package");
    reveal_strlit("..");
    reveal_strlit(".lock");
    let last = "package"@;
    assert(last.len() == 7);
    assert(forall|i: int| 0 <= i < 7 ==> (#[trigger] last[i]) != '.' && is_slug_char(last[i]));
    assert(!occurs(last, ".."@)) by {
        if occurs(last, ".."@) {
            let at = choose|at: int| stands_at(last, ".."@, at);
            assert(last.subrange(at, at + 2)[0] == ".."@[0]);
        }
    }
    assert(last.subrange(2, 7)[0] == last[2]);
    assert(".lock"@[0] == '.');
}

/// Git-ref-safe tag namespace for a workspace package: the unscoped half of its
/// name, falling back to the directory it lives in.
pub fn tag_scope(name: Option<&str>, path: &[String]) -> (scope: String)
    ensures
        scope@ == scope_of(maybe_slice(name), texts(path@)),
        fits_git_ref(scope@),
{
    proof {
        law_scopes_fit_git_refs(maybe_slice(name), texts(path@));
    }
    let unscoped = match name {
        Some(name) => {
            let parts = split(name, '/');
            proof {
                crate::text::lemma_split(name@, '/');
            }
            assert(texts(parts@).last() == parts@[parts@.len() - 1]@);
            slugify(parts[parts.len() - 1].as_str())
        },
        None => {
            let nothing = String::new();
            slugify(nothing.as_str())
        },
    };
    if chars_of(unscoped.as_str()).len() > 0 {
        return unscoped;
    }
    let directory = if path.len() >= 2 {
        slugify(path[path.len() - 2].as_str())
    } else {
        let nothing = String::new();
        slugify(nothing.as_str())
    };
    if chars_of(directory.as_str()).len() > 0 {
        directory
    } else {
        "package".to_owned()
    }
}

// ---------------------------------------------------------------------------
// Finding the manifest

/// Manifests that were read, or what was wrong with them.
pub open spec fn outcomes(read: Seq<Result<Manifest, VersionerError>>) -> Seq<
    Result<ManifestModel, Failure>,
> {
    Seq::new(read.len(), |i: int| outcome(read[i]))
}

/// The manifests among what was read.
pub open spec fn versioned(read: Seq<Result<ManifestModel, Failure>>) -> Seq<ManifestModel>
    decreases read.len(),
{
    if read.len() == 0 {
        Seq::empty()
    } else {
        match read.last() {
            Ok(manifest) => versioned(read.drop_last()).push(manifest),
            Err(_) => versioned(read.drop_last()),
        }
    }
}

/// The labels of manifests.
pub open spec fn labels(manifests: Seq<ManifestModel>) -> Seq<Seq<char>> {
    Seq::new(manifests.len(), |i: int| manifests[i].label)
}

/// The first failure that is not about a missing version, or else the first.
pub open spec fn most_useful(read: Seq<Result<ManifestModel, Failure>>) -> Failure
    decreases read.len(),
{
    if read.len() <= 1 {
        read[0]->Err_0
    } else if !(most_useful(read.drop_last()) is MissingVersion) {
        most_useful(read.drop_last())
    } else if !(read.last()->Err_0 is MissingVersion) {
        read.last()->Err_0
    } else {
        most_useful(read.drop_last())
    }
}

/// The manifest to bump among those that share a directory: the only one, or
/// the only one that carries a version.
pub open spec fn chosen(read: Seq<Result<ManifestModel, Failure>>) -> Result<
    ManifestModel,
    Failure,
> {
    let with_version = versioned(read);
    if read.len() == 1 {
        read[0]
    } else if with_version.len() == 1 {
        Ok(with_version[0])
    } else if with_version.len() == 0 {
        Err(most_useful(read))
    } else {
        Err(Failure::AmbiguousManifest(labels(with_version)))
    }
}

proof fn lemma_versioned_failures(read: Seq<Result<ManifestModel, Failure>>)
    ensures
        versioned(read).len() == 0 <==> forall|i: int|
            0 <= i < read.len() ==> (#[trigger] read[i]) is Err,
    decreases read.len(),
{
    if read.len() > 0 {
        lemma_versioned_failures(read.drop_last());
        assert(read[read.len() - 1] == read.last());
        if versioned(read).len() == 0 {
            assert forall|i: int| 0 <= i < read.len() implies (#[trigger] read[i]) is Err by {
                if i < read.len() - 1 {
                    assert(read.drop_last()[i] is Err);
                }
            }
        } else if forall|i: int| 0 <= i < read.len() ==> (#[trigger] read[i]) is Err {
            assert forall|i: int| 0 <= i < read.drop_last().len() implies (
            #[trigger] read.drop_last()[i]) is Err by {
                assert(read[i] is Err);
            }
        }
    }
}

proof fn lemma_versioned_one(read: Seq<Result<ManifestModel, Failure>>, k: int)
    requires
        0 <= k < read.len(),
        read[k] is Ok,
        forall|i: int| 0 <= i < read.len() && i != k ==> (#[trigger] read[i]) is Err,
    ensures
        versioned(read) =~= seq![read[k]->Ok_0],
    decreases read.len(),
{
    let rest = read.drop_last();
    if k == read.len() - 1 {
        lemma_versioned_failures(rest);
    } else {
        assert(read[read.len() - 1] is Err);
        lemma_versioned_one(rest, k);
    }
}

proof fn lemma_versioned_count(read: Seq<Result<ManifestModel, Failure>>, k: int)
    requires
        0 <= k < read.len(),
        read[k] is Ok,
    ensures
        versioned(read).len() >= 1,
{
    lemma_versioned_failures(read);
    assert(read[k] is Ok);
}

/// With several manifests side by side, the only one that carries a version
/// wins, whatever is wrong with the others.
pub proof fn law_the_one_with_a_version_wins(
    read: Seq<Result<ManifestModel, Failure>>,
    k: int,
)
    requires
        0 <= k < read.len(),
        read[k] is Ok,
        forall|i: int| 0 <= i < read.len() && i != k ==> (#[trigger] read[i]) is Err,
    ensures
        chosen(read) == read[k],
{
    lemma_versioned_one(read, k);
}

/// Where more than one carries a version, none is chosen.
pub proof fn law_several_versions_are_ambiguous(
    read: Seq<Result<ManifestModel, Failure>>,
    first: int,
    second: int,
)
    requires
        0 <= first < second < read.len(),
        read[first] is Ok,
        read[second] is Ok,
    ensures
        chosen(read) matches Err(failure) && failure is AmbiguousManifest,
{
    lemma_versioned_at_least_two(read, first, second);
}

proof fn lemma_versioned_at_least_two(
    read: Seq<Result<ManifestModel, Failure>>,
    first: int,
    second: int,
)
    requires
        0 <= first < second < read.len(),
        read[first] is Ok,
        read[second] is Ok,
    ensures
        versioned(read).len() >= 2,
    decreases read.len(),
{
    let rest = read.drop_last();
    if second == read.len() - 1 {
        lemma_versioned_count(rest, first);
    } else {
        lemma_versioned_at_least_two(rest, first, second);
    }
}

/// With several manifests side by side, the one that carries a version wins:
/// a package.json that only holds tooling shouldn't shadow a Cargo.toml.
pub fn choose_manifest(read: Vec<Result<Manifest, VersionerError>>) -> (manifest: Result<
    Manifest,
    VersionerError,
>)
    requires
        read@.len() > 0,
        forall|i: int|
            0 <= i < read@.len() ==> ((#[trigger] read@[i]) matches Ok(manifest)
                ==> manifest@.wf()),
    ensures
        outcome(manifest) == chosen(outcomes(read@)),
        manifest matches Ok(found) ==> found@.wf(),
{
    let mut read = read;
    let ghost all = outcomes(read@);
    if read.len() == 1 {
        assert(all[0] == outcome(read@[0]));
        return read.remove(0);
    }
    let mut names: Vec<String> = Vec::new();
    // The last manifest with a version, and the failure to report.
    let mut last: usize = 0;
    let mut useful: usize = 0;
    let mut at: usize = 0;
    assert(texts(names@) =~= labels(versioned(all.take(0))));
    while at < read.len()
        invariant
            at <= read@.len(),
            all == outcomes(read@),
            texts(names@) == labels(versioned(all.take(at as int))),
            names@.len() > 0 ==> last < at && all[last as int] is Ok && versioned(
                all.take(at as int),
            ).last() == all[last as int]->Ok_0,
            useful == 0 || useful < at,
            names@.len() == 0 && at > 0 ==> all[useful as int] is Err && most_useful(
                all.take(at as int),
            ) == all[useful as int]->Err_0,
            names@.len() == 0 ==> forall|i: int| 0 <= i < at ==> (#[trigger] all[i]) is Err,
        decreases read@.len() - at,
    {
        let ghost more = all.take(at + 1);
        let ghost before = texts(names@);
        proof {
            assert(more.drop_last() =~= all.take(at as int));
            assert(more.last() == outcome(read@[at as int]));
            assert(all[at as int] == outcome(read@[at as int]));
        }
        match &read[at] {
            Ok(manifest) => {
                names.push(manifest.label.clone());
                last = at;
                proof {
                    let prior = versioned(all.take(at as int));
                    assert(before.len() == prior.len());
                    assert(versioned(more) == prior.push(manifest@));
                    assert(texts(names@) =~= before.push(manifest@.label));
                    assert(labels(versioned(more)) =~= labels(prior).push(manifest@.label));
                }
            },
            Err(error) => {
                assert(versioned(more) == versioned(all.take(at as int)));
                if names.len() == 0 && at > 0 {
                    let missing = match &read[useful] {
                        Err(VersionerError::MissingVersion(_)) => true,
                        _ => false,
                    };
                    assert(missing == (all[useful as int]->Err_0 is MissingVersion));
                    let better = match error {
                        VersionerError::MissingVersion(_) => false,
                        _ => true,
                    };
                    if missing && better {
                        useful = at;
                    }
                } else if at == 0 {
                    assert(more[0] == all[0]);
                }
            },
        }
        at = at + 1;
    }
    proof {
        assert(all.take(at as int) =~= all);
        lemma_versioned_failures(all);
        assert(texts(names@).len() == versioned(all).len());
    }
    if names.len() == 1 {
        assert(all[last as int] == outcome(read@[last as int]));
        return read.remove(last);
    }
    if names.len() == 0 {
        assert(all[useful as int] == outcome(read@[useful as int]));
        return read.remove(useful);
    }
    Err(VersionerError::AmbiguousManifest(names))
}

/// What the manifests of these names in one directory say.
pub open spec fn manifests_in(
    directory: Seq<Seq<char>>,
    root: Seq<Seq<char>>,
    names: Seq<Seq<char>>,
    disk: DiskModel,
) -> Progress<Seq<Result<ManifestModel, Failure>>>
    decreases names.len(),
{
    if names.len() == 0 {
        Progress::Done(Seq::empty())
    } else {
        match manifests_in(directory, root, names.drop_last(), disk) {
            Progress::Done(prior) => {
                let path = directory.push(names.last());
                match disk.file(path) {
                    Some(file) => if file.is_file {
                        Progress::Done(
                            prior.push(manifest_of(path, label_of(root, path), file.contents)),
                        )
                    } else {
                        Progress::Done(prior)
                    },
                    None => Progress::Look(path),
                }
            },
            missing => missing,
        }
    }
}

/// The names of manifests, in the order that they are listed in when several
/// share a directory.
pub open spec fn manifest_names() -> Seq<Seq<char>> {
    seq![Format::Npm.named(), Format::Cargo.named(), Format::Python.named()]
}

/// The manifest of the nearest directory at or above `directory` that has any,
/// and is not outside `root`.
pub open spec fn nearest_manifest(
    directory: Seq<Seq<char>>,
    root: Seq<Seq<char>>,
    disk: DiskModel,
) -> Progress<Result<ManifestModel, Failure>>
    decreases directory.len(),
{
    if !root.is_prefix_of(directory) {
        Progress::Done(Err(Failure::ManifestNotFound))
    } else {
        match manifests_in(directory, root, manifest_names(), disk) {
            Progress::Done(read) => if read.len() > 0 {
                Progress::Done(chosen(read))
            } else if directory.len() == 0 {
                Progress::Done(Err(Failure::ManifestNotFound))
            } else {
                nearest_manifest(directory.drop_last(), root, disk)
            },
            Progress::Look(path) => Progress::Look(path),
            Progress::List(path) => Progress::List(path),
        }
    }
}

/// The contents of a file once more.
fn copied_contents(file: &File) -> (contents: Result<String, String>)
    ensures
        crate::disk::contents_model(contents) == file@.contents,
{
    match &file.contents {
        Ok(source) => Ok(source.clone()),
        Err(reason) => Err(reason.clone()),
    }
}

/// Where a file is unknown, more names do not help.
proof fn lemma_manifests_in_stops(
    directory: Seq<Seq<char>>,
    root: Seq<Seq<char>>,
    names: Seq<Seq<char>>,
    disk: DiskModel,
    count: int,
)
    requires
        0 <= count <= names.len(),
        !(manifests_in(directory, root, names.take(count), disk) is Done),
    ensures
        manifests_in(directory, root, names, disk) == manifests_in(
            directory,
            root,
            names.take(count),
            disk,
        ),
    decreases names.len(),
{
    if count == names.len() {
        assert(names.take(count) =~= names);
    } else {
        assert(names.drop_last().take(count) =~= names.take(count));
        lemma_manifests_in_stops(directory, root, names.drop_last(), disk, count);
    }
}

/// What the manifests in one directory say.
fn read_manifests(directory: &[String], root: &[String], disk: &Disk) -> (read: Lookup<
    Vec<Result<Manifest, VersionerError>>,
>)
    ensures
        progress(read, |list: Vec<Result<Manifest, VersionerError>>| outcomes(list@))
            == manifests_in(texts(directory@), texts(root@), manifest_names(), disk@),
        read matches Lookup::Done(list) ==> forall|i: int|
            0 <= i < list@.len() ==> ((#[trigger] list@[i]) matches Ok(manifest)
                ==> manifest@.wf()),
{
    let formats = vec![Format::Npm, Format::Cargo, Format::Python];
    let ghost all = manifest_names();
    let mut read: Vec<Result<Manifest, VersionerError>> = Vec::new();
    let mut at: usize = 0;
    assert(outcomes(read@) =~= Seq::empty());
    while at < formats.len()
        invariant
            at <= formats@.len(),
            formats@ == seq![Format::Npm, Format::Cargo, Format::Python],
            all == manifest_names(),
            manifests_in(texts(directory@), texts(root@), all.take(at as int), disk@)
                == Progress::Done(outcomes(read@)),
            forall|i: int|
                0 <= i < read@.len() ==> ((#[trigger] read@[i]) matches Ok(manifest)
                    ==> manifest@.wf()),
        decreases formats@.len() - at,
    {
        let path = child(directory, formats[at].file_name());
        proof {
            assert(all.take(at + 1).drop_last() =~= all.take(at as int));
            assert(all.take(at + 1).last() == formats@[at as int].named());
        }
        match disk.file(path.as_slice()) {
            Some(file) => {
                if file.is_file {
                    let ghost before = outcomes(read@);
                    let name = label(root, path.as_slice());
                    let manifest = Manifest::read(
                        path.as_slice(),
                        name.as_str(),
                        copied_contents(file),
                    );
                    let ghost added = outcome(manifest);
                    read.push(manifest);
                    assert(outcomes(read@) =~= before.push(added));
                }
            },
            None => {
                proof {
                    lemma_manifests_in_stops(
                        texts(directory@),
                        texts(root@),
                        all,
                        disk@,
                        at + 1,
                    );
                }
                return Lookup::Look(path);
            },
        }
        at = at + 1;
    }
    assert(all.take(at as int) =~= all);
    Lookup::Done(read)
}

/// A manifest, or the error instead.
pub open spec fn manifest_model(manifest: Result<Manifest, VersionerError>) -> Result<
    ManifestModel,
    Failure,
> {
    outcome(manifest)
}

/// Nearest directory at or above `from` holding a manifest, never climbing
/// past the repository root so a bump can't reach a package outside the repo
/// it tags.
pub fn find(from: &[String], root: &[String], disk: &Disk) -> (manifest: Lookup<
    Result<Manifest, VersionerError>,
>)
    ensures
        progress(manifest, |manifest: Result<Manifest, VersionerError>| manifest_model(manifest))
            == nearest_manifest(texts(from@), texts(root@), disk@),
        manifest matches Lookup::Done(Ok(found)) ==> found@.wf(),
{
    let ghost all = texts(from@);
    let mut length: usize = from.len();
    assert(all.take(length as int) =~= all);
    loop
        invariant
            length <= from@.len(),
            all == texts(from@),
            nearest_manifest(all, texts(root@), disk@) == nearest_manifest(
                all.take(length as int),
                texts(root@),
                disk@,
            ),
        decreases length,
    {
        let directory = slice_subrange(from, 0, length);
        assert(texts(directory@) =~= all.take(length as int));
        if !starts_with(directory, root) {
            return Lookup::Done(Err(VersionerError::ManifestNotFound));
        }
        match read_manifests(directory, root, disk) {
            Lookup::Done(read) => {
                assert(outcomes(read@).len() == read@.len());
                if read.len() > 0 {
                    return Lookup::Done(choose_manifest(read));
                }
            },
            Lookup::Look(path) => {
                return Lookup::Look(path);
            },
            Lookup::List(path) => {
                return Lookup::List(path);
            },
        }
        if length == 0 {
            return Lookup::Done(Err(VersionerError::ManifestNotFound));
        }
        assert(all.take(length as int).drop_last() =~= all.take(length - 1));
        length = length - 1;
    }
}

/// Manifests are only looked for inside `root`, and nothing is asked for that
/// is known already.
pub proof fn law_manifest_is_inside(
    directory: Seq<Seq<char>>,
    root: Seq<Seq<char>>,
    disk: DiskModel,
)
    ensures
        match nearest_manifest(directory, root, disk) {
            Progress::Done(Ok(manifest)) => root.is_prefix_of(manifest.path) && manifest_names()
                .contains(manifest.path.last()),
            Progress::Done(Err(_)) => true,
            Progress::Look(path) => root.is_prefix_of(path) && manifest_names().contains(
                path.last(),
            ) && disk.file(path) is None,
            Progress::List(_) => false,
        },
    decreases directory.len(),
{
    if root.is_prefix_of(directory) {
        lemma_manifests_in(directory, root, manifest_names(), disk);
        match manifests_in(directory, root, manifest_names(), disk) {
            Progress::Done(read) => {
                if read.len() > 0 {
                    lemma_chosen(read);
                } else if directory.len() > 0 {
                    law_manifest_is_inside(directory.drop_last(), root, disk);
                }
            },
            _ => {},
        }
    }
}

proof fn lemma_manifests_in(
    directory: Seq<Seq<char>>,
    root: Seq<Seq<char>>,
    names: Seq<Seq<char>>,
    disk: DiskModel,
)
    requires
        root.is_prefix_of(directory),
    ensures
        match manifests_in(directory, root, names, disk) {
            Progress::Done(read) => forall|i: int|
                0 <= i < read.len() ==> ((#[trigger] read[i]) matches Ok(manifest)
                    ==> root.is_prefix_of(manifest.path) && names.contains(manifest.path.last())),
            Progress::Look(path) => root.is_prefix_of(path) && names.contains(path.last())
                && disk.file(path) is None,
            Progress::List(_) => false,
        },
    decreases names.len(),
{
    if names.len() > 0 {
        let fewer = names.drop_last();
        let path = directory.push(names.last());
        lemma_manifests_in(directory, root, fewer, disk);
        assert(path.last() == names[names.len() - 1]);
        assert(path.subrange(0, root.len() as int) =~= directory.subrange(0, root.len() as int));
        assert forall|name: Seq<char>| fewer.contains(name) implies names.contains(name) by {
            let at = choose|at: int| 0 <= at < fewer.len() && fewer[at] == name;
            assert(names[at] == name);
        }
    }
}

/// The chosen manifest is one of those that were read.
proof fn lemma_chosen(read: Seq<Result<ManifestModel, Failure>>)
    requires
        read.len() > 0,
    ensures
        chosen(read) matches Ok(manifest) ==> read.contains(Ok(manifest)),
{
    if read.len() == 1 {
        assert(read[0] == chosen(read));
    } else if versioned(read).len() == 1 {
        lemma_versioned(read);
        assert(read.contains(Ok(versioned(read)[0])));
    }
}

proof fn lemma_versioned(read: Seq<Result<ManifestModel, Failure>>)
    ensures
        forall|i: int|
            0 <= i < versioned(read).len() ==> read.contains(Ok(#[trigger] versioned(read)[i])),
    decreases read.len(),
{
    if read.len() > 0 {
        let fewer = read.drop_last();
        lemma_versioned(fewer);
        assert forall|i: int| 0 <= i < versioned(read).len() implies read.contains(
            Ok(#[trigger] versioned(read)[i]),
        ) by {
            if i < versioned(fewer).len() {
                let held: Result<ManifestModel, Failure> = Ok(versioned(fewer)[i]);
                assert(fewer.contains(held));
                let at = choose|at: int| 0 <= at < fewer.len() && fewer[at] == held;
                assert(read[at] == held);
            } else {
                assert(read[read.len() - 1] == read.last());
            }
        }
    }
}

// ---------------------------------------------------------------------------
// Projects

#[derive(Debug)]
pub struct Project {
    pub manifest: Manifest,
    /// The components of the path of the repository root.
    pub root: Vec<String>,
    /// Tag namespace for a workspace package; `None` at the repository root,
    /// which keeps the bare `vX.Y.Z` tags.
    pub scope: Option<String>,
}

/// A [`Project`] with its texts as sequences of characters.
pub struct ProjectModel {
    pub manifest: ManifestModel,
    pub root: Seq<Seq<char>>,
    pub scope: Option<Seq<char>>,
}

impl View for Project {
    type V = ProjectModel;

    open spec fn view(&self) -> ProjectModel {
        ProjectModel {
            manifest: self.manifest@,
            root: texts(self.root@),
            scope: maybe_text(self.scope),
        }
    }
}

/// A manifest that was asked for by name.
#[derive(Debug)]
pub struct Explicit {
    /// The components of its path.
    pub path: Vec<String>,
    /// The path as it is shown to the user.
    pub shown: String,
}

/// An [`Explicit`] with its texts as sequences of characters.
pub struct ExplicitModel {
    pub path: Seq<Seq<char>>,
    pub shown: Seq<char>,
}

impl View for Explicit {
    type V = ExplicitModel;

    open spec fn view(&self) -> ExplicitModel {
        ExplicitModel { path: texts(self.path@), shown: self.shown@ }
    }
}

/// A manifest that may have been asked for.
pub open spec fn maybe_explicit(explicit: Option<Explicit>) -> Option<ExplicitModel> {
    match explicit {
        Some(given) => Some(given@),
        None => None,
    }
}

/// The manifest that was asked for, or the nearest one.
pub open spec fn wanted_manifest(
    root: Seq<Seq<char>>,
    explicit: Option<ExplicitModel>,
    directory: Option<Seq<Seq<char>>>,
    disk: DiskModel,
) -> Progress<Result<ManifestModel, Failure>> {
    match (explicit, directory) {
        (Some(given), _) => {
            let path = given.path;
            if !root.is_prefix_of(path) {
                Progress::Done(Err(Failure::OutsideRepository(given.shown)))
            } else {
                match disk.file(path) {
                    Some(file) => Progress::Done(
                        manifest_of(path, label_of(root, path), file.contents),
                    ),
                    None => Progress::Look(path),
                }
            }
        },
        (None, Some(directory)) => nearest_manifest(directory, root, disk),
        (None, None) => Progress::Done(Err(Failure::ManifestNotFound)),
    }
}

/// The tag namespace of a manifest: none right in the repository root.
pub open spec fn scope_in(manifest: ManifestModel, root: Seq<Seq<char>>) -> Option<Seq<char>> {
    if manifest.path.len() > 0 && manifest.path.drop_last() == root {
        None
    } else {
        Some(scope_of(manifest.name, manifest.path))
    }
}

/// The project in the repository at `root`.
pub open spec fn located_project(
    root: Seq<Seq<char>>,
    explicit: Option<ExplicitModel>,
    directory: Option<Seq<Seq<char>>>,
    disk: DiskModel,
) -> Progress<Result<ProjectModel, Failure>> {
    match wanted_manifest(root, explicit, directory, disk) {
        Progress::Done(Ok(manifest)) => Progress::Done(
            Ok(ProjectModel { manifest, root, scope: scope_in(manifest, root) }),
        ),
        Progress::Done(Err(failure)) => Progress::Done(Err(failure)),
        Progress::Look(path) => Progress::Look(path),
        Progress::List(path) => Progress::List(path),
    }
}

/// The tag of a version in a namespace.
pub open spec fn tag_of(scope: Option<Seq<char>>, version: Seq<char>) -> Seq<char> {
    match scope {
        Some(scope) => scope + "-v"@ + version,
        None => "v"@ + version,
    }
}

/// The rewrites for `next`: that of the manifest, then those of lockfiles.
pub open spec fn project_edits(
    project: ProjectModel,
    next: Seq<char>,
    disk: DiskModel,
) -> Progress<Result<Seq<EditModel>, Failure>> {
    let manifest = project.manifest;
    match manifest.rewritten(next) {
        Err(failure) => Progress::Done(Err(failure)),
        Ok(updated) => match lockfile_edits(manifest, project.root, next, disk) {
            Progress::Done(Ok(locks)) => Progress::Done(
                Ok(
                    seq![
                        EditModel {
                            path: manifest.path,
                            label: manifest.label,
                            from: manifest.version(),
                            original: manifest.source,
                            updated,
                        },
                    ] + locks,
                ),
            ),
            missing => missing,
        },
    }
}

impl Project {
    /// The manifest at `explicit`, or else the nearest one at or above the
    /// current `directory`, in the repository whose top level is `root`.
    pub fn locate(
        root: &[String],
        explicit: &Option<Explicit>,
        directory: &Option<Vec<String>>,
        disk: &Disk,
    ) -> (project: Lookup<Result<Self, VersionerError>>)
        ensures
            progress(project, |project: Result<Project, VersionerError>| outcome(project))
                == located_project(
                texts(root@),
                maybe_explicit(*explicit),
                maybe_path(*directory),
                disk@,
            ),
            project matches Lookup::Done(Ok(found)) ==> found@.manifest.wf(),
    {
        let located = match explicit {
            Some(given) => {
                if !starts_with(given.path.as_slice(), root) {
                    return Lookup::Done(
                        Err(VersionerError::OutsideRepository(given.shown.clone())),
                    );
                }
                match disk.file(given.path.as_slice()) {
                    Some(file) => {
                        let name = label(root, given.path.as_slice());
                        Manifest::read(
                            given.path.as_slice(),
                            name.as_str(),
                            copied_contents(file),
                        )
                    },
                    None => {
                        return Lookup::Look(copied_texts(given.path.as_slice()));
                    },
                }
            },
            None => match directory {
                Some(directory) => match find(directory.as_slice(), root, disk) {
                    Lookup::Done(located) => located,
                    Lookup::Look(path) => {
                        return Lookup::Look(path);
                    },
                    Lookup::List(path) => {
                        return Lookup::List(path);
                    },
                },
                None => {
                    return Lookup::Done(Err(VersionerError::ManifestNotFound));
                },
            },
        };
        let manifest = match located {
            Ok(manifest) => manifest,
            Err(error) => {
                return Lookup::Done(Err(error));
            },
        };
        let at_root = manifest.path.len() > 0 && same_path(
            slice_subrange(manifest.path.as_slice(), 0, manifest.path.len() - 1),
            root,
        );
        assert(manifest.path@.len() > 0 ==> texts(
            manifest.path@.subrange(0, manifest.path@.len() - 1),
        ) =~= texts(manifest.path@).drop_last());
        let scope = if at_root {
            None
        } else {
            let name: Option<&str> = match &manifest.name {
                Some(name) => Some(name.as_str()),
                None => None,
            };
            Some(tag_scope(name, manifest.path.as_slice()))
        };
        Lookup::Done(Ok(Project { manifest, root: copied_texts(root), scope }))
    }

    /// `v1.2.3` for the repository root, `backend-v1.2.3` for a workspace
    /// package, so sibling packages can't collide on one tag.
    pub fn tag(&self, version: &Version) -> (tag: String)
        ensures
            tag@ == tag_of(self@.scope, version@.printed()),
    {
        let mut tag = String::new();
        match &self.scope {
            Some(scope) => {
                tag.append(scope.as_str());
                tag.append("-v");
                assert(tag@ =~= self@.scope->0 + "-v"@);
            },
            None => {
                tag.append("v");
                assert(tag@ =~= "v"@);
            },
        }
        let text = version.to_string();
        tag.append(text.as_str());
        tag
    }

    /// The manifest and lockfile rewrites for `next`, all verified up front so
    /// nothing is written unless every file can be edited cleanly.
    pub fn edits(&self, next: &Version, disk: &Disk) -> (edits: Lookup<
        Result<Vec<Edit>, VersionerError>,
    >)
        requires
            self@.manifest.wf(),
        ensures
            progress(edits, |edits: Result<Vec<Edit>, VersionerError>| edits_model(edits))
                == project_edits(self@, next@.printed(), disk@),
    {
        let next = next.to_string();
        let updated = match self.manifest.rewritten(next.as_str()) {
            Ok(updated) => updated,
            Err(error) => {
                return Lookup::Done(Err(error));
            },
        };
        match crate::lockfile::edits(&self.manifest, self.root.as_slice(), next.as_str(), disk) {
            Lookup::Done(Ok(locks)) => {
                let mut locks = locks;
                let ghost behind = edit_models(locks@);
                let first = Edit {
                    path: copied_texts(self.manifest.path.as_slice()),
                    label: self.manifest.label.clone(),
                    from: self.manifest.version().to_owned(),
                    original: self.manifest.source.clone(),
                    updated,
                };
                let ghost front = first@;
                let mut edits = vec![first];
                edits.append(&mut locks);
                assert(edit_models(edits@) =~= seq![front] + behind);
                Lookup::Done(Ok(edits))
            },
            missing => missing,
        }
    }
}

// ---------------------------------------------------------------------------
// Tags

/// Two packages share a tag only where they are in the same namespace and have
/// the same version, or where one namespace goes on, behind a `-v`, with the
/// beginning of the other's version.
pub proof fn law_scoped_tags_collide_only_across_versions(
    left_scope: Seq<char>,
    left: Seq<char>,
    right_scope: Seq<char>,
    right: Seq<char>,
)
    requires
        left_scope.len() <= right_scope.len(),
    ensures
        tag_of(Some(left_scope), left) == tag_of(Some(right_scope), right) <==> {
            ||| left_scope == right_scope && left == right
            ||| exists|begun: Seq<char>|
                right_scope == left_scope + "-v"@ + begun && left == #[trigger] (begun + "-v"@)
                    + right
        },
{
    reveal_strlit("-v");
    let left_tag = left_scope + "-v"@ + left;
    let right_tag = right_scope + "-v"@ + right;
    let start = left_scope.len() as int;
    let longer = right_scope.len() as int;
    if left_tag == right_tag {
        assert(left_scope =~= left_tag.take(start));
        assert(right_scope =~= right_tag.take(longer));
        assert(left_tag[start] == '-' && left_tag[start + 1] == 'v');
        assert(right_tag[longer] == '-' && right_tag[longer + 1] == 'v');
        if start == longer {
            assert(left =~= left_tag.skip(start + 2));
            assert(right =~= right_tag.skip(longer + 2));
        } else {
            assert(longer != start + 1);
            let begun = right_scope.skip(start + 2);
            assert(right_scope =~= left_scope + "-v"@ + begun);
            assert(left =~= left_tag.skip(start + 2));
            assert(left =~= (begun + "-v"@) + right);
        }
    }
    if exists|begun: Seq<char>|
        right_scope == left_scope + "-v"@ + begun && left == #[trigger] (begun + "-v"@) + right {
        let begun = choose|begun: Seq<char>|
            right_scope == left_scope + "-v"@ + begun && left == #[trigger] (begun + "-v"@) + right;
        assert(left_tag =~= right_tag);
    }
}

/// A package below the repository root shares a tag with the one at the root
/// only where its namespace starts with the `v` and the beginning of the
/// other's version.
pub proof fn law_root_tags_collide_only_across_versions(
    root_version: Seq<char>,
    scope: Seq<char>,
    version: Seq<char>,
)
    ensures
        tag_of(None, root_version) == tag_of(Some(scope), version) <==> exists|begun: Seq<char>|
            scope == "v"@ + begun && root_version == #[trigger] (begun + "-v"@) + version,
{
    reveal_strlit("-v");
    reveal_strlit("v");
    let root_tag = "v"@ + root_version;
    let tag = scope + "-v"@ + version;
    if root_tag == tag {
        assert(root_tag[0] == 'v');
        if scope.len() == 0 {
            assert(tag[0] == '-');
        }
        let begun = scope.drop_first();
        assert(scope[0] == tag[0]);
        assert(scope =~= "v"@ + begun);
        assert(root_version =~= root_tag.skip(1));
        assert(root_version =~= (begun + "-v"@) + version);
    }
    if exists|begun: Seq<char>|
        scope == "v"@ + begun && root_version == #[trigger] (begun + "-v"@) + version {
        let begun = choose|begun: Seq<char>|
            scope == "v"@ + begun && root_version == #[trigger] (begun + "-v"@) + version;
        assert(root_tag =~= tag);
    }
}

/// Packages in different namespaces never share a tag where neither version
/// has a `-v` in it, as only pre-releases can.
pub proof fn law_siblings_do_not_collide(
    left_scope: Option<Seq<char>>,
    left: VersionModel,
    right_scope: Option<Seq<char>>,
    right: VersionModel,
)
    requires
        left.valid(),
        right.valid(),
        !occurs(left.printed(), "-v"@),
        !occurs(right.printed(), "-v"@),
        tag_of(left_scope, left.printed()) == tag_of(right_scope, right.printed()),
    ensures
        left_scope == right_scope,
        left == right,
{
    match (left_scope, right_scope) {
        (Some(one), Some(other)) => {
            if one.len() <= other.len() {
                lemma_no_dash_v(left.printed(), right.printed());
                law_scoped_tags_collide_only_across_versions(
                    one,
                    left.printed(),
                    other,
                    right.printed(),
                );
            } else {
                lemma_no_dash_v(right.printed(), left.printed());
                law_scoped_tags_collide_only_across_versions(
                    other,
                    right.printed(),
                    one,
                    left.printed(),
                );
            }
        },
        (None, Some(scope)) => {
            lemma_no_dash_v(left.printed(), right.printed());
            law_root_tags_collide_only_across_versions(left.printed(), scope, right.printed());
        },
        (Some(scope), None) => {
            lemma_no_dash_v(right.printed(), left.printed());
            law_root_tags_collide_only_across_versions(right.printed(), scope, left.printed());
        },
        (None, None) => {
            reveal_strlit("v");
            let tag = "v"@ + left.printed();
            assert(left.printed() =~= tag.skip(1));
            assert(right.printed() =~= tag.skip(1));
        },
    }
    crate::version::law_printing_is_injective(left, right);
}

/// A text without `-v` does not go on with one.
proof fn lemma_no_dash_v(text: Seq<char>, rest: Seq<char>)
    requires
        !occurs(text, "-v"@),
    ensures
        forall|begun: Seq<char>| text != #[trigger] (begun + "-v"@) + rest,
{
    assert forall|begun: Seq<char>| text != #[trigger] (begun + "-v"@) + rest by {
        let whole = (begun + "-v"@) + rest;
        assert(whole.subrange(begun.len() as int, begun.len() as int + "-v"@.len()) =~= "-v"@);
        assert(stands_at(whole, "-v"@, begun.len() as int));
    }
}

} // verus!
