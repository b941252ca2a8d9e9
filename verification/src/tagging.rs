//! Which tag a release gets.

use vstd::prelude::*;
use vstd::string::*;

use crate::disk::{DiskModel, Progress};
use crate::error::Failure;
use crate::project::{
    bared, dashed, law_slugs_fit_git_refs, lemma_shortened, located_project, scope_of, shortened,
    slug, tag_of, tailed, ExplicitModel, ProjectModel,
};
use crate::text::{before_suffix, lemma_split, split_at_each, stands_at};

verus! {

/// Where a text last has a character, its last part behind it starts.
proof fn lemma_last_part(text: Seq<char>, separator: char, at: int)
    requires
        -1 <= at < text.len(),
        at >= 0 ==> text[at] == separator,
        forall|i: int| at < i < text.len() ==> (#[trigger] text[i]) != separator,
    ensures
        split_at_each(text, separator).len() > 0,
        split_at_each(text, separator).last() == text.skip(at + 1),
    decreases text.len(),
{
    if text.len() == 0 {
        assert(text.skip(at + 1) =~= Seq::empty());
    } else if at == text.len() - 1 {
        lemma_split(text.drop_last(), separator);
        assert(text.skip(at + 1) =~= Seq::empty());
    } else {
        let fewer = text.drop_last();
        assert(text[text.len() - 1] != separator);
        assert forall|i: int| at < i < fewer.len() implies (#[trigger] fewer[i]) != separator by {
            assert(fewer[i] == text[i]);
        }
        lemma_last_part(fewer, separator, at);
        assert(text.skip(at + 1) =~= fewer.skip(at + 1).push(text.last()));
    }
}

/// The scope of a name is the slug of what is behind its last `/`, or of all of
/// it where it has none. Where that leaves nothing it is the slug of the
/// directory that the manifest is in, and where that leaves nothing either it
/// is `package`.
pub proof fn law_scopes_come_from_names(
    name: Option<Seq<char>>,
    path: Seq<Seq<char>>,
    slash: int,
)
    requires
        name matches Some(name) ==> {
            &&& -1 <= slash < name.len()
            &&& slash >= 0 ==> name[slash] == '/'
            &&& forall|i: int| slash < i < name.len() ==> (#[trigger] name[i]) != '/'
        },
    ensures
        name is Some && slug(name->0.skip(slash + 1)).len() > 0 ==> scope_of(name, path) == slug(
            name->0.skip(slash + 1),
        ),
        (name is None || slug(name->0.skip(slash + 1)).len() == 0) && path.len() >= 2 && slug(
            path[path.len() - 2],
        ).len() > 0 ==> scope_of(name, path) == slug(path[path.len() - 2]),
        (name is None || slug(name->0.skip(slash + 1)).len() == 0) && (path.len() < 2 || slug(
            path[path.len() - 2],
        ).len() == 0) ==> scope_of(name, path) == "package"@,
{
    if let Some(name) = name {
        lemma_last_part(name, '/', slash);
    }
    assert(slug(Seq::empty()).len() == 0) by {
        law_slugs_fit_git_refs(Seq::empty());
    }
}

/// A project of any format has no scope exactly where its manifest is right in
/// the repository root. Everywhere else its scope is made from the name of the
/// package and the path of the manifest.
pub proof fn law_only_the_root_has_no_scope(
    root: Seq<Seq<char>>,
    explicit: Option<ExplicitModel>,
    directory: Option<Seq<Seq<char>>>,
    disk: DiskModel,
    project: ProjectModel,
)
    requires
        located_project(root, explicit, directory, disk) == Progress::Done(
            Ok::<_, Failure>(project),
        ),
    ensures
        project.root == root,
        project.scope is None <==> project.manifest.path.len() > 0
            && project.manifest.path.drop_last() == root,
        project.scope matches Some(scope) ==> scope == scope_of(
            project.manifest.name,
            project.manifest.path,
        ),
{
}

/// The same in one: what the scope of a located project is, from the name
/// behind its last `/` and the directory of its manifest.
pub proof fn law_located_projects_are_scoped(
    root: Seq<Seq<char>>,
    explicit: Option<ExplicitModel>,
    directory: Option<Seq<Seq<char>>>,
    disk: DiskModel,
    project: ProjectModel,
    slash: int,
)
    requires
        located_project(root, explicit, directory, disk) == Progress::Done(
            Ok::<_, Failure>(project),
        ),
        project.manifest.path.len() == 0 || project.manifest.path.drop_last() != root,
        project.manifest.name matches Some(name) ==> {
            &&& -1 <= slash < name.len()
            &&& slash >= 0 ==> name[slash] == '/'
            &&& forall|i: int| slash < i < name.len() ==> (#[trigger] name[i]) != '/'
        },
    ensures
        ({
            let path = project.manifest.path;
            let unscoped = match project.manifest.name {
                Some(name) => slug(name.skip(slash + 1)),
                None => Seq::empty(),
            };
            let parent = if path.len() >= 2 {
                slug(path[path.len() - 2])
            } else {
                Seq::empty()
            };
            project.scope == Some(
                if unscoped.len() > 0 {
                    unscoped
                } else if parent.len() > 0 {
                    parent
                } else {
                    "package"@
                },
            )
        }),
{
    law_scopes_come_from_names(project.manifest.name, project.manifest.path, slash);
}

/// A tag is `v` and the version, with the scope and a `-` in front where there
/// is a scope.
pub proof fn law_tags(scope: Option<Seq<char>>, version: Seq<char>)
    ensures
        scope is None ==> tag_of(scope, version) == seq!['v'] + version,
        scope matches Some(scope) ==> tag_of(Some(scope), version) == scope + seq!['-', 'v']
            + version,
{
    reveal_strlit("v");
    reveal_strlit("-v");
    assert("v"@ =~= seq!['v']);
    assert("-v"@ =~= seq!['-', 'v']);
}

/// Whether a character of a name is kept in a slug.
pub open spec fn is_kept(character: char) -> bool {
    ||| 'a' <= character <= 'z'
    ||| 'A' <= character <= 'Z'
    ||| '0' <= character <= '9'
    ||| character == '.'
    ||| character == '_'
    ||| character == '-'
}

/// Whether a character is a letter, a digit or `_`.
pub open spec fn is_word(character: char) -> bool {
    is_kept(character) && character != '.' && character != '-'
}

/// The text between punctuation at its ends.
proof fn lemma_bared_between(text: Seq<char>, start: int, end: int)
    requires
        0 <= start < end <= text.len(),
        text[start] != '.' && text[start] != '-',
        text[end - 1] != '.' && text[end - 1] != '-',
        forall|i: int| 0 <= i < start ==> (#[trigger] text[i]) == '.' || text[i] == '-',
        forall|i: int| end <= i < text.len() ==> (#[trigger] text[i]) == '.' || text[i] == '-',
    ensures
        bared(text) == text.subrange(start, end),
    decreases text.len(),
{
    if start > 0 {
        let rest = text.drop_first();
        assert(text[0] == '.' || text[0] == '-');
        assert forall|i: int| 0 <= i < start - 1 implies (#[trigger] rest[i]) == '.' || rest[i]
            == '-' by {
            assert(rest[i] == text[i + 1]);
        }
        assert forall|i: int| end - 1 <= i < rest.len() implies (#[trigger] rest[i]) == '.'
            || rest[i] == '-' by {
            assert(rest[i] == text[i + 1]);
        }
        lemma_bared_between(rest, start - 1, end - 1);
        assert(rest.subrange(start - 1, end - 1) =~= text.subrange(start, end));
    } else if end < text.len() {
        let rest = text.drop_last();
        assert(text[text.len() - 1] == text.last());
        assert forall|i: int| end <= i < rest.len() implies (#[trigger] rest[i]) == '.' || rest[i]
            == '-' by {
            assert(rest[i] == text[i]);
        }
        lemma_bared_between(rest, start, end);
        assert(rest.subrange(start, end) =~= text.subrange(start, end));
    } else {
        assert(text[text.len() - 1] == text.last());
        assert(text.subrange(0, text.len() as int) =~= text);
    }
}

/// The slug of a name starts with its first letter, digit or `_` and goes up to
/// its last one, or up to a `.lock` there. In between, letters, digits, `_`,
/// `-` and single dots stay, and everything else becomes `-`, one for one.
pub proof fn law_slugs_of_names(name: Seq<char>, start: int, last: int, end: int)
    requires
        0 <= start < end <= last <= name.len(),
        is_word(name[start]),
        is_word(name[last - 1]),
        forall|i: int| 0 <= i < start ==> !is_word(#[trigger] name[i]),
        forall|i: int| last <= i < name.len() ==> !is_word(#[trigger] name[i]),
        end == last || end == last - 5 && name.subrange(end, last) == seq!['.', 'l', 'o', 'c', 'k'],
        name[end - 1] != '.',
        end - start >= 5 ==> name.subrange(end - 5, end) != seq!['.', 'l', 'o', 'c', 'k'],
    ensures
        slug(name).len() == end - start,
        forall|i: int|
            0 <= i < end - start ==> (#[trigger] slug(name)[i]) == (if !is_kept(name[start + i])
                || (i > 0 && name[start + i] == '.' && name[start + i - 1] == '.') {
                '-'
            } else {
                name[start + i]
            }),
{
    let all = dashed(name);
    let lock = seq!['.', 'l', 'o', 'c', 'k'];
    reveal_strlit(".lock");
    reveal_strlit(".");
    assert(".lock"@ =~= lock);
    assert("."@ =~= seq!['.']);
    assert forall|i: int| 0 <= i < start implies (#[trigger] all[i]) == '.' || all[i] == '-' by {
        assert(!is_word(name[i]));
    }
    assert forall|i: int| last <= i < all.len() implies (#[trigger] all[i]) == '.' || all[i]
        == '-' by {
        assert(!is_word(name[i]));
    }
    lemma_bared_between(all, start, last);
    let body = all.subrange(start, last);
    let kept = all.subrange(start, end);
    let count = kept.len() as int;
    assert(kept.last() == all[end - 1]);
    assert(all[end - 1] != '.');
    assert(before_suffix(kept, ".lock"@) is None) by {
        if count >= 5 && kept.subrange(count - 5, count) == lock {
            assert forall|i: int| 0 <= i < 5 implies name.subrange(end - 5, end)[i] == lock[i] by {
                assert(kept.subrange(count - 5, count)[i] == all[end - 5 + i]);
                assert(all[end - 5 + i] == lock[i]);
                assert(name[end - 5 + i] == lock[i]);
            }
            assert(name.subrange(end - 5, end) =~= lock);
        }
    }
    lemma_shortened(kept);
    assert(shortened(kept) is None);
    assert(tailed(kept) == kept);
    if end == last {
        assert(body == kept);
    } else {
        assert forall|i: int| 0 <= i < 5 implies body.subrange(count, count + 5)[i] == lock[i] by {
            assert(body.subrange(count, count + 5)[i] == all[end + i]);
            assert(name.subrange(end, last)[i] == name[end + i]);
        }
        assert(body.subrange(count, count + 5) =~= lock);
        assert(stands_at(body, ".lock"@, body.len() - 5));
        assert(body.take(count) =~= kept);
        assert(shortened(body) == Some(kept));
        assert(tailed(body) == kept);
    }
    assert forall|i: int| 0 <= i < end - start implies (#[trigger] slug(name)[i]) == (if !is_kept(
        name[start + i],
    ) || (i > 0 && name[start + i] == '.' && name[start + i - 1] == '.') {
        '-'
    } else {
        name[start + i]
    }) by {
        assert(kept[i] == all[start + i]);
        if i > 0 {
            assert(kept[i - 1] == all[start + i - 1]);
        }
    }
}

} // verus!
