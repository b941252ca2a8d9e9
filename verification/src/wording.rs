//! What the lines for the user say.

use vstd::prelude::*;
use vstd::string::*;

use crate::edit::EditModel;
use crate::release::{
    change_lines, change_warnings, filtered, hint_of, labels_of, listed_of, preview_of, push_of,
    LineModel, PushModel,
};
use crate::text::{
    decimal, is_whitespace, joined, lemma_split, split_at_each, trimmed,
};

verus! {

// ---------------------------------------------------------------------------
// Texts

/// The parts of a joined text stand in order, with the separator between every
/// two, and nowhere else.
pub proof fn law_joined_texts(parts: Seq<Seq<char>>, more: Seq<char>, separator: Seq<char>)
    ensures
        joined(Seq::empty(), separator).len() == 0,
        joined(parts.push(more), separator) == if parts.len() == 0 {
            more
        } else {
            joined(parts, separator) + separator + more
        },
{
    assert(parts.push(more).drop_last() =~= parts);
}

/// A text is cut at every separator and nowhere else.
pub proof fn law_split_texts(text: Seq<char>, separator: char)
    ensures
        ({
            let parts = split_at_each(text, separator);
            &&& parts.len() > 0
            &&& joined(parts, seq![separator]) == text
            &&& forall|i: int|
                0 <= i < parts.len() ==> !(#[trigger] parts[i]).contains(separator)
        }),
{
    lemma_split(text, separator);
}

/// Whether a text is nothing but whitespace.
pub open spec fn is_blank(text: Seq<char>) -> bool {
    forall|i: int| 0 <= i < text.len() ==> is_whitespace(#[trigger] text[i])
}

proof fn lemma_blank_join(left: Seq<char>, right: Seq<char>)
    requires
        is_blank(left),
        is_blank(right),
    ensures
        is_blank(left + right),
{
    let whole = left + right;
    assert forall|i: int| 0 <= i < whole.len() implies is_whitespace(#[trigger] whole[i]) by {
        if i < left.len() {
            assert(whole[i] == left[i]);
        } else {
            assert(whole[i] == right[i - left.len()]);
        }
    }
}

/// Where a text is cut to be trimmed.
#[verifier::spinoff_prover]
#[verifier::rlimit(40)]
proof fn lemma_trimmed(text: Seq<char>) -> (range: (int, int))
    ensures
        0 <= range.0 <= range.1 <= text.len(),
        trimmed(text) == text.subrange(range.0, range.1),
        is_blank(text.take(range.0)),
        is_blank(text.skip(range.1)),
    decreases text.len(),
{
    let length = text.len() as int;
    if length > 0 && is_whitespace(text[0]) {
        let rest = text.drop_first();
        let (from, to) = lemma_trimmed(rest);
        assert(text.subrange(from + 1, to + 1) =~= rest.subrange(from, to));
        assert(is_blank(seq![text[0]]));
        lemma_blank_join(seq![text[0]], rest.take(from));
        assert(text.take(from + 1) =~= seq![text[0]] + rest.take(from));
        assert(text.skip(to + 1) =~= rest.skip(to));
        (from + 1, to + 1)
    } else if length > 0 && is_whitespace(text.last()) {
        let rest = text.drop_last();
        let (from, to) = lemma_trimmed(rest);
        assert(text.subrange(from, to) =~= rest.subrange(from, to));
        assert(text.take(from) =~= rest.take(from));
        assert(is_blank(seq![text.last()]));
        lemma_blank_join(rest.skip(to), seq![text.last()]);
        assert(text.skip(to) =~= rest.skip(to) + seq![text.last()]);
        (from, to)
    } else {
        assert(text.subrange(0, length) =~= text);
        (0, length)
    }
}

/// No whitespace is left at the ends.
proof fn lemma_trimmed_ends(text: Seq<char>)
    ensures
        trimmed(text).len() > 0 ==> !is_whitespace(trimmed(text)[0]) && !is_whitespace(
            trimmed(text).last(),
        ),
    decreases text.len(),
{
    if text.len() > 0 && is_whitespace(text[0]) {
        lemma_trimmed_ends(text.drop_first());
    } else if text.len() > 0 && is_whitespace(text.last()) {
        lemma_trimmed_ends(text.drop_last());
    }
}

/// A trimmed text is cut out of the text between blanks, and has none at its
/// own ends.
pub proof fn law_trimmed_texts(text: Seq<char>)
    ensures
        exists|from: int, to: int|
            0 <= from <= to <= text.len() && trimmed(text) == (#[trigger] text.subrange(from, to))
                && is_blank(text.take(from)) && is_blank(text.skip(to)),
        trimmed(text).len() > 0 ==> !is_whitespace(trimmed(text)[0]) && !is_whitespace(
            trimmed(text).last(),
        ),
{
    let (from, to) = lemma_trimmed(text);
    lemma_trimmed_ends(text);
    assert(trimmed(text) == text.subrange(from, to));
}

/// Blanks, tabs and line ends are whitespace. No printable ASCII is.
pub proof fn law_whitespace(character: char)
    ensures
        character == ' ' || character == '\t' || character == '\n' || character == '\r'
            ==> is_whitespace(character),
        '!' <= character <= '~' ==> !is_whitespace(character),
{
}

// ---------------------------------------------------------------------------
// Changes

/// One path is named, two are both named, and of more the first is named and
/// the others are counted.
pub proof fn law_lists(paths: Seq<Seq<char>>)
    ensures
        match listed_of(paths) {
            None => paths.len() == 0,
            Some(text) => {
                ||| paths.len() == 1 && text == paths[0]
                ||| paths.len() == 2 && text == paths[0] + " and "@ + paths[1]
                ||| paths.len() > 2 && exists|others: nat|
                    others + 1 == paths.len() && text == paths[0] + " and "@ + (#[trigger] decimal(
                        others,
                    )) + " other files"@
            },
        },
{
    if paths.len() > 2 {
        let others = (paths.len() - 1) as nat;
        assert(others + 1 == paths.len());
        assert(listed_of(paths) == Some(
            paths[0] + " and "@ + decimal(others) + " other files"@,
        ));
    }
}

/// A path stays in a list, in its place, exactly where it is, or is not, one of
/// the others.
pub proof fn law_filtered_paths(
    list: Seq<Seq<char>>,
    more: Seq<char>,
    others: Seq<Seq<char>>,
    inside: bool,
)
    ensures
        filtered(Seq::empty(), others, inside).len() == 0,
        filtered(list.push(more), others, inside) == if others.contains(more) == inside {
            filtered(list, others, inside).push(more)
        } else {
            filtered(list, others, inside)
        },
{
    assert(list.push(more).drop_last() =~= list);
}

/// The warnings name the files of the bump that had changed before, and, if the
/// whole worktree is committed, then the changes that are not of the bump.
pub proof fn law_warnings_name_the_changes(
    changed: Seq<Seq<char>>,
    paths: Seq<Seq<char>>,
    all: bool,
)
    ensures
        ({
            let warnings = change_warnings(changed, paths, all);
            let dirty = filtered(paths, changed, true);
            let unrelated = filtered(changed, paths, false);
            &&& dirty.len() > 0 ==> warnings.len() > 0 && warnings[0] == LineModel::Warn(
                listed_of(dirty)->0
                    + " already had uncommitted changes, the version commit will include them"@,
            )
            &&& all && unrelated.len() > 0 ==> warnings.len() > 0 && warnings.last()
                == LineModel::Warn("this commit will also include "@ + listed_of(unrelated)->0)
            &&& warnings.len() == (if dirty.len() > 0 {
                1int
            } else {
                0
            }) + (if all && unrelated.len() > 0 {
                1int
            } else {
                0
            })
        }),
{
}

/// Each edit has a line, in order, with its label, the version that is replaced
/// and the one that takes its place.
pub proof fn law_change_lines(
    start: Seq<char>,
    edits: Seq<EditModel>,
    next: Seq<char>,
    at: int,
)
    ensures
        change_lines(start, edits, next).len() == edits.len(),
        0 <= at < edits.len() ==> change_lines(start, edits, next)[at] == LineModel::Info(
            start + edits[at].label + ": "@ + edits[at].from + " → "@ + next,
        ),
        labels_of(edits).len() == edits.len(),
        0 <= at < edits.len() ==> labels_of(edits)[at] == edits[at].label,
{
    if 0 <= at < edits.len() {
        assert(start + (edits[at].label + ": "@ + edits[at].from + " → "@ + next) =~= start
            + edits[at].label + ": "@ + edits[at].from + " → "@ + next);
    }
}

// ---------------------------------------------------------------------------
// Pushing

/// A release is pushed exactly where that is wanted, there is a remote and a
/// branch is checked out, and then that branch is pushed. The reason that is
/// given is the first of these that does not hold.
pub proof fn law_pushes(
    tag: Seq<char>,
    no_push: bool,
    branch: Option<Seq<char>>,
    has_origin: bool,
)
    ensures
        match push_of(tag, no_push, branch, has_origin) {
            PushModel::To(target) => !no_push && has_origin && branch == Some(target),
            PushModel::Skip { hint, reason } => {
                &&& no_push || !has_origin || branch is None
                &&& reason == if no_push {
                    "not pushing (--no-push)"@
                } else if !has_origin {
                    "no 'origin' remote configured"@
                } else {
                    "detached HEAD, nothing to push to"@
                }
                &&& branch matches Some(current) ==> hint
                    == "push with: 'git push --atomic -u origin "@ + current + " "@ + tag + "'"@
                &&& branch is None ==> hint == "push with: 'git push origin "@ + tag + "'"@
            },
        },
        branch matches Some(current) ==> hint_of(branch, tag)
            == "push with: 'git push --atomic -u origin "@ + current + " "@ + tag + "'"@,
{
}

// ---------------------------------------------------------------------------
// Dry runs

/// A preview tells every edit, then what would be committed under which
/// message, the tag, and whether it would be pushed.
pub proof fn law_previews(
    edits: Seq<EditModel>,
    next: Seq<char>,
    tag: Seq<char>,
    message: Seq<char>,
    all: bool,
    push: PushModel,
    at: int,
)
    ensures
        ({
            let lines = preview_of(edits, next, tag, message, all, push);
            let count = edits.len() as int;
            let what = if all {
                "every change in the worktree"@
            } else {
                joined(labels_of(edits), ", "@)
            };
            &&& lines.len() == count + 4
            &&& lines[0] == LineModel::Info("dry run, nothing will be written"@)
            &&& 0 <= at < count ==> lines[at + 1] == LineModel::Info(
                "would update "@ + edits[at].label + ": "@ + edits[at].from + " → "@ + next,
            )
            &&& lines[count + 1] == LineModel::Info(
                "would commit "@ + what + ": '"@ + message + "'"@,
            )
            &&& lines[count + 2] == LineModel::Info("would tag '"@ + tag + "'"@)
            &&& lines[count + 3] == LineModel::Info(
                match push {
                    PushModel::To(branch) => "would push "@ + branch + " and '"@ + tag
                        + "' to origin"@,
                    PushModel::Skip { reason, .. } => "would not push: "@ + reason,
                },
            )
        }),
{
    law_change_lines("would update "@, edits, next, at);
}

} // verus!
