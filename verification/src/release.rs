//! What a release tells the user, and what it does about the remote.

use vstd::prelude::*;
use vstd::string::*;

use crate::edit::{edit_models, Edit, EditModel};
use crate::text::{
    decimal, decimal_text, holds, join, joined, maybe_slice, maybe_text, texts,
};

verus! {

/// One line for the user.
#[derive(Debug)]
pub enum Line {
    Info(String),
    Warn(String),
}

/// A [`Line`] with its text as a sequence of characters.
pub enum LineModel {
    Info(Seq<char>),
    Warn(Seq<char>),
}

impl View for Line {
    type V = LineModel;

    open spec fn view(&self) -> LineModel {
        match self {
            Line::Info(text) => LineModel::Info(text@),
            Line::Warn(text) => LineModel::Warn(text@),
        }
    }
}

/// Lines as models.
pub open spec fn line_models(lines: Seq<Line>) -> Seq<LineModel> {
    Seq::new(lines.len(), |i: int| lines[i]@)
}

/// The labels of edits.
pub open spec fn labels_of(edits: Seq<EditModel>) -> Seq<Seq<char>> {
    Seq::new(edits.len(), |i: int| edits[i].label)
}

/// The labels of edits.
pub fn labels(edits: &[Edit]) -> (labels: Vec<String>)
    ensures
        texts(labels@) == labels_of(edit_models(edits@)),
{
    let mut labels: Vec<String> = Vec::new();
    let mut at: usize = 0;
    while at < edits.len()
        invariant
            at <= edits@.len(),
            labels@.len() == at,
            forall|i: int| 0 <= i < at ==> (#[trigger] labels@[i])@ == edits@[i]@.label,
        decreases edits@.len() - at,
    {
        labels.push(edits[at].label.clone());
        at = at + 1;
    }
    assert(texts(labels@) =~= labels_of(edit_models(edits@)));
    labels
}

// ---------------------------------------------------------------------------
// What else a commit carries

/// `a`, `a and b`, or `a and 3 other files`.
pub open spec fn listed_of(paths: Seq<Seq<char>>) -> Option<Seq<char>> {
    if paths.len() == 0 {
        None
    } else if paths.len() == 1 {
        Some(paths[0])
    } else if paths.len() == 2 {
        Some(paths[0] + " and "@ + paths[1])
    } else {
        Some(paths[0] + " and "@ + decimal((paths.len() - 1) as nat) + " other files"@)
    }
}

/// `a`, `a and b`, or `a and 3 other files`.
pub fn listed(paths: &[String]) -> (text: Option<String>)
    ensures
        maybe_text(text) == listed_of(texts(paths@)),
{
    if paths.len() == 0 {
        return None;
    }
    let mut text = paths[0].clone();
    if paths.len() == 2 {
        text.append(" and ");
        text.append(paths[1].as_str());
    } else if paths.len() > 2 {
        text.append(" and ");
        let count = decimal_text((paths.len() - 1) as u64);
        text.append(count.as_str());
        text.append(" other files");
    }
    Some(text)
}

/// Those of `list` that are, or are not, in `others`.
pub open spec fn filtered(
    list: Seq<Seq<char>>,
    others: Seq<Seq<char>>,
    inside: bool,
) -> Seq<Seq<char>>
    decreases list.len(),
{
    if list.len() == 0 {
        list
    } else if others.contains(list.last()) == inside {
        filtered(list.drop_last(), others, inside).push(list.last())
    } else {
        filtered(list.drop_last(), others, inside)
    }
}

fn filter(list: &[String], others: &[String], inside: bool) -> (kept: Vec<String>)
    ensures
        texts(kept@) == filtered(texts(list@), texts(others@), inside),
{
    let ghost all = texts(list@);
    let mut kept: Vec<String> = Vec::new();
    let mut at: usize = 0;
    assert(texts(kept@) =~= filtered(all.take(0), texts(others@), inside));
    while at < list.len()
        invariant
            at <= list@.len(),
            all == texts(list@),
            texts(kept@) == filtered(all.take(at as int), texts(others@), inside),
        decreases list@.len() - at,
    {
        assert(all.take(at + 1).drop_last() =~= all.take(at as int));
        assert(all.take(at + 1).last() == list@[at as int]@);
        let ghost before = texts(kept@);
        if holds(others, list[at].as_str()) == inside {
            kept.push(list[at].clone());
            assert(texts(kept@) =~= before.push(list@[at as int]@));
        }
        at = at + 1;
    }
    assert(all.take(at as int) =~= all);
    kept
}

/// What a commit carries beyond the version bump itself, where `changed` are
/// the changes in the worktree and `paths` the files of the bump.
pub open spec fn change_warnings(
    changed: Seq<Seq<char>>,
    paths: Seq<Seq<char>>,
    all: bool,
) -> Seq<LineModel> {
    let dirty = match listed_of(filtered(paths, changed, true)) {
        Some(listed) => seq![
            LineModel::Warn(
                listed
                    + " already had uncommitted changes, the version commit will include them"@,
            ),
        ],
        None => Seq::empty(),
    };
    let unrelated = match listed_of(filtered(changed, paths, false)) {
        Some(listed) => seq![LineModel::Warn("this commit will also include "@ + listed)],
        None => Seq::empty(),
    };
    if all {
        dirty + unrelated
    } else {
        dirty
    }
}

proof fn lemma_filtered(list: Seq<Seq<char>>, others: Seq<Seq<char>>, inside: bool)
    ensures
        filtered(list, others, inside).len() > 0 <==> exists|i: int|
            0 <= i < list.len() && others.contains(#[trigger] list[i]) == inside,
    decreases list.len(),
{
    if list.len() > 0 {
        let rest = list.drop_last();
        lemma_filtered(rest, others, inside);
        assert(list[list.len() - 1] == list.last());
        if exists|i: int| 0 <= i < rest.len() && others.contains(#[trigger] rest[i]) == inside {
            let i = choose|i: int|
                0 <= i < rest.len() && others.contains(#[trigger] rest[i]) == inside;
            assert(others.contains(list[i]) == inside);
        }
        if exists|i: int| 0 <= i < list.len() && others.contains(#[trigger] list[i]) == inside {
            let i = choose|i: int|
                0 <= i < list.len() && others.contains(#[trigger] list[i]) == inside;
            if i < rest.len() {
                assert(others.contains(rest[i]) == inside);
            }
        }
    }
}

/// The user is warned of changes that the commit carries along exactly where
/// there are any: where a file of the bump had changed before, and, if the
/// whole worktree is committed, where anything else has.
pub proof fn law_changes_are_pointed_out(
    changed: Seq<Seq<char>>,
    paths: Seq<Seq<char>>,
    all: bool,
)
    ensures
        ({
            let dirty = exists|i: int|
                0 <= i < paths.len() && changed.contains(#[trigger] paths[i]);
            let unrelated = all && exists|i: int|
                0 <= i < changed.len() && !paths.contains(#[trigger] changed[i]);
            change_warnings(changed, paths, all).len() == (if dirty {
                1int
            } else {
                0
            }) + (if unrelated {
                1int
            } else {
                0
            })
        }),
{
    lemma_filtered(paths, changed, true);
    lemma_filtered(changed, paths, false);
}

/// Points out what the commit will carry beyond the version bump itself.
pub fn warn_about_changes(changed: &[String], paths: &[String], all: bool) -> (lines: Vec<Line>)
    ensures
        line_models(lines@) == change_warnings(texts(changed@), texts(paths@), all),
{
    let mut lines: Vec<Line> = Vec::new();
    let dirty = filter(paths, changed, true);
    if let Some(listed) = listed(dirty.as_slice()) {
        let mut text = listed;
        text.append(" already had uncommitted changes, the version commit will include them");
        lines.push(Line::Warn(text));
    }
    let ghost first = line_models(lines@);
    if !all {
        assert(first =~= change_warnings(texts(changed@), texts(paths@), all));
        return lines;
    }
    let unrelated = filter(changed, paths, false);
    if let Some(listed) = listed(unrelated.as_slice()) {
        let mut text = "this commit will also include ".to_owned();
        text.append(listed.as_str());
        lines.push(Line::Warn(text));
    }
    assert(line_models(lines@) =~= change_warnings(texts(changed@), texts(paths@), all));
    lines
}

// ---------------------------------------------------------------------------
// Pushing

/// What happens after the tag is in place.
#[derive(Debug)]
pub enum Push {
    To(String),
    Skip { hint: String, reason: String },
}

/// A [`Push`] with its texts as sequences of characters.
pub enum PushModel {
    To(Seq<char>),
    Skip { hint: Seq<char>, reason: Seq<char> },
}

impl View for Push {
    type V = PushModel;

    open spec fn view(&self) -> PushModel {
        match self {
            Push::To(branch) => PushModel::To(branch@),
            Push::Skip { hint, reason } => PushModel::Skip { hint: hint@, reason: reason@ },
        }
    }
}

/// How to push by hand.
pub open spec fn hint_of(branch: Option<Seq<char>>, tag: Seq<char>) -> Seq<char> {
    match branch {
        Some(branch) => "push with: 'git push --atomic -u origin "@ + branch + " "@ + tag + "'"@,
        None => "push with: 'git push origin "@ + tag + "'"@,
    }
}

/// How to push by hand.
pub fn push_hint(branch: Option<&str>, tag: &str) -> (hint: String)
    ensures
        hint@ == hint_of(maybe_slice(branch), tag@),
{
    match branch {
        Some(branch) => {
            let mut hint = "push with: 'git push --atomic -u origin ".to_owned();
            hint.append(branch);
            hint.append(" ");
            hint.append(tag);
            hint.append("'");
            hint
        },
        None => {
            let mut hint = "push with: 'git push origin ".to_owned();
            hint.append(tag);
            hint.append("'");
            hint
        },
    }
}

/// What happens after the tag is in place: a push, unless it is not wanted,
/// there is no remote, or HEAD is detached.
pub open spec fn push_of(
    tag: Seq<char>,
    no_push: bool,
    branch: Option<Seq<char>>,
    has_origin: bool,
) -> PushModel {
    let hint = hint_of(branch, tag);
    if no_push {
        PushModel::Skip { hint, reason: "not pushing (--no-push)"@ }
    } else if !has_origin {
        PushModel::Skip { hint, reason: "no 'origin' remote configured"@ }
    } else {
        match branch {
            None => PushModel::Skip { hint, reason: "detached HEAD, nothing to push to"@ },
            Some(branch) => PushModel::To(branch),
        }
    }
}

/// What happens after the tag is in place.
pub fn plan_push(tag: &str, no_push: bool, branch: Option<String>, has_origin: bool) -> (push: Push)
    ensures
        push@ == push_of(tag@, no_push, maybe_text(branch), has_origin),
{
    let current: Option<&str> = match &branch {
        Some(branch) => Some(branch.as_str()),
        None => None,
    };
    let hint = push_hint(current, tag);
    let reason = if no_push {
        "not pushing (--no-push)"
    } else if !has_origin {
        "no 'origin' remote configured"
    } else {
        match branch {
            None => "detached HEAD, nothing to push to",
            Some(branch) => {
                return Push::To(branch);
            },
        }
    };
    Push::Skip { hint, reason: reason.to_owned() }
}

// ---------------------------------------------------------------------------
// What a release does, in words

/// `<label>: <from> → <next>`
pub open spec fn change_of(edit: EditModel, next: Seq<char>) -> Seq<char> {
    edit.label + ": "@ + edit.from + " → "@ + next
}

/// A line for each edit, with `start` in front.
pub open spec fn change_lines(
    start: Seq<char>,
    edits: Seq<EditModel>,
    next: Seq<char>,
) -> Seq<LineModel> {
    Seq::new(edits.len(), |i: int| LineModel::Info(start + change_of(edits[i], next)))
}

/// A line for each edit, with `start` in front.
pub fn changes(start: &str, edits: &[Edit], next: &str) -> (lines: Vec<Line>)
    ensures
        line_models(lines@) == change_lines(start@, edit_models(edits@), next@),
{
    let mut lines: Vec<Line> = Vec::new();
    let mut at: usize = 0;
    while at < edits.len()
        invariant
            at <= edits@.len(),
            lines@.len() == at,
            forall|i: int|
                0 <= i < at ==> (#[trigger] lines@[i])@ == change_lines(
                    start@,
                    edit_models(edits@),
                    next@,
                )[i],
        decreases edits@.len() - at,
    {
        let mut text = start.to_owned();
        text.append(edits[at].label.as_str());
        text.append(": ");
        text.append(edits[at].from.as_str());
        text.append(" → ");
        text.append(next);
        assert(text@ =~= start@ + change_of(edits@[at as int]@, next@));
        lines.push(Line::Info(text));
        at = at + 1;
    }
    assert(line_models(lines@) =~= change_lines(start@, edit_models(edits@), next@));
    lines
}

/// What a release would do.
pub open spec fn preview_of(
    edits: Seq<EditModel>,
    next: Seq<char>,
    tag: Seq<char>,
    message: Seq<char>,
    all: bool,
    push: PushModel,
) -> Seq<LineModel> {
    let what = if all {
        "every change in the worktree"@
    } else {
        joined(labels_of(edits), ", "@)
    };
    let pushing = match push {
        PushModel::To(branch) => "would push "@ + branch + " and '"@ + tag + "' to origin"@,
        PushModel::Skip { reason, .. } => "would not push: "@ + reason,
    };
    seq![LineModel::Info("dry run, nothing will be written"@)] + change_lines(
        "would update "@,
        edits,
        next,
    ) + seq![
        LineModel::Info("would commit "@ + what + ": '"@ + message + "'"@),
        LineModel::Info("would tag '"@ + tag + "'"@),
        LineModel::Info(pushing),
    ]
}

/// What a release would do.
pub fn preview(
    edits: &[Edit],
    next: &str,
    tag: &str,
    message: &str,
    all: bool,
    push: &Push,
) -> (lines: Vec<Line>)
    ensures
        line_models(lines@) == preview_of(
            edit_models(edits@),
            next@,
            tag@,
            message@,
            all,
            push@,
        ),
{
    let mut lines: Vec<Line> = Vec::new();
    lines.push(Line::Info("dry run, nothing will be written".to_owned()));
    let mut updates = changes("would update ", edits, next);
    let ghost updated = line_models(updates@);
    let ghost first = line_models(lines@);
    lines.append(&mut updates);
    assert(line_models(lines@) =~= first + updated);
    let what = if all {
        "every change in the worktree".to_owned()
    } else {
        let labels = labels(edits);
        join(labels.as_slice(), ", ")
    };
    let mut commit = "would commit ".to_owned();
    commit.append(what.as_str());
    commit.append(": '");
    commit.append(message);
    commit.append("'");
    lines.push(Line::Info(commit));
    let mut tagging = "would tag '".to_owned();
    tagging.append(tag);
    tagging.append("'");
    lines.push(Line::Info(tagging));
    let pushing = match push {
        Push::To(branch) => {
            let mut text = "would push ".to_owned();
            text.append(branch.as_str());
            text.append(" and '");
            text.append(tag);
            text.append("' to origin");
            text
        },
        Push::Skip { reason, .. } => {
            let mut text = "would not push: ".to_owned();
            text.append(reason.as_str());
            text
        },
    };
    lines.push(Line::Info(pushing));
    assert(line_models(lines@) =~= preview_of(
        edit_models(edits@),
        next@,
        tag@,
        message@,
        all,
        push@,
    ));
    lines
}

} // verus!
