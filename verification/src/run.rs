//! The course of a release, one step at a time.
//!
//! A step says what to do next: run git, look at a file, write one. Whoever
//! does it hands back what came of it, and gets the next step.

use vstd::prelude::*;
use vstd::string::*;

use crate::cli::Args;
use crate::disk::{maybe_path, Disk, DiskModel, File, Listing, Lookup, Progress};
use crate::edit::{edit_models, Edit, EditModel};
use crate::error::{Failure, VersionerError};
use crate::git::{
    annotate_command, ask_branch, ask_head, ask_index, ask_origin, ask_repository, ask_root,
    ask_status, ask_tag, branch_command, captured, changed_in, commit_command, head_command,
    index_command, lacks_atomic, line_of, origin_command, push_command, reload_command,
    repository_command, rewind_command, root_command, snapshot_of, stage_command, status_command,
    succeeded, tag_command, word_of, Git, Ran, Snapshot, SnapshotModel,
};
use crate::order::Precedence;
use crate::project::{
    located_project, maybe_explicit, project_edits, tag_of, Project, ProjectModel,
};
use crate::release::{
    change_lines, change_warnings, changes, hint_of, labels, labels_of, line_models, plan_push,
    preview, preview_of, push_hint, push_of, warn_about_changes, Line, LineModel, Push, PushModel,
};
use crate::text::{copied_texts, join, joined, maybe_text, texts};
use crate::version::{lemma_version, version_of, Version, VersionModel};

verus! {

// ---------------------------------------------------------------------------
// Steps

/// What to do next.
#[derive(Debug)]
pub enum Action {
    /// Run git with these arguments.
    Git(Vec<String>),
    /// Resolve the path that git wrote to its components.
    Resolve(String),
    /// Look at the file at a path.
    Look(Vec<String>),
    /// List the directories inside a directory.
    List(Vec<String>),
    /// Write a file: its path and its contents.
    Write(Vec<String>, String),
    /// Nothing: the run is over.
    End,
    /// Nothing: the run is over, with this error.
    Fail(VersionerError),
}

/// What came of an action.
#[derive(Debug)]
pub enum Event {
    Ran(Ran),
    Resolved(Vec<String>),
    Looked(File),
    Listed(Listing),
    Written(Result<(), String>),
}

/// What a release writes, and under which version and tag.
#[derive(Debug)]
pub struct Plan {
    pub edits: Vec<Edit>,
    pub next: String,
    pub tag: String,
}

/// What a run is waiting for.
#[derive(Debug)]
pub enum Stage {
    /// Whether this is a repository.
    Repository,
    /// Where its top level is.
    TopLevel,
    /// What the components of that path are.
    Root,
    /// What is on disk about the project.
    Locating { root: Vec<String> },
    /// Whether the tag is there already.
    Tag { project: Project, next: Version, tag: String },
    /// What is on disk about the lockfiles.
    Editing { project: Project, next: Version, tag: String },
    /// What has changed in the worktree.
    Status { plan: Plan },
    /// Which branch is checked out.
    Branch { plan: Plan },
    /// Whether there is a remote.
    Remote { plan: Plan, current: Option<String> },
    /// Where HEAD is.
    Head { plan: Plan, push: Push },
    /// What is in the index.
    Index { plan: Plan, push: Push, head: Option<String> },
    /// The write of an edit.
    Writing { plan: Plan, push: Push, snapshot: Snapshot, at: usize },
    /// The return of an edit to its original, after the write of one failed.
    Unwriting { plan: Plan, failed: usize, at: usize, reason: String },
    /// The staging of what is to be committed.
    Staging { plan: Plan, push: Push, snapshot: Snapshot },
    /// The commit.
    Committing { plan: Plan, push: Push, snapshot: Snapshot },
    /// The tag.
    Tagging { plan: Plan, push: Push, snapshot: Snapshot },
    /// The push of both or none.
    Pushing { plan: Plan, branch: String },
    /// The plain push.
    Repushing { plan: Plan, branch: String },
    /// Where HEAD is by now, after the release failed.
    Rewinding { plan: Plan, snapshot: Snapshot, error: VersionerError },
    /// The return of HEAD, by this command.
    Resetting { plan: Plan, snapshot: Snapshot, error: VersionerError, command: Vec<String> },
    /// The return of the index.
    Reloading { plan: Plan, snapshot: Snapshot, error: VersionerError },
    /// The return of an edit to its original; those that could not are noted.
    Returning { plan: Plan, error: VersionerError, at: usize, unrestored: Vec<String> },
    /// Nothing any more.
    Over,
}

/// A run under way.
#[derive(Debug)]
pub struct State {
    pub args: Args,
    pub disk: Disk,
    pub stage: Stage,
}

/// What a run waits for next, what it tells the user, and what is to be done.
#[derive(Debug)]
pub struct Step {
    pub stage: Stage,
    pub lines: Vec<Line>,
    pub action: Action,
}

// ---------------------------------------------------------------------------
// Models

pub enum ActionModel {
    Git(Seq<Seq<char>>),
    Resolve(Seq<char>),
    Look(Seq<Seq<char>>),
    List(Seq<Seq<char>>),
    Write(Seq<Seq<char>>, Seq<char>),
    End,
    Fail(Failure),
}

pub struct PlanModel {
    pub edits: Seq<EditModel>,
    pub next: Seq<char>,
    pub tag: Seq<char>,
}

pub enum StageModel {
    Repository,
    TopLevel,
    Root,
    Locating { root: Seq<Seq<char>> },
    Tag { project: ProjectModel, next: VersionModel, tag: Seq<char> },
    Editing { project: ProjectModel, next: VersionModel, tag: Seq<char> },
    Status { plan: PlanModel },
    Branch { plan: PlanModel },
    Remote { plan: PlanModel, current: Option<Seq<char>> },
    Head { plan: PlanModel, push: PushModel },
    Index { plan: PlanModel, push: PushModel, head: Option<Seq<char>> },
    Writing { plan: PlanModel, push: PushModel, snapshot: SnapshotModel, at: int },
    Unwriting { plan: PlanModel, failed: int, at: int, reason: Seq<char> },
    Staging { plan: PlanModel, push: PushModel, snapshot: SnapshotModel },
    Committing { plan: PlanModel, push: PushModel, snapshot: SnapshotModel },
    Tagging { plan: PlanModel, push: PushModel, snapshot: SnapshotModel },
    Pushing { plan: PlanModel, branch: Seq<char> },
    Repushing { plan: PlanModel, branch: Seq<char> },
    Rewinding { plan: PlanModel, snapshot: SnapshotModel, error: Failure },
    Resetting {
        plan: PlanModel,
        snapshot: SnapshotModel,
        error: Failure,
        command: Seq<Seq<char>>,
    },
    Reloading { plan: PlanModel, snapshot: SnapshotModel, error: Failure },
    Returning { plan: PlanModel, error: Failure, at: int, unrestored: Seq<Seq<char>> },
    Over,
}

pub struct StepModel {
    pub stage: StageModel,
    pub lines: Seq<LineModel>,
    pub action: ActionModel,
}

impl View for Action {
    type V = ActionModel;

    open spec fn view(&self) -> ActionModel {
        match self {
            Action::Git(args) => ActionModel::Git(texts(args@)),
            Action::Resolve(path) => ActionModel::Resolve(path@),
            Action::Look(path) => ActionModel::Look(texts(path@)),
            Action::List(path) => ActionModel::List(texts(path@)),
            Action::Write(path, contents) => ActionModel::Write(texts(path@), contents@),
            Action::End => ActionModel::End,
            Action::Fail(error) => ActionModel::Fail(error@),
        }
    }
}

impl View for Plan {
    type V = PlanModel;

    open spec fn view(&self) -> PlanModel {
        PlanModel { edits: edit_models(self.edits@), next: self.next@, tag: self.tag@ }
    }
}

impl View for Stage {
    type V = StageModel;

    open spec fn view(&self) -> StageModel {
        match self {
            Stage::Repository => StageModel::Repository,
            Stage::TopLevel => StageModel::TopLevel,
            Stage::Root => StageModel::Root,
            Stage::Locating { root } => StageModel::Locating { root: texts(root@) },
            Stage::Tag { project, next, tag } => StageModel::Tag {
                project: project@,
                next: next@,
                tag: tag@,
            },
            Stage::Editing { project, next, tag } => StageModel::Editing {
                project: project@,
                next: next@,
                tag: tag@,
            },
            Stage::Status { plan } => StageModel::Status { plan: plan@ },
            Stage::Branch { plan } => StageModel::Branch { plan: plan@ },
            Stage::Remote { plan, current } => StageModel::Remote {
                plan: plan@,
                current: maybe_text(*current),
            },
            Stage::Head { plan, push } => StageModel::Head { plan: plan@, push: push@ },
            Stage::Index { plan, push, head } => StageModel::Index {
                plan: plan@,
                push: push@,
                head: maybe_text(*head),
            },
            Stage::Writing { plan, push, snapshot, at } => StageModel::Writing {
                plan: plan@,
                push: push@,
                snapshot: snapshot@,
                at: *at as int,
            },
            Stage::Unwriting { plan, failed, at, reason } => StageModel::Unwriting {
                plan: plan@,
                failed: *failed as int,
                at: *at as int,
                reason: reason@,
            },
            Stage::Staging { plan, push, snapshot } => StageModel::Staging {
                plan: plan@,
                push: push@,
                snapshot: snapshot@,
            },
            Stage::Committing { plan, push, snapshot } => StageModel::Committing {
                plan: plan@,
                push: push@,
                snapshot: snapshot@,
            },
            Stage::Tagging { plan, push, snapshot } => StageModel::Tagging {
                plan: plan@,
                push: push@,
                snapshot: snapshot@,
            },
            Stage::Pushing { plan, branch } => StageModel::Pushing {
                plan: plan@,
                branch: branch@,
            },
            Stage::Repushing { plan, branch } => StageModel::Repushing {
                plan: plan@,
                branch: branch@,
            },
            Stage::Rewinding { plan, snapshot, error } => StageModel::Rewinding {
                plan: plan@,
                snapshot: snapshot@,
                error: error@,
            },
            Stage::Resetting { plan, snapshot, error, command } => StageModel::Resetting {
                plan: plan@,
                snapshot: snapshot@,
                error: error@,
                command: texts(command@),
            },
            Stage::Reloading { plan, snapshot, error } => StageModel::Reloading {
                plan: plan@,
                snapshot: snapshot@,
                error: error@,
            },
            Stage::Returning { plan, error, at, unrestored } => StageModel::Returning {
                plan: plan@,
                error: error@,
                at: *at as int,
                unrestored: texts(unrestored@),
            },
            Stage::Over => StageModel::Over,
        }
    }
}

impl View for Step {
    type V = StepModel;

    open spec fn view(&self) -> StepModel {
        StepModel { stage: self.stage@, lines: line_models(self.lines@), action: self.action@ }
    }
}

impl StageModel {
    /// Whether the stage is one that a run can be at: the project's version can
    /// be cut out of its manifest, and edits are counted within bounds.
    pub open spec fn wf(self) -> bool {
        match self {
            StageModel::Tag { project, .. } => project.manifest.wf(),
            StageModel::Editing { project, .. } => project.manifest.wf(),
            StageModel::Writing { plan, at, .. } => 0 <= at < plan.edits.len(),
            StageModel::Unwriting { plan, failed, at, .. } => 0 <= at <= failed
                < plan.edits.len(),
            StageModel::Returning { plan, at, .. } => 0 <= at < plan.edits.len(),
            _ => true,
        }
    }
}

// ---------------------------------------------------------------------------
// The course

pub open spec fn goes_on(stage: StageModel, action: ActionModel) -> StepModel {
    StepModel { stage, lines: Seq::empty(), action }
}

pub open spec fn fails(failure: Failure) -> StepModel {
    goes_on(StageModel::Over, ActionModel::Fail(failure))
}

/// The first step.
pub open spec fn begun() -> StepModel {
    goes_on(StageModel::Repository, ActionModel::Git(repository_command()))
}

/// After it is known whether this is a repository.
pub open spec fn after_repository(ran: Ran) -> StepModel {
    if succeeded(ran) {
        goes_on(StageModel::TopLevel, ActionModel::Git(root_command()))
    } else {
        fails(Failure::NotARepository)
    }
}

/// After it is known where the top level is.
pub open spec fn after_top_level(ran: Ran) -> StepModel {
    match word_of(ran) {
        Some(root) => goes_on(StageModel::Root, ActionModel::Resolve(root)),
        None => fails(Failure::NotARepository),
    }
}

/// Looking for the project, as far as the disk is known.
pub open spec fn locating(args: Args, disk: DiskModel, root: Seq<Seq<char>>) -> StepModel {
    match located_project(root, maybe_explicit(args.manifest), maybe_path(args.directory), disk) {
        Progress::Look(path) => goes_on(StageModel::Locating { root }, ActionModel::Look(path)),
        Progress::List(path) => goes_on(StageModel::Locating { root }, ActionModel::List(path)),
        Progress::Done(Err(failure)) => fails(failure),
        Progress::Done(Ok(project)) => located(args, project),
    }
}

/// After the project is located: its next version, which must be a later one.
pub open spec fn located(args: Args, project: ProjectModel) -> StepModel {
    match args.command.bumping() {
        Err(failure) => fails(failure),
        Ok(bump) => match version_of(project.manifest.version()) {
            None => fails(Failure::InvalidVersion(project.manifest.version())),
            Some(current) => match current.bumped(bump) {
                Err(failure) => fails(failure),
                Ok(next) => if next.precedence(current) != Precedence::After {
                    fails(Failure::Backwards(current.printed(), next.printed()))
                } else {
                    let tag = tag_of(project.scope, next.printed());
                    goes_on(
                        StageModel::Tag { project, next, tag },
                        ActionModel::Git(tag_command(tag)),
                    )
                },
            },
        },
    }
}

/// Working out the edits, as far as the disk is known.
pub open spec fn editing(
    disk: DiskModel,
    project: ProjectModel,
    next: VersionModel,
    tag: Seq<char>,
) -> StepModel {
    match project_edits(project, next.printed(), disk) {
        Progress::Look(path) => goes_on(
            StageModel::Editing { project, next, tag },
            ActionModel::Look(path),
        ),
        Progress::List(path) => goes_on(
            StageModel::Editing { project, next, tag },
            ActionModel::List(path),
        ),
        Progress::Done(Err(failure)) => fails(failure),
        Progress::Done(Ok(edits)) => goes_on(
            StageModel::Status { plan: PlanModel { edits, next: next.printed(), tag } },
            ActionModel::Git(status_command()),
        ),
    }
}

/// After it is known whether the tag is there already.
pub open spec fn after_tag(
    disk: DiskModel,
    project: ProjectModel,
    next: VersionModel,
    tag: Seq<char>,
    ran: Ran,
) -> StepModel {
    if succeeded(ran) {
        fails(Failure::TagExists(tag))
    } else {
        editing(disk, project, next, tag)
    }
}

/// After it is known what has changed in the worktree.
pub open spec fn after_status(args: Args, plan: PlanModel, ran: Ran) -> StepModel {
    StepModel {
        stage: StageModel::Branch { plan },
        lines: change_warnings(changed_in(ran), labels_of(plan.edits), args.all),
        action: ActionModel::Git(branch_command()),
    }
}

/// After it is known which branch is checked out.
pub open spec fn after_branch(args: Args, plan: PlanModel, ran: Ran) -> StepModel {
    let branch = word_of(ran);
    if args.no_push {
        planned(args, plan, push_of(plan.tag, true, branch, false))
    } else {
        goes_on(StageModel::Remote { plan, current: branch }, ActionModel::Git(origin_command()))
    }
}

/// After everything is planned: a dry run ends here.
pub open spec fn planned(args: Args, plan: PlanModel, push: PushModel) -> StepModel {
    if args.dry_run {
        StepModel {
            stage: StageModel::Over,
            lines: preview_of(
                plan.edits,
                plan.next,
                plan.tag,
                args.command.text(),
                args.all,
                push,
            ),
            action: ActionModel::End,
        }
    } else {
        goes_on(StageModel::Head { plan, push }, ActionModel::Git(head_command()))
    }
}

/// After the index is saved.
pub open spec fn after_index(
    args: Args,
    plan: PlanModel,
    push: PushModel,
    head: Option<Seq<char>>,
    ran: Ran,
) -> StepModel {
    match snapshot_of(head, ran) {
        Ok(snapshot) => writing(args, plan, push, snapshot, 0),
        Err(reason) => fails(Failure::SnapshotFailed(reason)),
    }
}

/// The write of the edit at `at`, or the commit after the last one.
pub open spec fn writing(
    args: Args,
    plan: PlanModel,
    push: PushModel,
    snapshot: SnapshotModel,
    at: int,
) -> StepModel {
    if at < plan.edits.len() {
        goes_on(
            StageModel::Writing { plan, push, snapshot, at },
            ActionModel::Write(plan.edits[at].path, plan.edits[at].updated),
        )
    } else {
        StepModel {
            stage: StageModel::Staging { plan, push, snapshot },
            lines: change_lines(Seq::empty(), plan.edits, plan.next),
            action: ActionModel::Git(stage_command(labels_of(plan.edits), args.all)),
        }
    }
}

/// The return of the edit at `at` to its original, up to the one that could not
/// be written, and the error after that one.
pub open spec fn unwriting(
    plan: PlanModel,
    failed: int,
    at: int,
    reason: Seq<char>,
) -> StepModel {
    if at <= failed {
        goes_on(
            StageModel::Unwriting { plan, failed, at, reason },
            ActionModel::Write(plan.edits[at].path, plan.edits[at].original),
        )
    } else {
        fails(Failure::SaveFailed(plan.edits[failed].label, reason))
    }
}

/// After a write: the next one, or back to the originals.
pub open spec fn after_write(
    args: Args,
    plan: PlanModel,
    push: PushModel,
    snapshot: SnapshotModel,
    at: int,
    written: Result<(), String>,
) -> StepModel {
    match written {
        Ok(_) => writing(args, plan, push, snapshot, at + 1),
        Err(reason) => unwriting(plan, at, 0, reason@),
    }
}

/// Back to where the release started, then the error.
pub open spec fn aborting(
    plan: PlanModel,
    snapshot: SnapshotModel,
    error: Failure,
) -> StepModel {
    goes_on(StageModel::Rewinding { plan, snapshot, error }, ActionModel::Git(head_command()))
}

/// After what is to be committed is staged.
pub open spec fn after_stage(
    args: Args,
    plan: PlanModel,
    push: PushModel,
    snapshot: SnapshotModel,
    ran: Ran,
) -> StepModel {
    match captured(stage_command(labels_of(plan.edits), args.all), ran) {
        Ok(_) => goes_on(
            StageModel::Committing { plan, push, snapshot },
            ActionModel::Git(
                commit_command(args.command.text(), labels_of(plan.edits), args.all),
            ),
        ),
        Err(reason) => aborting(plan, snapshot, Failure::CommitFailed(reason)),
    }
}

/// After the commit.
pub open spec fn after_commit(
    args: Args,
    plan: PlanModel,
    push: PushModel,
    snapshot: SnapshotModel,
    ran: Ran,
) -> StepModel {
    match captured(commit_command(args.command.text(), labels_of(plan.edits), args.all), ran) {
        Ok(_) => goes_on(
            StageModel::Tagging { plan, push, snapshot },
            ActionModel::Git(annotate_command(plan.tag, args.command.text())),
        ),
        Err(reason) => aborting(plan, snapshot, Failure::CommitFailed(reason)),
    }
}

/// After the tag.
pub open spec fn after_annotate(
    args: Args,
    plan: PlanModel,
    push: PushModel,
    snapshot: SnapshotModel,
    ran: Ran,
) -> StepModel {
    let done = LineModel::Info("successfully committed '"@ + plan.tag + "'"@);
    match captured(annotate_command(plan.tag, args.command.text()), ran) {
        Ok(_) => match push {
            PushModel::To(branch) => StepModel {
                stage: StageModel::Pushing { plan, branch },
                lines: seq![done],
                action: ActionModel::Git(push_command(branch, plan.tag, true)),
            },
            PushModel::Skip { hint, reason } => StepModel {
                stage: StageModel::Over,
                lines: seq![done, LineModel::Info(reason + ", "@ + hint)],
                action: ActionModel::End,
            },
        },
        Err(reason) => aborting(plan, snapshot, Failure::TagFailed(reason)),
    }
}

/// The branch and the tag are on the remote.
pub open spec fn pushed(plan: PlanModel, branch: Seq<char>) -> StepModel {
    StepModel {
        stage: StageModel::Over,
        lines: seq![
            LineModel::Info("pushed "@ + branch + " and '"@ + plan.tag + "' to origin"@),
        ],
        action: ActionModel::End,
    }
}

/// The release stays in place locally.
pub open spec fn not_pushed(plan: PlanModel, branch: Seq<char>, reason: Seq<char>) -> StepModel {
    StepModel {
        stage: StageModel::Over,
        lines: seq![
            LineModel::Warn(reason),
            LineModel::Info("changes exist locally, "@ + hint_of(Some(branch), plan.tag)),
        ],
        action: ActionModel::End,
    }
}

/// After the push of both or none.
pub open spec fn after_push(plan: PlanModel, branch: Seq<char>, ran: Ran) -> StepModel {
    match captured(push_command(branch, plan.tag, true), ran) {
        Ok(_) => pushed(plan, branch),
        Err(reason) => if lacks_atomic(reason) {
            goes_on(
                StageModel::Repushing { plan, branch },
                ActionModel::Git(push_command(branch, plan.tag, false)),
            )
        } else {
            not_pushed(plan, branch, reason)
        },
    }
}

/// After the plain push.
pub open spec fn after_repush(plan: PlanModel, branch: Seq<char>, ran: Ran) -> StepModel {
    match captured(push_command(branch, plan.tag, false), ran) {
        Ok(_) => pushed(plan, branch),
        Err(reason) => not_pushed(plan, branch, reason),
    }
}

/// After it is known where HEAD is by now.
pub open spec fn after_rewind(
    plan: PlanModel,
    snapshot: SnapshotModel,
    error: Failure,
    ran: Ran,
) -> StepModel {
    match rewind_command(snapshot, line_of(ran)) {
        Some(command) => goes_on(
            StageModel::Resetting { plan, snapshot, error, command },
            ActionModel::Git(command),
        ),
        None => goes_on(
            StageModel::Reloading { plan, snapshot, error },
            ActionModel::Git(reload_command(snapshot)),
        ),
    }
}

/// The warning that the repository could not be restored.
pub open spec fn unrestorable(reason: Seq<char>) -> LineModel {
    LineModel::Warn("could not restore the repository: "@ + reason)
}

/// After HEAD is back.
pub open spec fn after_reset(
    plan: PlanModel,
    snapshot: SnapshotModel,
    error: Failure,
    command: Seq<Seq<char>>,
    ran: Ran,
) -> StepModel {
    match captured(command, ran) {
        Ok(_) => goes_on(
            StageModel::Reloading { plan, snapshot, error },
            ActionModel::Git(reload_command(snapshot)),
        ),
        Err(reason) => returning(plan, error, 0, Seq::empty(), seq![unrestorable(reason)]),
    }
}

/// After the index is back.
pub open spec fn after_reload(
    plan: PlanModel,
    snapshot: SnapshotModel,
    error: Failure,
    ran: Ran,
) -> StepModel {
    match captured(reload_command(snapshot), ran) {
        Ok(_) => returning(plan, error, 0, Seq::empty(), Seq::empty()),
        Err(reason) => returning(plan, error, 0, Seq::empty(), seq![unrestorable(reason)]),
    }
}

/// The return of the edit at `at` to its original, and the error after the last
/// one.
pub open spec fn returning(
    plan: PlanModel,
    error: Failure,
    at: int,
    unrestored: Seq<Seq<char>>,
    lines: Seq<LineModel>,
) -> StepModel {
    if at < plan.edits.len() {
        StepModel {
            stage: StageModel::Returning { plan, error, at, unrestored },
            lines,
            action: ActionModel::Write(plan.edits[at].path, plan.edits[at].original),
        }
    } else {
        StepModel {
            stage: StageModel::Over,
            lines: if unrestored.len() > 0 {
                lines.push(LineModel::Warn("could not restore "@ + joined(unrestored, ", "@)))
            } else {
                lines
            },
            action: ActionModel::Fail(error),
        }
    }
}

/// After the return of an edit to its original.
pub open spec fn after_return(
    plan: PlanModel,
    error: Failure,
    at: int,
    unrestored: Seq<Seq<char>>,
    written: Result<(), String>,
) -> StepModel {
    let left = match written {
        Ok(_) => unrestored,
        Err(_) => unrestored.push(plan.edits[at].label),
    };
    returning(plan, error, at + 1, left, Seq::empty())
}

/// The step after git ran.
pub open spec fn after_git(
    args: Args,
    disk: DiskModel,
    stage: StageModel,
    ran: Ran,
) -> StepModel {
    match stage {
        StageModel::Repository => after_repository(ran),
        StageModel::TopLevel => after_top_level(ran),
        StageModel::Tag { project, next, tag } => after_tag(disk, project, next, tag, ran),
        StageModel::Status { plan } => after_status(args, plan, ran),
        StageModel::Branch { plan } => after_branch(args, plan, ran),
        StageModel::Remote { plan, current } => planned(
            args,
            plan,
            push_of(plan.tag, false, current, succeeded(ran)),
        ),
        StageModel::Head { plan, push } => goes_on(
            StageModel::Index { plan, push, head: line_of(ran) },
            ActionModel::Git(index_command()),
        ),
        StageModel::Index { plan, push, head } => after_index(args, plan, push, head, ran),
        StageModel::Staging { plan, push, snapshot } => after_stage(
            args,
            plan,
            push,
            snapshot,
            ran,
        ),
        StageModel::Committing { plan, push, snapshot } => after_commit(
            args,
            plan,
            push,
            snapshot,
            ran,
        ),
        StageModel::Tagging { plan, push, snapshot } => after_annotate(
            args,
            plan,
            push,
            snapshot,
            ran,
        ),
        StageModel::Pushing { plan, branch } => after_push(plan, branch, ran),
        StageModel::Repushing { plan, branch } => after_repush(plan, branch, ran),
        StageModel::Rewinding { plan, snapshot, error } => after_rewind(
            plan,
            snapshot,
            error,
            ran,
        ),
        StageModel::Resetting { plan, snapshot, error, command } => after_reset(
            plan,
            snapshot,
            error,
            command,
            ran,
        ),
        StageModel::Reloading { plan, snapshot, error } => after_reload(
            plan,
            snapshot,
            error,
            ran,
        ),
        _ => goes_on(StageModel::Over, ActionModel::End),
    }
}

/// The step after more of the disk is known.
pub open spec fn after_look(args: Args, disk: DiskModel, stage: StageModel) -> StepModel {
    match stage {
        StageModel::Locating { root } => locating(args, disk, root),
        StageModel::Editing { project, next, tag } => editing(disk, project, next, tag),
        _ => goes_on(StageModel::Over, ActionModel::End),
    }
}

/// The step after a write.
pub open spec fn after_writing(
    args: Args,
    stage: StageModel,
    written: Result<(), String>,
) -> StepModel {
    match stage {
        StageModel::Writing { plan, push, snapshot, at } => after_write(
            args,
            plan,
            push,
            snapshot,
            at,
            written,
        ),
        StageModel::Unwriting { plan, failed, at, reason } => unwriting(
            plan,
            failed,
            at + 1,
            reason,
        ),
        StageModel::Returning { plan, error, at, unrestored } => after_return(
            plan,
            error,
            at,
            unrestored,
            written,
        ),
        _ => goes_on(StageModel::Over, ActionModel::End),
    }
}

/// What is known of the disk after an event.
pub open spec fn learned(disk: DiskModel, event: Event) -> DiskModel {
    match event {
        Event::Looked(file) => DiskModel { files: disk.files.push(file@), ..disk },
        Event::Listed(listing) => DiskModel { listings: disk.listings.push(listing@), ..disk },
        _ => disk,
    }
}

/// The next step of a run that has learned of an event. One that answers
/// nothing that the run waits for ends it.
pub open spec fn next_step(
    args: Args,
    disk: DiskModel,
    stage: StageModel,
    event: Event,
) -> StepModel {
    match event {
        Event::Ran(ran) => after_git(args, disk, stage, ran),
        Event::Resolved(root) => if stage == StageModel::Root {
            locating(args, disk, texts(root@))
        } else {
            goes_on(StageModel::Over, ActionModel::End)
        },
        Event::Looked(_) => after_look(args, disk, stage),
        Event::Listed(_) => after_look(args, disk, stage),
        Event::Written(written) => after_writing(args, stage, written),
    }
}

// ---------------------------------------------------------------------------
// Taking steps

fn go_on(stage: Stage, action: Action) -> (step: Step)
    ensures
        step@ == goes_on(stage@, action@),
{
    let step = Step { stage, lines: Vec::new(), action };
    assert(step@.lines =~= Seq::empty());
    step
}

fn fail(error: VersionerError) -> (step: Step)
    ensures
        step@ == fails(error@),
{
    go_on(Stage::Over, Action::Fail(error))
}

fn stop() -> (step: Step)
    ensures
        step@ == goes_on(StageModel::Over, ActionModel::End),
{
    go_on(Stage::Over, Action::End)
}

/// Whether `next` is no later than `current`.
fn is_backwards(current: &Version, next: &Version) -> (backwards: bool)
    ensures
        backwards == (next@.precedence(current@) != Precedence::After),
{
    next.precedence(current) != Precedence::After
}

fn take_project(args: &Args, project: Project) -> (step: Step)
    requires
        project@.manifest.wf(),
    ensures
        step@ == located(*args, project@),
        step@.stage.wf(),
{
    let bump = match args.command.bump() {
        Ok(bump) => bump,
        Err(error) => {
            return fail(error);
        },
    };
    let text = project.manifest.version();
    let current = match Version::parse(text) {
        Ok(current) => {
            proof {
                lemma_version(text@, current@);
            }
            current
        },
        Err(error) => {
            proof {
                if let Some(other) = version_of(text@) {
                    lemma_version(text@, other);
                }
            }
            return fail(error);
        },
    };
    let next = match current.bump(&bump) {
        Ok(next) => next,
        Err(error) => {
            return fail(error);
        },
    };
    if is_backwards(&current, &next) {
        return fail(VersionerError::Backwards(current.to_string(), next.to_string()));
    }
    let tag = project.tag(&next);
    let action = Action::Git(ask_tag(tag.as_str()));
    go_on(Stage::Tag { project, next, tag }, action)
}

fn locate(args: &Args, disk: &Disk, root: Vec<String>) -> (step: Step)
    ensures
        step@ == locating(*args, disk@, texts(root@)),
        step@.stage.wf(),
{
    match Project::locate(root.as_slice(), &args.manifest, &args.directory, disk) {
        Lookup::Look(path) => go_on(Stage::Locating { root }, Action::Look(path)),
        Lookup::List(path) => go_on(Stage::Locating { root }, Action::List(path)),
        Lookup::Done(Err(error)) => fail(error),
        Lookup::Done(Ok(project)) => take_project(args, project),
    }
}

fn edit(disk: &Disk, project: Project, next: Version, tag: String) -> (step: Step)
    requires
        project@.manifest.wf(),
    ensures
        step@ == editing(disk@, project@, next@, tag@),
        step@.stage.wf(),
{
    match project.edits(&next, disk) {
        Lookup::Look(path) => go_on(Stage::Editing { project, next, tag }, Action::Look(path)),
        Lookup::List(path) => go_on(Stage::Editing { project, next, tag }, Action::List(path)),
        Lookup::Done(Err(error)) => fail(error),
        Lookup::Done(Ok(edits)) => {
            let plan = Plan { edits, next: next.to_string(), tag };
            go_on(Stage::Status { plan }, Action::Git(ask_status()))
        },
    }
}

fn settle(args: &Args, plan: Plan, push: Push) -> (step: Step)
    ensures
        step@ == planned(*args, plan@, push@),
        step@.stage.wf(),
{
    if args.dry_run {
        let lines = preview(
            plan.edits.as_slice(),
            plan.next.as_str(),
            plan.tag.as_str(),
            args.command.message(),
            args.all,
            &push,
        );
        Step { stage: Stage::Over, lines, action: Action::End }
    } else {
        go_on(Stage::Head { plan, push }, Action::Git(ask_head()))
    }
}

fn write(args: &Args, plan: Plan, push: Push, snapshot: Snapshot, at: usize) -> (step: Step)
    requires
        at <= plan@.edits.len(),
    ensures
        step@ == writing(*args, plan@, push@, snapshot@, at as int),
        step@.stage.wf(),
{
    if at < plan.edits.len() {
        let path = copied_texts(plan.edits[at].path.as_slice());
        let contents = plan.edits[at].updated.clone();
        go_on(Stage::Writing { plan, push, snapshot, at }, Action::Write(path, contents))
    } else {
        let nothing = String::new();
        let lines = changes(nothing.as_str(), plan.edits.as_slice(), plan.next.as_str());
        let labels = labels(plan.edits.as_slice());
        let (args, _) = Git::commit(args.command.message(), labels.as_slice(), args.all);
        assert(nothing@ =~= Seq::empty());
        Step { stage: Stage::Staging { plan, push, snapshot }, lines, action: Action::Git(args) }
    }
}

fn unwrite(plan: Plan, failed: usize, at: usize, reason: String) -> (step: Step)
    requires
        at <= failed + 1,
        failed < plan@.edits.len(),
    ensures
        step@ == unwriting(plan@, failed as int, at as int, reason@),
        step@.stage.wf(),
{
    if at <= failed {
        let path = copied_texts(plan.edits[at].path.as_slice());
        let contents = plan.edits[at].original.clone();
        go_on(Stage::Unwriting { plan, failed, at, reason }, Action::Write(path, contents))
    } else {
        fail(VersionerError::SaveFailed(plan.edits[failed].label.clone(), reason))
    }
}

/// Undoes a half-finished release: HEAD and the index go back to `snapshot`,
/// every file to its original contents, then `error` ends the run.
pub fn abort(plan: Plan, snapshot: Snapshot, error: VersionerError) -> (step: Step)
    ensures
        step@ == aborting(plan@, snapshot@, error@),
        step@.stage.wf(),
{
    go_on(Stage::Rewinding { plan, snapshot, error }, Action::Git(ask_head()))
}

fn give_back(
    plan: Plan,
    error: VersionerError,
    at: usize,
    unrestored: Vec<String>,
    lines: Vec<Line>,
) -> (step: Step)
    requires
        at <= plan@.edits.len(),
    ensures
        step@ == returning(
            plan@,
            error@,
            at as int,
            texts(unrestored@),
            line_models(lines@),
        ),
        step@.stage.wf(),
{
    if at < plan.edits.len() {
        let path = copied_texts(plan.edits[at].path.as_slice());
        let contents = plan.edits[at].original.clone();
        Step {
            stage: Stage::Returning { plan, error, at, unrestored },
            lines,
            action: Action::Write(path, contents),
        }
    } else {
        let mut lines = lines;
        let ghost before = line_models(lines@);
        if unrestored.len() > 0 {
            let mut text = "could not restore ".to_owned();
            let list = join(unrestored.as_slice(), ", ");
            text.append(list.as_str());
            let ghost told = LineModel::Warn(text@);
            lines.push(Line::Warn(text));
            assert(line_models(lines@) =~= before.push(told));
        }
        assert(texts(unrestored@).len() == unrestored@.len());
        Step { stage: Stage::Over, lines, action: Action::Fail(error) }
    }
}

/// [`give_back`] from the first edit on, with the reason why the repository
/// could not be restored.
fn give_all_back(plan: Plan, error: VersionerError, reason: Option<String>) -> (step: Step)
    ensures
        step@ == returning(
            plan@,
            error@,
            0,
            Seq::empty(),
            match reason {
                Some(reason) => seq![unrestorable(reason@)],
                None => Seq::empty(),
            },
        ),
        step@.stage.wf(),
{
    let mut lines: Vec<Line> = Vec::new();
    if let Some(reason) = &reason {
        let mut text = "could not restore the repository: ".to_owned();
        text.append(reason.as_str());
        lines.push(Line::Warn(text));
    }
    assert(line_models(lines@) =~= match reason {
        Some(reason) => seq![unrestorable(reason@)],
        None => Seq::empty(),
    });
    let unrestored: Vec<String> = Vec::new();
    assert(texts(unrestored@) =~= Seq::empty());
    give_back(plan, error, 0, unrestored, lines)
}

fn finish_push(plan: Plan, branch: String) -> (step: Step)
    ensures
        step@ == pushed(plan@, branch@),
        step@.stage.wf(),
{
    let mut text = "pushed ".to_owned();
    text.append(branch.as_str());
    text.append(" and '");
    text.append(plan.tag.as_str());
    text.append("' to origin");
    let mut lines: Vec<Line> = Vec::new();
    lines.push(Line::Info(text));
    assert(line_models(lines@) =~= pushed(plan@, branch@).lines);
    Step { stage: Stage::Over, lines, action: Action::End }
}

fn give_up_push(plan: Plan, branch: String, reason: String) -> (step: Step)
    ensures
        step@ == not_pushed(plan@, branch@, reason@),
        step@.stage.wf(),
{
    let mut text = "changes exist locally, ".to_owned();
    let hint = push_hint(Some(branch.as_str()), plan.tag.as_str());
    text.append(hint.as_str());
    let ghost told = not_pushed(plan@, branch@, reason@).lines;
    let mut lines: Vec<Line> = Vec::new();
    lines.push(Line::Warn(reason));
    lines.push(Line::Info(text));
    assert(line_models(lines@) =~= told);
    Step { stage: Stage::Over, lines, action: Action::End }
}

fn take_status(args: &Args, plan: Plan, ran: &Ran) -> (step: Step)
    ensures
        step@ == after_status(*args, plan@, *ran),
        step@.stage.wf(),
{
    let changed = Git::changed_paths(ran);
    let labels = labels(plan.edits.as_slice());
    let lines = warn_about_changes(changed.as_slice(), labels.as_slice(), args.all);
    Step { stage: Stage::Branch { plan }, lines, action: Action::Git(ask_branch()) }
}

fn take_stage(
    args: &Args,
    plan: Plan,
    push: Push,
    snapshot: Snapshot,
    ran: &Ran,
) -> (step: Step)
    ensures
        step@ == after_stage(*args, plan@, push@, snapshot@, *ran),
        step@.stage.wf(),
{
    let labels = labels(plan.edits.as_slice());
    let (stage, commit) = Git::commit(args.command.message(), labels.as_slice(), args.all);
    match Git::run(stage.as_slice(), ran) {
        Ok(_) => go_on(Stage::Committing { plan, push, snapshot }, Action::Git(commit)),
        Err(reason) => abort(plan, snapshot, VersionerError::CommitFailed(reason)),
    }
}

fn take_commit(
    args: &Args,
    plan: Plan,
    push: Push,
    snapshot: Snapshot,
    ran: &Ran,
) -> (step: Step)
    ensures
        step@ == after_commit(*args, plan@, push@, snapshot@, *ran),
        step@.stage.wf(),
{
    let labels = labels(plan.edits.as_slice());
    let (_, commit) = Git::commit(args.command.message(), labels.as_slice(), args.all);
    match Git::run(commit.as_slice(), ran) {
        Ok(_) => {
            let tag = Git::tag(plan.tag.as_str(), args.command.message());
            go_on(Stage::Tagging { plan, push, snapshot }, Action::Git(tag))
        },
        Err(reason) => abort(plan, snapshot, VersionerError::CommitFailed(reason)),
    }
}

fn take_annotate(
    args: &Args,
    plan: Plan,
    push: Push,
    snapshot: Snapshot,
    ran: &Ran,
) -> (step: Step)
    ensures
        step@ == after_annotate(*args, plan@, push@, snapshot@, *ran),
        step@.stage.wf(),
{
    let tag = Git::tag(plan.tag.as_str(), args.command.message());
    match Git::run(tag.as_slice(), ran) {
        Ok(_) => {
            let mut text = "successfully committed '".to_owned();
            text.append(plan.tag.as_str());
            text.append("'");
            let mut lines: Vec<Line> = Vec::new();
            lines.push(Line::Info(text));
            let ghost told = after_annotate(*args, plan@, push@, snapshot@, *ran).lines;
            match push {
                Push::To(branch) => {
                    let action = Action::Git(Git::push(branch.as_str(), plan.tag.as_str()));
                    assert(line_models(lines@) =~= told);
                    Step { stage: Stage::Pushing { plan, branch }, lines, action }
                },
                Push::Skip { hint, reason } => {
                    let mut text = reason;
                    text.append(", ");
                    text.append(hint.as_str());
                    lines.push(Line::Info(text));
                    assert(line_models(lines@) =~= told);
                    Step { stage: Stage::Over, lines, action: Action::End }
                },
            }
        },
        Err(reason) => abort(plan, snapshot, VersionerError::TagFailed(reason)),
    }
}

fn take_push(plan: Plan, branch: String, ran: &Ran) -> (step: Step)
    ensures
        step@ == after_push(plan@, branch@, *ran),
        step@.stage.wf(),
{
    let args = Git::push(branch.as_str(), plan.tag.as_str());
    match Git::run(args.as_slice(), ran) {
        Ok(_) => finish_push(plan, branch),
        Err(reason) => match Git::push_plainly(
            branch.as_str(),
            plan.tag.as_str(),
            reason.as_str(),
        ) {
            Some(args) => go_on(Stage::Repushing { plan, branch }, Action::Git(args)),
            None => give_up_push(plan, branch, reason),
        },
    }
}

fn take_repush(plan: Plan, branch: String, ran: &Ran) -> (step: Step)
    ensures
        step@ == after_repush(plan@, branch@, *ran),
        step@.stage.wf(),
{
    let args = Git::plain_push(branch.as_str(), plan.tag.as_str());
    match Git::run(args.as_slice(), ran) {
        Ok(_) => finish_push(plan, branch),
        Err(reason) => give_up_push(plan, branch, reason),
    }
}

fn take_rewind(plan: Plan, snapshot: Snapshot, error: VersionerError, ran: &Ran) -> (step: Step)
    ensures
        step@ == after_rewind(plan@, snapshot@, error@, *ran),
        step@.stage.wf(),
{
    let head = Git::head(ran);
    let current: Option<&str> = match &head {
        Some(head) => Some(head.as_str()),
        None => None,
    };
    let mut commands = Git::restore(&snapshot, current);
    let first = commands.remove(0);
    if commands.len() > 0 {
        let command = copied_texts(first.as_slice());
        go_on(Stage::Resetting { plan, snapshot, error, command }, Action::Git(first))
    } else {
        go_on(Stage::Reloading { plan, snapshot, error }, Action::Git(first))
    }
}

fn take_reset(
    plan: Plan,
    snapshot: Snapshot,
    error: VersionerError,
    command: Vec<String>,
    ran: &Ran,
) -> (step: Step)
    ensures
        step@ == after_reset(plan@, snapshot@, error@, texts(command@), *ran),
        step@.stage.wf(),
{
    match Git::run(command.as_slice(), ran) {
        Ok(_) => {
            let reload = Git::reload(&snapshot);
            go_on(Stage::Reloading { plan, snapshot, error }, Action::Git(reload))
        },
        Err(reason) => give_all_back(plan, error, Some(reason)),
    }
}

fn take_reload(plan: Plan, snapshot: Snapshot, error: VersionerError, ran: &Ran) -> (step: Step)
    ensures
        step@ == after_reload(plan@, snapshot@, error@, *ran),
        step@.stage.wf(),
{
    let reload = Git::reload(&snapshot);
    match Git::run(reload.as_slice(), ran) {
        Ok(_) => give_all_back(plan, error, None),
        Err(reason) => give_all_back(plan, error, Some(reason)),
    }
}

/// The step after git ran.
fn take_git(args: &Args, disk: &Disk, stage: Stage, ran: &Ran) -> (step: Step)
    requires
        stage@.wf(),
    ensures
        step@ == after_git(*args, disk@, stage@, *ran),
        step@.stage.wf(),
{
    match stage {
        Stage::Repository => if Git::is_repository(ran) {
            go_on(Stage::TopLevel, Action::Git(ask_root()))
        } else {
            fail(VersionerError::NotARepository)
        },
        Stage::TopLevel => match Git::repository_root(ran) {
            Some(root) => go_on(Stage::Root, Action::Resolve(root)),
            None => fail(VersionerError::NotARepository),
        },
        Stage::Tag { project, next, tag } => if Git::tag_exists(ran) {
            fail(VersionerError::TagExists(tag))
        } else {
            edit(disk, project, next, tag)
        },
        Stage::Status { plan } => take_status(args, plan, ran),
        Stage::Branch { plan } => {
            let branch = Git::current_branch(ran);
            if args.no_push {
                let push = plan_push(plan.tag.as_str(), true, branch, false);
                settle(args, plan, push)
            } else {
                go_on(Stage::Remote { plan, current: branch }, Action::Git(ask_origin()))
            }
        },
        Stage::Remote { plan, current } => {
            let push = plan_push(plan.tag.as_str(), false, current, Git::has_origin_remote(ran));
            settle(args, plan, push)
        },
        Stage::Head { plan, push } => {
            let head = Git::head(ran);
            go_on(Stage::Index { plan, push, head }, Action::Git(ask_index()))
        },
        Stage::Index { plan, push, head } => match Git::snapshot(head, ran) {
            Ok(snapshot) => write(args, plan, push, snapshot, 0),
            Err(reason) => fail(VersionerError::SnapshotFailed(reason)),
        },
        Stage::Staging { plan, push, snapshot } => take_stage(args, plan, push, snapshot, ran),
        Stage::Committing { plan, push, snapshot } => take_commit(args, plan, push, snapshot, ran),
        Stage::Tagging { plan, push, snapshot } => take_annotate(args, plan, push, snapshot, ran),
        Stage::Pushing { plan, branch } => take_push(plan, branch, ran),
        Stage::Repushing { plan, branch } => take_repush(plan, branch, ran),
        Stage::Rewinding { plan, snapshot, error } => take_rewind(plan, snapshot, error, ran),
        Stage::Resetting { plan, snapshot, error, command } => take_reset(
            plan,
            snapshot,
            error,
            command,
            ran,
        ),
        Stage::Reloading { plan, snapshot, error } => take_reload(plan, snapshot, error, ran),
        _ => stop(),
    }
}

/// The step after more of the disk is known.
fn take_look(args: &Args, disk: &Disk, stage: Stage) -> (step: Step)
    requires
        stage@.wf(),
    ensures
        step@ == after_look(*args, disk@, stage@),
        step@.stage.wf(),
{
    match stage {
        Stage::Locating { root } => locate(args, disk, root),
        Stage::Editing { project, next, tag } => edit(disk, project, next, tag),
        _ => stop(),
    }
}

/// The step after a write.
fn take_write(args: &Args, stage: Stage, written: Result<(), String>) -> (step: Step)
    requires
        stage@.wf(),
    ensures
        step@ == after_writing(*args, stage@, written),
        step@.stage.wf(),
{
    match stage {
        Stage::Writing { plan, push, snapshot, at } => match written {
            Ok(_) => {
                assert(at < plan.edits.len());
                write(args, plan, push, snapshot, at + 1)
            },
            Err(reason) => unwrite(plan, at, 0, reason),
        },
        Stage::Unwriting { plan, failed, at, reason } => {
            assert(at < plan.edits.len());
            unwrite(plan, failed, at + 1, reason)
        },
        Stage::Returning { plan, error, at, unrestored } => {
            let mut unrestored = unrestored;
            let ghost before = texts(unrestored@);
            if written.is_err() {
                unrestored.push(plan.edits[at].label.clone());
                assert(texts(unrestored@) =~= before.push(plan@.edits[at as int].label));
            }
            let lines: Vec<Line> = Vec::new();
            assert(line_models(lines@) =~= Seq::empty());
            assert(at < plan.edits.len());
            give_back(plan, error, at + 1, unrestored, lines)
        },
        _ => stop(),
    }
}

/// The first step of a run.
pub fn begin(args: Args) -> (run: (State, Vec<Line>, Action))
    ensures
        run.0.args == args,
        run.0.disk@.files.len() == 0,
        run.0.disk@.listings.len() == 0,
        run.0.stage@ == begun().stage,
        run.0.stage@.wf(),
        line_models(run.1@) == begun().lines,
        run.2@ == begun().action,
{
    let lines: Vec<Line> = Vec::new();
    assert(line_models(lines@) =~= Seq::empty());
    let state = State { args, disk: Disk::new(), stage: Stage::Repository };
    (state, lines, Action::Git(ask_repository()))
}

/// The next step of a run, after what came of the last one: what to tell the
/// user, and what to do.
pub fn run(state: State, event: Event) -> (next: (State, Vec<Line>, Action))
    requires
        state.stage@.wf(),
    ensures
        next.0.args == state.args,
        next.0.disk@ == learned(state.disk@, event),
        next.0.stage@ == next_step(
            state.args,
            learned(state.disk@, event),
            state.stage@,
            event,
        ).stage,
        next.0.stage@.wf(),
        line_models(next.1@) == next_step(
            state.args,
            learned(state.disk@, event),
            state.stage@,
            event,
        ).lines,
        next.2@ == next_step(
            state.args,
            learned(state.disk@, event),
            state.stage@,
            event,
        ).action,
{
    let State { args, disk, stage } = state;
    let mut disk = disk;
    let ghost before = disk@;
    let step = match event {
        Event::Ran(ran) => take_git(&args, &disk, stage, &ran),
        Event::Resolved(root) => match stage {
            Stage::Root => locate(&args, &disk, root),
            _ => stop(),
        },
        Event::Looked(file) => {
            let ghost seen = file@;
            disk.files.push(file);
            assert(disk@.files =~= before.files.push(seen));
            assert(disk@.listings =~= before.listings);
            take_look(&args, &disk, stage)
        },
        Event::Listed(listing) => {
            let ghost seen = listing@;
            disk.listings.push(listing);
            assert(disk@.listings =~= before.listings.push(seen));
            assert(disk@.files =~= before.files);
            take_look(&args, &disk, stage)
        },
        Event::Written(written) => take_write(&args, stage, written),
    };
    (State { args, disk, stage: step.stage }, step.lines, step.action)
}

} // verus!
