//! What each answer leads to, one step at a time.

use vstd::prelude::*;
use vstd::string::*;

use crate::asking::{law_commits, law_diagnostics, law_restoring, law_tags_and_pushes};
use crate::cli::Args;
use crate::disk::{maybe_path, DiskModel, File, Listing, Progress};
use crate::edit::EditModel;
use crate::error::Failure;
use crate::git::{
    captured, changed_in, commit_command, lacks_atomic, line_of, push_command, reload_command,
    snapshot_of, stage_command, succeeded, word_of, Ran, SnapshotModel,
};
use crate::order::Precedence;
use crate::project::{located_project, maybe_explicit, project_edits, ProjectModel};
use crate::release::{change_warnings, labels_of, LineModel, PushModel};
use crate::run::{
    after_commit, after_push, after_reload, after_repush, after_reset, after_rewind, after_stage,
    begun, learned, locating, next_step, ActionModel, Event, PlanModel, StageModel,
};
use crate::text::{joined, texts};
use crate::version::{version_of, VersionModel};

verus! {

// ---------------------------------------------------------------------------
// The repository

/// A run starts with the question whether there is a repository, without which
/// it fails, and goes on to ask for the top level.
pub proof fn law_repository_comes_first(args: Args, disk: DiskModel, ran: Ran)
    ensures
        begun().stage is Repository,
        begun().action == ActionModel::Git(seq!["rev-parse"@, "--git-dir"@]),
        begun().lines.len() == 0,
        ({
            let step = next_step(args, disk, StageModel::Repository, Event::Ran(ran));
            &&& step.lines.len() == 0
            &&& succeeded(ran) ==> step.stage is TopLevel && step.action == ActionModel::Git(
                seq!["rev-parse"@, "--show-toplevel"@],
            )
            &&& !succeeded(ran) ==> step.stage is Over && step.action == ActionModel::Fail(
                Failure::NotARepository,
            )
        }),
{
}

/// The top level is what git wrote, and a run without one fails.
pub proof fn law_top_level_is_resolved(args: Args, disk: DiskModel, ran: Ran)
    ensures
        ({
            let step = next_step(args, disk, StageModel::TopLevel, Event::Ran(ran));
            match word_of(ran) {
                Some(root) => step.stage is Root && step.action == ActionModel::Resolve(root),
                None => step.stage is Over && step.action == ActionModel::Fail(
                    Failure::NotARepository,
                ),
            }
        }),
{
}

// ---------------------------------------------------------------------------
// The project

/// The project is looked for from the resolved top level, as the arguments ask,
/// and whatever has to be known of the disk for it is asked for.
pub proof fn law_projects_are_looked_for(
    args: Args,
    disk: DiskModel,
    root: Vec<String>,
    file: File,
    listing: Listing,
)
    ensures
        ({
            let top = texts(root@);
            let step = next_step(args, disk, StageModel::Root, Event::Resolved(root));
            let stage = StageModel::Locating { root: top };
            &&& next_step(args, disk, stage, Event::Looked(file)) == step
            &&& next_step(args, disk, stage, Event::Listed(listing)) == step
            &&& match located_project(
                top,
                maybe_explicit(args.manifest),
                maybe_path(args.directory),
                disk,
            ) {
                Progress::Look(path) => step.stage == stage && step.action == ActionModel::Look(
                    path,
                ),
                Progress::List(path) => step.stage == stage && step.action == ActionModel::List(
                    path,
                ),
                Progress::Done(Err(failure)) => step.stage is Over && step.action
                    == ActionModel::Fail(failure),
                Progress::Done(Ok(project)) => match step.stage {
                    StageModel::Tag { project: own, .. } => own == project,
                    _ => step.stage is Over && step.action is Fail,
                },
            }
        }),
{
}

/// The tag of the next version is asked for, which is the bump of the current
/// one that the command asks for, and a later one. A bad identifier, a bad
/// version, an overflow and a step back each fail, in this order.
pub proof fn law_next_version_is_planned(
    args: Args,
    disk: DiskModel,
    root: Seq<Seq<char>>,
    project: ProjectModel,
)
    requires
        located_project(root, maybe_explicit(args.manifest), maybe_path(args.directory), disk)
            == Progress::Done(Ok::<_, Failure>(project)),
    ensures
        ({
            let step = locating(args, disk, root);
            let text = project.manifest.version();
            match args.command.bumping() {
                Err(failure) => step.action == ActionModel::Fail(failure),
                Ok(bump) => match version_of(text) {
                    None => step.action == ActionModel::Fail(Failure::InvalidVersion(text)),
                    Some(current) => match current.bumped(bump) {
                        Err(failure) => step.action == ActionModel::Fail(failure),
                        Ok(next) => {
                            let tag = match project.scope {
                                None => "v"@ + next.printed(),
                                Some(scope) => scope + "-v"@ + next.printed(),
                            };
                            if next.precedence(current) == Precedence::After {
                                &&& step.stage == (StageModel::Tag { project, next, tag })
                                &&& step.action == ActionModel::Git(
                                    seq!["rev-parse"@, "-q"@, "--verify"@, "refs/tags/"@ + tag],
                                )
                            } else {
                                step.action == ActionModel::Fail(
                                    Failure::Backwards(current.printed(), next.printed()),
                                )
                            }
                        },
                    },
                },
            }
        }),
{
}

/// A tag that is there already is refused. Otherwise the edits are worked out,
/// and whatever has to be known of the disk for them is asked for.
pub proof fn law_edits_are_worked_out(
    args: Args,
    disk: DiskModel,
    project: ProjectModel,
    next: VersionModel,
    tag: Seq<char>,
    ran: Ran,
    file: File,
    listing: Listing,
)
    ensures
        ({
            let asked = StageModel::Tag { project, next, tag };
            let stage = StageModel::Editing { project, next, tag };
            let step = next_step(args, disk, stage, Event::Looked(file));
            &&& succeeded(ran) ==> next_step(args, disk, asked, Event::Ran(ran)).action
                == ActionModel::Fail(Failure::TagExists(tag))
            &&& !succeeded(ran) ==> next_step(args, disk, asked, Event::Ran(ran)) == step
            &&& next_step(args, disk, stage, Event::Listed(listing)) == step
            &&& match project_edits(project, next.printed(), disk) {
                Progress::Look(path) => step.stage == stage && step.action == ActionModel::Look(
                    path,
                ),
                Progress::List(path) => step.stage == stage && step.action == ActionModel::List(
                    path,
                ),
                Progress::Done(Err(failure)) => step.stage is Over && step.action
                    == ActionModel::Fail(failure),
                Progress::Done(Ok(edits)) => {
                    &&& step.stage matches StageModel::Status { plan } && plan.edits == edits
                        && plan.next == next.printed() && plan.tag == tag
                    &&& step.action == ActionModel::Git(
                        seq!["status"@, "--porcelain"@, "-z"@, "--untracked-files=all"@],
                    )
                },
            }
        }),
{
}

/// What was looked at is known from then on, and nothing is forgotten.
pub proof fn law_disk_is_learned(disk: DiskModel, file: File, listing: Listing, ran: Ran)
    ensures
        learned(disk, Event::Looked(file)).files == disk.files.push(file@),
        learned(disk, Event::Looked(file)).listings == disk.listings,
        learned(disk, Event::Listed(listing)).listings == disk.listings.push(listing@),
        learned(disk, Event::Listed(listing)).files == disk.files,
        learned(disk, Event::Ran(ran)) == disk,
{
}

// ---------------------------------------------------------------------------
// Plans

/// The user is told of the changes in the worktree, the branch is asked for
/// and, unless the release is not to be pushed, the remote.
pub proof fn law_plans_are_made(args: Args, disk: DiskModel, plan: PlanModel, ran: Ran)
    ensures
        ({
            let step = next_step(args, disk, StageModel::Status { plan }, Event::Ran(ran));
            &&& step.stage == (StageModel::Branch { plan })
            &&& step.lines == change_warnings(changed_in(ran), labels_of(plan.edits), args.all)
            &&& step.action == ActionModel::Git(seq!["branch"@, "--show-current"@])
        }),
        ({
            let step = next_step(args, disk, StageModel::Branch { plan }, Event::Ran(ran));
            &&& !args.no_push ==> step.stage == (StageModel::Remote {
                plan,
                current: word_of(ran),
            }) && step.action == ActionModel::Git(seq!["remote"@, "get-url"@, "origin"@])
                && step.lines.len() == 0
            &&& args.no_push && args.dry_run ==> step.action is End && step.stage is Over
                && step.lines.len() == plan.edits.len() + 4 && step.lines.last()
                == LineModel::Info("would not push: "@ + "not pushing (--no-push)"@)
            &&& args.no_push && !args.dry_run ==> step.lines.len() == 0 && (
            step.stage matches StageModel::Head { plan: own, push } && own == plan
                && (push matches PushModel::Skip { reason, .. } && reason
                == "not pushing (--no-push)"@))
        }),
{
}

/// With a remote and a branch the release is to be pushed to that branch. A dry
/// run ends here. Any other goes on to ask where HEAD is, and saves the index.
pub proof fn law_pushes_are_planned(
    args: Args,
    disk: DiskModel,
    plan: PlanModel,
    current: Option<Seq<char>>,
    push: PushModel,
    ran: Ran,
)
    ensures
        ({
            let step = next_step(
                args,
                disk,
                StageModel::Remote { plan, current },
                Event::Ran(ran),
            );
            &&& args.dry_run ==> step.action is End && step.stage is Over && step.lines.len()
                == plan.edits.len() + 4
            &&& args.dry_run && succeeded(ran) && current is Some ==> step.lines.last()
                == LineModel::Info(
                "would push "@ + current->0 + " and '"@ + plan.tag + "' to origin"@,
            )
            &&& !args.dry_run ==> {
                &&& step.lines.len() == 0
                &&& step.action == ActionModel::Git(
                    seq!["rev-parse"@, "-q"@, "--verify"@, "HEAD"@],
                )
                &&& step.stage matches StageModel::Head { plan: own, push } && own == plan && (
                push is To <==> succeeded(ran) && current is Some) && (
                push is To ==> push == PushModel::To(current->0))
            }
        }),
        ({
            let step = next_step(args, disk, StageModel::Head { plan, push }, Event::Ran(ran));
            &&& step.stage == (StageModel::Index { plan, push, head: line_of(ran) })
            &&& step.action == ActionModel::Git(seq!["write-tree"@])
        }),
{
}

// ---------------------------------------------------------------------------
// Changes

/// Whether a step writes the edit at `at` with its new contents.
pub open spec fn writes_update(
    stage: StageModel,
    action: ActionModel,
    plan: PlanModel,
    push: PushModel,
    snapshot: SnapshotModel,
    at: int,
) -> bool {
    &&& stage == (StageModel::Writing { plan, push, snapshot, at })
    &&& action == ActionModel::Write(plan.edits[at].path, plan.edits[at].updated)
}

/// Whether a step stages what is to be committed.
pub open spec fn stages(args: Args, edits: Seq<EditModel>, action: ActionModel) -> bool {
    action matches ActionModel::Git(command) && if args.all {
        command == seq!["add"@, "-A"@]
    } else {
        &&& command.len() == edits.len() + 2
        &&& command[0] == "add"@ && command[1] == "--"@
        &&& forall|i: int|
            0 <= i < edits.len() ==> (#[trigger] command[i + 2]) == ":(top,literal)"@
                + edits[i].label
    }
}

/// With the index saved, the edits are written one after the other, and then
/// staged. Without it, nothing is written.
pub proof fn law_edits_are_written(
    args: Args,
    disk: DiskModel,
    plan: PlanModel,
    push: PushModel,
    head: Option<Seq<char>>,
    ran: Ran,
)
    ensures
        ({
            let step = next_step(
                args,
                disk,
                StageModel::Index { plan, push, head },
                Event::Ran(ran),
            );
            match snapshot_of(head, ran) {
                Err(reason) => step.action == ActionModel::Fail(Failure::SnapshotFailed(reason)),
                Ok(snapshot) => {
                    &&& plan.edits.len() > 0 ==> writes_update(
                        step.stage,
                        step.action,
                        plan,
                        push,
                        snapshot,
                        0,
                    )
                    &&& plan.edits.len() == 0 ==> step.stage == (StageModel::Staging {
                        plan,
                        push,
                        snapshot,
                    }) && stages(args, plan.edits, step.action)
                },
            }
        }),
{
}

/// A write that goes well leads to the next one, and the last one to the
/// staging. One that does not leads back to the original of the first edit.
pub proof fn law_writes_follow_each_other(
    args: Args,
    disk: DiskModel,
    plan: PlanModel,
    push: PushModel,
    snapshot: SnapshotModel,
    at: int,
    written: Result<(), String>,
)
    requires
        0 <= at < plan.edits.len(),
    ensures
        ({
            let step = next_step(
                args,
                disk,
                StageModel::Writing { plan, push, snapshot, at },
                Event::Written(written),
            );
            match written {
                Ok(_) => {
                    &&& at + 1 < plan.edits.len() ==> writes_update(
                        step.stage,
                        step.action,
                        plan,
                        push,
                        snapshot,
                        at + 1,
                    ) && step.lines.len() == 0
                    &&& at + 1 == plan.edits.len() ==> step.stage == (StageModel::Staging {
                        plan,
                        push,
                        snapshot,
                    }) && stages(args, plan.edits, step.action) && step.lines.len()
                        == plan.edits.len()
                },
                Err(reason) => step.stage == (StageModel::Unwriting {
                    plan,
                    failed: at,
                    at: 0,
                    reason: reason@,
                }) && step.action == ActionModel::Write(
                    plan.edits[0].path,
                    plan.edits[0].original,
                ),
            }
        }),
{
}

/// After a failed write every edit up to that one is put back, and the run
/// fails with what could not be saved, whatever comes of that.
pub proof fn law_failed_writes_are_undone(
    args: Args,
    disk: DiskModel,
    plan: PlanModel,
    failed: int,
    at: int,
    reason: Seq<char>,
    written: Result<(), String>,
)
    requires
        0 <= at <= failed < plan.edits.len(),
    ensures
        ({
            let step = next_step(
                args,
                disk,
                StageModel::Unwriting { plan, failed, at, reason },
                Event::Written(written),
            );
            &&& at < failed ==> step.stage == (StageModel::Unwriting {
                plan,
                failed,
                at: at + 1,
                reason,
            }) && step.action == ActionModel::Write(
                plan.edits[at + 1].path,
                plan.edits[at + 1].original,
            )
            &&& at == failed ==> step.stage is Over && step.action == ActionModel::Fail(
                Failure::SaveFailed(plan.edits[failed].label, reason),
            )
        }),
{
}

/// What is staged is committed under the message: the edited files and no
/// others, or everything. A failure leads back, and is told in the end.
pub proof fn law_staged_files_are_committed(
    args: Args,
    disk: DiskModel,
    plan: PlanModel,
    push: PushModel,
    snapshot: SnapshotModel,
    ran: Ran,
)
    ensures
        ({
            let stage = StageModel::Staging { plan, push, snapshot };
            let step = next_step(args, disk, stage, Event::Ran(ran));
            let message = args.command.text();
            if succeeded(ran) {
                &&& step.stage == (StageModel::Committing { plan, push, snapshot })
                &&& step.action matches ActionModel::Git(command) && if args.all {
                    command == seq!["commit"@, "-m"@, message]
                } else {
                    &&& command.len() == plan.edits.len() + 5
                    &&& command.take(5) == seq!["commit"@, "-m"@, message, "--only"@, "--"@]
                    &&& forall|i: int|
                        0 <= i < plan.edits.len() ==> (#[trigger] command[i + 5])
                            == ":(top,literal)"@ + plan.edits[i].label
                }
            } else {
                &&& step.stage matches StageModel::Rewinding { plan: own, snapshot: kept, error }
                    && own == plan && kept == snapshot && error is CommitFailed
                &&& step.action == ActionModel::Git(
                    seq!["rev-parse"@, "-q"@, "--verify"@, "HEAD"@],
                )
            }
        }),
{
    let stage = StageModel::Staging { plan, push, snapshot };
    let message = args.command.text();
    let paths = labels_of(plan.edits);
    assert(next_step(args, disk, stage, Event::Ran(ran)) == after_stage(
        args,
        plan,
        push,
        snapshot,
        ran,
    ));
    law_diagnostics(stage_command(paths, args.all), ran);
    law_commits(message, paths, 0);
    let command = commit_command(message, paths, false);
    assert forall|i: int| 0 <= i < plan.edits.len() implies (#[trigger] command[i + 5])
        == ":(top,literal)"@ + plan.edits[i].label by {
        law_commits(message, paths, i);
    }
}

/// A commit is tagged, under the message. A failure leads back, and is told in
/// the end.
pub proof fn law_commits_are_tagged(
    args: Args,
    disk: DiskModel,
    plan: PlanModel,
    push: PushModel,
    snapshot: SnapshotModel,
    ran: Ran,
)
    ensures
        ({
            let stage = StageModel::Committing { plan, push, snapshot };
            let step = next_step(args, disk, stage, Event::Ran(ran));
            if succeeded(ran) {
                &&& step.stage == (StageModel::Tagging { plan, push, snapshot })
                &&& step.action == ActionModel::Git(
                    seq!["tag"@, "-a"@, plan.tag, "-m"@, args.command.text()],
                )
            } else {
                &&& step.stage matches StageModel::Rewinding { plan: own, snapshot: kept, error }
                    && own == plan && kept == snapshot && error is CommitFailed
                &&& step.action == ActionModel::Git(
                    seq!["rev-parse"@, "-q"@, "--verify"@, "HEAD"@],
                )
            }
        }),
{
    let stage = StageModel::Committing { plan, push, snapshot };
    assert(next_step(args, disk, stage, Event::Ran(ran)) == after_commit(
        args,
        plan,
        push,
        snapshot,
        ran,
    ));
    law_diagnostics(
        commit_command(args.command.text(), labels_of(plan.edits), args.all),
        ran,
    );
}

/// A tagged release is told of, and pushed where it is to be pushed. Where it
/// is not, the user is told why, and how to.
pub proof fn law_tagged_releases_are_pushed(
    args: Args,
    disk: DiskModel,
    plan: PlanModel,
    push: PushModel,
    snapshot: SnapshotModel,
    ran: Ran,
)
    ensures
        ({
            let stage = StageModel::Tagging { plan, push, snapshot };
            let step = next_step(args, disk, stage, Event::Ran(ran));
            let done = LineModel::Info("successfully committed '"@ + plan.tag + "'"@);
            if succeeded(ran) {
                match push {
                    PushModel::To(branch) => {
                        &&& step.stage == (StageModel::Pushing { plan, branch })
                        &&& step.lines == seq![done]
                        &&& step.action == ActionModel::Git(
                            seq![
                                "push"@,
                                "--atomic"@,
                                "-u"@,
                                "origin"@,
                                branch,
                                "refs/tags/"@ + plan.tag,
                            ],
                        )
                    },
                    PushModel::Skip { hint, reason } => {
                        &&& step.stage is Over && step.action is End
                        &&& step.lines == seq![done, LineModel::Info(reason + ", "@ + hint)]
                    },
                }
            } else {
                &&& step.stage matches StageModel::Rewinding { plan: own, snapshot: kept, error }
                    && own == plan && kept == snapshot && error is TagFailed
                &&& step.action == ActionModel::Git(
                    seq!["rev-parse"@, "-q"@, "--verify"@, "HEAD"@],
                )
            }
        }),
{
}

/// What the user is told of a release that is on the remote.
pub open spec fn told_pushed(branch: Seq<char>, tag: Seq<char>) -> Seq<LineModel> {
    seq![LineModel::Info("pushed "@ + branch + " and '"@ + tag + "' to origin"@)]
}

/// What the user is told of a release that could not be pushed.
pub open spec fn told_local(
    branch: Seq<char>,
    tag: Seq<char>,
    reason: Seq<char>,
) -> Seq<LineModel> {
    seq![
        LineModel::Warn(reason),
        LineModel::Info(
            "changes exist locally, "@ + ("push with: 'git push --atomic -u origin "@ + branch
                + " "@ + tag + "'"@),
        ),
    ]
}

/// A push that goes well is told of. Where the server cannot push both or none,
/// the push is tried once more without. Any other release that could not be
/// pushed stays, and the user is told how to push it.
pub proof fn law_pushes_of_both_or_none(
    args: Args,
    disk: DiskModel,
    plan: PlanModel,
    branch: Seq<char>,
    ran: Ran,
)
    ensures
        ({
            let stage = StageModel::Pushing { plan, branch };
            let step = next_step(args, disk, stage, Event::Ran(ran));
            let command = seq![
                "push"@,
                "--atomic"@,
                "-u"@,
                "origin"@,
                branch,
                "refs/tags/"@ + plan.tag,
            ];
            match captured(command, ran) {
                Ok(_) => succeeded(ran) && step.action is End && step.lines == told_pushed(
                    branch,
                    plan.tag,
                ),
                Err(reason) => !succeeded(ran) && if lacks_atomic(reason) {
                    &&& step.stage == (StageModel::Repushing { plan, branch })
                    &&& step.action == ActionModel::Git(
                        seq!["push"@, "-u"@, "origin"@, branch, "refs/tags/"@ + plan.tag],
                    )
                } else {
                    step.action is End && step.lines == told_local(branch, plan.tag, reason)
                },
            }
        }),
{
    let stage = StageModel::Pushing { plan, branch };
    assert(next_step(args, disk, stage, Event::Ran(ran)) == after_push(plan, branch, ran));
    law_diagnostics(push_command(branch, plan.tag, true), ran);
    law_tags_and_pushes(branch, plan.tag, Seq::empty());
}

/// A push that is tried once more is the last, whatever comes of it.
pub proof fn law_plain_pushes(
    args: Args,
    disk: DiskModel,
    plan: PlanModel,
    branch: Seq<char>,
    ran: Ran,
)
    ensures
        ({
            let stage = StageModel::Repushing { plan, branch };
            let step = next_step(args, disk, stage, Event::Ran(ran));
            let command = seq!["push"@, "-u"@, "origin"@, branch, "refs/tags/"@ + plan.tag];
            &&& step.action is End && step.stage is Over
            &&& match captured(command, ran) {
                Ok(_) => succeeded(ran) && step.lines == told_pushed(branch, plan.tag),
                Err(reason) => !succeeded(ran) && step.lines == told_local(
                    branch,
                    plan.tag,
                    reason,
                ),
            }
        }),
{
    let stage = StageModel::Repushing { plan, branch };
    assert(next_step(args, disk, stage, Event::Ran(ran)) == after_repush(plan, branch, ran));
    law_diagnostics(push_command(branch, plan.tag, false), ran);
    law_tags_and_pushes(branch, plan.tag, Seq::empty());
}

// ---------------------------------------------------------------------------
// Back

/// A failed release moves HEAD back from where it is, if it has moved, and then
/// reads the index back.
pub proof fn law_head_is_moved_back(
    args: Args,
    disk: DiskModel,
    plan: PlanModel,
    snapshot: SnapshotModel,
    error: Failure,
    ran: Ran,
)
    ensures
        ({
            let stage = StageModel::Rewinding { plan, snapshot, error };
            let step = next_step(args, disk, stage, Event::Ran(ran));
            let moved = line_of(ran) is Some && line_of(ran) != snapshot.head;
            &&& moved ==> (step.stage matches StageModel::Resetting {
                plan: own,
                snapshot: kept,
                error: told,
                command: run,
            } && own == plan && kept == snapshot && told == error && step.action
                == ActionModel::Git(run) && run.last() == line_of(ran)->0 && (
            snapshot.head is Some ==> run[4] == snapshot.head->0))
            &&& !moved ==> step.stage == (StageModel::Reloading { plan, snapshot, error })
                && step.action == ActionModel::Git(seq!["read-tree"@, snapshot.index])
        }),
{
    let stage = StageModel::Rewinding { plan, snapshot, error };
    assert(next_step(args, disk, stage, Event::Ran(ran)) == after_rewind(
        plan,
        snapshot,
        error,
        ran,
    ));
    law_restoring(snapshot, line_of(ran));
}

/// With HEAD back the index is read back. Otherwise the user is warned, and the
/// edits are put back, from the first one on.
pub proof fn law_index_is_read_back(
    args: Args,
    disk: DiskModel,
    plan: PlanModel,
    snapshot: SnapshotModel,
    error: Failure,
    command: Seq<Seq<char>>,
    ran: Ran,
)
    requires
        plan.edits.len() > 0,
    ensures
        ({
            let stage = StageModel::Resetting { plan, snapshot, error, command };
            let step = next_step(args, disk, stage, Event::Ran(ran));
            if succeeded(ran) {
                &&& step.stage == (StageModel::Reloading { plan, snapshot, error })
                &&& step.action == ActionModel::Git(seq!["read-tree"@, snapshot.index])
            } else {
                &&& step.stage == (StageModel::Returning {
                    plan,
                    error,
                    at: 0,
                    unrestored: Seq::empty(),
                })
                &&& step.lines == seq![
                    LineModel::Warn(
                        "could not restore the repository: "@ + captured(command, ran)->Err_0,
                    ),
                ]
                &&& step.action == ActionModel::Write(
                    plan.edits[0].path,
                    plan.edits[0].original,
                )
            }
        }),
{
    let stage = StageModel::Resetting { plan, snapshot, error, command };
    assert(next_step(args, disk, stage, Event::Ran(ran)) == after_reset(
        plan,
        snapshot,
        error,
        command,
        ran,
    ));
    law_diagnostics(command, ran);
}

/// Whether or not the index could be read back, the edits are put back, from
/// the first one on. Where it could not, the user is warned.
pub proof fn law_edits_follow_the_index(
    args: Args,
    disk: DiskModel,
    plan: PlanModel,
    snapshot: SnapshotModel,
    error: Failure,
    ran: Ran,
)
    requires
        plan.edits.len() > 0,
    ensures
        ({
            let stage = StageModel::Reloading { plan, snapshot, error };
            let step = next_step(args, disk, stage, Event::Ran(ran));
            let command = seq!["read-tree"@, snapshot.index];
            &&& step.stage == (StageModel::Returning {
                plan,
                error,
                at: 0,
                unrestored: Seq::empty(),
            })
            &&& step.action == ActionModel::Write(plan.edits[0].path, plan.edits[0].original)
            &&& succeeded(ran) ==> step.lines.len() == 0
            &&& !succeeded(ran) ==> step.lines == seq![
                LineModel::Warn(
                    "could not restore the repository: "@ + captured(command, ran)->Err_0,
                ),
            ]
        }),
{
    let stage = StageModel::Reloading { plan, snapshot, error };
    assert(next_step(args, disk, stage, Event::Ran(ran)) == after_reload(
        plan,
        snapshot,
        error,
        ran,
    ));
    law_diagnostics(reload_command(snapshot), ran);
}

/// Each edit is put back in turn, whatever came of the one before. Those that
/// could not be are named in the end, and the run ends with the error that made
/// it fail.
pub proof fn law_edits_are_put_back(
    args: Args,
    disk: DiskModel,
    plan: PlanModel,
    error: Failure,
    at: int,
    unrestored: Seq<Seq<char>>,
    written: Result<(), String>,
)
    requires
        0 <= at < plan.edits.len(),
    ensures
        ({
            let step = next_step(
                args,
                disk,
                StageModel::Returning { plan, error, at, unrestored },
                Event::Written(written),
            );
            let left = if written is Ok {
                unrestored
            } else {
                unrestored.push(plan.edits[at].label)
            };
            &&& at + 1 < plan.edits.len() ==> step.stage == (StageModel::Returning {
                plan,
                error,
                at: at + 1,
                unrestored: left,
            }) && step.action == ActionModel::Write(
                plan.edits[at + 1].path,
                plan.edits[at + 1].original,
            ) && step.lines.len() == 0
            &&& at + 1 == plan.edits.len() ==> step.action == ActionModel::Fail(error)
                && step.stage is Over && step.lines == if left.len() > 0 {
                seq![LineModel::Warn("could not restore "@ + joined(left, ", "@))]
            } else {
                Seq::empty()
            }
        }),
{
}

} // verus!
