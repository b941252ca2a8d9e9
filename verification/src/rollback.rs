//! How a release that fails halfway is undone.

use vstd::prelude::*;

use crate::cli::Args;
use crate::course::course;
use crate::disk::DiskModel;
use crate::edit::EditModel;
use crate::error::Failure;
use crate::git::{captured, line_of, reload_command, rewind_command, Ran, SnapshotModel};
use crate::run::{learned, next_step, ActionModel, Event, PlanModel, StageModel, StepModel};

verus! {

/// Whether an edit is put back among the first `count` steps.
pub open spec fn put_back(steps: Seq<StepModel>, count: int, edit: EditModel) -> bool {
    exists|j: int|
        0 <= j < count && (#[trigger] steps[j]).action == ActionModel::Write(
            edit.path,
            edit.original,
        )
}

/// What is among the first steps behind another is among the first of all.
proof fn lemma_put_back(step: StepModel, rest: Seq<StepModel>, count: int, edit: EditModel)
    requires
        put_back(rest, count, edit),
        0 <= count <= rest.len(),
    ensures
        put_back(seq![step] + rest, count + 1, edit),
{
    let j = choose|j: int|
        0 <= j < count && (#[trigger] rest[j]).action == ActionModel::Write(
            edit.path,
            edit.original,
        );
    assert((seq![step] + rest)[j + 1] == rest[j]);
}

/// The edits that have been put back, or are on their way back, before a stage
/// is reached; the rest is still to be put back when the run fails.
pub open spec fn returned_before(stage: StageModel) -> int {
    match stage {
        StageModel::Returning { at, .. } => at + 1,
        _ => 0,
    }
}

/// Whether a stage is between the writes and the end of a release with a plan,
/// or on the way back.
pub open spec fn is_committing(stage: StageModel, plan: PlanModel) -> bool {
    match stage {
        StageModel::Staging { plan: own, .. } => own == plan,
        StageModel::Committing { plan: own, .. } => own == plan,
        StageModel::Tagging { plan: own, .. } => own == plan,
        StageModel::Pushing { plan: own, .. } => own == plan,
        StageModel::Repushing { plan: own, .. } => own == plan,
        StageModel::Rewinding { plan: own, .. } => own == plan,
        StageModel::Resetting { plan: own, .. } => own == plan,
        StageModel::Reloading { plan: own, .. } => own == plan,
        StageModel::Returning { plan: own, at, .. } => own == plan && 0 <= at < plan.edits.len(),
        StageModel::Over => true,
        _ => false,
    }
}

/// Over stays over.
proof fn lemma_over(args: Args, disk: DiskModel, events: Seq<Event>)
    ensures
        forall|i: int|
            0 <= i < course(args, disk, StageModel::Over, events).len() ==> (#[trigger] course(
                args,
                disk,
                StageModel::Over,
                events,
            )[i]).action is End,
    decreases events.len(),
{
    if events.len() > 0 {
        let known = learned(disk, events[0]);
        lemma_over(args, known, events.drop_first());
        let rest = course(args, known, StageModel::Over, events.drop_first());
        let all = course(args, disk, StageModel::Over, events);
        assert forall|i: int| 0 <= i < all.len() implies (#[trigger] all[i]).action is End by {
            if i > 0 {
                assert(all[i] == rest[i - 1]);
            }
        }
    }
}

/// A run that fails once its files are written, because the commit or the tag
/// failed, has put every file back to its original contents first.
pub proof fn law_failed_release_puts_files_back(
    args: Args,
    disk: DiskModel,
    stage: StageModel,
    events: Seq<Event>,
    plan: PlanModel,
    end: int,
)
    requires
        is_committing(stage, plan),
        0 <= end < course(args, disk, stage, events).len(),
        course(args, disk, stage, events)[end].action is Fail,
    ensures
        forall|i: int|
            returned_before(stage) <= i < plan.edits.len() ==> put_back(
                course(args, disk, stage, events),
                end,
                #[trigger] plan.edits[i],
            ),
    decreases events.len(),
{
    let known = learned(disk, events[0]);
    let step = next_step(args, known, stage, events[0]);
    let rest = course(args, known, step.stage, events.drop_first());
    let all = course(args, disk, stage, events);
    assert(all == seq![step] + rest);
    if end == 0 {
        assert(all[0] == step);
        assert(returned_before(stage) >= plan.edits.len());
    } else {
        assert(all[end] == rest[end - 1]);
        if step.stage is Over {
            lemma_over(args, known, events.drop_first());
        } else {
            assert(is_committing(step.stage, plan));
            law_failed_release_puts_files_back(
                args,
                known,
                step.stage,
                events.drop_first(),
                plan,
                end - 1,
            );
        }
        assert forall|i: int| returned_before(stage) <= i < plan.edits.len() implies put_back(
            all,
            end,
            #[trigger] plan.edits[i],
        ) by {
            if i >= returned_before(step.stage) {
                lemma_put_back(step, rest, end - 1, plan.edits[i]);
            } else {
                assert(all[0].action == ActionModel::Write(
                    plan.edits[i].path,
                    plan.edits[i].original,
                ));
            }
        }
    }
}

/// A run that fails because a file could not be written has put that file and
/// every one before it back first.
pub proof fn law_failed_write_puts_files_back(
    args: Args,
    disk: DiskModel,
    stage: StageModel,
    events: Seq<Event>,
    plan: PlanModel,
    failed: int,
    end: int,
)
    requires
        0 <= failed < plan.edits.len(),
        match stage {
            StageModel::Writing { plan: own, at, .. } => own == plan && at == failed
                && events.len() > 0 && events[0] matches Event::Written(Err(_)),
            StageModel::Unwriting { plan: own, failed: last, at, .. } => own == plan && last
                == failed && 0 <= at <= failed,
            _ => false,
        },
        0 <= end < course(args, disk, stage, events).len(),
        course(args, disk, stage, events)[end].action is Fail,
    ensures
        forall|i: int|
            (match stage {
                StageModel::Unwriting { at, .. } => at + 1,
                _ => 0,
            }) <= i <= failed ==> put_back(
                course(args, disk, stage, events),
                end,
                #[trigger] plan.edits[i],
            ),
    decreases events.len(),
{
    let first = match stage {
        StageModel::Unwriting { at, .. } => at + 1,
        _ => 0,
    };
    let known = learned(disk, events[0]);
    let step = next_step(args, known, stage, events[0]);
    let rest = course(args, known, step.stage, events.drop_first());
    let all = course(args, disk, stage, events);
    assert(all == seq![step] + rest);
    if end == 0 {
        assert(all[0] == step);
        assert(first > failed);
    } else {
        assert(all[end] == rest[end - 1]);
        if step.stage is Over {
            lemma_over(args, known, events.drop_first());
        } else {
            law_failed_write_puts_files_back(
                args,
                known,
                step.stage,
                events.drop_first(),
                plan,
                failed,
                end - 1,
            );
        }
        assert forall|i: int| first <= i <= failed implies put_back(
            all,
            end,
            #[trigger] plan.edits[i],
        ) by {
            if i == first {
                assert(all[0].action == ActionModel::Write(
                    plan.edits[i].path,
                    plan.edits[i].original,
                ));
            } else {
                lemma_put_back(step, rest, end - 1, plan.edits[i]);
            }
        }
    }
}

/// After a failed commit or tag, git is told to move HEAD back to where it was
/// if it has moved, and to reload the saved index, before any file is touched.
/// The index is left alone only where HEAD could not be moved back.
pub proof fn law_rollback_restores_head_and_index(
    args: Args,
    disk: DiskModel,
    plan: PlanModel,
    snapshot: SnapshotModel,
    error: Failure,
    asked: Ran,
    reset: Ran,
)
    ensures
        ({
            let first = next_step(
                args,
                disk,
                StageModel::Rewinding { plan, snapshot, error },
                Event::Ran(asked),
            );
            match rewind_command(snapshot, line_of(asked)) {
                None => first.action == ActionModel::Git(reload_command(snapshot)),
                Some(command) => {
                    let second = next_step(args, disk, first.stage, Event::Ran(reset));
                    &&& first.action == ActionModel::Git(command)
                    &&& captured(command, reset) is Ok ==> second.action == ActionModel::Git(
                        reload_command(snapshot),
                    )
                },
            }
        }),
{
}

} // verus!
