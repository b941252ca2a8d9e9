//! What is pushed, and what becomes of a release that is not.

use vstd::prelude::*;

use crate::cli::Args;
use crate::course::course;
use crate::disk::DiskModel;
use crate::git::{captured, lacks_atomic, push_command, Ran};
use crate::release::{hint_of, LineModel};
use crate::run::{
    after_git, after_look, after_push, after_repush, after_writing, learned, locating, next_step,
    ActionModel, Event, PlanModel, StageModel,
};
use crate::text::texts;

verus! {

/// What the user is told after a push failed.
pub open spec fn told_to_push(plan: PlanModel, branch: Seq<char>) -> LineModel {
    LineModel::Info("changes exist locally, "@ + hint_of(Some(branch), plan.tag))
}

/// A failed push leaves the release in place: nothing is written, undone or
/// failed any more. The run ends by telling how to push by hand, or goes on
/// with a plain push where the server cannot push both or none.
pub proof fn law_failed_push_keeps_the_release(
    args: Args,
    disk: DiskModel,
    plan: PlanModel,
    branch: Seq<char>,
    ran: Ran,
)
    requires
        captured(push_command(branch, plan.tag, true), ran) is Err,
    ensures
        ({
            let step = next_step(
                args,
                disk,
                StageModel::Pushing { plan, branch },
                Event::Ran(ran),
            );
            if lacks_atomic(captured(push_command(branch, plan.tag, true), ran)->Err_0) {
                &&& step.stage == StageModel::Repushing { plan, branch }
                &&& step.action == ActionModel::Git(push_command(branch, plan.tag, false))
            } else {
                step.action is End && step.lines.last() == told_to_push(plan, branch)
            }
        }),
{
    let step = next_step(args, disk, StageModel::Pushing { plan, branch }, Event::Ran(ran));
    assert(step == after_push(plan, branch, ran));
}

/// The same holds where the plain push fails.
pub proof fn law_failed_plain_push_keeps_the_release(
    args: Args,
    disk: DiskModel,
    plan: PlanModel,
    branch: Seq<char>,
    ran: Ran,
)
    requires
        captured(push_command(branch, plan.tag, false), ran) is Err,
    ensures
        ({
            let step = next_step(
                args,
                disk,
                StageModel::Repushing { plan, branch },
                Event::Ran(ran),
            );
            step.action is End && step.lines.last() == told_to_push(plan, branch)
        }),
{
    let step = next_step(args, disk, StageModel::Repushing { plan, branch }, Event::Ran(ran));
    assert(step == after_repush(plan, branch, ran));
}

/// Whether a run is not going to push.
pub open spec fn stays_local(stage: StageModel) -> bool {
    match stage {
        StageModel::Remote { .. } => false,
        StageModel::Head { push, .. } => push is Skip,
        StageModel::Index { push, .. } => push is Skip,
        StageModel::Writing { push, .. } => push is Skip,
        StageModel::Staging { push, .. } => push is Skip,
        StageModel::Committing { push, .. } => push is Skip,
        StageModel::Tagging { push, .. } => push is Skip,
        StageModel::Pushing { .. } => false,
        StageModel::Repushing { .. } => false,
        _ => true,
    }
}

/// Whether an action pushes.
pub open spec fn pushes(action: ActionModel) -> bool {
    match action {
        ActionModel::Git(command) => command.len() > 0 && command[0] == "push"@,
        _ => false,
    }
}

/// No other command starts like a push.
proof fn lemma_words()
    ensures
        "rev-parse"@ != "push"@,
        "remote"@ != "push"@,
        "branch"@ != "push"@,
        "status"@ != "push"@,
        "write-tree"@ != "push"@,
        "update-ref"@ != "push"@,
        "read-tree"@ != "push"@,
        "add"@ != "push"@,
        "commit"@ != "push"@,
        "tag"@ != "push"@,
{
    reveal_strlit("push");
    reveal_strlit("rev-parse");
    reveal_strlit("remote");
    reveal_strlit("branch");
    reveal_strlit("status");
    reveal_strlit("write-tree");
    reveal_strlit("update-ref");
    reveal_strlit("read-tree");
    reveal_strlit("add");
    reveal_strlit("commit");
    reveal_strlit("tag");
    assert("push"@.len() == 4);
    assert("rev-parse"@.len() == 9);
    assert("remote"@.len() == 6);
    assert("branch"@.len() == 6);
    assert("status"@.len() == 6);
    assert("write-tree"@.len() == 10);
    assert("update-ref"@.len() == 10);
    assert("read-tree"@.len() == 9);
    assert("add"@.len() == 3);
    assert("commit"@.len() == 6);
    assert("tag"@.len() == 3);
}

proof fn lemma_git_stays_local(args: Args, disk: DiskModel, stage: StageModel, ran: Ran)
    requires
        args.no_push,
        stays_local(stage),
    ensures
        stays_local(after_git(args, disk, stage, ran).stage),
        !pushes(after_git(args, disk, stage, ran).action),
{
    lemma_words();
}

proof fn lemma_search_stays_local(args: Args, disk: DiskModel, root: Seq<Seq<char>>)
    ensures
        stays_local(locating(args, disk, root).stage),
        !pushes(locating(args, disk, root).action),
{
    lemma_words();
}

proof fn lemma_look_stays_local(args: Args, disk: DiskModel, stage: StageModel)
    ensures
        stays_local(after_look(args, disk, stage).stage),
        !pushes(after_look(args, disk, stage).action),
{
    lemma_words();
    if let StageModel::Locating { root } = stage {
        lemma_search_stays_local(args, disk, root);
    }
}

proof fn lemma_write_stays_local(args: Args, stage: StageModel, written: Result<(), String>)
    requires
        stays_local(stage),
    ensures
        stays_local(after_writing(args, stage, written).stage),
        !pushes(after_writing(args, stage, written).action),
{
    lemma_words();
}

proof fn lemma_stays_local(args: Args, disk: DiskModel, stage: StageModel, event: Event)
    requires
        args.no_push,
        stays_local(stage),
    ensures
        stays_local(next_step(args, disk, stage, event).stage),
        !pushes(next_step(args, disk, stage, event).action),
{
    match event {
        Event::Ran(ran) => {
            lemma_git_stays_local(args, disk, stage, ran);
        },
        Event::Resolved(root) => {
            lemma_search_stays_local(args, disk, texts(root@));
        },
        Event::Written(written) => {
            lemma_write_stays_local(args, stage, written);
        },
        _ => {
            lemma_look_stays_local(args, disk, stage);
        },
    }
}

/// With `--no-push`, nothing is ever pushed.
pub proof fn law_no_push_pushes_nothing(
    args: Args,
    disk: DiskModel,
    stage: StageModel,
    events: Seq<Event>,
)
    requires
        args.no_push,
        stays_local(stage),
    ensures
        forall|i: int|
            0 <= i < course(args, disk, stage, events).len() ==> !pushes(
                (#[trigger] course(args, disk, stage, events)[i]).action,
            ),
    decreases events.len(),
{
    if events.len() > 0 {
        let known = learned(disk, events[0]);
        let step = next_step(args, known, stage, events[0]);
        lemma_stays_local(args, known, stage, events[0]);
        law_no_push_pushes_nothing(args, known, step.stage, events.drop_first());
        let rest = course(args, known, step.stage, events.drop_first());
        let all = course(args, disk, stage, events);
        assert forall|i: int| 0 <= i < all.len() implies !pushes((#[trigger] all[i]).action) by {
            if i > 0 {
                assert(all[i] == rest[i - 1]);
            }
        }
    }
}

} // verus!
