//! What holds of every run, whatever comes of its actions.

use vstd::prelude::*;

use crate::cli::Args;
use crate::disk::DiskModel;
use crate::git::{
    annotate_command, branch_command, commit_command, head_command, origin_command, push_command,
    repository_command, root_command, snapshot_of, stage_command, status_command, succeeded,
    tag_command, Ran, SnapshotModel,
};
use crate::order::Precedence;
use crate::precedence::law_precedence_is_total;
use crate::project::ProjectModel;
use crate::release::{labels_of, PushModel};
use crate::run::{
    after_annotate, after_commit, after_index, after_push, after_stage, after_write, learned,
    located, next_step, writing, ActionModel, Event, PlanModel, StageModel, StepModel,
};
use crate::version::version_of;

verus! {

/// The steps of a run from a stage on, one for each event.
pub open spec fn course(
    args: Args,
    disk: DiskModel,
    stage: StageModel,
    events: Seq<Event>,
) -> Seq<StepModel>
    decreases events.len(),
{
    if events.len() == 0 {
        Seq::empty()
    } else {
        let known = learned(disk, events[0]);
        let step = next_step(args, known, stage, events[0]);
        seq![step] + course(args, known, step.stage, events.drop_first())
    }
}

// ---------------------------------------------------------------------------
// Dry runs

/// Whether a run has not begun to change anything.
pub open spec fn is_planning(stage: StageModel) -> bool {
    ||| stage is Repository
    ||| stage is TopLevel
    ||| stage is Root
    ||| stage is Locating
    ||| stage is Tag
    ||| stage is Editing
    ||| stage is Status
    ||| stage is Branch
    ||| stage is Remote
}

/// Whether a git command only asks.
pub open spec fn only_asks(command: Seq<Seq<char>>) -> bool {
    ||| command == repository_command()
    ||| command == root_command()
    ||| exists|tag: Seq<char>| command == #[trigger] tag_command(tag)
    ||| command == status_command()
    ||| command == branch_command()
    ||| command == origin_command()
    ||| command == head_command()
}

/// Whether an action changes neither a file nor the repository nor the remote.
pub open spec fn changes_nothing(action: ActionModel) -> bool {
    match action {
        ActionModel::Git(command) => only_asks(command),
        ActionModel::Write(_, _) => false,
        _ => true,
    }
}

/// Planning changes nothing, and a dry run never gets beyond it.
proof fn lemma_planning(args: Args, disk: DiskModel, stage: StageModel, event: Event)
    requires
        is_planning(stage) || stage is Over,
    ensures
        changes_nothing(next_step(args, disk, stage, event).action),
        args.dry_run ==> is_planning(next_step(args, disk, stage, event).stage) || next_step(
            args,
            disk,
            stage,
            event,
        ).stage is Over,
{
    let step = next_step(args, disk, stage, event);
    if let StageModel::Tag { tag, .. } = step.stage {
        assert(step.action == ActionModel::Git(tag_command(tag)));
    }
}

/// A dry run writes no file, and runs git only to ask.
pub proof fn law_dry_run_changes_nothing(
    args: Args,
    disk: DiskModel,
    stage: StageModel,
    events: Seq<Event>,
)
    requires
        args.dry_run,
        is_planning(stage) || stage is Over,
    ensures
        forall|i: int|
            0 <= i < course(args, disk, stage, events).len() ==> changes_nothing(
                (#[trigger] course(args, disk, stage, events)[i]).action,
            ),
    decreases events.len(),
{
    if events.len() > 0 {
        let known = learned(disk, events[0]);
        let step = next_step(args, known, stage, events[0]);
        lemma_planning(args, known, stage, events[0]);
        law_dry_run_changes_nothing(args, known, step.stage, events.drop_first());
        let rest = course(args, known, step.stage, events.drop_first());
        let all = course(args, disk, stage, events);
        assert forall|i: int| 0 <= i < all.len() implies changes_nothing(
            (#[trigger] all[i]).action,
        ) by {
            if i > 0 {
                assert(all[i] == rest[i - 1]);
            }
        }
    }
}

/// Whatever is refused while planning is refused before anything has changed:
/// the step that ends planning only asks where HEAD is.
pub proof fn law_planning_changes_nothing(
    args: Args,
    disk: DiskModel,
    stage: StageModel,
    event: Event,
)
    requires
        is_planning(stage),
    ensures
        changes_nothing(next_step(args, disk, stage, event).action),
        ({
            let next = next_step(args, disk, stage, event).stage;
            is_planning(next) || next is Over || next is Head
        }),
{
    lemma_planning(args, disk, stage, event);
}

// ---------------------------------------------------------------------------
// Versions

/// A release is only ever prepared for a version that comes after the current
/// one; a bump backwards, or to the same place, is refused.
pub proof fn law_releases_move_forwards(args: Args, project: ProjectModel)
    ensures
        match located(args, project).stage {
            StageModel::Tag { next, .. } => version_of(project.manifest.version()) matches Some(
                current,
            ) && current.precedence(next) == Precedence::Before,
            _ => located(args, project).action is Fail,
        },
{
    if let StageModel::Tag { next, .. } = located(args, project).stage {
        let current = version_of(project.manifest.version())->0;
        law_precedence_is_total(next, current);
    }
}

// ---------------------------------------------------------------------------
// Going through

/// Whether an event reports success.
pub open spec fn is_well(event: Event) -> bool {
    match event {
        Event::Ran(ran) => succeeded(ran),
        Event::Written(written) => written is Ok,
        _ => false,
    }
}

/// The actions that a release takes from the write of the edit at `at` on, if
/// each one goes well.
pub open spec fn actions_from(
    args: Args,
    plan: PlanModel,
    push: PushModel,
    at: int,
) -> Seq<ActionModel>
    decreases plan.edits.len() - at,
{
    if at < plan.edits.len() {
        seq![ActionModel::Write(plan.edits[at].path, plan.edits[at].updated)] + actions_from(
            args,
            plan,
            push,
            at + 1,
        )
    } else {
        let committing = seq![
            ActionModel::Git(stage_command(labels_of(plan.edits), args.all)),
            ActionModel::Git(
                commit_command(args.command.text(), labels_of(plan.edits), args.all),
            ),
            ActionModel::Git(annotate_command(plan.tag, args.command.text())),
        ];
        match push {
            PushModel::To(branch) => committing.push(
                ActionModel::Git(push_command(branch, plan.tag, true)),
            ).push(ActionModel::End),
            PushModel::Skip { .. } => committing.push(ActionModel::End),
        }
    }
}

/// The actions of steps.
pub open spec fn actions(steps: Seq<StepModel>) -> Seq<ActionModel> {
    Seq::new(steps.len(), |i: int| steps[i].action)
}

/// Whether events answer actions, each of them well.
pub open spec fn answer_well(events: Seq<Event>, actions: Seq<ActionModel>) -> bool {
    &&& events.len() == actions.len()
    &&& forall|i: int|
        0 <= i < events.len() ==> is_well(#[trigger] events[i]) && (events[i] is Written
            <==> actions[i] is Write)
}

/// The first of the steps of a course, and the rest.
proof fn lemma_first_step(args: Args, disk: DiskModel, stage: StageModel, events: Seq<Event>)
    requires
        events.len() > 0,
    ensures
        ({
            let known = learned(disk, events[0]);
            let step = next_step(args, known, stage, events[0]);
            let rest = course(args, known, step.stage, events.drop_first());
            actions(course(args, disk, stage, events)) == seq![step.action] + actions(rest)
        }),
{
    let known = learned(disk, events[0]);
    let step = next_step(args, known, stage, events[0]);
    let rest = course(args, known, step.stage, events.drop_first());
    assert(course(args, disk, stage, events) == seq![step] + rest);
    assert(actions(seq![step] + rest) =~= seq![step.action] + actions(rest));
}

/// A write that goes well leads to the next one.
proof fn lemma_write_goes_well(
    args: Args,
    disk: DiskModel,
    plan: PlanModel,
    push: PushModel,
    snapshot: SnapshotModel,
    at: int,
    event: Event,
)
    requires
        event is Written,
        is_well(event),
    ensures
        next_step(args, disk, StageModel::Writing { plan, push, snapshot, at }, event) == writing(
            args,
            plan,
            push,
            snapshot,
            at + 1,
        ),
        learned(disk, event) == disk,
{
    let stage = StageModel::Writing { plan, push, snapshot, at };
    assert(next_step(args, disk, stage, event) == after_write(
        args,
        plan,
        push,
        snapshot,
        at,
        event->Written_0,
    ));
}

/// Staging that goes well leads to the commit.
proof fn lemma_stage_goes_well(
    args: Args,
    disk: DiskModel,
    plan: PlanModel,
    push: PushModel,
    snapshot: SnapshotModel,
    event: Event,
)
    requires
        event is Ran,
        is_well(event),
    ensures
        next_step(args, disk, StageModel::Staging { plan, push, snapshot }, event).stage
            == (StageModel::Committing { plan, push, snapshot }),
        next_step(args, disk, StageModel::Staging { plan, push, snapshot }, event).action
            == ActionModel::Git(
            commit_command(args.command.text(), labels_of(plan.edits), args.all),
        ),
        learned(disk, event) == disk,
{
    let stage = StageModel::Staging { plan, push, snapshot };
    assert(next_step(args, disk, stage, event) == after_stage(
        args,
        plan,
        push,
        snapshot,
        event->Ran_0,
    ));
}

/// A commit that goes well leads to the tag.
proof fn lemma_commit_goes_well(
    args: Args,
    disk: DiskModel,
    plan: PlanModel,
    push: PushModel,
    snapshot: SnapshotModel,
    event: Event,
)
    requires
        event is Ran,
        is_well(event),
    ensures
        next_step(args, disk, StageModel::Committing { plan, push, snapshot }, event).stage
            == (StageModel::Tagging { plan, push, snapshot }),
        next_step(args, disk, StageModel::Committing { plan, push, snapshot }, event).action
            == ActionModel::Git(annotate_command(plan.tag, args.command.text())),
        learned(disk, event) == disk,
{
    let stage = StageModel::Committing { plan, push, snapshot };
    assert(next_step(args, disk, stage, event) == after_commit(
        args,
        plan,
        push,
        snapshot,
        event->Ran_0,
    ));
}

/// A tag that goes well leads to the push, or to the end.
proof fn lemma_tag_goes_well(
    args: Args,
    disk: DiskModel,
    plan: PlanModel,
    push: PushModel,
    snapshot: SnapshotModel,
    event: Event,
)
    requires
        event is Ran,
        is_well(event),
    ensures
        ({
            let step = next_step(
                args,
                disk,
                StageModel::Tagging { plan, push, snapshot },
                event,
            );
            match push {
                PushModel::To(branch) => step.stage == (StageModel::Pushing { plan, branch })
                    && step.action == ActionModel::Git(push_command(branch, plan.tag, true)),
                PushModel::Skip { .. } => step.action is End,
            }
        }),
        learned(disk, event) == disk,
{
    let stage = StageModel::Tagging { plan, push, snapshot };
    assert(next_step(args, disk, stage, event) == after_annotate(
        args,
        plan,
        push,
        snapshot,
        event->Ran_0,
    ));
}

/// A push that goes well leads to the end.
proof fn lemma_push_goes_well(
    args: Args,
    disk: DiskModel,
    plan: PlanModel,
    branch: Seq<char>,
    event: Event,
)
    requires
        event is Ran,
        is_well(event),
    ensures
        next_step(args, disk, StageModel::Pushing { plan, branch }, event).action is End,
        learned(disk, event) == disk,
{
    let stage = StageModel::Pushing { plan, branch };
    assert(next_step(args, disk, stage, event) == after_push(plan, branch, event->Ran_0));
}

/// From the staging on.
proof fn lemma_commits_through(
    args: Args,
    disk: DiskModel,
    plan: PlanModel,
    push: PushModel,
    snapshot: SnapshotModel,
    events: Seq<Event>,
)
    requires
        events.len() == (if push is To {
            4int
        } else {
            3
        }),
        forall|i: int| 0 <= i < events.len() ==> (#[trigger] events[i]) is Ran && is_well(
            events[i],
        ),
    ensures
        actions(course(args, disk, StageModel::Staging { plan, push, snapshot }, events))
            =~= actions_from(args, plan, push, plan.edits.len() as int).drop_first(),
{
    let second = events.drop_first();
    let third = second.drop_first();
    let fourth = third.drop_first();
    assert(events[0] is Ran && events[1] is Ran && events[2] is Ran);
    assert(second[0] == events[1]);
    assert(third[0] == events[2]);
    lemma_first_step(args, disk, StageModel::Staging { plan, push, snapshot }, events);
    lemma_stage_goes_well(args, disk, plan, push, snapshot, events[0]);
    lemma_first_step(args, disk, StageModel::Committing { plan, push, snapshot }, second);
    lemma_commit_goes_well(args, disk, plan, push, snapshot, second[0]);
    lemma_first_step(args, disk, StageModel::Tagging { plan, push, snapshot }, third);
    lemma_tag_goes_well(args, disk, plan, push, snapshot, third[0]);
    if let PushModel::To(branch) = push {
        assert(events[3] is Ran);
        assert(fourth[0] == events[3]);
        lemma_first_step(args, disk, StageModel::Pushing { plan, branch }, fourth);
        lemma_push_goes_well(args, disk, plan, branch, fourth[0]);
        let last = next_step(args, disk, StageModel::Pushing { plan, branch }, fourth[0]);
        assert(actions(course(args, disk, last.stage, fourth.drop_first())) =~= Seq::empty());
    } else {
        let last = next_step(args, disk, StageModel::Tagging { plan, push, snapshot }, third[0]);
        assert(actions(course(args, disk, last.stage, fourth)) =~= Seq::empty());
    }
}

/// From the write of the edit at `at` on.
proof fn lemma_goes_through(
    args: Args,
    disk: DiskModel,
    plan: PlanModel,
    push: PushModel,
    snapshot: SnapshotModel,
    at: int,
    events: Seq<Event>,
)
    requires
        0 <= at <= plan.edits.len(),
        answer_well(events, actions_from(args, plan, push, at).drop_last()),
    ensures
        actions(course(args, disk, writing(args, plan, push, snapshot, at).stage, events))
            =~= actions_from(args, plan, push, at).drop_first(),
    decreases plan.edits.len() - at,
{
    let all = actions_from(args, plan, push, at);
    let answered = all.drop_last();
    if at < plan.edits.len() {
        let behind = actions_from(args, plan, push, at + 1);
        let rest = events.drop_first();
        assert(behind.len() >= 2) by {
            lemma_actions_from(args, plan, push, at + 1);
        }
        assert(all.drop_first() =~= behind);
        assert(answered[0] == all[0]);
        assert(events[0] is Written);
        assert forall|i: int| 0 <= i < rest.len() implies is_well(#[trigger] rest[i]) && (
        rest[i] is Written <==> behind.drop_last()[i] is Write) by {
            assert(rest[i] == events[i + 1]);
            assert(answered[i + 1] == behind[i]);
        }
        lemma_write_goes_well(args, disk, plan, push, snapshot, at, events[0]);
        lemma_first_step(
            args,
            disk,
            StageModel::Writing { plan, push, snapshot, at },
            events,
        );
        lemma_goes_through(args, disk, plan, push, snapshot, at + 1, rest);
        lemma_actions_from(args, plan, push, at + 1);
        assert(behind =~= seq![behind[0]] + behind.drop_first());
    } else {
        assert forall|i: int| 0 <= i < events.len() implies (#[trigger] events[i]) is Ran
            && is_well(events[i]) by {
            assert(answered[i] == all[i]);
        }
        lemma_commits_through(args, disk, plan, push, snapshot, events);
    }
}

/// There is something to do before the end, and it starts with a write where
/// there is one to do.
proof fn lemma_actions_from(args: Args, plan: PlanModel, push: PushModel, at: int)
    requires
        0 <= at <= plan.edits.len(),
    ensures
        actions_from(args, plan, push, at).len() >= 2,
        forall|snapshot: SnapshotModel|
            actions_from(args, plan, push, at)[0] == (#[trigger] writing(
                args,
                plan,
                push,
                snapshot,
                at,
            )).action,
    decreases plan.edits.len() - at,
{
    if at < plan.edits.len() {
        lemma_actions_from(args, plan, push, at + 1);
    }
}

/// Where everything goes well, a release writes each file once, in order, then
/// stages, commits and tags, and pushes where there is something to push to.
/// Nothing else is done, and the run ends without an error.
pub proof fn law_release_goes_through(
    args: Args,
    disk: DiskModel,
    plan: PlanModel,
    push: PushModel,
    head: Option<Seq<char>>,
    events: Seq<Event>,
)
    requires
        events.len() > 0,
        events[0] is Ran,
        is_well(events[0]),
        answer_well(events.drop_first(), actions_from(args, plan, push, 0).drop_last()),
    ensures
        actions(course(args, disk, StageModel::Index { plan, push, head }, events))
            == actions_from(args, plan, push, 0),
{
    let stage = StageModel::Index { plan, push, head };
    let step = next_step(args, disk, stage, events[0]);
    assert(step == after_index(args, plan, push, head, events[0]->Ran_0));
    let snapshot = snapshot_of(head, events[0]->Ran_0)->Ok_0;
    assert(step == writing(args, plan, push, snapshot, 0));
    lemma_first_step(args, disk, stage, events);
    lemma_goes_through(args, disk, plan, push, snapshot, 0, events.drop_first());
    lemma_actions_from(args, plan, push, 0);
    let all = actions_from(args, plan, push, 0);
    assert(all =~= seq![all[0]] + all.drop_first());
}

} // verus!
