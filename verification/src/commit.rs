//! How a planned sync is carried out.
//!
//! The steps of a sync are performed one after the other. When one fails, what
//! was done is rolled back. When all have succeeded, the transaction is
//! finished.
use vstd::prelude::*;
use crate::bundle::Bundle;
use crate::bundle::BundleView;
use crate::bundle::ManagedView;
use crate::desired::DesiredCommand;
use crate::desired::DesiredView;
use crate::name_map;
use crate::name_map::NameMap;
use crate::plan::Change;
use crate::plan::ChangeView;
use crate::status;
use crate::text;

verus! {

/// One step of a sync.
#[derive(Debug)]
pub enum SyncStep {
    /// The original of a command is moved into the transaction.
    BackUp { name: String, path: String },
    /// The moves of the originals reach the disk.
    SyncBackups,
    /// The staged file of a command is moved to its place.
    Install { name: String, path: String },
    /// The moves of the staged files reach the disk.
    SyncCommands,
    /// A stub is tracked.
    Track { path: String },
    /// A stub is no longer tracked.
    Untrack { path: String },
    /// The new state of the bundle is recorded.
    WriteState,
    /// The transaction is marked as complete.
    MarkCommitted,
}

/// The model of a [`SyncStep`].
pub enum SyncStepView {
    BackUp { name: Seq<char>, path: Seq<char> },
    SyncBackups,
    Install { name: Seq<char>, path: Seq<char> },
    SyncCommands,
    Track { path: Seq<char> },
    Untrack { path: Seq<char> },
    WriteState,
    MarkCommitted,
}

impl View for SyncStep {
    type V = SyncStepView;

    open spec fn view(&self) -> SyncStepView {
        match self {
            SyncStep::BackUp { name, path } => SyncStepView::BackUp { name: name@, path: path@ },
            SyncStep::SyncBackups => SyncStepView::SyncBackups,
            SyncStep::Install { name, path } => SyncStepView::Install { name: name@, path: path@ },
            SyncStep::SyncCommands => SyncStepView::SyncCommands,
            SyncStep::Track { path } => SyncStepView::Track { path: path@ },
            SyncStep::Untrack { path } => SyncStepView::Untrack { path: path@ },
            SyncStep::WriteState => SyncStepView::WriteState,
            SyncStep::MarkCommitted => SyncStepView::MarkCommitted,
        }
    }
}

/// The models of some steps.
pub open spec fn step_views(steps: Seq<SyncStep>) -> Seq<SyncStepView> {
    Seq::new(steps.len(), |i: int| steps[i]@)
}

/// The steps that keep the originals of the changed commands.
pub open spec fn back_ups(changes: Seq<(Seq<char>, ChangeView)>) -> Seq<SyncStepView> {
    Seq::new(
        changes.len(),
        |i: int| SyncStepView::BackUp { name: changes[i].0, path: changes[i].1.path },
    )
}

/// The steps that install the new contents of the changed commands.
pub open spec fn installs(changes: Seq<(Seq<char>, ChangeView)>) -> Seq<SyncStepView>
    decreases changes.len(),
{
    if changes.len() == 0 {
        Seq::empty()
    } else {
        let before = installs(changes.drop_last());
        let (name, change) = changes.last();
        if change.contents is Some {
            before.push(SyncStepView::Install { name, path: change.path })
        } else {
            before
        }
    }
}

/// The steps that track the desired commands.
pub open spec fn tracks(desired: Seq<(Seq<char>, DesiredView)>) -> Seq<SyncStepView> {
    Seq::new(desired.len(), |i: int| SyncStepView::Track { path: desired[i].1.path })
}

/// The steps that end the tracking of the recorded commands that are removed.
pub open spec fn untracks(
    commands: Seq<(Seq<char>, ManagedView)>,
    desired: Seq<(Seq<char>, DesiredView)>,
    changes: Seq<(Seq<char>, ChangeView)>,
) -> Seq<SyncStepView>
    decreases commands.len(),
{
    if commands.len() == 0 {
        Seq::empty()
    } else {
        let before = untracks(commands.drop_last(), desired, changes);
        let (name, managed) = commands.last();
        if !name_map::has_name(desired, name) && name_map::has_name(changes, name) {
            before.push(SyncStepView::Untrack { path: managed.path })
        } else {
            before
        }
    }
}

/// The steps of a sync, in the order in which they are performed.
pub open spec fn sync_steps(
    bundle: BundleView,
    desired: Seq<(Seq<char>, DesiredView)>,
    changes: Seq<(Seq<char>, ChangeView)>,
) -> Seq<SyncStepView> {
    back_ups(changes).push(SyncStepView::SyncBackups) + installs(changes).push(
        SyncStepView::SyncCommands,
    ) + tracks(desired) + untracks(status::recorded_commands(bundle), desired, changes).push(
        SyncStepView::WriteState,
    ).push(SyncStepView::MarkCommitted)
}

/// The steps that keep originals and install new contents.
fn file_steps(changes: &NameMap<Change>) -> (steps: Vec<SyncStep>)
    ensures
        step_views(steps@) == back_ups(changes@).push(SyncStepView::SyncBackups) + installs(
            changes@,
        ).push(SyncStepView::SyncCommands),
{
    let count = changes.len();
    let mut steps: Vec<SyncStep> = Vec::new();
    let mut i: usize = 0;
    while i < count
        invariant
            count == changes@.len(),
            i <= count,
            steps@.len() == i,
            forall|j: int| 0 <= j < i ==> (#[trigger] steps@[j])@ == back_ups(changes@)[j],
        decreases count - i,
    {
        steps.push(
            SyncStep::BackUp {
                name: changes.name_at(i).clone(),
                path: changes.value_at(i).path.clone(),
            },
        );
        i += 1;
    }
    steps.push(SyncStep::SyncBackups);
    let ghost kept = back_ups(changes@).push(SyncStepView::SyncBackups);
    assert(step_views(steps@) =~= kept);
    i = 0;
    assert(changes@.take(0) =~= Seq::empty());
    assert(kept + installs(changes@.take(0)) =~= kept);
    while i < count
        invariant
            count == changes@.len(),
            i <= count,
            step_views(steps@) == kept + installs(changes@.take(i as int)),
        decreases count - i,
    {
        let change = changes.value_at(i);
        let ghost before = installs(changes@.take(i as int));
        let ghost done = step_views(steps@);
        proof {
            assert(changes@.take(i + 1).drop_last() =~= changes@.take(i as int));
            assert(changes@.take(i + 1).last() == changes@[i as int]);
        }
        if change.contents.is_some() {
            let step = SyncStep::Install {
                name: changes.name_at(i).clone(),
                path: change.path.clone(),
            };
            let ghost view = step@;
            steps.push(step);
            assert(step_views(steps@) =~= done.push(view));
            assert(done.push(view) =~= kept + before.push(view));
        }
        i += 1;
    }
    assert(changes@.take(count as int) =~= changes@);
    let ghost done = step_views(steps@);
    steps.push(SyncStep::SyncCommands);
    assert(step_views(steps@) =~= done.push(SyncStepView::SyncCommands));
    assert(done.push(SyncStepView::SyncCommands) =~= kept + installs(changes@).push(
        SyncStepView::SyncCommands,
    ));
    steps
}

/// The steps of a sync, in the order in which they are to be performed.
pub fn commit_steps(
    bundle: &Bundle,
    desired: &NameMap<DesiredCommand>,
    changes: &NameMap<Change>,
) -> (steps: Vec<SyncStep>)
    ensures
        step_views(steps@) == sync_steps(bundle@, desired@, changes@),
{
    let mut steps = file_steps(changes);
    let ghost files = step_views(steps@);
    let count = desired.len();
    let mut i: usize = 0;
    assert(files + tracks(desired@).take(0) =~= files);
    while i < count
        invariant
            count == desired@.len(),
            i <= count,
            step_views(steps@) == files + tracks(desired@).take(i as int),
        decreases count - i,
    {
        let ghost done = step_views(steps@);
        let ghost next = tracks(desired@)[i as int];
        steps.push(SyncStep::Track { path: desired.value_at(i).path.clone() });
        assert(step_views(steps@) =~= done.push(next));
        assert(done.push(next) =~= files + tracks(desired@).take(i + 1));
        i += 1;
    }
    assert(tracks(desired@).take(count as int) =~= tracks(desired@));
    let ghost shown = step_views(steps@);
    let ghost commands = status::recorded_commands(bundle@);
    assert(shown + untracks(Seq::empty(), desired@, changes@) =~= shown);
    match &bundle.state {
        Some(state) => {
            let total = state.commands.len();
            i = 0;
            assert(commands.take(0) =~= Seq::empty());
            while i < total
                invariant
                    total == state@.commands.len(),
                    commands == state@.commands,
                    i <= total,
                    step_views(steps@) == shown + untracks(
                        commands.take(i as int),
                        desired@,
                        changes@,
                    ),
                decreases total - i,
            {
                let name = state.commands.name_at(i);
                let ghost before = untracks(commands.take(i as int), desired@, changes@);
                let ghost done = step_views(steps@);
                proof {
                    assert(commands.take(i + 1).drop_last() =~= commands.take(i as int));
                    assert(commands.take(i + 1).last() == commands[i as int]);
                }
                if !desired.contains(name.as_str()) && changes.contains(name.as_str()) {
                    let step = SyncStep::Untrack { path: state.commands.value_at(i).path.clone() };
                    let ghost view = step@;
                    steps.push(step);
                    assert(step_views(steps@) =~= done.push(view));
                    assert(done.push(view) =~= shown + before.push(view));
                }
                i += 1;
            }
            assert(commands.take(total as int) =~= commands);
        },
        None => {},
    }
    let ghost ended = untracks(commands, desired@, changes@);
    let ghost done = step_views(steps@);
    assert(done == shown + ended);
    steps.push(SyncStep::WriteState);
    steps.push(SyncStep::MarkCommitted);
    assert(step_views(steps@) =~= done.push(SyncStepView::WriteState).push(
        SyncStepView::MarkCommitted,
    ));
    assert(step_views(steps@) =~= shown + ended.push(SyncStepView::WriteState).push(
        SyncStepView::MarkCommitted,
    ));
    steps
}

/// How far a sync has come.
#[derive(Debug)]
pub enum SyncPhase {
    /// The step at `next` is to be performed.
    Committing { next: usize },
    /// A step failed, and what was done is to be rolled back.
    RollingBack { error: String },
    /// All steps succeeded, and the transaction is to be removed.
    Finishing,
    /// The sync is complete. A warning tells of a transaction that could not be
    /// removed.
    Complete { warning: Option<String> },
    /// The sync failed.
    Failed { message: String },
}

/// The model of a [`SyncPhase`].
pub enum SyncPhaseView {
    Committing { next: int },
    RollingBack { error: Seq<char> },
    Finishing,
    Complete { warning: Option<Seq<char>> },
    Failed { message: Seq<char> },
}

impl View for SyncPhase {
    type V = SyncPhaseView;

    open spec fn view(&self) -> SyncPhaseView {
        match self {
            SyncPhase::Committing { next } => SyncPhaseView::Committing { next: *next as int },
            SyncPhase::RollingBack { error } => SyncPhaseView::RollingBack { error: error@ },
            SyncPhase::Finishing => SyncPhaseView::Finishing,
            SyncPhase::Complete { warning } => SyncPhaseView::Complete {
                warning: text::text_view(*warning),
            },
            SyncPhase::Failed { message } => SyncPhaseView::Failed { message: message@ },
        }
    }
}

impl SyncPhaseView {
    /// The first phase of a sync of `count` steps.
    pub open spec fn first(count: int) -> SyncPhaseView {
        if count == 0 {
            SyncPhaseView::Finishing
        } else {
            SyncPhaseView::Committing { next: 0 }
        }
    }

    /// The phase after what this phase asks for was tried. `failure` tells why
    /// it failed, if it did.
    pub open spec fn after(self, count: int, failure: Option<Seq<char>>) -> SyncPhaseView {
        match self {
            SyncPhaseView::Committing { next } => match failure {
                Some(error) => SyncPhaseView::RollingBack { error },
                None => if next + 1 < count {
                    SyncPhaseView::Committing { next: next + 1 }
                } else {
                    SyncPhaseView::Finishing
                },
            },
            SyncPhaseView::RollingBack { error } => SyncPhaseView::Failed {
                message: match failure {
                    Some(reason) => "failed to roll back tool-stub sync: "@ + reason + ": "@
                        + error,
                    None => error,
                },
            },
            SyncPhaseView::Finishing => SyncPhaseView::Complete {
                warning: match failure {
                    Some(reason) => Some(
                        "failed to remove completed tool-stub transaction; the next sync will clean it up: "@
                            + reason,
                    ),
                    None => None,
                },
            },
            _ => self,
        }
    }

    /// The phase after several tries.
    pub open spec fn after_all(self, count: int, failures: Seq<Option<Seq<char>>>) -> SyncPhaseView
        decreases failures.len(),
    {
        if failures.len() == 0 {
            self
        } else {
            self.after_all(count, failures.drop_last()).after(count, failures.last())
        }
    }
}

impl SyncPhase {
    /// The first phase of a sync of `count` steps.
    pub fn start(count: usize) -> (phase: SyncPhase)
        ensures
            phase@ == SyncPhaseView::first(count as int),
    {
        if count == 0 {
            SyncPhase::Finishing
        } else {
            SyncPhase::Committing { next: 0 }
        }
    }

    /// The phase after what this phase asks for was tried. `failure` tells why
    /// it failed, if it did.
    pub fn report(self, count: usize, failure: Option<String>) -> (phase: SyncPhase)
        ensures
            phase@ == self@.after(count as int, text::text_view(failure)),
    {
        match self {
            SyncPhase::Committing { next } => match failure {
                Some(error) => SyncPhase::RollingBack { error },
                None => if next < count && next + 1 < count {
                    SyncPhase::Committing { next: next + 1 }
                } else {
                    SyncPhase::Finishing
                },
            },
            SyncPhase::RollingBack { error } => SyncPhase::Failed {
                message: match failure {
                    Some(reason) => "failed to roll back tool-stub sync: ".to_owned().concat(
                        reason.as_str(),
                    ).concat(": ").concat(error.as_str()),
                    None => error,
                },
            },
            SyncPhase::Finishing => SyncPhase::Complete {
                warning: match failure {
                    Some(reason) => Some(
                        text::concat(
                            "failed to remove completed tool-stub transaction; the next sync will clean it up: ",
                            reason.as_str(),
                        ),
                    ),
                    None => None,
                },
            },
            SyncPhase::Complete { warning } => SyncPhase::Complete { warning },
            SyncPhase::Failed { message } => SyncPhase::Failed { message },
        }
    }
}

/// As long as all steps succeed, they are asked for one after the other, and
/// then the transaction is finished.
pub proof fn law_steps_in_order(count: int, done: int, failures: Seq<Option<Seq<char>>>)
    requires
        0 <= done <= count,
        failures.len() == done,
        forall|i: int| 0 <= i < done ==> failures[i] is None,
    ensures
        SyncPhaseView::first(count).after_all(count, failures) == (if done < count {
            SyncPhaseView::Committing { next: done }
        } else {
            SyncPhaseView::Finishing
        }),
    decreases done,
{
    if done > 0 {
        law_steps_in_order(count, done - 1, failures.drop_last());
    }
}

/// After a step has failed, nothing but the rollback is asked for, and the sync
/// fails.
pub proof fn law_failed_step_rolls_back(
    count: int,
    done: int,
    failures: Seq<Option<Seq<char>>>,
    error: Seq<char>,
    rollback: Option<Seq<char>>,
)
    requires
        0 <= done < count,
        failures.len() == done,
        forall|i: int| 0 <= i < done ==> failures[i] is None,
    ensures
        SyncPhaseView::first(count).after_all(count, failures.push(Some(error)))
            == (SyncPhaseView::RollingBack { error }),
        SyncPhaseView::first(count).after_all(
            count,
            failures.push(Some(error)).push(rollback),
        ) is Failed,
{
    law_steps_in_order(count, done, failures);
    assert(failures.push(Some(error)).drop_last() =~= failures);
    assert(failures.push(Some(error)).push(rollback).drop_last() =~= failures.push(Some(error)));
}

/// A sync first keeps the original of every changed command, and then installs the
/// new contents of those that have any.
pub proof fn law_file_steps(
    bundle: BundleView,
    desired: Seq<(Seq<char>, DesiredView)>,
    changes: Seq<(Seq<char>, ChangeView)>,
) -> (places: Seq<int>)
    ensures
        ({
            let steps = sync_steps(bundle, desired, changes);
            let count = changes.len() as int;
            &&& steps.len() >= count + places.len() + 2
            &&& forall|i: int|
                0 <= i < count ==> #[trigger] steps[i] == (SyncStepView::BackUp {
                    name: changes[i].0,
                    path: changes[i].1.path,
                })
            &&& steps[count] is SyncBackups
            &&& forall|k: int|
                0 <= k < places.len() ==> {
                    &&& 0 <= #[trigger] places[k] < count
                    &&& steps[count + 1 + k] == (SyncStepView::Install {
                        name: changes[places[k]].0,
                        path: changes[places[k]].1.path,
                    })
                }
            &&& steps[count + 1 + places.len()] is SyncCommands
        }),
        forall|k: int, l: int|
            0 <= k < l < places.len() ==> #[trigger] places[k] < #[trigger] places[l],
        forall|i: int|
            0 <= i < changes.len() ==> (places.contains(i) <==> (#[trigger] changes[i]).1.contents
                is Some),
{
    let places = lemma_installs(changes);
    let steps = sync_steps(bundle, desired, changes);
    let count = changes.len();
    let first = back_ups(changes).push(SyncStepView::SyncBackups);
    let second = installs(changes).push(SyncStepView::SyncCommands);
    assert(first.len() == count + 1);
    assert forall|k: int| 0 <= k < second.len() implies steps[count + 1 + k] == #[trigger] second[k] by {}
    assert forall|k: int| 0 <= k < places.len() implies {
        &&& 0 <= #[trigger] places[k] < count
        &&& steps[count + 1 + k] == (SyncStepView::Install {
            name: changes[places[k]].0,
            path: changes[places[k]].1.path,
        })
    } by {
        assert(second[k] == installs(changes)[k]);
    }
    assert(second[places.len() as int] is SyncCommands);
    places
}

/// The changes with new contents are installed in their order.
pub proof fn lemma_installs(changes: Seq<(Seq<char>, ChangeView)>) -> (places: Seq<int>)
    ensures
        places.len() == installs(changes).len(),
        forall|k: int|
            0 <= k < places.len() ==> {
                &&& 0 <= #[trigger] places[k] < changes.len()
                &&& installs(changes)[k] == (SyncStepView::Install {
                    name: changes[places[k]].0,
                    path: changes[places[k]].1.path,
                })
            },
        forall|k: int, l: int|
            0 <= k < l < places.len() ==> #[trigger] places[k] < #[trigger] places[l],
        forall|i: int|
            0 <= i < changes.len() ==> (places.contains(i) <==> (#[trigger] changes[i]).1.contents
                is Some),
    decreases changes.len(),
{
    if changes.len() == 0 {
        Seq::empty()
    } else {
        let rest = changes.drop_last();
        let last = changes.len() - 1;
        let before = lemma_installs(rest);
        let installs_last = changes[last].1.contents is Some;
        let places = if installs_last {
            before.push(last)
        } else {
            before
        };
        assert forall|i: int| 0 <= i < changes.len() implies (places.contains(i) <==> (
        #[trigger] changes[i]).1.contents is Some) by {
            if i < last {
                assert(rest[i] == changes[i]);
                if before.contains(i) {
                    let k = choose|k: int| 0 <= k < before.len() && before[k] == i;
                    assert(places[k] == i);
                }
                if places.contains(i) {
                    let k = choose|k: int| 0 <= k < places.len() && places[k] == i;
                    assert(before[k] == i);
                }
            } else {
                if installs_last {
                    assert(places[before.len() as int] == i);
                }
                if places.contains(i) && !installs_last {
                    let k = choose|k: int| 0 <= k < places.len() && places[k] == i;
                    assert(before[k] < rest.len());
                }
            }
        }
        places
    }
}

/// After the files a sync tracks every desired command, in order. It ends with
/// recording the new state and then marking the transaction as complete, and does
/// each of the two nowhere else.
pub proof fn law_last_steps(
    bundle: BundleView,
    desired: Seq<(Seq<char>, DesiredView)>,
    changes: Seq<(Seq<char>, ChangeView)>,
)
    ensures
        ({
            let steps = sync_steps(bundle, desired, changes);
            let count = steps.len();
            &&& count >= 2
            &&& steps[count - 2] is WriteState
            &&& steps[count - 1] is MarkCommitted
            &&& forall|i: int|
                0 <= i < count - 2 ==> !((#[trigger] steps[i]) is WriteState) && !(steps[i]
                    is MarkCommitted)
            &&& forall|i: int|
                0 <= i < desired.len() ==> (#[trigger] steps[changes.len() + 1 + installs(
                    changes,
                ).len() + 1 + i]) == (SyncStepView::Track { path: desired[i].1.path })
        }),
{
    let steps = sync_steps(bundle, desired, changes);
    let recorded = status::recorded_commands(bundle);
    lemma_only_untracks(recorded, desired, changes);
    let places = lemma_installs(changes);
    let first = back_ups(changes).push(SyncStepView::SyncBackups);
    let second = installs(changes).push(SyncStepView::SyncCommands);
    let third = tracks(desired);
    let fourth = untracks(recorded, desired, changes);
    let count = steps.len();
    assert(count == first.len() + second.len() + third.len() + fourth.len() + 2);
    assert forall|i: int| 0 <= i < count - 2 implies !((#[trigger] steps[i]) is WriteState) && !(
    steps[i] is MarkCommitted) by {
        if i < first.len() {
            assert(steps[i] == first[i]);
        } else if i < first.len() + second.len() {
            let k = i - first.len();
            assert(steps[i] == second[k]);
            if k < places.len() {
                assert(installs(changes)[k] == (SyncStepView::Install {
                    name: changes[places[k]].0,
                    path: changes[places[k]].1.path,
                }));
            }
        } else if i < first.len() + second.len() + third.len() {
            assert(steps[i] == third[i - first.len() - second.len()]);
        } else {
            let k = i - first.len() - second.len() - third.len();
            assert(steps[i] == fourth[k]);
        }
    }
    assert forall|i: int| 0 <= i < desired.len() implies (#[trigger] steps[changes.len() + 1
        + installs(changes).len() + 1 + i]) == (SyncStepView::Track {
        path: desired[i].1.path,
    }) by {
        assert(steps[first.len() + second.len() + i] == third[i]);
    }
}

/// The steps that end tracking do nothing else. There is one for each recorded
/// command that is not desired and is changed.
pub proof fn lemma_only_untracks(
    commands: Seq<(Seq<char>, ManagedView)>,
    desired: Seq<(Seq<char>, DesiredView)>,
    changes: Seq<(Seq<char>, ChangeView)>,
)
    ensures
        forall|k: int|
            0 <= k < untracks(commands, desired, changes).len() ==> (#[trigger] untracks(
                commands,
                desired,
                changes,
            )[k]) is Untrack,
    decreases commands.len(),
{
    if commands.len() > 0 {
        lemma_only_untracks(commands.drop_last(), desired, changes);
    }
}

/// A sync ends the tracking of a path exactly if it is that of a recorded command
/// that is not desired and is changed.
pub proof fn law_ended_tracking(
    commands: Seq<(Seq<char>, ManagedView)>,
    desired: Seq<(Seq<char>, DesiredView)>,
    changes: Seq<(Seq<char>, ChangeView)>,
    path: Seq<char>,
)
    ensures
        untracks(commands, desired, changes).contains(SyncStepView::Untrack { path }) <==> exists|
            i: int,
        |
            0 <= i < commands.len() && (#[trigger] commands[i]).1.path == path
                && !name_map::has_name(desired, commands[i].0) && name_map::has_name(
                changes,
                commands[i].0,
            ),
    decreases commands.len(),
{
    let step = SyncStepView::Untrack { path };
    if commands.len() > 0 {
        let rest = commands.drop_last();
        let last = commands.len() - 1;
        law_ended_tracking(rest, desired, changes, path);
        let before = untracks(rest, desired, changes);
        let after = untracks(commands, desired, changes);
        assert(commands[last] == commands.last());
        if before.contains(step) {
            let k = choose|k: int| 0 <= k < before.len() && before[k] == step;
            assert(after[k] == step);
            let i = choose|i: int|
                0 <= i < rest.len() && (#[trigger] rest[i]).1.path == path && !name_map::has_name(
                    desired,
                    rest[i].0,
                ) && name_map::has_name(changes, rest[i].0);
            assert(commands[i] == rest[i]);
        } else if after.contains(step) {
            let k = choose|k: int| 0 <= k < after.len() && after[k] == step;
            if k < before.len() {
                assert(before[k] == step);
            }
            assert(commands[last].1.path == path);
        }
        if exists|i: int|
            0 <= i < commands.len() && (#[trigger] commands[i]).1.path == path
                && !name_map::has_name(desired, commands[i].0) && name_map::has_name(
                changes,
                commands[i].0,
            ) {
            let i = choose|i: int|
                0 <= i < commands.len() && (#[trigger] commands[i]).1.path == path
                    && !name_map::has_name(desired, commands[i].0) && name_map::has_name(
                    changes,
                    commands[i].0,
                );
            if i < last {
                assert(rest[i] == commands[i]);
                assert(before.contains(step));
            } else {
                assert(after[before.len() as int] == step);
            }
        }
    }
}

/// A sync fails exactly through a failed step, and with the error of that step. A
/// failed rollback is told of in front of it. Once all steps have succeeded nothing
/// makes the sync fail: a transaction that cannot be removed is only warned of.
pub proof fn law_phases(phase: SyncPhaseView, count: int, failure: Option<Seq<char>>)
    ensures
        ({
            let after = phase.after(count, failure);
            match phase {
                SyncPhaseView::Committing { next } => {
                    &&& failure matches Some(error) ==> after == (SyncPhaseView::RollingBack {
                        error,
                    })
                    &&& failure is None && next + 1 < count ==> after
                        == (SyncPhaseView::Committing { next: next + 1 })
                    &&& failure is None && next + 1 >= count ==> after is Finishing
                },
                SyncPhaseView::RollingBack { error } => {
                    &&& failure is None ==> after == (SyncPhaseView::Failed { message: error })
                    &&& failure matches Some(reason) ==> after == (SyncPhaseView::Failed {
                        message: "failed to roll back tool-stub sync: "@ + reason + ": "@ + error,
                    })
                },
                SyncPhaseView::Finishing => after matches SyncPhaseView::Complete { warning } && (
                warning is None <==> failure is None) && (failure matches Some(reason)
                    ==> warning == Some(
                    "failed to remove completed tool-stub transaction; the next sync will clean it up: "@
                        + reason,
                )),
                _ => after == phase,
            }
        }),
{
}

} // verus!
