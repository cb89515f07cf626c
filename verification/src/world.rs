//! What the steps of a sync and of a recovery do to the files, the recorded
//! state and the tracking of stubs.
//!
//! This is the model in which the promises about whole syncs are stated. It
//! follows the decisions of the library, and takes from the file system only
//! that a move happens as a whole or not at all.
use vstd::prelude::*;
use crate::bundle::BundleView;
use crate::bundle::ManagedView;
use crate::bundle::StateView;
use crate::commit::SyncStepView;
use crate::desired::DesiredView;
use crate::error::ErrorView;
use crate::name_map;
use crate::node::NodeView;
use crate::paths;
use crate::paths::ComponentView;
use crate::plan;
use crate::plan::ChangeView;
use crate::recovery;
use crate::recovery::RecoveryView;
use crate::recovery::RollbackStepView;
use crate::recovery::StateAction;
use crate::recovery::TrackingActionView;
use crate::removal;
use crate::status;
use crate::transaction;
use crate::transaction::RecordFileView;
use crate::transaction::RecordView;
use crate::transaction::SnapshotView;
use crate::transaction::StagedChangeView;
use crate::transaction::StagedFileView;

verus! {

/// All that a sync of a bundle touches.
pub struct World {
    /// What stands at the place of each command.
    pub commands: spec_fn(Seq<char>) -> NodeView,
    /// What the transaction keeps of each command.
    pub originals: spec_fn(Seq<char>) -> NodeView,
    /// What is staged for each command.
    pub staged: spec_fn(Seq<char>) -> NodeView,
    /// The recorded state of the bundle.
    pub state: Option<StateView>,
    /// Where the state is recorded.
    pub state_path: Seq<char>,
    /// Which paths, by their components, are tracked.
    pub tracking: spec_fn(Seq<ComponentView>) -> bool,
    /// The record of the transaction, if there is one.
    pub record: Option<RecordView>,
    /// The transaction is marked as complete.
    pub committed: bool,
}

/// A function with another value at one place.
pub open spec fn put<K, V>(f: spec_fn(K) -> V, key: K, value: V) -> spec_fn(K) -> V {
    |k: K|
        if k == key {
            value
        } else {
            f(k)
        }
}

impl World {
    /// What stands at the place of a command.
    pub open spec fn command(self, name: Seq<char>) -> NodeView {
        (self.commands)(name)
    }

    /// What the transaction keeps of a command.
    pub open spec fn original(self, name: Seq<char>) -> NodeView {
        (self.originals)(name)
    }

    /// What is staged for a command.
    pub open spec fn staged_file(self, name: Seq<char>) -> NodeView {
        (self.staged)(name)
    }

    /// Whether a path is tracked.
    pub open spec fn tracks(self, path: Seq<ComponentView>) -> bool {
        (self.tracking)(path)
    }

    /// What stands at the place of the recorded state.
    pub open spec fn state_node(self) -> NodeView {
        if self.state is Some {
            NodeView::File { bytes: None, executable: false }
        } else {
            NodeView::Absent
        }
    }

    /// The world after the recorded state was brought back to `previous`, where
    /// that is not refused.
    pub open spec fn with_state(self, previous: Option<StateView>) -> Option<World> {
        match recovery::state_action(self.state_path, previous is Some, self.state_node()) {
            Ok(action) => Some(
                World { state: state_after(action, self.state, previous), ..self },
            ),
            Err(_) => None,
        }
    }

    /// What stands at the place of the transaction.
    pub open spec fn transaction_node(self) -> NodeView {
        if self.record is Some {
            NodeView::Directory
        } else {
            NodeView::Absent
        }
    }

    /// The record file of the transaction.
    pub open spec fn record_file(self) -> RecordFileView {
        match self.record {
            Some(record) => RecordFileView::Parsed(record),
            None => RecordFileView::Missing { reason: Seq::empty() },
        }
    }

    /// What stands at the place of the commit marker.
    pub open spec fn commit_marker(self) -> NodeView {
        if self.committed {
            NodeView::File {
                bytes: Some(vstd::utf8::encode_utf8(transaction::COMMIT_MARKER@)),
                executable: false,
            }
        } else {
            NodeView::Absent
        }
    }

    /// The world without the transaction.
    pub open spec fn discarded(self) -> World {
        World {
            originals: |name: Seq<char>| NodeView::Absent,
            record: None,
            committed: false,
            ..self
        }
    }
}

/// The state that is recorded once an action was carried out that is to bring the
/// state `previous` back. `kept` is what was recorded until that time.
pub open spec fn state_after(
    action: StateAction,
    kept: Option<StateView>,
    previous: Option<StateView>,
) -> Option<StateView> {
    match action {
        StateAction::Write => previous,
        StateAction::Remove => None,
        StateAction::Nothing => kept,
    }
}

/// Whatever stands at the place of the recorded state, bringing the state back is
/// refused only where nothing was recorded before and the file system does not
/// answer. Carrying out what is asked for leaves exactly the previous state
/// recorded: if there was one, the file holds it, whatever it held; if there was
/// none, no file is left.
pub proof fn law_state_is_brought_back(
    path: Seq<char>,
    place: NodeView,
    kept: Option<StateView>,
    previous: Option<StateView>,
)
    requires
        place is Absent ==> kept is None,
    ensures
        match recovery::state_action(path, previous is Some, place) {
            Ok(action) => state_after(action, kept, previous) == previous,
            Err(error) => {
                &&& previous is None
                &&& place matches NodeView::Unknown { reason } && error
                    == (ErrorView::Inaccessible { path, reason })
            },
        },
        previous is None && place is Unknown ==> recovery::state_action(
            path,
            previous is Some,
            place,
        ) is Err,
{
}

/// The file that new contents are staged as.
pub open spec fn staged_node(contents: Seq<char>) -> NodeView {
    NodeView::File { bytes: Some(vstd::utf8::encode_utf8(contents)), executable: true }
}

/// The staged changes of a sync that stages its files in the directory
/// `staging`.
pub open spec fn staged_changes(
    changes: Seq<(Seq<char>, ChangeView)>,
    found: Seq<(Seq<char>, NodeView)>,
    staging: Seq<char>,
) -> Seq<(Seq<char>, StagedChangeView)> {
    Seq::new(
        changes.len(),
        |i: int|
            (
                changes[i].0,
                StagedChangeView {
                    path: changes[i].1.path,
                    found: status::node_of(found, changes[i].0),
                    staged: match changes[i].1.contents {
                        Some(contents) => Some(
                            StagedFileView {
                                path: paths::joined(staging, changes[i].0),
                                node: staged_node(contents),
                            },
                        ),
                        None => None,
                    },
                },
            ),
    )
}

/// How the tracking of some paths is noted.
pub open spec fn snapshots(
    affected: Seq<Seq<char>>,
    tracking: spec_fn(Seq<ComponentView>) -> bool,
) -> Seq<SnapshotView> {
    Seq::new(
        affected.len(),
        |i: int|
            SnapshotView {
                path: affected[i],
                was_tracked: tracking(paths::components(affected[i])),
            },
    )
}

/// The record that a sync writes before its first step.
pub open spec fn sync_record(
    bundle: BundleView,
    desired: Seq<(Seq<char>, DesiredView)>,
    found: Seq<(Seq<char>, NodeView)>,
    tracking: spec_fn(Seq<ComponentView>) -> bool,
    staging: Seq<char>,
) -> RecordView {
    transaction::begun_record(
        bundle,
        staged_changes(plan::planned_changes(bundle, desired, found), found, staging),
        snapshots(plan::affected_paths(bundle, desired), tracking),
    )
}

/// The world in which a sync performs its first step: the changes are staged,
/// and the record is written.
pub open spec fn begun_sync(
    bundle: BundleView,
    desired: Seq<(Seq<char>, DesiredView)>,
    found: Seq<(Seq<char>, NodeView)>,
    tracking: spec_fn(Seq<ComponentView>) -> bool,
    staging: Seq<char>,
) -> World {
    let changes = plan::planned_changes(bundle, desired, found);
    World {
        commands: |name: Seq<char>| status::node_of(found, name),
        originals: |name: Seq<char>| NodeView::Absent,
        staged: |name: Seq<char>|
            match name_map::lookup(changes, name) {
                Some(change) => match change.contents {
                    Some(contents) => staged_node(contents),
                    None => NodeView::Absent,
                },
                None => NodeView::Absent,
            },
        state: bundle.state,
        state_path: bundle.state_path,
        tracking,
        record: Some(sync_record(bundle, desired, found, tracking, staging)),
        committed: false,
    }
}

/// The world after a step of a sync, where the step can be performed. `state` is
/// the state that the sync records.
pub open spec fn performed(
    bundle: BundleView,
    state: StateView,
    world: World,
    step: SyncStepView,
) -> Option<World> {
    match step {
        SyncStepView::BackUp { name, path } => match transaction::back_up_outcome(
            transaction::originals_place(transaction::transaction_place(bundle.into, bundle.id)),
            name,
            path,
            world.command(name),
        ) {
            Ok(Some(_)) => Some(
                World {
                    commands: put(world.commands, name, NodeView::Absent),
                    originals: put(world.originals, name, world.command(name)),
                    ..world
                },
            ),
            Ok(None) => Some(world),
            Err(_) => None,
        },
        SyncStepView::Install { name, path } => Some(
            World {
                commands: put(world.commands, name, world.staged_file(name)),
                staged: put(world.staged, name, NodeView::Absent),
                ..world
            },
        ),
        SyncStepView::Track { path } => Some(
            World { tracking: put(world.tracking, paths::components(path), true), ..world },
        ),
        SyncStepView::Untrack { path } => Some(
            World { tracking: put(world.tracking, paths::components(path), false), ..world },
        ),
        SyncStepView::WriteState => Some(World { state: Some(state), ..world }),
        SyncStepView::MarkCommitted => Some(World { committed: true, ..world }),
        SyncStepView::SyncBackups => Some(world),
        SyncStepView::SyncCommands => Some(world),
    }
}

/// The world after several steps of a sync, where all can be performed.
pub open spec fn performed_all(
    bundle: BundleView,
    state: StateView,
    world: World,
    steps: Seq<SyncStepView>,
) -> Option<World>
    decreases steps.len(),
{
    if steps.len() == 0 {
        Some(world)
    } else {
        match performed_all(bundle, state, world, steps.drop_last()) {
            Some(before) => performed(bundle, state, before, steps.last()),
            None => None,
        }
    }
}

/// The tracking after an action.
pub open spec fn acted(
    tracking: spec_fn(Seq<ComponentView>) -> bool,
    action: TrackingActionView,
) -> spec_fn(Seq<ComponentView>) -> bool {
    match action {
        TrackingActionView::Track { path } => put(tracking, paths::components(path), true),
        TrackingActionView::Untrack { path } => put(tracking, paths::components(path), false),
    }
}

/// The tracking after what each snapshot asks for was done.
pub open spec fn retracked(
    tracking: spec_fn(Seq<ComponentView>) -> bool,
    before: Seq<SnapshotView>,
) -> spec_fn(Seq<ComponentView>) -> bool
    decreases before.len(),
{
    if before.len() == 0 {
        tracking
    } else {
        acted(retracked(tracking, before.drop_last()), recovery::tracking_action(before.last()))
    }
}

/// Once all snapshots of different paths are restored, each path is tracked
/// exactly if its snapshot says so.
pub proof fn law_restored_tracking(
    tracking: spec_fn(Seq<ComponentView>) -> bool,
    before: Seq<SnapshotView>,
    at: int,
)
    requires
        0 <= at < before.len(),
        forall|i: int, j: int|
            0 <= i < j < before.len() ==> !paths::same_path(
                (#[trigger] before[i]).path,
                (#[trigger] before[j]).path,
            ),
    ensures
        retracked(tracking, before)(paths::components(before[at].path)) == before[at].was_tracked,
    decreases before.len(),
{
    let rest = before.drop_last();
    let last = before.len() - 1;
    assert(before[last] == before.last());
    if at < last {
        assert forall|i: int, j: int| 0 <= i < j < rest.len() implies !paths::same_path(
            (#[trigger] rest[i]).path,
            (#[trigger] rest[j]).path,
        ) by {
            assert(rest[i] == before[i] && rest[j] == before[j]);
        }
        law_restored_tracking(tracking, rest, at);
        assert(rest[at] == before[at]);
    }
}

/// The world after a step that undoes a sync, where the step is not refused.
pub open spec fn undone(world: World, record: RecordView, step: RollbackStepView) -> Option<World> {
    match step {
        RollbackStepView::Undo { name, destination, original } => match name_map::lookup(
            record.changes,
            name,
        ) {
            Some(change) => match recovery::undo_outcome(
                destination,
                world.command(name),
                world.original(name),
                record.bundle_id,
                change,
            ) {
                Ok(undo) => Some(
                    if undo.restore_original {
                        World {
                            commands: put(world.commands, name, world.original(name)),
                            originals: put(world.originals, name, NodeView::Absent),
                            ..world
                        }
                    } else if undo.remove_destination {
                        World { commands: put(world.commands, name, NodeView::Absent), ..world }
                    } else {
                        world
                    },
                ),
                Err(_) => None,
            },
            None => None,
        },
        RollbackStepView::SyncCommands => Some(world),
        RollbackStepView::RestoreState => world.with_state(record.state_before),
        RollbackStepView::RestoreTracking => Some(
            World { tracking: retracked(world.tracking, record.tracking_before), ..world },
        ),
    }
}

/// The world after all the steps that undo a sync were tried, and whether none
/// was refused.
pub open spec fn tried(world: World, record: RecordView, steps: Seq<RollbackStepView>) -> (
    World,
    bool,
)
    decreases steps.len(),
{
    if steps.len() == 0 {
        (world, true)
    } else {
        let (before, well) = tried(world, record, steps.drop_last());
        match undone(before, record, steps.last()) {
            Some(after) => (after, well),
            None => (before, false),
        }
    }
}

/// The world after a recovery, and whether it succeeded.
pub open spec fn recovered(bundle: BundleView, world: World) -> (World, bool) {
    match recovery::recovery_outcome(
        bundle,
        world.transaction_node(),
        world.record_file(),
        world.commit_marker(),
    ) {
        Err(_) => (world, false),
        Ok(RecoveryView::Nothing) => (world, true),
        Ok(RecoveryView::Discard { path }) => (world.discarded(), true),
        Ok(RecoveryView::RollBack(rollback)) => {
            let (after, well) = tried(world, rollback.record, rollback.steps);
            if well {
                (after.discarded(), true)
            } else {
                (after, false)
            }
        },
    }
}

/// What is found at the places of some recorded commands.
pub open spec fn found_in(world: World, commands: Seq<(Seq<char>, ManagedView)>) -> Seq<
    (Seq<char>, NodeView),
> {
    Seq::new(commands.len(), |i: int| (commands[i].0, world.command(commands[i].0)))
}

/// The world after the removal of some recorded commands. What another bundle
/// has taken over stays.
pub open spec fn without_commands(
    id: Seq<char>,
    commands: Seq<(Seq<char>, ManagedView)>,
    world: World,
) -> World
    decreases commands.len(),
{
    if commands.len() == 0 {
        world
    } else {
        let before = without_commands(id, commands.drop_last(), world);
        let (name, managed) = commands.last();
        if plan::taken_over(id, world.command(name)) {
            before
        } else {
            World {
                commands: put(before.commands, name, NodeView::Absent),
                tracking: put(before.tracking, paths::components(managed.path), false),
                ..before
            }
        }
    }
}

/// The world after a removal of the bundle, and whether it succeeded: an
/// interrupted sync is recovered from first, and then the recorded commands and
/// the recorded state go.
pub open spec fn removed(bundle: BundleView, world: World, force: bool) -> (World, bool) {
    let (start, well) = recovered(bundle, world);
    if !well {
        (start, false)
    } else {
        match start.state {
            None => (start, true),
            Some(state) => match removal::removal_plan(
                BundleView { state: start.state, ..bundle },
                found_in(start, state.commands),
                force,
            ) {
                Ok(_) => match without_commands(state.id, state.commands, start).with_state(None) {
                    Some(after) => (after, true),
                    None => (without_commands(state.id, state.commands, start), false),
                },
                Err(_) => (start, false),
            },
        }
    }
}

/// What a removal does to commands and tracking depends on these alone.
pub proof fn lemma_removal_by_parts(
    id: Seq<char>,
    commands: Seq<(Seq<char>, ManagedView)>,
    a: World,
    b: World,
)
    requires
        a.commands == b.commands,
        a.tracking == b.tracking,
    ensures
        without_commands(id, commands, a).commands == without_commands(id, commands, b).commands,
        without_commands(id, commands, a).tracking == without_commands(id, commands, b).tracking,
        without_commands(id, commands, a).record == a.record,
    decreases commands.len(),
{
    if commands.len() > 0 {
        lemma_removal_by_parts(id, commands.drop_last(), a, b);
    }
}

/// What a removal does to one command, and to the tracking of one path.
pub proof fn lemma_removal(
    id: Seq<char>,
    commands: Seq<(Seq<char>, ManagedView)>,
    world: World,
    name: Seq<char>,
    path: Seq<char>,
)
    requires
        name_map::names_sorted(commands),
    ensures
        ({
            let after = without_commands(id, commands, world);
            &&& after.command(name) == (if name_map::has_name(commands, name)
                && !plan::taken_over(id, world.command(name)) {
                NodeView::Absent
            } else {
                world.command(name)
            })
            &&& name_map::lookup(commands, name) matches Some(managed) ==> (!plan::taken_over(
                id,
                world.command(name),
            ) ==> !after.tracks(paths::components(managed.path)))
            &&& (forall|i: int|
                0 <= i < commands.len() ==> !paths::same_path(
                    (#[trigger] commands[i]).1.path,
                    path,
                )) ==> after.tracks(paths::components(path)) == world.tracks(
                paths::components(path),
            )
        }),
    decreases commands.len(),
{
    if commands.len() > 0 {
        name_map::lemma_drop_last_name(commands, name);
        lemma_removal(id, commands.drop_last(), world, name, path);
        let rest = commands.drop_last();
        if forall|i: int|
            0 <= i < commands.len() ==> !paths::same_path((#[trigger] commands[i]).1.path, path) {
            assert forall|i: int| 0 <= i < rest.len() implies !paths::same_path(
                (#[trigger] rest[i]).1.path,
                path,
            ) by {
                assert(rest[i] == commands[i]);
            }
            assert(!paths::same_path(commands[commands.len() - 1].1.path, path));
        }
    }
}

/// The steps of one run after those of another.
pub proof fn lemma_performed_concat(
    bundle: BundleView,
    state: StateView,
    world: World,
    first: Seq<SyncStepView>,
    second: Seq<SyncStepView>,
)
    ensures
        performed_all(bundle, state, world, first + second) == match performed_all(
            bundle,
            state,
            world,
            first,
        ) {
            Some(between) => performed_all(bundle, state, between, second),
            None => None,
        },
    decreases second.len(),
{
    if second.len() == 0 {
        assert(first + second =~= first);
    } else {
        assert((first + second).drop_last() =~= first + second.drop_last());
        assert((first + second).last() == second.last());
        lemma_performed_concat(bundle, state, world, first, second.drop_last());
    }
}

} // verus!
