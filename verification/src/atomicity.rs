//! A sync happens as a whole or not at all.
//!
//! Wherever a sync is interrupted before it is complete, a recovery brings
//! everything back to how it was. A recovery can itself be interrupted and tried
//! again. A complete sync stays as it is.
use vstd::prelude::*;
use crate::bundle;
use crate::bundle::BundleView;
use crate::bundle::ManagedView;
use crate::bundle::StateFileView;
use crate::bundle::StateView;
use crate::command;
use crate::commit;
use crate::commit::SyncStepView;
use crate::desired;
use crate::desired::DesiredView;
use crate::error::ErrorView;
use crate::name_map;
use crate::node::NodeView;
use crate::owner;
use crate::paths;
use crate::paths::ComponentView;
use crate::plan;
use crate::plan::ChangeView;
use crate::recovery;
use crate::recovery::RollbackStepView;
use crate::status;
use crate::transaction;
use crate::transaction::RecordView;
use crate::transaction::SnapshotView;
use crate::transaction::TransactionChangeView;
use crate::world;
use crate::world::World;

verus! {

/// A file that the sync installed for a change.
pub open spec fn installed(node: NodeView, change: TransactionChangeView, id: Seq<char>) -> bool {
    &&& node is File
    &&& change.installed_hash is Some
    &&& node.hash() == change.installed_hash
    &&& node.owner() == Some(id)
}

/// A command that an interrupted sync may leave behind: nothing has happened to
/// it, or its original is kept, or it is newly installed. `before` is what stood
/// there before the sync.
pub open spec fn undoable(
    before: NodeView,
    found: NodeView,
    original: NodeView,
    change: TransactionChangeView,
    id: Seq<char>,
) -> bool {
    &&& !(before is Unknown)
    &&& change.had_original == before.present()
    &&& {
        ||| original is Absent && found == before
        ||| original is Absent && before is Absent && installed(found, change, id)
        ||| before.present() && original == before && (found is Absent || installed(
            found,
            change,
            id,
        ))
    }
}

/// One of the snapshots is of this path.
pub open spec fn noted(snapshots: Seq<SnapshotView>, path: Seq<ComponentView>) -> bool {
    exists|i: int|
        0 <= i < snapshots.len() && paths::components((#[trigger] snapshots[i]).path) == path
}

/// The snapshots tell how things were before.
pub open spec fn accurate(snapshots: Seq<SnapshotView>, before: World) -> bool {
    forall|i: int|
        0 <= i < snapshots.len() ==> (#[trigger] snapshots[i]).was_tracked == before.tracks(
            paths::components(snapshots[i].path),
        )
}

/// `record` is the record of a sync of the bundle that began in the world
/// `before`.
pub open spec fn recorded_before(bundle: BundleView, record: RecordView, before: World) -> bool {
    &&& transaction::record_error(bundle, record) is None
    &&& name_map::names_sorted(record.changes)
    &&& record.state_before == before.state
    &&& accurate(record.tracking_before, before)
}

/// The command `name` is as an interrupted sync may leave it behind.
pub open spec fn left_behind(
    record: RecordView,
    before: World,
    now: World,
    name: Seq<char>,
) -> bool {
    match name_map::lookup(record.changes, name) {
        Some(change) => undoable(
            before.command(name),
            now.command(name),
            now.original(name),
            change,
            record.bundle_id,
        ),
        None => now.command(name) == before.command(name),
    }
}

/// The world `now` is one that a sync which began in the world `before` may leave
/// behind when it is interrupted before it is complete.
pub open spec fn interrupted(bundle: BundleView, before: World, now: World) -> bool {
    &&& now.record matches Some(record)
    &&& !now.committed
    &&& recorded_before(bundle, record, before)
    &&& forall|name: Seq<char>| #[trigger] left_behind(record, before, now, name)
    &&& forall|path: Seq<ComponentView>|
        !noted(record.tracking_before, path) ==> #[trigger] now.tracks(path) == before.tracks(path)
}

/// Everything is as it was before the sync, and there is no transaction.
pub open spec fn as_before(before: World, now: World) -> bool {
    &&& forall|name: Seq<char>| #[trigger] now.command(name) == before.command(name)
    &&& forall|name: Seq<char>| #[trigger] now.original(name) is Absent
    &&& forall|path: Seq<ComponentView>| #[trigger] now.tracks(path) == before.tracks(path)
    &&& now.state == before.state
    &&& now.record is None
    &&& !now.committed
}

/// A command is back as it was.
pub open spec fn restored(before: World, now: World, name: Seq<char>) -> bool {
    now.command(name) == before.command(name) && now.original(name) is Absent
}

/// Undoing a change of an interrupted sync is not refused, and brings back what
/// was there.
pub proof fn lemma_undo(
    bundle: BundleView,
    before: World,
    now: World,
    record: RecordView,
    step: RollbackStepView,
    other: Seq<char>,
)
    requires
        interrupted(bundle, before, now),
        now.record == Some(record),
        match step {
            RollbackStepView::Undo { name, .. } => name_map::lookup(
                record.changes,
                name,
            ) is Some,
            _ => true,
        },
    ensures
        world::undone(now, record, step) matches Some(after) && {
            &&& interrupted(bundle, before, after)
            &&& after.record == Some(record)
            &&& restored(before, now, other) ==> restored(before, after, other)
            &&& step matches RollbackStepView::Undo { name, .. } ==> {
                &&& restored(before, after, name)
                &&& after.state == now.state
                &&& after.tracking == now.tracking
            }
            &&& step is RestoreState ==> after.state == before.state
            &&& step is RestoreTracking ==> {
                &&& after.state == now.state
                &&& forall|path: Seq<ComponentView>| #[trigger]
                    after.tracks(path) == before.tracks(path)
            }
        },
{
    match step {
        RollbackStepView::Undo { name, destination, original } => {
            let change = name_map::lookup(record.changes, name)->0;
            let found = now.command(name);
            assert(left_behind(record, before, now, name));
            let undo = recovery::undo_outcome(
                destination,
                now.command(name),
                now.original(name),
                record.bundle_id,
                change,
            );
            assert(undo is Ok);
            let after = world::undone(now, record, step)->0;
            assert(after.command(name) == before.command(name));
            assert(after.original(name) is Absent);
            assert forall|n: Seq<char>| #[trigger] left_behind(record, before, after, n) by {
                assert(left_behind(record, before, now, n));
                if n != name {
                    assert(after.command(n) == now.command(n));
                    assert(after.original(n) == now.original(n));
                }
            }
            assert forall|path: Seq<ComponentView>|
                !noted(record.tracking_before, path) implies #[trigger] after.tracks(path)
                == before.tracks(path) by {
                assert(now.tracks(path) == before.tracks(path));
            }
        },
        RollbackStepView::SyncCommands => {},
        RollbackStepView::RestoreState => {
            let after = world::undone(now, record, step)->0;
            assert forall|n: Seq<char>| #[trigger] left_behind(record, before, after, n) by {
                assert(left_behind(record, before, now, n));
            }
            assert forall|path: Seq<ComponentView>|
                !noted(record.tracking_before, path) implies #[trigger] after.tracks(path)
                == before.tracks(path) by {
                assert(now.tracks(path) == before.tracks(path));
            }
        },
        RollbackStepView::RestoreTracking => {
            let after = world::undone(now, record, step)->0;
            assert forall|path: Seq<ComponentView>| #[trigger] after.tracks(path) == before.tracks(
                path,
            ) by {
                lemma_retracked(now.tracking, record.tracking_before, before, path);
                assert(now.tracks(path) == (now.tracking)(path));
            }
            assert forall|n: Seq<char>| #[trigger] left_behind(record, before, after, n) by {
                assert(left_behind(record, before, now, n));
            }
        },
    }
}

/// Restoring accurate snapshots brings the tracking of their paths back, and
/// changes no other.
pub proof fn lemma_retracked(
    tracking: spec_fn(Seq<ComponentView>) -> bool,
    snapshots: Seq<SnapshotView>,
    before: World,
    path: Seq<ComponentView>,
)
    requires
        accurate(snapshots, before),
    ensures
        world::retracked(tracking, snapshots)(path) == (if noted(snapshots, path) {
            before.tracks(path)
        } else {
            tracking(path)
        }),
    decreases snapshots.len(),
{
    if snapshots.len() > 0 {
        let rest = snapshots.drop_last();
        let last = snapshots.len() - 1;
        assert forall|i: int| 0 <= i < rest.len() implies (#[trigger] rest[i]).was_tracked
            == before.tracks(paths::components(rest[i].path)) by {
            assert(snapshots[i] == rest[i]);
        }
        lemma_retracked(tracking, rest, before, path);
        assert(snapshots[last] == snapshots.last());
        if noted(rest, path) {
            let i = choose|i: int|
                0 <= i < rest.len() && paths::components((#[trigger] rest[i]).path) == path;
            assert(snapshots[i] == rest[i]);
        }
        if noted(snapshots, path) && paths::components(snapshots[last].path) != path {
            let i = choose|i: int|
                0 <= i < snapshots.len() && paths::components((#[trigger] snapshots[i]).path)
                    == path;
            assert(rest[i] == snapshots[i]);
        }
    }
}

/// The first `count` steps that undo an interrupted sync.
pub open spec fn first_steps(bundle: BundleView, record: RecordView, count: int) -> Seq<
    RollbackStepView,
> {
    recovery::rollback_steps(
        bundle.into,
        transaction::transaction_place(bundle.into, bundle.id),
        record.changes,
    ).take(count)
}

/// A recovery that is itself interrupted leaves an interrupted sync behind, in
/// which nothing was refused. Once a step was tried, what it brings back is
/// back.
pub proof fn law_recovery_can_be_interrupted(
    bundle: BundleView,
    before: World,
    now: World,
    record: RecordView,
    count: int,
)
    requires
        interrupted(bundle, before, now),
        now.record == Some(record),
        0 <= count <= record.changes.len() + 3,
    ensures
        world::tried(now, record, first_steps(bundle, record, count)).1,
        interrupted(bundle, before, world::tried(now, record, first_steps(bundle, record, count)).0),
        world::tried(now, record, first_steps(bundle, record, count)).0.record == Some(record),
        forall|i: int|
            record.changes.len() - count <= i < record.changes.len() && 0 <= i ==> restored(
                before,
                world::tried(now, record, first_steps(bundle, record, count)).0,
                (#[trigger] record.changes[i]).0,
            ),
        count >= record.changes.len() + 2 ==> world::tried(
            now,
            record,
            first_steps(bundle, record, count),
        ).0.state == before.state,
        count == record.changes.len() + 3 ==> forall|path: Seq<ComponentView>| #[trigger]
            world::tried(now, record, first_steps(bundle, record, count)).0.tracks(path)
                == before.tracks(path),
    decreases count,
{
    let steps = first_steps(bundle, record, count);
    let total = record.changes.len() as int;
    if count > 0 {
        law_recovery_can_be_interrupted(bundle, before, now, record, count - 1);
        assert(steps.drop_last() =~= first_steps(bundle, record, count - 1));
        let mid = world::tried(now, record, steps.drop_last()).0;
        let step = steps.last();
        if count <= total {
            name_map::lemma_lookup_at(record.changes, total - count);
            assert(step == recovery::undo_step(
                bundle.into,
                transaction::transaction_place(bundle.into, bundle.id),
                record.changes[total - count].0,
            ));
        }
        lemma_undo(bundle, before, mid, record, step, Seq::empty());
        let after = world::tried(now, record, steps).0;
        assert(Some(after) == world::undone(mid, record, step));
        assert forall|i: int| total - count <= i < total && 0 <= i implies restored(
            before,
            after,
            (#[trigger] record.changes[i]).0,
        ) by {
            if i > total - count {
                lemma_undo(bundle, before, mid, record, step, record.changes[i].0);
            }
        }
    }
}

/// A recovery brings everything back to how it was before the interrupted sync.
pub proof fn law_interrupted_sync_is_undone(bundle: BundleView, before: World, now: World)
    requires
        interrupted(bundle, before, now),
    ensures
        world::recovered(bundle, now).1,
        as_before(before, world::recovered(bundle, now).0),
{
    let record = now.record->0;
    let total = record.changes.len() as int;
    let steps = recovery::rollback_steps(
        bundle.into,
        transaction::transaction_place(bundle.into, bundle.id),
        record.changes,
    );
    law_recovery_can_be_interrupted(bundle, before, now, record, total + 3);
    assert(first_steps(bundle, record, total + 3) =~= steps);
    let after = world::tried(now, record, steps).0;
    let end = world::recovered(bundle, now).0;
    assert(end == after.discarded());
    assert forall|name: Seq<char>| #[trigger] end.command(name) == before.command(name) by {
        assert(left_behind(record, before, after, name));
        if name_map::lookup(record.changes, name) is Some {
            let i = choose|i: int|
                0 <= i < record.changes.len() && (#[trigger] record.changes[i]).0 == name;
            assert(restored(before, after, record.changes[i].0));
        }
    }
    assert forall|path: Seq<ComponentView>| #[trigger] end.tracks(path) == before.tracks(path) by {
        assert(after.tracks(path) == before.tracks(path));
    }
}

/// Without a transaction a recovery changes nothing.
pub proof fn law_nothing_to_recover(bundle: BundleView, now: World)
    requires
        now.record is None,
    ensures
        world::recovered(bundle, now) == (now, true),
{
}

/// Undoing a change never removes or replaces a file that the sync did not
/// install, whatever happened to the files since.
pub proof fn law_undo_spares_other_files(
    now: World,
    record: RecordView,
    step: RollbackStepView,
    name: Seq<char>,
)
    ensures
        world::undone(now, record, step) matches Some(after) ==> {
            ||| after.command(name) == now.command(name)
            ||| now.command(name) is Absent
            ||| name_map::lookup(record.changes, name) matches Some(change) && installed(
                now.command(name),
                change,
                record.bundle_id,
            )
        },
{
}

/// A recovery never removes or replaces a file that the sync did not install,
/// whatever the record says and whatever happened to the files since.
pub proof fn law_recovery_spares_other_files(
    now: World,
    record: RecordView,
    steps: Seq<RollbackStepView>,
    name: Seq<char>,
)
    requires
        now.command(name).present(),
        match name_map::lookup(record.changes, name) {
            Some(change) => !installed(now.command(name), change, record.bundle_id),
            None => true,
        },
    ensures
        world::tried(now, record, steps).0.command(name) == now.command(name),
    decreases steps.len(),
{
    if steps.len() > 0 {
        law_recovery_spares_other_files(now, record, steps.drop_last(), name);
        let mid = world::tried(now, record, steps.drop_last()).0;
        law_undo_spares_other_files(mid, record, steps.last(), name);
    }
}

/// Undoing the change of the command `name` is refused.
pub open spec fn undo_refused(
    bundle: BundleView,
    now: World,
    record: RecordView,
    name: Seq<char>,
) -> bool {
    match name_map::lookup(record.changes, name) {
        Some(change) => recovery::undo_outcome(
            paths::joined(bundle.into, name),
            now.command(name),
            now.original(name),
            record.bundle_id,
            change,
        ) is Err,
        None => false,
    }
}

/// While other changes are undone, a command whose change cannot be undone stays
/// as it is, with its original.
pub proof fn lemma_refused_undo_stays(
    bundle: BundleView,
    now: World,
    record: RecordView,
    name: Seq<char>,
    count: int,
)
    requires
        undo_refused(bundle, now, record, name),
        0 <= count <= record.changes.len() + 3,
    ensures
        ({
            let (after, well) = world::tried(now, record, first_steps(bundle, record, count));
            &&& after.command(name) == now.command(name)
            &&& after.original(name) == now.original(name)
            &&& after.record == now.record
            &&& forall|i: int|
                record.changes.len() - count <= i < record.changes.len() && 0 <= i && (
                #[trigger] record.changes[i]).0 == name ==> !well
        }),
    decreases count,
{
    let steps = first_steps(bundle, record, count);
    let total = record.changes.len() as int;
    if count > 0 {
        lemma_refused_undo_stays(bundle, now, record, name, count - 1);
        assert(steps.drop_last() =~= first_steps(bundle, record, count - 1));
        if count <= total {
            assert(steps.last() == recovery::undo_step(
                bundle.into,
                transaction::transaction_place(bundle.into, bundle.id),
                record.changes[total - count].0,
            ));
        }
    }
}

/// When a change cannot be undone, the recovery fails, and the transaction and
/// the original of the command are kept.
pub proof fn law_refused_undo_keeps_transaction(
    bundle: BundleView,
    now: World,
    record: RecordView,
    name: Seq<char>,
)
    requires
        now.record == Some(record),
        !now.committed,
        transaction::record_error(bundle, record) is None,
        undo_refused(bundle, now, record, name),
    ensures
        !world::recovered(bundle, now).1,
        world::recovered(bundle, now).0.record == Some(record),
        world::recovered(bundle, now).0.command(name) == now.command(name),
        world::recovered(bundle, now).0.original(name) == now.original(name),
{
    let total = record.changes.len() as int;
    let steps = recovery::rollback_steps(
        bundle.into,
        transaction::transaction_place(bundle.into, bundle.id),
        record.changes,
    );
    lemma_refused_undo_stays(bundle, now, record, name, total + 3);
    assert(first_steps(bundle, record, total + 3) =~= steps);
    let i = choose|i: int|
        0 <= i < record.changes.len() && (#[trigger] record.changes[i]).0 == name;
    assert(record.changes[i].0 == name);
}

/// While other changes are undone or refused, a command that the sync left behind
/// stays one, and is back as it was once its own change was undone.
pub proof fn lemma_other_undos(
    bundle: BundleView,
    before: World,
    now: World,
    record: RecordView,
    name: Seq<char>,
    count: int,
)
    requires
        name_map::names_sorted(record.changes),
        left_behind(record, before, now, name),
        0 <= count <= record.changes.len() + 3,
    ensures
        ({
            let after = world::tried(now, record, first_steps(bundle, record, count)).0;
            &&& left_behind(record, before, after, name)
            &&& forall|i: int|
                record.changes.len() - count <= i < record.changes.len() && 0 <= i && (
                #[trigger] record.changes[i]).0 == name ==> restored(before, after, name)
        }),
    decreases count,
{
    let steps = first_steps(bundle, record, count);
    let total = record.changes.len() as int;
    if count > 0 {
        lemma_other_undos(bundle, before, now, record, name, count - 1);
        assert(steps.drop_last() =~= first_steps(bundle, record, count - 1));
        let mid = world::tried(now, record, steps.drop_last()).0;
        if count <= total {
            name_map::lemma_lookup_at(record.changes, total - count);
            assert(steps.last() == recovery::undo_step(
                bundle.into,
                transaction::transaction_place(bundle.into, bundle.id),
                record.changes[total - count].0,
            ));
        }
        let after = world::tried(now, record, steps).0;
        if steps.last() matches RollbackStepView::Undo { name: other, .. } && other != name {
            assert(after.command(name) == mid.command(name));
            assert(after.original(name) == mid.original(name));
        }
    }
}

/// The steps before the last leave the tracking alone. The one before it brings
/// the state back, whatever was refused.
pub proof fn lemma_other_places(
    bundle: BundleView,
    now: World,
    record: RecordView,
    count: int,
)
    requires
        0 <= count <= record.changes.len() + 2,
    ensures
        ({
            let after = world::tried(now, record, first_steps(bundle, record, count)).0;
            &&& after.tracking == now.tracking
            &&& count == record.changes.len() + 2 ==> after.state == record.state_before
        }),
    decreases count,
{
    let steps = first_steps(bundle, record, count);
    let total = record.changes.len() as int;
    if count > 0 {
        lemma_other_places(bundle, now, record, count - 1);
        assert(steps.drop_last() =~= first_steps(bundle, record, count - 1));
        if count <= total {
            assert(steps.last() == recovery::undo_step(
                bundle.into,
                transaction::transaction_place(bundle.into, bundle.id),
                record.changes[total - count].0,
            ));
        }
    }
}

/// Whatever is refused for other commands, a recovery brings back each command
/// that the interrupted sync left behind, and the state and the tracking of the
/// stubs.
pub proof fn law_other_changes_are_undone(
    bundle: BundleView,
    before: World,
    now: World,
    record: RecordView,
)
    requires
        now.record == Some(record),
        !now.committed,
        recorded_before(bundle, record, before),
        forall|path: Seq<ComponentView>|
            !noted(record.tracking_before, path) ==> #[trigger] now.tracks(path) == before.tracks(
                path,
            ),
    ensures
        ({
            let after = world::recovered(bundle, now).0;
            &&& forall|name: Seq<char>|
                left_behind(record, before, now, name) ==> #[trigger] after.command(name)
                    == before.command(name)
            &&& after.state == before.state
            &&& forall|path: Seq<ComponentView>| #[trigger]
                after.tracks(path) == before.tracks(path)
        }),
{
    let total = record.changes.len() as int;
    let steps = recovery::rollback_steps(
        bundle.into,
        transaction::transaction_place(bundle.into, bundle.id),
        record.changes,
    );
    assert(first_steps(bundle, record, total + 3) =~= steps);
    let tried = world::tried(now, record, steps).0;
    let after = world::recovered(bundle, now).0;
    assert forall|name: Seq<char>| left_behind(record, before, now, name) implies #[trigger]
    after.command(name) == before.command(name) by {
        lemma_other_undos(bundle, before, now, record, name, total + 3);
        if name_map::lookup(record.changes, name) is Some {
            let i = choose|i: int|
                0 <= i < record.changes.len() && (#[trigger] record.changes[i]).0 == name;
            assert(record.changes[i].0 == name);
        }
        assert(tried.command(name) == before.command(name));
    }
    lemma_other_places(bundle, now, record, total + 2);
    let untracked = first_steps(bundle, record, total + 2);
    assert(steps.drop_last() =~= untracked);
    let mid = world::tried(now, record, untracked).0;
    assert forall|path: Seq<ComponentView>| #[trigger] after.tracks(path) == before.tracks(path) by {
        lemma_retracked(mid.tracking, record.tracking_before, before, path);
        assert(now.tracks(path) == (now.tracking)(path));
        assert(after.tracks(path) == tried.tracks(path));
    }
}

/// A bundle whose recorded state, if any, is its own.
pub open spec fn coherent(bundle: BundleView) -> bool {
    match bundle.state {
        Some(state) => name_map::names_sorted(state.commands) && transaction::previous_error(
            bundle,
            state,
        ) is None,
        None => true,
    }
}

/// A bundle that has loaded its state from its place, for its directory, and has
/// found the recorded places valid, is coherent.
pub proof fn law_loaded_bundle_is_coherent(
    bundle: BundleView,
    directory: Seq<char>,
    file: StateFileView,
)
    requires
        bundle::is_bundle_id(bundle.id),
        bundle.state_path == bundle::state_path_of(directory, bundle.id),
        bundle::loaded_state(bundle.state_path, file) == Ok::<Option<StateView>, ErrorView>(
            bundle.state,
        ),
        bundle.state matches Some(state) ==> {
            &&& name_map::names_sorted(state.commands)
            &&& paths::same_path(state.into, bundle.into)
            &&& bundle::first_error(state.place_errors()) is None
        },
    ensures
        coherent(bundle),
{
    match bundle.state {
        Some(state) => {
            bundle::law_loaded_state_is_own(directory, bundle.id, file, state);
        },
        None => {},
    }
}

/// The file system answers for all that a sync changes.
pub open spec fn answered<T>(
    changes: Seq<(Seq<char>, T)>,
    found: Seq<(Seq<char>, NodeView)>,
) -> bool {
    forall|i: int|
        0 <= i < changes.len() ==> !(status::node_of(found, (#[trigger] changes[i]).0) is Unknown)
}

/// The place of a valid name in a directory passes as a tracked path of it.
pub proof fn lemma_place_is_noted(
    into: Seq<char>,
    other: Seq<char>,
    name: Seq<char>,
    path: Seq<char>,
)
    requires
        command::valid_command_name(name),
        paths::same_path(other, into),
        paths::same_path(path, paths::joined(other, name)),
    ensures
        transaction::snapshot_error(into, path) is None,
{
    paths::lemma_joined_components(other, name);
    paths::lemma_joined_components(into, name);
    assert(paths::components(path).last() == ComponentView::Normal(name));
}

/// The recorded command `i` of a bundle has a valid name and its own place.
pub proof fn lemma_recorded_place(bundle: BundleView, i: int)
    requires
        coherent(bundle),
        0 <= i < status::recorded_commands(bundle).len(),
    ensures
        command::valid_command_name(status::recorded_commands(bundle)[i].0),
        paths::same_path(
            status::recorded_commands(bundle)[i].1.path,
            paths::joined(bundle.into, status::recorded_commands(bundle)[i].0),
        ),
        transaction::snapshot_error(
            bundle.into,
            status::recorded_commands(bundle)[i].1.path,
        ) is None,
{
    let state = bundle.state->0;
    let (name, managed) = state.commands[i];
    bundle::lemma_all_pass(state.place_errors());
    assert(state.place_errors()[i] is None);
    lemma_place_is_noted(bundle.into, state.into, name, managed.path);
    paths::lemma_joined_components(state.into, name);
    paths::lemma_joined_components(bundle.into, name);
}

/// A sync changes only files that stand directly in the directory of its bundle
/// and have a valid name: each change is at the place of its command.
pub proof fn law_changes_stay_in_directory(
    bundle: BundleView,
    desired: Seq<(Seq<char>, DesiredView)>,
    found: Seq<(Seq<char>, NodeView)>,
    i: int,
)
    requires
        coherent(bundle),
        desired::belongs(bundle, desired),
        0 <= i < plan::planned_changes(bundle, desired, found).len(),
    ensures
        command::valid_command_name(plan::planned_changes(bundle, desired, found)[i].0),
        paths::same_path(
            plan::planned_changes(bundle, desired, found)[i].1.path,
            paths::joined(bundle.into, plan::planned_changes(bundle, desired, found)[i].0),
        ),
{
    let changes = plan::planned_changes(bundle, desired, found);
    let name = changes[i].0;
    plan::law_planned_changes(bundle, desired, found, name);
    name_map::lemma_lookup_at(changes, i);
    if name_map::has_name(desired, name) {
        let j = choose|j: int| 0 <= j < desired.len() && (#[trigger] desired[j]).0 == name;
        name_map::lemma_lookup_at(desired, j);
    } else {
        let commands = status::recorded_commands(bundle);
        let j = choose|j: int| 0 <= j < commands.len() && (#[trigger] commands[j]).0 == name;
        lemma_recorded_place(bundle, j);
        name_map::lemma_lookup_at(commands, j);
    }
}

/// The paths whose tracking is noted are those of the desired and the recorded
/// commands.
pub proof fn lemma_noted_paths(
    bundle: BundleView,
    desired: Seq<(Seq<char>, DesiredView)>,
    tracking: spec_fn(Seq<ComponentView>) -> bool,
    path: Seq<char>,
)
    ensures
        noted(
            world::snapshots(plan::affected_paths(bundle, desired), tracking),
            paths::components(path),
        ) <==> {
            ||| exists|i: int|
                0 <= i < desired.len() && paths::same_path((#[trigger] desired[i]).1.path, path)
            ||| exists|i: int|
                0 <= i < status::recorded_commands(bundle).len() && paths::same_path(
                    (#[trigger] status::recorded_commands(bundle)[i]).1.path,
                    path,
                )
        },
{
    let commands = status::recorded_commands(bundle);
    let old_paths = plan::managed_paths(commands);
    let new_paths = plan::managed_paths(plan::managed_commands(desired));
    let list = old_paths + new_paths;
    let affected = plan::affected_paths(bundle, desired);
    let snaps = world::snapshots(affected, tracking);
    paths::law_path_set(list, path);
    if noted(snaps, paths::components(path)) {
        let i = choose|i: int|
            0 <= i < snaps.len() && paths::components((#[trigger] snaps[i]).path)
                == paths::components(path);
        assert(paths::same_path(affected[i], path));
        assert(paths::has_path(list, path));
        let j = choose|j: int| 0 <= j < list.len() && paths::same_path(#[trigger] list[j], path);
        if j < old_paths.len() {
            assert(list[j] == commands[j].1.path);
        } else {
            assert(list[j] == desired[j - old_paths.len()].1.path);
        }
    }
    if exists|i: int|
        0 <= i < desired.len() && paths::same_path((#[trigger] desired[i]).1.path, path) {
        let i = choose|i: int|
            0 <= i < desired.len() && paths::same_path((#[trigger] desired[i]).1.path, path);
        assert(list[i + old_paths.len()] == desired[i].1.path);
        assert(paths::has_path(list, path));
    }
    if exists|i: int|
        0 <= i < commands.len() && paths::same_path((#[trigger] commands[i]).1.path, path) {
        let i = choose|i: int|
            0 <= i < commands.len() && paths::same_path((#[trigger] commands[i]).1.path, path);
        assert(list[i] == commands[i].1.path);
        assert(paths::has_path(list, path));
    }
    if paths::has_path(affected, path) {
        let i = choose|i: int|
            0 <= i < affected.len() && paths::same_path(#[trigger] affected[i], path);
        assert(paths::components(snaps[i].path) == paths::components(path));
    }
}

/// The record of a sync is a valid record of the bundle that tells how things
/// were before.
pub proof fn lemma_sync_record(
    bundle: BundleView,
    desired: Seq<(Seq<char>, DesiredView)>,
    found: Seq<(Seq<char>, NodeView)>,
    tracking: spec_fn(Seq<ComponentView>) -> bool,
    staging: Seq<char>,
)
    requires
        coherent(bundle),
        desired::belongs(bundle, desired),
    ensures
        recorded_before(
            bundle,
            world::sync_record(bundle, desired, found, tracking, staging),
            world::begun_sync(bundle, desired, found, tracking, staging),
        ),
{
    let record = world::sync_record(bundle, desired, found, tracking, staging);
    let changes = plan::planned_changes(bundle, desired, found);
    let names = transaction::change_name_errors(record.changes);
    plan::law_planned_changes(bundle, desired, found, Seq::empty());
    assert forall|i: int| 0 <= i < names.len() implies names[i] is None by {
        law_changes_stay_in_directory(bundle, desired, found, i);
    }
    bundle::lemma_no_error(names);
    assert forall|i: int, j: int| 0 <= i < j < record.changes.len() implies crate::text::text_lt(
        (#[trigger] record.changes[i]).0,
        (#[trigger] record.changes[j]).0,
    ) by {
        assert(crate::text::text_lt(changes[i].0, changes[j].0));
    }
    let noted_paths = transaction::snapshot_errors(bundle.into, record.tracking_before);
    assert forall|i: int| 0 <= i < noted_paths.len() implies noted_paths[i] is None by {
        let path = record.tracking_before[i].path;
        lemma_noted_paths(bundle, desired, tracking, path);
        assert(paths::components(record.tracking_before[i].path) == paths::components(path));
        if exists|j: int|
            0 <= j < desired.len() && paths::same_path((#[trigger] desired[j]).1.path, path) {
            let j = choose|j: int|
                0 <= j < desired.len() && paths::same_path((#[trigger] desired[j]).1.path, path);
            assert(command::valid_command_name(desired[j].0));
            lemma_place_is_noted(bundle.into, bundle.into, desired[j].0, path);
        } else {
            let commands = status::recorded_commands(bundle);
            let j = choose|j: int|
                0 <= j < commands.len() && paths::same_path((#[trigger] commands[j]).1.path, path);
            lemma_recorded_place(bundle, j);
            lemma_place_is_noted(bundle.into, bundle.into, commands[j].0, path);
        }
    }
    bundle::lemma_no_error(noted_paths);
}

/// A changed command gets new contents.
pub open spec fn writes(changes: Seq<(Seq<char>, ChangeView)>, name: Seq<char>) -> bool {
    match name_map::lookup(changes, name) {
        Some(change) => change.contents is Some,
        None => false,
    }
}

/// While originals are being kept, a changed command is untouched, or its
/// original is kept and its place is empty.
pub open spec fn backed(
    changes: Seq<(Seq<char>, ChangeView)>,
    before: World,
    now: World,
    name: Seq<char>,
) -> bool {
    if name_map::has_name(changes, name) {
        ||| now.original(name) is Absent && now.command(name) == before.command(name)
        ||| before.command(name).present() && now.original(name) == before.command(name)
            && now.command(name) is Absent
    } else {
        now.command(name) == before.command(name)
    }
}

/// What is kept of what stood at the place of a command.
pub open spec fn kept(node: NodeView) -> NodeView {
    if node.present() {
        node
    } else {
        NodeView::Absent
    }
}

/// While new contents are being installed, the original of a changed command is
/// kept, and its place is empty or holds the new contents.
pub open spec fn placed(
    changes: Seq<(Seq<char>, ChangeView)>,
    before: World,
    now: World,
    name: Seq<char>,
) -> bool {
    if name_map::has_name(changes, name) {
        &&& now.original(name) == kept(before.command(name))
        &&& now.command(name) is Absent || (writes(changes, name) && now.command(name)
            == before.staged_file(name))
        &&& now.staged_file(name) is Absent || now.staged_file(name) == before.staged_file(name)
    } else {
        now.command(name) == before.command(name)
    }
}

/// Apart from the files of the commands, two worlds are the same.
pub open spec fn same_records(a: World, b: World) -> bool {
    &&& a.state == b.state
    &&& a.tracking == b.tracking
    &&& a.record == b.record
    &&& a.committed == b.committed
}

/// The first steps of a sync keep originals.
pub proof fn lemma_back_ups(
    bundle: BundleView,
    state: StateView,
    changes: Seq<(Seq<char>, ChangeView)>,
    before: World,
    now: World,
    count: int,
)
    requires
        forall|name: Seq<char>| #[trigger] before.original(name) is Absent,
        0 <= count <= changes.len() + 1,
        world::performed_all(
            bundle,
            state,
            before,
            commit::back_ups(changes).push(SyncStepView::SyncBackups).take(count),
        ) == Some(now),
    ensures
        forall|name: Seq<char>| #[trigger] backed(changes, before, now, name),
        forall|i: int|
            0 <= i < count && i < changes.len() ==> now.command(
                (#[trigger] changes[i]).0,
            ) is Absent,
        now.staged == before.staged,
        same_records(before, now),
    decreases count,
{
    let all = commit::back_ups(changes).push(SyncStepView::SyncBackups);
    let steps = all.take(count);
    if count > 0 {
        assert(steps.drop_last() =~= all.take(count - 1));
        let mid = world::performed_all(bundle, state, before, steps.drop_last())->0;
        lemma_back_ups(bundle, state, changes, before, mid, count - 1);
        if count <= changes.len() {
            let name = changes[count - 1].0;
            assert(steps.last() == (SyncStepView::BackUp {
                name,
                path: changes[count - 1].1.path,
            }));
            assert(backed(changes, before, mid, name));
            assert forall|n: Seq<char>| #[trigger] backed(changes, before, now, n) by {
                assert(backed(changes, before, mid, n));
                if n != name {
                    assert(now.command(n) == mid.command(n));
                    assert(now.original(n) == mid.original(n));
                }
            }
            assert forall|i: int| 0 <= i < count && i < changes.len() implies now.command(
                (#[trigger] changes[i]).0,
            ) is Absent by {
                if changes[i].0 != name {
                    assert(now.command(changes[i].0) == mid.command(changes[i].0));
                }
            }
        } else {
            assert(steps.last() == SyncStepView::SyncBackups);
            assert forall|n: Seq<char>| #[trigger] backed(changes, before, now, n) by {
                assert(backed(changes, before, mid, n));
            }
        }
    } else {
        assert(now == before);
        assert forall|n: Seq<char>| #[trigger] backed(changes, before, now, n) by {
            assert(before.original(n) is Absent);
        }
    }
}

/// Each step that installs is one for a command that gets new contents.
pub proof fn lemma_installs(changes: Seq<(Seq<char>, ChangeView)>, i: int)
    requires
        name_map::names_sorted(changes),
        0 <= i < commit::installs(changes).len(),
    ensures
        commit::installs(changes)[i] matches SyncStepView::Install { name, .. } && writes(
            changes,
            name,
        ),
    decreases changes.len(),
{
    if changes.len() > 0 {
        let rest = changes.drop_last();
        name_map::lemma_drop_last_name(changes, changes.last().0);
        if i < commit::installs(rest).len() {
            lemma_installs(rest, i);
            assert(commit::installs(changes)[i] == commit::installs(rest)[i]);
            match commit::installs(rest)[i] {
                SyncStepView::Install { name, path } => {
                    name_map::lemma_drop_last_name(changes, name);
                },
                _ => {},
            }
        }
    }
}

/// The steps after the originals are kept install new contents.
pub proof fn lemma_install_steps(
    bundle: BundleView,
    state: StateView,
    changes: Seq<(Seq<char>, ChangeView)>,
    before: World,
    start: World,
    now: World,
    count: int,
)
    requires
        name_map::names_sorted(changes),
        forall|name: Seq<char>| #[trigger] placed(changes, before, start, name),
        0 <= count <= commit::installs(changes).len() + 1,
        world::performed_all(
            bundle,
            state,
            start,
            commit::installs(changes).push(SyncStepView::SyncCommands).take(count),
        ) == Some(now),
    ensures
        forall|name: Seq<char>| #[trigger] placed(changes, before, now, name),
        same_records(start, now),
    decreases count,
{
    let all = commit::installs(changes).push(SyncStepView::SyncCommands);
    let steps = all.take(count);
    if count > 0 {
        assert(steps.drop_last() =~= all.take(count - 1));
        let mid = world::performed_all(bundle, state, start, steps.drop_last())->0;
        lemma_install_steps(bundle, state, changes, before, start, mid, count - 1);
        if count <= commit::installs(changes).len() {
            lemma_installs(changes, count - 1);
            assert(steps.last() == commit::installs(changes)[count - 1]);
            match steps.last() {
                SyncStepView::Install { name, path } => {
                    assert forall|n: Seq<char>| #[trigger] placed(changes, before, now, n) by {
                        assert(placed(changes, before, mid, n));
                        if n != name {
                            assert(now.command(n) == mid.command(n));
                            assert(now.staged_file(n) == mid.staged_file(n));
                        }
                    }
                },
                _ => {},
            }
        } else {
            assert(steps.last() == SyncStepView::SyncCommands);
        }
    }
}

/// A step that changes the tracking of a noted path, or records the state.
pub open spec fn follows(snapshots: Seq<SnapshotView>, step: SyncStepView) -> bool {
    match step {
        SyncStepView::Track { path } => noted(snapshots, paths::components(path)),
        SyncStepView::Untrack { path } => noted(snapshots, paths::components(path)),
        SyncStepView::WriteState => true,
        _ => false,
    }
}

/// The steps after the new contents are installed change only tracking and
/// state.
pub proof fn lemma_following_steps(
    bundle: BundleView,
    state: StateView,
    snapshots: Seq<SnapshotView>,
    start: World,
    now: World,
    steps: Seq<SyncStepView>,
)
    requires
        forall|i: int| 0 <= i < steps.len() ==> follows(snapshots, #[trigger] steps[i]),
        world::performed_all(bundle, state, start, steps) == Some(now),
    ensures
        now.commands == start.commands,
        now.originals == start.originals,
        now.record == start.record,
        now.committed == start.committed,
        forall|path: Seq<ComponentView>|
            !noted(snapshots, path) ==> #[trigger] now.tracks(path) == start.tracks(path),
    decreases steps.len(),
{
    if steps.len() > 0 {
        let rest = steps.drop_last();
        let mid = world::performed_all(bundle, state, start, rest)->0;
        assert forall|i: int| 0 <= i < rest.len() implies follows(
            snapshots,
            #[trigger] rest[i],
        ) by {
            assert(rest[i] == steps[i]);
        }
        lemma_following_steps(bundle, state, snapshots, start, mid, rest);
        assert(follows(snapshots, steps[steps.len() - 1]));
        assert forall|path: Seq<ComponentView>| !noted(snapshots, path) implies #[trigger]
            now.tracks(path) == start.tracks(path) by {
            assert(mid.tracks(path) == start.tracks(path));
        }
    }
}

/// The command `j` is removed, so that its tracking ends.
pub open spec fn untracked(
    commands: Seq<(Seq<char>, ManagedView)>,
    desired: Seq<(Seq<char>, DesiredView)>,
    changes: Seq<(Seq<char>, ChangeView)>,
    j: int,
) -> bool {
    !name_map::has_name(desired, commands[j].0) && name_map::has_name(changes, commands[j].0)
}

/// Each step that ends the tracking of a stub is one for a recorded command that
/// is removed.
pub proof fn lemma_untracks(
    commands: Seq<(Seq<char>, ManagedView)>,
    desired: Seq<(Seq<char>, DesiredView)>,
    changes: Seq<(Seq<char>, ChangeView)>,
    i: int,
)
    requires
        0 <= i < commit::untracks(commands, desired, changes).len(),
    ensures
        exists|j: int|
            0 <= j < commands.len() && #[trigger] untracked(commands, desired, changes, j)
                && commit::untracks(commands, desired, changes)[i] == (SyncStepView::Untrack {
                path: commands[j].1.path,
            }),
    decreases commands.len(),
{
    if commands.len() > 0 {
        let rest = commands.drop_last();
        let before = commit::untracks(rest, desired, changes);
        if i < before.len() {
            lemma_untracks(rest, desired, changes, i);
            let j = choose|j: int|
                0 <= j < rest.len() && #[trigger] untracked(rest, desired, changes, j)
                    && before[i] == (SyncStepView::Untrack { path: rest[j].1.path });
            assert(commands[j] == rest[j]);
            assert(untracked(commands, desired, changes, j));
        } else {
            let last = commands.len() - 1;
            assert(commands[last] == commands.last());
            assert(untracked(commands, desired, changes, last));
        }
    }
}

/// Each recorded command that is removed has a step that ends its tracking.
pub proof fn lemma_untracked_has_step(
    commands: Seq<(Seq<char>, ManagedView)>,
    desired: Seq<(Seq<char>, DesiredView)>,
    changes: Seq<(Seq<char>, ChangeView)>,
    j: int,
)
    requires
        0 <= j < commands.len(),
        untracked(commands, desired, changes, j),
    ensures
        commit::untracks(commands, desired, changes).contains(
            SyncStepView::Untrack { path: commands[j].1.path },
        ),
    decreases commands.len(),
{
    let rest = commands.drop_last();
    let before = commit::untracks(rest, desired, changes);
    let steps = commit::untracks(commands, desired, changes);
    let step = SyncStepView::Untrack { path: commands[j].1.path };
    if j < rest.len() {
        assert(rest[j] == commands[j]);
        lemma_untracked_has_step(rest, desired, changes, j);
        let i = choose|i: int| 0 <= i < before.len() && before[i] == step;
        assert(steps[i] == step);
    } else {
        assert(commands.last() == commands[j]);
        assert(steps[before.len() as int] == step);
    }
}

/// The steps that follow the installation change noted paths only.
pub proof fn lemma_follow_steps(
    bundle: BundleView,
    desired: Seq<(Seq<char>, DesiredView)>,
    changes: Seq<(Seq<char>, ChangeView)>,
    tracking: spec_fn(Seq<ComponentView>) -> bool,
    i: int,
)
    requires
        0 <= i < following(bundle, desired, changes).len(),
    ensures
        follows(
            world::snapshots(plan::affected_paths(bundle, desired), tracking),
            following(bundle, desired, changes)[i],
        ),
{
    let commands = status::recorded_commands(bundle);
    let ended = commit::untracks(commands, desired, changes);
    if i < desired.len() {
        lemma_noted_paths(bundle, desired, tracking, desired[i].1.path);
        assert(paths::same_path(desired[i].1.path, desired[i].1.path));
    } else if i < desired.len() + ended.len() {
        lemma_untracks(commands, desired, changes, i - desired.len());
        let j = choose|j: int|
            0 <= j < commands.len() && #[trigger] untracked(commands, desired, changes, j)
                && ended[i - desired.len()] == (SyncStepView::Untrack {
                path: commands[j].1.path,
            });
        lemma_noted_paths(bundle, desired, tracking, commands[j].1.path);
        assert(paths::same_path(commands[j].1.path, commands[j].1.path));
    }
}

/// The steps between the installation and the commit marker.
pub open spec fn following(
    bundle: BundleView,
    desired: Seq<(Seq<char>, DesiredView)>,
    changes: Seq<(Seq<char>, ChangeView)>,
) -> Seq<SyncStepView> {
    commit::tracks(desired) + commit::untracks(
        status::recorded_commands(bundle),
        desired,
        changes,
    ).push(SyncStepView::WriteState)
}

/// The steps of a sync in their three parts, and the commit marker.
pub proof fn lemma_sync_steps(
    bundle: BundleView,
    desired: Seq<(Seq<char>, DesiredView)>,
    changes: Seq<(Seq<char>, ChangeView)>,
)
    ensures
        commit::sync_steps(bundle, desired, changes) == (commit::back_ups(changes).push(
            SyncStepView::SyncBackups,
        ) + commit::installs(changes).push(SyncStepView::SyncCommands) + following(
            bundle,
            desired,
            changes,
        )).push(SyncStepView::MarkCommitted),
{
    assert(commit::sync_steps(bundle, desired, changes) =~= (commit::back_ups(changes).push(
        SyncStepView::SyncBackups,
    ) + commit::installs(changes).push(SyncStepView::SyncCommands) + following(
        bundle,
        desired,
        changes,
    )).push(SyncStepView::MarkCommitted));
}

/// Once all originals are kept, the places of the changed commands are empty.
pub proof fn lemma_all_backed_up(
    changes: Seq<(Seq<char>, ChangeView)>,
    before: World,
    now: World,
)
    requires
        forall|name: Seq<char>| #[trigger] backed(changes, before, now, name),
        forall|i: int| 0 <= i < changes.len() ==> now.command((#[trigger] changes[i]).0) is Absent,
        now.staged == before.staged,
    ensures
        forall|name: Seq<char>| #[trigger] placed(changes, before, now, name),
{
    assert forall|name: Seq<char>| #[trigger] placed(changes, before, now, name) by {
        assert(backed(changes, before, now, name));
        if name_map::has_name(changes, name) {
            let i = choose|i: int| 0 <= i < changes.len() && (#[trigger] changes[i]).0 == name;
            assert(now.command(changes[i].0) is Absent);
        }
    }
}

/// What the record of a sync says of a changed command.
pub proof fn lemma_recorded_change(
    bundle: BundleView,
    desired: Seq<(Seq<char>, DesiredView)>,
    found: Seq<(Seq<char>, NodeView)>,
    tracking: spec_fn(Seq<ComponentView>) -> bool,
    staging: Seq<char>,
    name: Seq<char>,
)
    requires
        coherent(bundle),
        desired::belongs(bundle, desired),
    ensures
        ({
            let record = world::sync_record(bundle, desired, found, tracking, staging);
            let before = world::begun_sync(bundle, desired, found, tracking, staging);
            let changes = plan::planned_changes(bundle, desired, found);
            match name_map::lookup(record.changes, name) {
                Some(change) => {
                    &&& name_map::has_name(changes, name)
                    &&& change.had_original == before.command(name).present()
                    &&& writes(changes, name) ==> installed(
                        before.staged_file(name),
                        change,
                        record.bundle_id,
                    )
                },
                None => !name_map::has_name(changes, name),
            }
        }),
{
    let record = world::sync_record(bundle, desired, found, tracking, staging);
    let before = world::begun_sync(bundle, desired, found, tracking, staging);
    let changes = plan::planned_changes(bundle, desired, found);
    lemma_sync_record(bundle, desired, found, tracking, staging);
    plan::law_planned_changes(bundle, desired, found, name);
    if name_map::has_name(changes, name) {
        let i = choose|i: int| 0 <= i < changes.len() && (#[trigger] changes[i]).0 == name;
        assert(record.changes[i].0 == name);
        name_map::lemma_lookup_at(record.changes, i);
        name_map::lemma_lookup_at(changes, i);
        if writes(changes, name) {
            let j = choose|j: int| 0 <= j < desired.len() && (#[trigger] desired[j]).0 == name;
            name_map::lemma_lookup_at(desired, j);
            owner::law_owner_of_text(desired[j].1.contents);
        }
    } else if name_map::has_name(record.changes, name) {
        let i = choose|i: int|
            0 <= i < record.changes.len() && (#[trigger] record.changes[i]).0 == name;
        assert(changes[i].0 == name);
    }
}

/// Wherever a sync stops before it is complete, it leaves an interrupted sync
/// behind.
pub proof fn law_stopped_sync_is_interrupted(
    bundle: BundleView,
    desired: Seq<(Seq<char>, DesiredView)>,
    found: Seq<(Seq<char>, NodeView)>,
    tracking: spec_fn(Seq<ComponentView>) -> bool,
    staging: Seq<char>,
    source_hash: Seq<char>,
    count: int,
    now: World,
)
    requires
        coherent(bundle),
        desired::belongs(bundle, desired),
        answered(plan::planned_changes(bundle, desired, found), found),
        ({
            let changes = plan::planned_changes(bundle, desired, found);
            let steps = commit::sync_steps(bundle, desired, changes);
            &&& 0 <= count < steps.len()
            &&& world::performed_all(
                bundle,
                plan::final_state(bundle, source_hash, desired),
                world::begun_sync(bundle, desired, found, tracking, staging),
                steps.take(count),
            ) == Some(now)
        }),
    ensures
        interrupted(
            bundle,
            world::begun_sync(bundle, desired, found, tracking, staging),
            now,
        ),
{
    let changes = plan::planned_changes(bundle, desired, found);
    let state = plan::final_state(bundle, source_hash, desired);
    let before = world::begun_sync(bundle, desired, found, tracking, staging);
    let record = world::sync_record(bundle, desired, found, tracking, staging);
    let steps = commit::sync_steps(bundle, desired, changes);
    let first = commit::back_ups(changes).push(SyncStepView::SyncBackups);
    let second = commit::installs(changes).push(SyncStepView::SyncCommands);
    let third = following(bundle, desired, changes);
    lemma_sync_steps(bundle, desired, changes);
    lemma_sync_record(bundle, desired, found, tracking, staging);
    plan::law_planned_changes(bundle, desired, found, Seq::empty());
    if count <= first.len() {
        assert(steps.take(count) =~= first.take(count));
        lemma_back_ups(bundle, state, changes, before, now, count);
        assert forall|name: Seq<char>| #[trigger] left_behind(record, before, now, name) by {
            assert(backed(changes, before, now, name));
            lemma_recorded_change(bundle, desired, found, tracking, staging, name);
            if name_map::has_name(changes, name) {
                lemma_answered(changes, found, name);
            }
        }
    } else {
        let filed = if count <= first.len() + second.len() {
            second.take(count - first.len())
        } else {
            second
        };
        let last = if count <= first.len() + second.len() {
            Seq::empty()
        } else {
            third.take(count - first.len() - second.len())
        };
        assert(steps.take(count) =~= first + filed + last);
        world::lemma_performed_concat(bundle, state, before, first + filed, last);
        world::lemma_performed_concat(bundle, state, before, first, filed);
        let mid = world::performed_all(bundle, state, before, first)->0;
        let end = world::performed_all(bundle, state, mid, filed)->0;
        assert(first.take(first.len() as int) =~= first);
        lemma_back_ups(bundle, state, changes, before, mid, first.len() as int);
        lemma_all_backed_up(changes, before, mid);
        assert(second.take(filed.len() as int) =~= filed);
        lemma_install_steps(bundle, state, changes, before, mid, end, filed.len() as int);
        assert forall|i: int| 0 <= i < last.len() implies follows(
            record.tracking_before,
            #[trigger] last[i],
        ) by {
            lemma_follow_steps(bundle, desired, changes, tracking, i);
        }
        lemma_following_steps(bundle, state, record.tracking_before, end, now, last);
        assert forall|name: Seq<char>| #[trigger] left_behind(record, before, now, name) by {
            assert(placed(changes, before, end, name));
            lemma_recorded_change(bundle, desired, found, tracking, staging, name);
            if name_map::has_name(changes, name) {
                lemma_answered(changes, found, name);
            }
            assert(now.command(name) == end.command(name));
            assert(now.original(name) == end.original(name));
        }
        assert forall|path: Seq<ComponentView>|
            !noted(record.tracking_before, path) implies #[trigger] now.tracks(path)
            == before.tracks(path) by {
            assert(now.tracks(path) == end.tracks(path));
        }
    }
}

/// The file system answers for a changed command.
pub proof fn lemma_answered<T>(
    changes: Seq<(Seq<char>, T)>,
    found: Seq<(Seq<char>, NodeView)>,
    name: Seq<char>,
)
    requires
        answered(changes, found),
        name_map::has_name(changes, name),
    ensures
        !(status::node_of(found, name) is Unknown),
{
    let i = choose|i: int| 0 <= i < changes.len() && (#[trigger] changes[i]).0 == name;
    assert(!(status::node_of(found, changes[i].0) is Unknown));
}

} // verus!
