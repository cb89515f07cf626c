//! What a complete sync leaves behind.
use vstd::prelude::*;
use crate::atomicity;
use crate::bundle;
use crate::bundle::BundleView;
use crate::bundle::ManagedView;
use crate::bundle::StateView;
use crate::command;
use crate::commit;
use crate::commit::SyncStepView;
use crate::desired;
use crate::desired::DesiredView;
use crate::error::ErrorView;
use crate::name_map;
use crate::node::NodeView;
use crate::owner;
use crate::paths;
use crate::paths::ComponentView;
use crate::plan;
use crate::plan::ChangeView;
use crate::removal;
use crate::removal::RemovalStepView;
use crate::removal::RemovalView;
use crate::status;
use crate::status::CommandStatusView;
use crate::status::StatusKind;
use crate::transaction;
use crate::world;
use crate::world::World;

verus! {

/// Installing all new contents puts each at its place.
pub proof fn lemma_all_installed(
    bundle: BundleView,
    state: StateView,
    changes: Seq<(Seq<char>, ChangeView)>,
    start: World,
    name: Seq<char>,
)
    requires
        name_map::names_sorted(changes),
    ensures
        world::performed_all(bundle, state, start, commit::installs(changes)) matches Some(now) && {
            &&& now.command(name) == (if atomicity::writes(changes, name) {
                start.staged_file(name)
            } else {
                start.command(name)
            })
            &&& !atomicity::writes(changes, name) ==> now.staged_file(name) == start.staged_file(
                name,
            )
            &&& atomicity::same_records(start, now)
        },
    decreases changes.len(),
{
    if changes.len() > 0 {
        let rest = changes.drop_last();
        let (last, change) = changes.last();
        name_map::lemma_drop_last_name(changes, name);
        name_map::lemma_drop_last_name(changes, last);
        lemma_all_installed(bundle, state, rest, start, name);
        lemma_all_installed(bundle, state, rest, start, last);
        if change.contents is Some {
            let steps = commit::installs(changes);
            assert(steps.drop_last() =~= commit::installs(rest));
        }
    }
}

/// What stands at the place of a command once a sync is complete.
pub open spec fn result_node(
    bundle: BundleView,
    desired: Seq<(Seq<char>, DesiredView)>,
    found: Seq<(Seq<char>, NodeView)>,
    name: Seq<char>,
) -> NodeView {
    match plan::change_of(bundle, desired, found, name) {
        Some(change) => match change.contents {
            Some(contents) => world::staged_node(contents),
            None => NodeView::Absent,
        },
        None => status::node_of(found, name),
    }
}

/// The steps that follow the installation track what they track, and keep it so
/// unless they end it.
pub proof fn lemma_tracking_steps(
    bundle: BundleView,
    state: StateView,
    start: World,
    steps: Seq<SyncStepView>,
    path: Seq<ComponentView>,
)
    requires
        forall|i: int|
            0 <= i < steps.len() ==> match #[trigger] steps[i] {
                SyncStepView::Track { .. } => true,
                SyncStepView::Untrack { path: ended } => paths::components(ended) != path,
                SyncStepView::WriteState => true,
                _ => false,
            },
    ensures
        world::performed_all(bundle, state, start, steps) matches Some(now) && {
            now.tracks(path) == (start.tracks(path) || exists|i: int|
                0 <= i < steps.len() && (#[trigger] steps[i] matches SyncStepView::Track {
                    path: begun,
                } && paths::components(begun) == path))
        },
    decreases steps.len(),
{
    if steps.len() > 0 {
        let rest = steps.drop_last();
        let last = steps.len() - 1;
        assert forall|i: int| 0 <= i < rest.len() implies match #[trigger] rest[i] {
            SyncStepView::Track { .. } => true,
            SyncStepView::Untrack { path: ended } => paths::components(ended) != path,
            SyncStepView::WriteState => true,
            _ => false,
        } by {
            assert(rest[i] == steps[i]);
        }
        lemma_tracking_steps(bundle, state, start, rest, path);
        assert(steps[last] == steps.last());
        if exists|i: int|
            0 <= i < rest.len() && (#[trigger] rest[i] matches SyncStepView::Track { path: begun }
                && paths::components(begun) == path) {
            let i = choose|i: int|
                0 <= i < rest.len() && (#[trigger] rest[i] matches SyncStepView::Track {
                    path: begun,
                } && paths::components(begun) == path);
            assert(steps[i] == rest[i]);
        }
        if exists|i: int|
            0 <= i < steps.len() && (#[trigger] steps[i] matches SyncStepView::Track { path: begun }
                && paths::components(begun) == path) {
            let i = choose|i: int|
                0 <= i < steps.len() && (#[trigger] steps[i] matches SyncStepView::Track {
                    path: begun,
                } && paths::components(begun) == path);
            if i < last {
                assert(rest[i] == steps[i]);
            }
        }
    }
}

/// The path of a desired command is not that of a recorded one that is not
/// desired.
pub proof fn lemma_desired_path_is_own(
    bundle: BundleView,
    desired: Seq<(Seq<char>, DesiredView)>,
    i: int,
    j: int,
)
    requires
        atomicity::coherent(bundle),
        desired::belongs(bundle, desired),
        0 <= i < desired.len(),
        0 <= j < status::recorded_commands(bundle).len(),
        !name_map::has_name(desired, status::recorded_commands(bundle)[j].0),
    ensures
        !paths::same_path(desired[i].1.path, status::recorded_commands(bundle)[j].1.path),
{
    let (name, managed) = status::recorded_commands(bundle)[j];
    atomicity::lemma_recorded_place(bundle, j);
    assert(command::valid_command_name(desired[i].0));
    if paths::same_path(desired[i].1.path, managed.path) {
        paths::law_joined_injective(bundle.into, desired[i].0, name);
        assert(name_map::has_name(desired, desired[i].0));
    }
}

/// A complete sync has written every command that was not as desired, removed
/// every recorded one that is not desired and not taken over, left everything
/// else alone, recorded the new state, and tracks the desired commands.
pub proof fn law_complete_sync(
    bundle: BundleView,
    desired: Seq<(Seq<char>, DesiredView)>,
    found: Seq<(Seq<char>, NodeView)>,
    tracking: spec_fn(Seq<ComponentView>) -> bool,
    staging: Seq<char>,
    source_hash: Seq<char>,
    now: World,
    name: Seq<char>,
)
    requires
        atomicity::coherent(bundle),
        desired::belongs(bundle, desired),
        world::performed_all(
            bundle,
            plan::final_state(bundle, source_hash, desired),
            world::begun_sync(bundle, desired, found, tracking, staging),
            commit::sync_steps(
                bundle,
                desired,
                plan::planned_changes(bundle, desired, found),
            ),
        ) == Some(now),
    ensures
        now.command(name) == result_node(bundle, desired, found, name),
        now.state == Some(plan::final_state(bundle, source_hash, desired)),
        now.committed,
        now.record == Some(world::sync_record(bundle, desired, found, tracking, staging)),
        name_map::lookup(desired, name) matches Some(wish) ==> now.tracks(
            paths::components(wish.path),
        ),
{
    let changes = plan::planned_changes(bundle, desired, found);
    let state = plan::final_state(bundle, source_hash, desired);
    let before = world::begun_sync(bundle, desired, found, tracking, staging);
    let record = world::sync_record(bundle, desired, found, tracking, staging);
    let steps = commit::sync_steps(bundle, desired, changes);
    let first = commit::back_ups(changes).push(SyncStepView::SyncBackups);
    let second = commit::installs(changes).push(SyncStepView::SyncCommands);
    let third = atomicity::following(bundle, desired, changes);
    atomicity::lemma_sync_steps(bundle, desired, changes);
    plan::law_planned_changes(bundle, desired, found, name);
    assert(steps.drop_last() =~= first + second + third);
    world::lemma_performed_concat(bundle, state, before, first + second, third);
    world::lemma_performed_concat(bundle, state, before, first, second);
    let kept = world::performed_all(bundle, state, before, first)->0;
    assert(first.take(first.len() as int) =~= first);
    atomicity::lemma_back_ups(bundle, state, changes, before, kept, first.len() as int);
    lemma_all_installed(bundle, state, changes, kept, name);
    assert(second.drop_last() =~= commit::installs(changes));
    let filed = world::performed_all(bundle, state, kept, second)->0;
    assert(atomicity::backed(changes, before, kept, name));
    if name_map::has_name(changes, name) {
        let i = choose|i: int| 0 <= i < changes.len() && (#[trigger] changes[i]).0 == name;
        assert(kept.command(changes[i].0) is Absent);
        name_map::lemma_lookup_at(changes, i);
    }
    assert(filed.command(name) == result_node(bundle, desired, found, name));
    assert forall|i: int| 0 <= i < third.len() implies atomicity::follows(
        record.tracking_before,
        #[trigger] third[i],
    ) by {
        atomicity::lemma_follow_steps(bundle, desired, changes, tracking, i);
    }
    let last = world::performed_all(bundle, state, filed, third)->0;
    atomicity::lemma_following_steps(bundle, state, record.tracking_before, filed, last, third);
    assert(last.command(name) == filed.command(name));
    assert(third.last() == SyncStepView::WriteState);
    assert(now == (World { committed: true, ..last }));
    match name_map::lookup(desired, name) {
        Some(wish) => {
            let i = choose|i: int| 0 <= i < desired.len() && (#[trigger] desired[i]).0 == name;
            name_map::lemma_lookup_at(desired, i);
            let commands = status::recorded_commands(bundle);
            let ended = commit::untracks(commands, desired, changes);
            let path = paths::components(wish.path);
            assert forall|k: int| 0 <= k < third.len() implies match #[trigger] third[k] {
                SyncStepView::Track { .. } => true,
                SyncStepView::Untrack { path: gone } => paths::components(gone) != path,
                SyncStepView::WriteState => true,
                _ => false,
            } by {
                if desired.len() <= k < desired.len() + ended.len() {
                    atomicity::lemma_untracks(commands, desired, changes, k - desired.len());
                    let j = choose|j: int|
                        0 <= j < commands.len() && #[trigger] atomicity::untracked(
                            commands,
                            desired,
                            changes,
                            j,
                        ) && ended[k - desired.len()] == (SyncStepView::Untrack {
                            path: commands[j].1.path,
                        });
                    lemma_desired_path_is_own(bundle, desired, i, j);
                }
            }
            lemma_tracking_steps(bundle, state, filed, third, path);
            assert(third[i] == (SyncStepView::Track { path: wish.path }));
        },
        None => {},
    }
}

/// The steps that follow the installation end the tracking of what they untrack,
/// where they do not track it.
pub proof fn lemma_untracking_steps(
    bundle: BundleView,
    state: StateView,
    start: World,
    steps: Seq<SyncStepView>,
    path: Seq<ComponentView>,
)
    requires
        forall|i: int|
            0 <= i < steps.len() ==> match #[trigger] steps[i] {
                SyncStepView::Track { path: begun } => paths::components(begun) != path,
                SyncStepView::Untrack { .. } => true,
                SyncStepView::WriteState => true,
                _ => false,
            },
    ensures
        world::performed_all(bundle, state, start, steps) matches Some(now) && {
            now.tracks(path) == (start.tracks(path) && forall|i: int|
                0 <= i < steps.len() ==> (#[trigger] steps[i] matches SyncStepView::Untrack {
                    path: ended,
                } ==> paths::components(ended) != path))
        },
    decreases steps.len(),
{
    if steps.len() > 0 {
        let rest = steps.drop_last();
        let last = steps.len() - 1;
        assert forall|i: int| 0 <= i < rest.len() implies match #[trigger] rest[i] {
            SyncStepView::Track { path: begun } => paths::components(begun) != path,
            SyncStepView::Untrack { .. } => true,
            SyncStepView::WriteState => true,
            _ => false,
        } by {
            assert(rest[i] == steps[i]);
        }
        lemma_untracking_steps(bundle, state, start, rest, path);
        assert(steps[last] == steps.last());
        if forall|i: int|
            0 <= i < rest.len() ==> (#[trigger] rest[i] matches SyncStepView::Untrack {
                path: ended,
            } ==> paths::components(ended) != path) {
            assert forall|i: int| 0 <= i < last implies (
            #[trigger] steps[i] matches SyncStepView::Untrack { path: ended }
                ==> paths::components(ended) != path) by {
                assert(rest[i] == steps[i]);
            }
        } else {
            let i = choose|i: int|
                0 <= i < rest.len() && !(#[trigger] rest[i] matches SyncStepView::Untrack {
                    path: ended,
                } ==> paths::components(ended) != path);
            assert(steps[i] == rest[i]);
        }
    }
}

/// A complete sync performs the steps that follow the installation with the
/// tracking as it was before.
pub proof fn lemma_following_part(
    bundle: BundleView,
    desired: Seq<(Seq<char>, DesiredView)>,
    found: Seq<(Seq<char>, NodeView)>,
    tracking: spec_fn(Seq<ComponentView>) -> bool,
    staging: Seq<char>,
    source_hash: Seq<char>,
    now: World,
) -> (start: World)
    requires
        atomicity::coherent(bundle),
        desired::belongs(bundle, desired),
        world::performed_all(
            bundle,
            plan::final_state(bundle, source_hash, desired),
            world::begun_sync(bundle, desired, found, tracking, staging),
            commit::sync_steps(
                bundle,
                desired,
                plan::planned_changes(bundle, desired, found),
            ),
        ) == Some(now),
    ensures
        start.tracking == tracking,
        world::performed_all(
            bundle,
            plan::final_state(bundle, source_hash, desired),
            start,
            atomicity::following(
                bundle,
                desired,
                plan::planned_changes(bundle, desired, found),
            ),
        ) matches Some(last) && last.tracking == now.tracking,
{
    let changes = plan::planned_changes(bundle, desired, found);
    let state = plan::final_state(bundle, source_hash, desired);
    let before = world::begun_sync(bundle, desired, found, tracking, staging);
    let steps = commit::sync_steps(bundle, desired, changes);
    let first = commit::back_ups(changes).push(SyncStepView::SyncBackups);
    let second = commit::installs(changes).push(SyncStepView::SyncCommands);
    let third = atomicity::following(bundle, desired, changes);
    atomicity::lemma_sync_steps(bundle, desired, changes);
    plan::law_planned_changes(bundle, desired, found, Seq::empty());
    assert(steps.drop_last() =~= first + second + third);
    world::lemma_performed_concat(bundle, state, before, first + second, third);
    world::lemma_performed_concat(bundle, state, before, first, second);
    let kept = world::performed_all(bundle, state, before, first)->0;
    assert(first.take(first.len() as int) =~= first);
    atomicity::lemma_back_ups(bundle, state, changes, before, kept, first.len() as int);
    lemma_all_installed(bundle, state, changes, kept, Seq::empty());
    assert(second.drop_last() =~= commit::installs(changes));
    world::performed_all(bundle, state, kept, second)->0
}

/// A complete sync ends the tracking of the recorded commands that it removes.
/// Those that another bundle has taken over stay tracked as they were.
pub proof fn law_removed_commands_are_untracked(
    bundle: BundleView,
    desired: Seq<(Seq<char>, DesiredView)>,
    found: Seq<(Seq<char>, NodeView)>,
    tracking: spec_fn(Seq<ComponentView>) -> bool,
    staging: Seq<char>,
    source_hash: Seq<char>,
    now: World,
    name: Seq<char>,
)
    requires
        atomicity::coherent(bundle),
        desired::belongs(bundle, desired),
        world::performed_all(
            bundle,
            plan::final_state(bundle, source_hash, desired),
            world::begun_sync(bundle, desired, found, tracking, staging),
            commit::sync_steps(
                bundle,
                desired,
                plan::planned_changes(bundle, desired, found),
            ),
        ) == Some(now),
        !name_map::has_name(desired, name),
        status::recorded(bundle, name) is Some,
    ensures
        ({
            let path = paths::components(status::recorded(bundle, name)->0.path);
            now.tracks(path) == (plan::taken_over(bundle.id, status::node_of(found, name))
                && tracking(path))
        }),
{
    let changes = plan::planned_changes(bundle, desired, found);
    let state = plan::final_state(bundle, source_hash, desired);
    let third = atomicity::following(bundle, desired, changes);
    let commands = status::recorded_commands(bundle);
    let ended = commit::untracks(commands, desired, changes);
    let at = choose|i: int| 0 <= i < commands.len() && (#[trigger] commands[i]).0 == name;
    name_map::lemma_lookup_at(commands, at);
    let path = paths::components(commands[at].1.path);
    plan::law_planned_changes(bundle, desired, found, name);
    let start = lemma_following_part(
        bundle,
        desired,
        found,
        tracking,
        staging,
        source_hash,
        now,
    );
    assert forall|k: int| 0 <= k < third.len() implies match #[trigger] third[k] {
        SyncStepView::Track { path: begun } => paths::components(begun) != path,
        SyncStepView::Untrack { .. } => true,
        SyncStepView::WriteState => true,
        _ => false,
    } by {
        if k < desired.len() {
            lemma_desired_path_is_own(bundle, desired, k, at);
        } else if k < desired.len() + ended.len() {
            atomicity::lemma_untracks(commands, desired, changes, k - desired.len());
        }
    }
    lemma_untracking_steps(bundle, state, start, third, path);
    if plan::taken_over(bundle.id, status::node_of(found, name)) {
        assert forall|k: int| 0 <= k < third.len() implies (
        #[trigger] third[k] matches SyncStepView::Untrack { path: gone } ==> paths::components(gone)
            != path) by {
            if desired.len() <= k < desired.len() + ended.len() {
                atomicity::lemma_untracks(commands, desired, changes, k - desired.len());
                let j = choose|j: int|
                    0 <= j < commands.len() && #[trigger] atomicity::untracked(
                        commands,
                        desired,
                        changes,
                        j,
                    ) && ended[k - desired.len()] == (SyncStepView::Untrack {
                        path: commands[j].1.path,
                    });
                if paths::same_path(commands[j].1.path, commands[at].1.path) {
                    bundle::law_places_distinct(bundle.state->0, j, at);
                }
            }
        }
    } else {
        assert(atomicity::untracked(commands, desired, changes, at));
        atomicity::lemma_untracked_has_step(commands, desired, changes, at);
        let i = choose|i: int|
            0 <= i < ended.len() && ended[i] == (SyncStepView::Untrack {
                path: commands[at].1.path,
            });
        assert(third[desired.len() + i] == ended[i]);
    }
}

/// A complete sync changes the tracking of the affected paths alone.
pub proof fn law_other_tracking_stays(
    bundle: BundleView,
    desired: Seq<(Seq<char>, DesiredView)>,
    found: Seq<(Seq<char>, NodeView)>,
    tracking: spec_fn(Seq<ComponentView>) -> bool,
    staging: Seq<char>,
    source_hash: Seq<char>,
    now: World,
    path: Seq<char>,
)
    requires
        atomicity::coherent(bundle),
        desired::belongs(bundle, desired),
        world::performed_all(
            bundle,
            plan::final_state(bundle, source_hash, desired),
            world::begun_sync(bundle, desired, found, tracking, staging),
            commit::sync_steps(
                bundle,
                desired,
                plan::planned_changes(bundle, desired, found),
            ),
        ) == Some(now),
        !paths::has_path(plan::affected_paths(bundle, desired), path),
    ensures
        now.tracks(paths::components(path)) == tracking(paths::components(path)),
{
    let changes = plan::planned_changes(bundle, desired, found);
    let state = plan::final_state(bundle, source_hash, desired);
    let third = atomicity::following(bundle, desired, changes);
    let affected = plan::affected_paths(bundle, desired);
    let snapshots = world::snapshots(affected, tracking);
    let start = lemma_following_part(
        bundle,
        desired,
        found,
        tracking,
        staging,
        source_hash,
        now,
    );
    assert forall|i: int| 0 <= i < third.len() implies atomicity::follows(
        snapshots,
        #[trigger] third[i],
    ) by {
        atomicity::lemma_follow_steps(bundle, desired, changes, tracking, i);
    }
    let last = world::performed_all(bundle, state, start, third)->0;
    atomicity::lemma_following_steps(bundle, state, snapshots, start, last, third);
    if atomicity::noted(snapshots, paths::components(path)) {
        let i = choose|i: int|
            0 <= i < snapshots.len() && paths::components((#[trigger] snapshots[i]).path)
                == paths::components(path);
        assert(paths::same_path(affected[i], path));
    }
    assert(last.tracks(paths::components(path)) == start.tracks(paths::components(path)));
}

/// A complete sync is not undone by a recovery: only its transaction goes.
pub proof fn law_complete_sync_stays(
    bundle: BundleView,
    desired: Seq<(Seq<char>, DesiredView)>,
    found: Seq<(Seq<char>, NodeView)>,
    tracking: spec_fn(Seq<ComponentView>) -> bool,
    staging: Seq<char>,
    source_hash: Seq<char>,
    now: World,
)
    requires
        atomicity::coherent(bundle),
        desired::belongs(bundle, desired),
        world::performed_all(
            bundle,
            plan::final_state(bundle, source_hash, desired),
            world::begun_sync(bundle, desired, found, tracking, staging),
            commit::sync_steps(
                bundle,
                desired,
                plan::planned_changes(bundle, desired, found),
            ),
        ) == Some(now),
    ensures
        world::recovered(bundle, now) == (now.discarded(), true),
{
    law_complete_sync(
        bundle,
        desired,
        found,
        tracking,
        staging,
        source_hash,
        now,
        Seq::empty(),
    );
    atomicity::lemma_sync_record(bundle, desired, found, tracking, staging);
    transaction::law_marker_commits(
        transaction::commit_place(transaction::transaction_place(bundle.into, bundle.id)),
        false,
    );
}

/// Wherever a sync stops, a recovery leaves either everything as it was before
/// or everything as the complete sync has it.
pub proof fn law_sync_is_all_or_nothing(
    bundle: BundleView,
    desired: Seq<(Seq<char>, DesiredView)>,
    found: Seq<(Seq<char>, NodeView)>,
    tracking: spec_fn(Seq<ComponentView>) -> bool,
    staging: Seq<char>,
    source_hash: Seq<char>,
    count: int,
    now: World,
)
    requires
        atomicity::coherent(bundle),
        desired::belongs(bundle, desired),
        atomicity::answered(plan::planned_changes(bundle, desired, found), found),
        ({
            let changes = plan::planned_changes(bundle, desired, found);
            let steps = commit::sync_steps(bundle, desired, changes);
            &&& 0 <= count <= steps.len()
            &&& world::performed_all(
                bundle,
                plan::final_state(bundle, source_hash, desired),
                world::begun_sync(bundle, desired, found, tracking, staging),
                steps.take(count),
            ) == Some(now)
        }),
    ensures
        world::recovered(bundle, now).1,
        ({
            let after = world::recovered(bundle, now).0;
            let changes = plan::planned_changes(bundle, desired, found);
            if count < commit::sync_steps(bundle, desired, changes).len() {
                atomicity::as_before(
                    world::begun_sync(bundle, desired, found, tracking, staging),
                    after,
                )
            } else {
                &&& forall|name: Seq<char>| #[trigger]
                    after.command(name) == result_node(bundle, desired, found, name)
                &&& after.state == Some(plan::final_state(bundle, source_hash, desired))
                &&& after.record is None
            }
        }),
{
    let changes = plan::planned_changes(bundle, desired, found);
    let steps = commit::sync_steps(bundle, desired, changes);
    if count < steps.len() {
        atomicity::law_stopped_sync_is_interrupted(
            bundle,
            desired,
            found,
            tracking,
            staging,
            source_hash,
            count,
            now,
        );
        atomicity::law_interrupted_sync_is_undone(
            bundle,
            world::begun_sync(bundle, desired, found, tracking, staging),
            now,
        );
    } else {
        assert(steps.take(count) =~= steps);
        law_complete_sync_stays(bundle, desired, found, tracking, staging, source_hash, now);
        let after = world::recovered(bundle, now).0;
        law_complete_sync(
            bundle,
            desired,
            found,
            tracking,
            staging,
            source_hash,
            now,
            Seq::empty(),
        );
        assert forall|name: Seq<char>| #[trigger] after.command(name) == result_node(
            bundle,
            desired,
            found,
            name,
        ) by {
            law_complete_sync(
                bundle,
                desired,
                found,
                tracking,
                staging,
                source_hash,
                now,
                name,
            );
            assert(after.command(name) == now.command(name));
        }
    }
}

/// The bundle after a sync, with the state that it recorded.
pub open spec fn synced(
    bundle: BundleView,
    desired: Seq<(Seq<char>, DesiredView)>,
    source_hash: Seq<char>,
) -> BundleView {
    BundleView { state: Some(plan::final_state(bundle, source_hash, desired)), ..bundle }
}

/// What is found at the desired commands is what a complete sync has left there.
pub open spec fn found_after(
    bundle: BundleView,
    desired: Seq<(Seq<char>, DesiredView)>,
    found: Seq<(Seq<char>, NodeView)>,
    later: Seq<(Seq<char>, NodeView)>,
) -> bool {
    forall|i: int|
        0 <= i < desired.len() ==> status::node_of(later, (#[trigger] desired[i]).0) == result_node(
            bundle,
            desired,
            found,
            desired[i].0,
        )
}

/// After a complete sync, each desired command is as desired.
pub proof fn lemma_current_after_sync(
    bundle: BundleView,
    desired: Seq<(Seq<char>, DesiredView)>,
    found: Seq<(Seq<char>, NodeView)>,
    later: Seq<(Seq<char>, NodeView)>,
    source_hash: Seq<char>,
    i: int,
)
    requires
        desired::belongs(bundle, desired),
        found_after(bundle, desired, found, later),
        0 <= i < desired.len(),
    ensures
        status::desired_kind(
            synced(bundle, desired, source_hash),
            later,
            desired[i].0,
            desired[i].1,
        ) == Ok::<StatusKind, ErrorView>(StatusKind::Current),
        status::node_of(later, desired[i].0) is File,
        status::node_of(later, desired[i].0).owner() == Some(bundle.id),
        status::node_of(later, desired[i].0).unchanged(desired[i].1.content_hash),
{
    let (name, wish) = desired[i];
    name_map::lemma_lookup_at(desired, i);
    owner::law_owner_of_text(wish.contents);
}

/// Recorded commands that are all desired add no statuses.
pub proof fn lemma_nothing_stale(
    known: Seq<(Seq<char>, CommandStatusView)>,
    commands: Seq<(Seq<char>, ManagedView)>,
    desired: Seq<(Seq<char>, DesiredView)>,
    found: Seq<(Seq<char>, NodeView)>,
)
    requires
        forall|i: int|
            0 <= i < commands.len() ==> name_map::has_name(desired, (#[trigger] commands[i]).0),
    ensures
        status::with_stale(known, commands, desired, found) == known,
    decreases commands.len(),
{
    if commands.len() > 0 {
        let rest = commands.drop_last();
        assert forall|i: int| 0 <= i < rest.len() implies name_map::has_name(
            desired,
            (#[trigger] rest[i]).0,
        ) by {
            assert(rest[i] == commands[i]);
        }
        lemma_nothing_stale(known, rest, desired, found);
        assert(name_map::has_name(desired, commands[commands.len() - 1].0));
    }
}

/// Right after a complete sync, every command is listed as current, and no other
/// command is listed.
pub proof fn law_all_current_after_sync(
    bundle: BundleView,
    desired: Seq<(Seq<char>, DesiredView)>,
    found: Seq<(Seq<char>, NodeView)>,
    later: Seq<(Seq<char>, NodeView)>,
    source_hash: Seq<char>,
)
    requires
        desired::belongs(bundle, desired),
        found_after(bundle, desired, found, later),
    ensures
        status::collected(synced(bundle, desired, source_hash), desired, later) == Ok::<
            Seq<CommandStatusView>,
            ErrorView,
        >(
            Seq::new(
                desired.len(),
                |i: int|
                    CommandStatusView {
                        command: desired[i].0,
                        path: desired[i].1.path,
                        status: StatusKind::Current,
                    },
            ),
        ),
{
    let after = synced(bundle, desired, source_hash);
    let state = after.state->0;
    let wishes = status::desired_errors(after, desired, later);
    assert forall|i: int| 0 <= i < wishes.len() implies wishes[i] is None by {
        lemma_current_after_sync(bundle, desired, found, later, source_hash, i);
    }
    bundle::lemma_no_error(wishes);
    let stale = status::stale_errors(state, desired, later);
    assert forall|i: int| 0 <= i < state.commands.len() implies name_map::has_name(
        desired,
        (#[trigger] state.commands[i]).0,
    ) by {
        assert(desired[i].0 == state.commands[i].0);
    }
    assert forall|i: int| 0 <= i < stale.len() implies stale[i] is None by {
        assert(name_map::has_name(desired, state.commands[i].0));
    }
    bundle::lemma_no_error(stale);
    lemma_nothing_stale(
        status::desired_statuses(after, desired, later),
        state.commands,
        desired,
        later,
    );
    let listed = status::values(status::all_statuses(after, desired, later));
    let wanted = Seq::new(
        desired.len(),
        |i: int|
            CommandStatusView {
                command: desired[i].0,
                path: desired[i].1.path,
                status: StatusKind::Current,
            },
    );
    assert forall|i: int| 0 <= i < listed.len() implies listed[i] == wanted[i] by {
        lemma_current_after_sync(bundle, desired, found, later, source_hash, i);
    }
    assert(listed =~= wanted);
}

/// Right after a complete sync, another one is not refused and changes nothing.
pub proof fn law_second_sync_changes_nothing(
    bundle: BundleView,
    desired: Seq<(Seq<char>, DesiredView)>,
    found: Seq<(Seq<char>, NodeView)>,
    later: Seq<(Seq<char>, NodeView)>,
    source_hash: Seq<char>,
    force: bool,
)
    requires
        desired::belongs(bundle, desired),
        found_after(bundle, desired, found, later),
    ensures
        plan::plan_error(synced(bundle, desired, source_hash), desired, later, force) is None,
        plan::planned_changes(synced(bundle, desired, source_hash), desired, later).len() == 0,
{
    let after = synced(bundle, desired, source_hash);
    let state = after.state->0;
    law_all_current_after_sync(bundle, desired, found, later, source_hash);
    let listed = status::values(status::all_statuses(after, desired, later));
    assert(plan::blockers(listed).len() == 0) by {
        lemma_nothing_blocks(listed);
    }
    let errors = plan::removal_errors(state, after.id, desired, later, force);
    assert forall|i: int| 0 <= i < errors.len() implies errors[i] is None by {
        assert(desired[i].0 == state.commands[i].0);
        assert(name_map::has_name(desired, state.commands[i].0));
    }
    bundle::lemma_no_error(errors);
    let changes = plan::planned_changes(after, desired, later);
    assert forall|i: int, j: int| 0 <= i < j < state.commands.len() implies crate::text::text_lt(
        (#[trigger] state.commands[i]).0,
        (#[trigger] state.commands[j]).0,
    ) by {
        assert(crate::text::text_lt(desired[i].0, desired[j].0));
    }
    if changes.len() > 0 {
        let name = changes[0].0;
        plan::law_planned_changes(after, desired, later, name);
        name_map::lemma_lookup_at(changes, 0);
        if name_map::has_name(desired, name) {
            let i = choose|i: int| 0 <= i < desired.len() && (#[trigger] desired[i]).0 == name;
            name_map::lemma_lookup_at(desired, i);
            lemma_current_after_sync(bundle, desired, found, later, source_hash, i);
        } else {
            let i = choose|i: int|
                0 <= i < state.commands.len() && (#[trigger] state.commands[i]).0 == name;
            assert(desired[i].0 == name);
        }
    }
}

/// Statuses that are all current do not stand in the way.
pub proof fn lemma_nothing_blocks(statuses: Seq<CommandStatusView>)
    requires
        forall|i: int|
            0 <= i < statuses.len() ==> (#[trigger] statuses[i]).status == StatusKind::Current,
    ensures
        plan::blockers(statuses).len() == 0,
    decreases statuses.len(),
{
    reveal(Seq::filter);
    if statuses.len() > 0 {
        let rest = statuses.drop_last();
        assert forall|i: int| 0 <= i < rest.len() implies (#[trigger] rest[i]).status
            == StatusKind::Current by {
            assert(rest[i] == statuses[i]);
        }
        lemma_nothing_blocks(rest);
        assert(statuses[statuses.len() - 1].status == StatusKind::Current);
    }
}

/// The commands of a bundle that was just synchronised are all removed.
pub proof fn lemma_all_removed(
    bundle: BundleView,
    desired: Seq<(Seq<char>, DesiredView)>,
    found: Seq<(Seq<char>, NodeView)>,
    later: Seq<(Seq<char>, NodeView)>,
    source_hash: Seq<char>,
    count: int,
)
    requires
        desired::belongs(bundle, desired),
        found_after(bundle, desired, found, later),
        0 <= count <= desired.len(),
    ensures
        removal::removal_steps(
            bundle.id,
            plan::managed_commands(desired).take(count),
            later,
        ) == Seq::new(
            count as nat,
            |i: int| RemovalStepView { path: desired[i].1.path, delete: true },
        ),
    decreases count,
{
    let commands = plan::managed_commands(desired).take(count);
    let wanted = Seq::new(
        count as nat,
        |i: int| RemovalStepView { path: desired[i].1.path, delete: true },
    );
    if count > 0 {
        lemma_all_removed(bundle, desired, found, later, source_hash, count - 1);
        lemma_current_after_sync(bundle, desired, found, later, source_hash, count - 1);
        assert(commands.drop_last() =~= plan::managed_commands(desired).take(count - 1));
        assert(commands.last() == plan::managed_commands(desired)[count - 1]);
    }
    assert(removal::removal_steps(bundle.id, commands, later) =~= wanted);
}

/// Right after a complete sync, removing the bundle is not refused, even without
/// `force`, and deletes every desired command.
pub proof fn law_synced_bundle_can_be_removed(
    bundle: BundleView,
    desired: Seq<(Seq<char>, DesiredView)>,
    found: Seq<(Seq<char>, NodeView)>,
    later: Seq<(Seq<char>, NodeView)>,
    source_hash: Seq<char>,
    force: bool,
)
    requires
        desired::belongs(bundle, desired),
        found_after(bundle, desired, found, later),
    ensures
        removal::removal_plan(synced(bundle, desired, source_hash), later, force) == Ok::<
            RemovalView,
            ErrorView,
        >(
            RemovalView::Remove {
                steps: Seq::new(
                    desired.len(),
                    |i: int| RemovalStepView { path: desired[i].1.path, delete: true },
                ),
            },
        ),
{
    let after = synced(bundle, desired, source_hash);
    let state = after.state->0;
    let errors = removal::bundle_removal_errors(state, later, force);
    assert forall|i: int| 0 <= i < errors.len() implies errors[i] is None by {
        lemma_current_after_sync(bundle, desired, found, later, source_hash, i);
        assert(command::valid_command_name(desired[i].0));
    }
    bundle::lemma_no_error(errors);
    lemma_all_removed(bundle, desired, found, later, source_hash, desired.len() as int);
    assert(state.commands.take(desired.len() as int) =~= state.commands);
}

/// After an interrupted sync, removing the bundle does what it would have done
/// had the sync never begun: the sync is undone first.
pub proof fn law_removal_undoes_interrupted_sync(
    bundle: BundleView,
    before: World,
    now: World,
    force: bool,
)
    requires
        atomicity::interrupted(bundle, before, now),
    ensures
        ({
            let (after, well) = world::removed(bundle, now, force);
            let (wanted, fine) = world::removed(bundle, before.discarded(), force);
            &&& well == fine
            &&& after.commands == wanted.commands
            &&& after.tracking == wanted.tracking
            &&& after.state == wanted.state
            &&& after.record is None
        }),
{
    atomicity::law_interrupted_sync_is_undone(bundle, before, now);
    let undone = world::recovered(bundle, now).0;
    let start = before.discarded();
    assert forall|name: Seq<char>| #[trigger] (undone.commands)(name) == (start.commands)(name) by {
        assert(undone.command(name) == before.command(name));
    }
    assert forall|path: Seq<ComponentView>| #[trigger] (undone.tracking)(path) == (start.tracking)(
        path,
    ) by {
        assert(undone.tracks(path) == before.tracks(path));
    }
    assert(undone.commands =~= start.commands);
    assert(undone.tracking =~= start.tracking);
    match undone.state {
        Some(state) => {
            assert(world::found_in(undone, state.commands) =~= world::found_in(
                start,
                state.commands,
            ));
            world::lemma_removal_by_parts(state.id, state.commands, undone, start);
        },
        None => {},
    }
}

/// A removal that is not refused takes away every recorded command that no other
/// bundle has taken over, with its tracking, and the recorded state, and leaves
/// everything else alone.
pub proof fn law_removed_bundle(
    bundle: BundleView,
    now: World,
    force: bool,
    name: Seq<char>,
    path: Seq<char>,
)
    requires
        now.record is None,
        world::removed(bundle, now, force).1,
        now.state matches Some(state) && name_map::names_sorted(state.commands),
    ensures
        ({
            let after = world::removed(bundle, now, force).0;
            let state = now.state->0;
            &&& after.state is None
            &&& after.command(name) == (if name_map::has_name(state.commands, name)
                && !plan::taken_over(state.id, now.command(name)) {
                NodeView::Absent
            } else {
                now.command(name)
            })
            &&& name_map::lookup(state.commands, name) matches Some(managed) ==> (
            !plan::taken_over(state.id, now.command(name)) ==> !after.tracks(
                paths::components(managed.path),
            ))
            &&& !paths::has_path(plan::managed_paths(state.commands), path) ==> after.tracks(
                paths::components(path),
            ) == now.tracks(paths::components(path))
        }),
{
    let state = now.state->0;
    world::lemma_removal(state.id, state.commands, now, name, path);
    let recorded = plan::managed_paths(state.commands);
    if !paths::has_path(recorded, path) {
        assert forall|i: int| 0 <= i < state.commands.len() implies !paths::same_path(
            (#[trigger] state.commands[i]).1.path,
            path,
        ) by {
            assert(recorded[i] == state.commands[i].1.path);
        }
    }
}

} // verus!
