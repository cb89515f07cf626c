//! What a sync has to change.
use vstd::prelude::*;
use crate::sift;
use crate::owner;
use crate::digest;
use crate::bundle;
use crate::bundle::Bundle;
use crate::bundle::BundleState;
use crate::bundle::BundleView;
use crate::bundle::ManagedCommand;
use crate::bundle::ManagedView;
use crate::bundle::StateView;
use crate::bundle::STATE_SCHEMA_VERSION;
use crate::command;
use crate::desired::DesiredCommand;
use crate::desired::DesiredView;
use crate::error::ErrorView;
use crate::error::StubError;
use crate::message;
use crate::message::Notice;
use crate::message::NoticeView;
use crate::message::Subject;
use crate::message::SubjectView;
use crate::name_map;
use crate::name_map::NameMap;
use crate::node;
use crate::node::Node;
use crate::node::NodeView;
use crate::paths;
use crate::status;
use crate::status::CommandStatus;
use crate::status::CommandStatusView;
use crate::status::StatusKind;
use crate::text;

verus! {

/// What is to happen at the place of a command: new contents are written, or,
/// without any, what stands there is removed.
#[derive(Debug)]
pub struct Change {
    pub path: String,
    pub contents: Option<String>,
}

/// The model of a [`Change`].
pub struct ChangeView {
    pub path: Seq<char>,
    pub contents: Option<Seq<char>>,
}

impl View for Change {
    type V = ChangeView;

    open spec fn view(&self) -> ChangeView {
        ChangeView { path: self.path@, contents: text::text_view(self.contents) }
    }
}

/// A status that stands in the way of a sync.
pub open spec fn blocks(status: StatusKind) -> bool {
    status == StatusKind::Modified || status == StatusKind::Conflict
}

/// The statuses that stand in the way of a sync.
pub open spec fn blockers(statuses: Seq<CommandStatusView>) -> Seq<CommandStatusView> {
    statuses.filter(|status: CommandStatusView| blocks(status.status))
}

/// How a message tells of a status that stands in the way.
pub open spec fn blocker_notice(status: CommandStatusView) -> NoticeView {
    NoticeView {
        subject: SubjectView::Path(status.path),
        rest: " ("@ + status.status.word() + ")"@,
    }
}

/// How a message tells of all the statuses that stand in the way.
pub open spec fn blocker_notices(statuses: Seq<CommandStatusView>) -> Seq<NoticeView> {
    blockers(statuses).map_values(|status: CommandStatusView| blocker_notice(status))
}

/// Tells of the statuses that stand in the way of a sync.
pub fn find_blockers(statuses: &Vec<CommandStatus>) -> (found: Vec<Notice>)
    ensures
        message::notice_views(found@) == blocker_notices(status::status_views(statuses@)),
{
    let ghost all = status::status_views(statuses@);
    let ghost blocking = |status: CommandStatusView| blocks(status.status);
    let ghost told = |status: CommandStatusView| blocker_notice(status);
    let mut found: Vec<Notice> = Vec::new();
    proof {
        reveal(Seq::filter);
        assert(all.take(0).filter(blocking) =~= Seq::empty());
        assert(message::notice_views(found@) =~= all.take(0).filter(blocking).map_values(told));
    }
    for i in 0..statuses.len()
        invariant
            all == status::status_views(statuses@),
            blocking == (|status: CommandStatusView| blocks(status.status)),
            told == (|status: CommandStatusView| blocker_notice(status)),
            message::notice_views(found@) == all.take(i as int).filter(blocking).map_values(told),
    {
        let entry = &statuses[i];
        let ghost before = message::notice_views(found@);
        let ghost kept = all.take(i as int).filter(blocking);
        proof {
            reveal(Seq::filter);
            assert(all.take(i + 1).drop_last() =~= all.take(i as int));
            assert(all.take(i + 1).last() == entry@);
        }
        if entry.status == StatusKind::Modified || entry.status == StatusKind::Conflict {
            let mut rest = " (".to_owned();
            rest.append(entry.status.as_str());
            rest.append(")");
            found.push(Notice { subject: Subject::Path(entry.path.clone()), rest });
            assert(message::notice_views(found@) =~= before.push(blocker_notice(entry@)));
            assert(kept.push(entry@).map_values(told) =~= kept.map_values(told).push(
                told(entry@),
            ));
        }
    }
    assert(all.take(all.len() as int) =~= all);
    found
}

/// The changes that write the desired commands that are not as desired.
pub open spec fn with_writes(
    bundle: BundleView,
    desired: Seq<(Seq<char>, DesiredView)>,
    found: Seq<(Seq<char>, NodeView)>,
) -> Seq<(Seq<char>, ChangeView)>
    decreases desired.len(),
{
    if desired.len() == 0 {
        Seq::empty()
    } else {
        let before = with_writes(bundle, desired.drop_last(), found);
        let (name, wish) = desired.last();
        if status::desired_kind(bundle, found, name, wish) == Ok::<StatusKind, ErrorView>(
            StatusKind::Current,
        ) {
            before
        } else {
            name_map::with_name(
                before,
                name,
                ChangeView { path: wish.path, contents: Some(wish.contents) },
            )
        }
    }
}

/// A recorded command whose place another bundle has taken.
pub open spec fn taken_over(id: Seq<char>, node: NodeView) -> bool {
    node.present() && node.owned_by_other(id)
}

/// The changes so far, with those that remove the recorded commands that are
/// not desired. What another bundle has taken over stays.
pub open spec fn with_removals(
    known: Seq<(Seq<char>, ChangeView)>,
    id: Seq<char>,
    commands: Seq<(Seq<char>, ManagedView)>,
    desired: Seq<(Seq<char>, DesiredView)>,
    found: Seq<(Seq<char>, NodeView)>,
) -> Seq<(Seq<char>, ChangeView)>
    decreases commands.len(),
{
    if commands.len() == 0 {
        known
    } else {
        let before = with_removals(known, id, commands.drop_last(), desired, found);
        let (name, managed) = commands.last();
        if name_map::has_name(desired, name) || taken_over(id, status::node_of(found, name)) {
            before
        } else {
            name_map::with_name(before, name, ChangeView { path: managed.path, contents: None })
        }
    }
}

/// The changes of a sync, by name.
pub open spec fn planned_changes(
    bundle: BundleView,
    desired: Seq<(Seq<char>, DesiredView)>,
    found: Seq<(Seq<char>, NodeView)>,
) -> Seq<(Seq<char>, ChangeView)> {
    with_removals(
        with_writes(bundle, desired, found),
        bundle.id,
        status::recorded_commands(bundle),
        desired,
        found,
    )
}

/// The change of the command `name`, if any: a desired command is written unless
/// it is as desired, and a recorded one that is not desired is removed unless
/// another bundle has taken it over.
pub open spec fn change_of(
    bundle: BundleView,
    desired: Seq<(Seq<char>, DesiredView)>,
    found: Seq<(Seq<char>, NodeView)>,
    name: Seq<char>,
) -> Option<ChangeView> {
    match name_map::lookup(desired, name) {
        Some(wish) => if status::desired_kind(bundle, found, name, wish) == Ok::<
            StatusKind,
            ErrorView,
        >(StatusKind::Current) {
            None
        } else {
            Some(ChangeView { path: wish.path, contents: Some(wish.contents) })
        },
        None => match status::recorded(bundle, name) {
            Some(managed) => if taken_over(bundle.id, status::node_of(found, name)) {
                None
            } else {
                Some(ChangeView { path: managed.path, contents: None })
            },
            None => None,
        },
    }
}

/// What the writes among the changes are.
pub proof fn lemma_writes(
    bundle: BundleView,
    desired: Seq<(Seq<char>, DesiredView)>,
    found: Seq<(Seq<char>, NodeView)>,
    name: Seq<char>,
)
    requires
        name_map::names_sorted(desired),
    ensures
        name_map::names_sorted(with_writes(bundle, desired, found)),
        name_map::lookup(with_writes(bundle, desired, found), name) == (
        if name_map::has_name(desired, name) {
            change_of(bundle, desired, found, name)
        } else {
            None
        }),
    decreases desired.len(),
{
    if desired.len() > 0 {
        let (last, wish) = desired.last();
        name_map::lemma_drop_last_name(desired, name);
        lemma_writes(bundle, desired.drop_last(), found, name);
        name_map::law_with_name(
            with_writes(bundle, desired.drop_last(), found),
            last,
            ChangeView { path: wish.path, contents: Some(wish.contents) },
            name,
        );
    }
}

/// What the removals add to the changes.
pub proof fn lemma_removals(
    known: Seq<(Seq<char>, ChangeView)>,
    id: Seq<char>,
    commands: Seq<(Seq<char>, ManagedView)>,
    desired: Seq<(Seq<char>, DesiredView)>,
    found: Seq<(Seq<char>, NodeView)>,
    name: Seq<char>,
)
    requires
        name_map::names_sorted(known),
        name_map::names_sorted(commands),
    ensures
        name_map::names_sorted(with_removals(known, id, commands, desired, found)),
        name_map::lookup(with_removals(known, id, commands, desired, found), name) == (
        if !name_map::has_name(desired, name) && name_map::has_name(commands, name)
            && !taken_over(id, status::node_of(found, name)) {
            Some(ChangeView { path: name_map::lookup(commands, name)->0.path, contents: None })
        } else {
            name_map::lookup(known, name)
        }),
    decreases commands.len(),
{
    if commands.len() > 0 {
        let (last, managed) = commands.last();
        name_map::lemma_drop_last_name(commands, name);
        lemma_removals(known, id, commands.drop_last(), desired, found, name);
        name_map::law_with_name(
            with_removals(known, id, commands.drop_last(), desired, found),
            last,
            ChangeView { path: managed.path, contents: None },
            name,
        );
    }
}

/// A sync changes what it has to, and nothing else.
pub proof fn law_planned_changes(
    bundle: BundleView,
    desired: Seq<(Seq<char>, DesiredView)>,
    found: Seq<(Seq<char>, NodeView)>,
    name: Seq<char>,
)
    requires
        name_map::names_sorted(desired),
        name_map::names_sorted(status::recorded_commands(bundle)),
    ensures
        name_map::names_sorted(planned_changes(bundle, desired, found)),
        name_map::lookup(planned_changes(bundle, desired, found), name) == change_of(
            bundle,
            desired,
            found,
            name,
        ),
{
    lemma_writes(bundle, desired, found, name);
    lemma_removals(
        with_writes(bundle, desired, found),
        bundle.id,
        status::recorded_commands(bundle),
        desired,
        found,
        name,
    );
}

/// Where there are no statuses that stand in the way, each status is not one of
/// them.
pub proof fn lemma_no_blockers(statuses: Seq<CommandStatusView>, i: int)
    requires
        blockers(statuses).len() == 0,
        0 <= i < statuses.len(),
    ensures
        !blocks(statuses[i].status),
    decreases statuses.len(),
{
    let blocking = |status: CommandStatusView| blocks(status.status);
    reveal(Seq::filter);
    if i < statuses.len() - 1 {
        assert(statuses.drop_last().filter(blocking).len() == 0);
        lemma_no_blockers(statuses.drop_last(), i);
    } else {
        assert(statuses.last() == statuses[i]);
        assert(!blocking(statuses[i]));
    }
}

/// Without `force`, a sync replaces or removes only what its bundle safely owns:
/// a desired command that names the bundle as its owner, or a recorded one that
/// is as the bundle wrote it and that no other bundle has taken over.
pub proof fn law_sync_is_safe(
    bundle: BundleView,
    desired: Seq<(Seq<char>, DesiredView)>,
    found: Seq<(Seq<char>, NodeView)>,
    name: Seq<char>,
)
    requires
        name_map::names_sorted(desired),
        name_map::names_sorted(status::recorded_commands(bundle)),
        plan_error(bundle, desired, found, false) is None,
        name_map::has_name(planned_changes(bundle, desired, found), name),
        status::node_of(found, name).present(),
    ensures
        status::node_of(found, name) is File,
        !status::node_of(found, name).owned_by_other(bundle.id),
        if name_map::has_name(desired, name) {
            status::node_of(found, name).owner() == Some(bundle.id)
        } else {
            status::recorded(bundle, name) matches Some(managed) && status::node_of(
                found,
                name,
            ).unchanged(managed.content_hash)
        },
{
    let all = status::all_statuses(bundle, desired, found);
    law_planned_changes(bundle, desired, found, name);
    status::law_statuses_cover(bundle, desired, found, name);
    assert(name_map::has_name(all, name));
    let i = choose|i: int| 0 <= i < all.len() && (#[trigger] all[i]).0 == name;
    name_map::lemma_lookup_at(all, i);
    lemma_no_blockers(status::values(all), i);
    assert(status::values(all)[i] == all[i].1);
    if name_map::has_name(desired, name) {
        let errors = status::desired_errors(bundle, desired, found);
        let j = choose|j: int| 0 <= j < desired.len() && (#[trigger] desired[j]).0 == name;
        name_map::lemma_lookup_at(desired, j);
        bundle::lemma_all_pass(errors);
        assert(errors[j] is None);
    }
}

/// Whether forced or not, a sync leaves alone what another bundle has taken
/// over, unless it is desired.
pub proof fn law_taken_over_commands_stay(
    bundle: BundleView,
    desired: Seq<(Seq<char>, DesiredView)>,
    found: Seq<(Seq<char>, NodeView)>,
    name: Seq<char>,
)
    requires
        name_map::names_sorted(desired),
        name_map::names_sorted(status::recorded_commands(bundle)),
        !name_map::has_name(desired, name),
        taken_over(bundle.id, status::node_of(found, name)),
    ensures
        !name_map::has_name(planned_changes(bundle, desired, found), name),
{
    law_planned_changes(bundle, desired, found, name);
}

/// Why a recorded command may not be removed: its place is not valid, the file
/// there cannot be read, or it was modified. With `force` a modified file may
/// go.
pub open spec fn removal_error(
    into: Seq<char>,
    id: Seq<char>,
    name: Seq<char>,
    managed: ManagedView,
    node: NodeView,
    force: bool,
) -> Option<ErrorView> {
    match command::managed_path_error(into, name, managed.path) {
        Some(error) => Some(error),
        None => if !node.present() || node.owned_by_other(id) {
            None
        } else if node is File && node.hash() is None {
            Some(ErrorView::Unreadable { path: managed.path })
        } else if node.unchanged(managed.content_hash) || force {
            None
        } else {
            Some(ErrorView::ModifiedStub { path: managed.path })
        },
    }
}

/// Why each recorded command that is not desired may not be removed.
pub open spec fn removal_errors(
    state: StateView,
    id: Seq<char>,
    desired: Seq<(Seq<char>, DesiredView)>,
    found: Seq<(Seq<char>, NodeView)>,
    force: bool,
) -> Seq<Option<ErrorView>> {
    Seq::new(
        state.commands.len(),
        |i: int|
            if name_map::has_name(desired, state.commands[i].0) {
                None
            } else {
                removal_error(
                    state.into,
                    id,
                    state.commands[i].0,
                    state.commands[i].1,
                    status::node_of(found, state.commands[i].0),
                    force,
                )
            },
    )
}

/// Why a sync is refused.
pub open spec fn plan_error(
    bundle: BundleView,
    desired: Seq<(Seq<char>, DesiredView)>,
    found: Seq<(Seq<char>, NodeView)>,
    force: bool,
) -> Option<ErrorView> {
    let statuses = status::values(status::all_statuses(bundle, desired, found));
    match status::status_error(bundle, desired, found) {
        Some(error) => Some(error),
        None => if !force && blockers(statuses).len() > 0 {
            Some(ErrorView::NotSafelyOwned { notices: blocker_notices(statuses) })
        } else {
            match bundle.state {
                Some(state) => bundle::first_error(
                    removal_errors(state, bundle.id, desired, found, force),
                ),
                None => None,
            }
        },
    }
}

/// What a bundle records of its desired commands.
pub open spec fn managed_commands(desired: Seq<(Seq<char>, DesiredView)>) -> Seq<
    (Seq<char>, ManagedView),
> {
    Seq::new(
        desired.len(),
        |i: int|
            (
                desired[i].0,
                ManagedView { path: desired[i].1.path, content_hash: desired[i].1.content_hash },
            ),
    )
}

/// The state that a bundle records after a sync.
pub open spec fn final_state(
    bundle: BundleView,
    source_hash: Seq<char>,
    desired: Seq<(Seq<char>, DesiredView)>,
) -> StateView {
    StateView {
        schema_version: STATE_SCHEMA_VERSION,
        id: bundle.id,
        source_path: bundle.source_path,
        source_hash,
        into: bundle.into,
        commands: managed_commands(desired),
    }
}

/// The recorded paths of some commands.
pub open spec fn managed_paths(commands: Seq<(Seq<char>, ManagedView)>) -> Seq<Seq<char>> {
    Seq::new(commands.len(), |i: int| commands[i].1.path)
}

/// The paths of the commands whose tracking a sync may change: those recorded
/// and those desired, in order, each once.
pub open spec fn affected_paths(
    bundle: BundleView,
    desired: Seq<(Seq<char>, DesiredView)>,
) -> Seq<Seq<char>> {
    paths::path_set(
        managed_paths(status::recorded_commands(bundle)) + managed_paths(managed_commands(desired)),
    )
}

/// What a sync is going to do.
#[derive(Debug)]
pub struct SyncPlan {
    /// What changes, by name.
    pub changes: NameMap<Change>,
    /// The state that is recorded afterwards.
    pub state: BundleState,
    /// The paths whose tracking is to be noted before.
    pub affected: Vec<String>,
}

/// The changes that write the desired commands that are not as desired.
fn plan_writes(
    bundle: &Bundle,
    desired: &NameMap<DesiredCommand>,
    found: &NameMap<Node>,
    statuses: &NameMap<CommandStatus>,
) -> (changes: NameMap<Change>)
    requires
        status::status_error(bundle@, desired@, found@) is None,
        statuses@ == status::all_statuses(bundle@, desired@, found@),
        name_map::names_sorted(status::recorded_commands(bundle@)),
    ensures
        changes@ == with_writes(bundle@, desired@, found@),
{
    let count = desired.len();
    let mut changes: NameMap<Change> = NameMap::new();
    let mut i: usize = 0;
    assert(desired@.take(0) =~= Seq::empty());
    while i < count
        invariant
            count == desired@.len(),
            i <= count,
            name_map::names_sorted(desired@),
            name_map::names_sorted(status::recorded_commands(bundle@)),
            status::status_error(bundle@, desired@, found@) is None,
            statuses@ == status::all_statuses(bundle@, desired@, found@),
            changes@ == with_writes(bundle@, desired@.take(i as int), found@),
        decreases count - i,
    {
        let name = desired.name_at(i);
        let wish = desired.value_at(i);
        let ghost kind = status::desired_kind(bundle@, found@, name@, wish@);
        proof {
            assert(desired@.take(i + 1).drop_last() =~= desired@.take(i as int));
            assert(desired@.take(i + 1).last() == (name@, wish@));
            status::law_statuses_cover(bundle@, desired@, found@, name@);
            name_map::lemma_lookup_at(desired@, i as int);
            let errors = status::desired_errors(bundle@, desired@, found@);
            bundle::lemma_all_pass(errors);
            assert(errors[i as int] is None);
            assert(kind is Ok);
        }
        let current = match statuses.get(name.as_str()) {
            Some(entry) => entry.status == StatusKind::Current,
            None => false,
        };
        assert(current == (kind == Ok::<StatusKind, ErrorView>(StatusKind::Current)));
        if !current {
            changes = changes.insert(
                name.clone(),
                Change { path: wish.path.clone(), contents: Some(wish.contents.clone()) },
            );
        }
        i += 1;
    }
    assert(desired@.take(count as int) =~= desired@);
    changes
}

/// Checks that a recorded command may be removed, and tells whether it is there
/// for the bundle to remove.
pub fn check_removal(
    into: &str,
    id: &str,
    name: &str,
    managed: &ManagedCommand,
    node: &Node,
    force: bool,
) -> (removes: Result<bool, StubError>)
    ensures
        match removes {
            Ok(ours) => {
                &&& removal_error(into@, id@, name@, managed@, node@, force) is None
                &&& ours == !taken_over(id@, node@)
            },
            Err(error) => removal_error(into@, id@, name@, managed@, node@, force) == Some(error@),
        },
{
    match command::validate_place(into, name, managed.path.as_str()) {
        Ok(_) => {},
        Err(error) => {
            return Err(error);
        },
    }
    if !node::path_exists(node) {
        return Ok(true);
    }
    if node::file_is_owned_by_another_bundle(node, id) {
        return Ok(false);
    }
    let unchanged = if node::is_regular_file(node) {
        match node::file_hash(managed.path.as_str(), node) {
            Ok(hash) => text::text_eq(hash.as_str(), managed.content_hash.as_str()),
            Err(error) => {
                return Err(error);
            },
        }
    } else {
        false
    };
    if unchanged || force {
        Ok(true)
    } else {
        Err(StubError::ModifiedStub { path: managed.path.clone() })
    }
}

/// The changes so far, with those that remove the recorded commands that are
/// not desired.
fn plan_removals(
    known: NameMap<Change>,
    state: &BundleState,
    id: &str,
    desired: &NameMap<DesiredCommand>,
    found: &NameMap<Node>,
    force: bool,
) -> (changes: Result<NameMap<Change>, StubError>)
    ensures
        match changes {
            Ok(map) => {
                &&& bundle::first_error(
                    removal_errors(state@, id@, desired@, found@, force),
                ) is None
                &&& map@ == with_removals(known@, id@, state@.commands, desired@, found@)
            },
            Err(error) => bundle::first_error(
                removal_errors(state@, id@, desired@, found@, force),
            ) == Some(error@),
        },
{
    let count = state.commands.len();
    let absent = Node::Absent;
    let ghost before = known@;
    let ghost commands = state@.commands;
    let ghost errors = removal_errors(state@, id@, desired@, found@, force);
    let mut changes = known;
    let mut i: usize = 0;
    assert(commands.take(0) =~= Seq::empty());
    while i < count
        invariant
            count == commands.len(),
            commands == state@.commands,
            i <= count,
            absent@ == NodeView::Absent,
            errors == removal_errors(state@, id@, desired@, found@, force),
            forall|j: int| 0 <= j < i ==> errors[j] is None,
            changes@ == with_removals(before, id@, commands.take(i as int), desired@, found@),
        decreases count - i,
    {
        let name = state.commands.name_at(i);
        let managed = state.commands.value_at(i);
        proof {
            assert(commands.take(i + 1).drop_last() =~= commands.take(i as int));
            assert(commands.take(i + 1).last() == (name@, managed@));
        }
        if !desired.contains(name.as_str()) {
            match check_removal(
                state.into.as_str(),
                id,
                name.as_str(),
                managed,
                status::found_node(found, name.as_str(), &absent),
                force,
            ) {
                Ok(ours) => {
                    if ours {
                        changes = changes.insert(
                            name.clone(),
                            Change { path: managed.path.clone(), contents: None },
                        );
                    }
                },
                Err(error) => {
                    proof {
                        bundle::lemma_first_error(errors, i as int);
                    }
                    return Err(error);
                },
            }
        }
        i += 1;
    }
    proof {
        bundle::lemma_no_error(errors);
        assert(commands.take(count as int) =~= commands);
    }
    Ok(changes)
}

/// What a bundle records of its desired commands.
fn record_desired(desired: &NameMap<DesiredCommand>) -> (commands: NameMap<ManagedCommand>)
    ensures
        commands@ == managed_commands(desired@),
{
    let count = desired.len();
    let ghost wanted = managed_commands(desired@);
    let mut commands: NameMap<ManagedCommand> = NameMap::new();
    let mut i: usize = 0;
    assert(wanted.take(0) =~= Seq::empty());
    while i < count
        invariant
            count == desired@.len(),
            i <= count,
            name_map::names_sorted(desired@),
            wanted == managed_commands(desired@),
            commands@ == wanted.take(i as int),
        decreases count - i,
    {
        let wish = desired.value_at(i);
        proof {
            let next = wanted[i as int];
            let upto = wanted.take(i + 1);
            assert(upto =~= wanted.take(i as int).push(next));
            assert forall|a: int, b: int| 0 <= a < b < upto.len() implies text::text_lt(
                (#[trigger] upto[a]).0,
                (#[trigger] upto[b]).0,
            ) by {
                assert(text::text_lt(desired@[a].0, desired@[b].0));
            }
            name_map::lemma_with_last_name(wanted.take(i as int), next.0, next.1);
        }
        commands = commands.insert(
            desired.name_at(i).clone(),
            ManagedCommand {
                path: wish.path.clone(),
                content_hash: wish.content_hash.clone(),
            },
        );
        i += 1;
    }
    assert(wanted.take(count as int) =~= wanted);
    commands
}

/// Adds the recorded paths of some commands to a sorted list.
fn add_paths(known: Vec<String>, commands: &NameMap<ManagedCommand>, Ghost(list): Ghost<
    Seq<Seq<char>>,
>) -> (all: Vec<String>)
    requires
        text::texts(known@) == paths::path_set(list),
    ensures
        text::texts(all@) == paths::path_set(list + managed_paths(commands@)),
{
    let count = commands.len();
    let ghost more = managed_paths(commands@);
    let mut all = known;
    let mut i: usize = 0;
    assert(list + more.take(0) =~= list);
    while i < count
        invariant
            count == commands@.len(),
            i <= count,
            more == managed_paths(commands@),
            text::texts(all@) == paths::path_set(list + more.take(i as int)),
        decreases count - i,
    {
        let path = &commands.value_at(i).path;
        proof {
            let upto = list + more.take(i + 1);
            assert(upto.drop_last() =~= list + more.take(i as int));
            assert(upto.last() == path@);
            paths::law_path_set(list + more.take(i as int), path@);
        }
        all = paths::insert_path(all, path.clone());
        i += 1;
    }
    assert(more.take(count as int) =~= more);
    all
}

/// Plans a sync: what is to be written and removed, given what was found for
/// each name, or why the sync is refused. With `force`, commands that the bundle
/// does not safely own are overwritten.
pub fn plan_sync(
    bundle: &Bundle,
    source_hash: &str,
    desired: &NameMap<DesiredCommand>,
    found: &NameMap<Node>,
    force: bool,
) -> (plan: Result<SyncPlan, StubError>)
    ensures
        match plan {
            Ok(made) => {
                &&& plan_error(bundle@, desired@, found@, force) is None
                &&& made.changes@ == planned_changes(bundle@, desired@, found@)
                &&& made.state@ == final_state(bundle@, source_hash@, desired@)
                &&& text::texts(made.affected@) == affected_paths(bundle@, desired@)
            },
            Err(error) => plan_error(bundle@, desired@, found@, force) == Some(error@),
        },
{
    let statuses = match status::collect_by_name(bundle, desired, found) {
        Ok(map) => map,
        Err(error) => {
            return Err(error);
        },
    };
    let in_the_way = find_blockers(&status::into_list(&statuses));
    let ghost listed = status::values(statuses@);
    assert(message::notice_views(in_the_way@).len() == blockers(listed).len());
    if !force && in_the_way.len() > 0 {
        return Err(StubError::NotSafelyOwned { notices: in_the_way });
    }
    let writes = plan_writes(bundle, desired, found, &statuses);
    let none: Vec<String> = Vec::new();
    assert(text::texts(none@) =~= paths::path_set(Seq::empty()));
    let (changes, recorded) = match &bundle.state {
        Some(state) => {
            match plan_removals(writes, state, bundle.id.as_str(), desired, found, force) {
                Ok(map) => (map, add_paths(none, &state.commands, Ghost(Seq::empty()))),
                Err(error) => {
                    return Err(error);
                },
            }
        },
        None => (writes, none),
    };
    let ghost old_paths = managed_paths(status::recorded_commands(bundle@));
    assert(Seq::<Seq<char>>::empty() + old_paths =~= old_paths);
    assert(bundle@.state is None ==> old_paths =~= Seq::empty());
    let commands = record_desired(desired);
    let affected = add_paths(recorded, &commands, Ghost(old_paths));
    Ok(
        SyncPlan {
            changes,
            state: BundleState {
                schema_version: STATE_SCHEMA_VERSION,
                id: bundle.id.clone(),
                source_path: bundle.source_path.clone(),
                source_hash: source_hash.to_owned(),
                into: bundle.into.clone(),
                commands,
            },
            affected,
        },
    )
}

/// A recorded command may be removed exactly if its place is valid and nothing is
/// known to stand there, or another bundle has taken the place, or the file there
/// has the recorded hash. With `force` it may also be something else that can be
/// read.
pub proof fn law_removable(
    into: Seq<char>,
    id: Seq<char>,
    name: Seq<char>,
    managed: ManagedView,
    node: NodeView,
    force: bool,
)
    ensures
        removal_error(into, id, name, managed, node, force) is None <==> {
            &&& command::managed_path_error(into, name, managed.path) is None
            &&& {
                ||| node is Absent || node is Unknown
                ||| node.owner() matches Some(owner) && owner != id
                ||| node matches NodeView::File { bytes: Some(bytes), .. } && digest::sha256_hex(
                    bytes,
                ) == managed.content_hash
                ||| force && !(node matches NodeView::File { bytes: None, .. })
            }
        },
        command::managed_path_error(into, name, managed.path) is Some ==> removal_error(
            into,
            id,
            name,
            managed,
            node,
            force,
        ) == command::managed_path_error(into, name, managed.path),
        command::managed_path_error(into, name, managed.path) is None ==> (removal_error(
            into,
            id,
            name,
            managed,
            node,
            force,
        ) matches Some(error) ==> if node matches NodeView::File { bytes: None, .. } {
            error == (ErrorView::Unreadable { path: managed.path })
        } else {
            error == (ErrorView::ModifiedStub { path: managed.path })
        }),
{
}

/// Force only ever allows more: what may be removed without it may be removed with
/// it.
pub proof fn law_force_allows_more(
    bundle: BundleView,
    desired: Seq<(Seq<char>, DesiredView)>,
    found: Seq<(Seq<char>, NodeView)>,
)
    requires
        plan_error(bundle, desired, found, false) is None,
    ensures
        plan_error(bundle, desired, found, true) is None,
{
    if let Some(state) = bundle.state {
        let strict = removal_errors(state, bundle.id, desired, found, false);
        let lax = removal_errors(state, bundle.id, desired, found, true);
        bundle::lemma_all_pass(strict);
        assert forall|i: int| 0 <= i < lax.len() implies lax[i] is None by {
            assert(strict[i] is None);
        }
        bundle::lemma_no_error(lax);
    }
}

/// The recorded command at `i` is not desired and may not be removed.
pub open spec fn record_is_kept_back(
    state: StateView,
    id: Seq<char>,
    desired: Seq<(Seq<char>, DesiredView)>,
    found: Seq<(Seq<char>, NodeView)>,
    force: bool,
    i: int,
) -> bool {
    &&& 0 <= i < state.commands.len()
    &&& !name_map::has_name(desired, state.commands[i].0)
    &&& removal_error(
        state.into,
        id,
        state.commands[i].0,
        state.commands[i].1,
        status::node_of(found, state.commands[i].0),
        force,
    ) is Some
}

/// A sync is refused exactly if the statuses cannot be collected, or, without
/// `force`, some command is modified or in conflict, or some recorded command that
/// is not desired may not be removed.
pub proof fn law_sync_refused(
    bundle: BundleView,
    desired: Seq<(Seq<char>, DesiredView)>,
    found: Seq<(Seq<char>, NodeView)>,
    force: bool,
)
    ensures
        plan_error(bundle, desired, found, force) is Some <==> match status::collected(
            bundle,
            desired,
            found,
        ) {
            Err(_) => true,
            Ok(statuses) => {
                ||| !force && exists|i: int|
                    0 <= i < statuses.len() && ((#[trigger] statuses[i]).status
                        == StatusKind::Modified || statuses[i].status == StatusKind::Conflict)
                ||| bundle.state is Some && exists|i: int| #[trigger]
                    record_is_kept_back(
                        bundle.state->0,
                        bundle.id,
                        desired,
                        found,
                        force,
                        i,
                    )
            },
        },
{
    let statuses = status::values(status::all_statuses(bundle, desired, found));
    let places = law_blockers(statuses);
    if blockers(statuses).len() > 0 {
        assert(places.contains(places[0]));
        assert(statuses[places[0]].status == StatusKind::Modified || statuses[places[0]].status
            == StatusKind::Conflict);
    }
    if exists|i: int|
        0 <= i < statuses.len() && ((#[trigger] statuses[i]).status == StatusKind::Modified
            || statuses[i].status == StatusKind::Conflict) {
        let i = choose|i: int|
            0 <= i < statuses.len() && ((#[trigger] statuses[i]).status == StatusKind::Modified
                || statuses[i].status == StatusKind::Conflict);
        assert(places.contains(i));
    }
    if let Some(state) = bundle.state {
        let errors = removal_errors(state, bundle.id, desired, found, force);
        bundle::lemma_error_or_all_pass(errors);
        assert forall|i: int| 0 <= i < errors.len() implies ((#[trigger] errors[i]) is Some
            <==> record_is_kept_back(state, bundle.id, desired, found, force, i)) by {}
        assert(forall|i: int| #[trigger]
            record_is_kept_back(state, bundle.id, desired, found, force, i) ==> errors[i] is Some);
        assert((exists|i: int| #[trigger]
            record_is_kept_back(state, bundle.id, desired, found, force, i))
            <==> bundle::first_error(errors) is Some);
    }
}

/// What stands in the way of a sync are exactly the modified commands and those in
/// conflict, in their order. A message tells of each by its path and its status.
pub proof fn law_blockers(statuses: Seq<CommandStatusView>) -> (places: Seq<int>)
    ensures
        sift::comes_from(statuses, blockers(statuses), places),
        forall|i: int|
            0 <= i < statuses.len() ==> ((#[trigger] statuses[i]).status == StatusKind::Modified
                || statuses[i].status == StatusKind::Conflict <==> places.contains(i)),
        blocker_notices(statuses).len() == places.len(),
        forall|k: int|
            0 <= k < places.len() ==> (#[trigger] blocker_notices(statuses)[k]).subject
                == SubjectView::Path(statuses[places[k]].path) && blocker_notices(
                statuses,
            )[k].rest == " ("@ + statuses[places[k]].status.word() + ")"@,
{
    let places = sift::law_filter(
        statuses,
        |status: CommandStatusView| blocks(status.status),
    );
    assert forall|k: int| 0 <= k < places.len() implies (#[trigger] blocker_notices(
        statuses,
    )[k]).subject == SubjectView::Path(statuses[places[k]].path) && blocker_notices(
        statuses,
    )[k].rest == " ("@ + statuses[places[k]].status.word() + ")"@ by {
        assert(blockers(statuses)[k] == statuses[places[k]]);
    }
    places
}

/// A sync writes each desired command that is not current, with its contents at its
/// path, and leaves the current ones alone.
pub proof fn law_desired_commands_are_written(
    bundle: BundleView,
    desired: Seq<(Seq<char>, DesiredView)>,
    found: Seq<(Seq<char>, NodeView)>,
    i: int,
)
    requires
        name_map::names_sorted(desired),
        name_map::names_sorted(status::recorded_commands(bundle)),
        0 <= i < desired.len(),
    ensures
        ({
            let (name, wish) = desired[i];
            let node = status::node_of(found, name);
            let current = node matches NodeView::File { bytes: Some(bytes), executable }
                && executable && digest::sha256_hex(bytes) == wish.content_hash
                && owner::owner_of_bytes(bytes) == Some(bundle.id);
            name_map::lookup(planned_changes(bundle, desired, found), name) == (if current {
                None
            } else {
                Some(ChangeView { path: wish.path, contents: Some(wish.contents) })
            })
        }),
{
    let (name, wish) = desired[i];
    name_map::lemma_lookup_at(desired, i);
    law_planned_changes(bundle, desired, found, name);
    status::law_current_or_missing(
        wish.path,
        status::node_of(found, name),
        wish.content_hash,
        bundle.id,
        status::recorded(bundle, name),
    );
}

/// A sync removes each recorded command that is not desired, at its recorded path,
/// unless what stands there names another bundle. It changes nothing else.
pub proof fn law_other_commands_are_removed(
    bundle: BundleView,
    desired: Seq<(Seq<char>, DesiredView)>,
    found: Seq<(Seq<char>, NodeView)>,
    name: Seq<char>,
)
    requires
        name_map::names_sorted(desired),
        name_map::names_sorted(status::recorded_commands(bundle)),
        !name_map::has_name(desired, name),
    ensures
        ({
            let node = status::node_of(found, name);
            let foreign = node.owner() matches Some(owner) && owner != bundle.id;
            let change = name_map::lookup(planned_changes(bundle, desired, found), name);
            if bundle.state is Some && name_map::has_name(bundle.state->0.commands, name)
                && !foreign {
                change == Some(
                    ChangeView {
                        path: name_map::lookup(bundle.state->0.commands, name)->0.path,
                        contents: None,
                    },
                )
            } else {
                change is None
            }
        }),
{
    law_planned_changes(bundle, desired, found, name);
}

/// After a sync the bundle records itself: its identity, its source and directory,
/// the hash of the source, and each desired command with its path and hash.
pub proof fn law_recorded_state(
    bundle: BundleView,
    source_hash: Seq<char>,
    desired: Seq<(Seq<char>, DesiredView)>,
)
    ensures
        ({
            let state = final_state(bundle, source_hash, desired);
            &&& state.schema_version == 1
            &&& state.id == bundle.id
            &&& state.source_path == bundle.source_path
            &&& state.source_hash == source_hash
            &&& state.into == bundle.into
            &&& state.commands.len() == desired.len()
            &&& forall|i: int|
                0 <= i < desired.len() ==> (#[trigger] state.commands[i]).0 == desired[i].0
                    && state.commands[i].1.path == desired[i].1.path
                    && state.commands[i].1.content_hash == desired[i].1.content_hash
        }),
{
}

/// The paths whose tracking a sync may change are those of the desired and of the
/// recorded commands, each once, in the order of paths.
pub proof fn law_affected_paths(
    bundle: BundleView,
    desired: Seq<(Seq<char>, DesiredView)>,
    path: Seq<char>,
)
    ensures
        paths::paths_sorted(affected_paths(bundle, desired)),
        paths::has_path(affected_paths(bundle, desired), path) <==> {
            ||| exists|i: int|
                0 <= i < desired.len() && paths::same_path((#[trigger] desired[i]).1.path, path)
            ||| bundle.state is Some && exists|i: int|
                0 <= i < bundle.state->0.commands.len() && paths::same_path(
                    (#[trigger] bundle.state->0.commands[i]).1.path,
                    path,
                )
        },
{
    let recorded = managed_paths(status::recorded_commands(bundle));
    let wished = managed_paths(managed_commands(desired));
    paths::law_path_set(recorded + wished, path);
    if paths::has_path(recorded + wished, path) {
        let k = choose|k: int|
            0 <= k < (recorded + wished).len() && paths::same_path(
                #[trigger] (recorded + wished)[k],
                path,
            );
        if k < recorded.len() {
            assert(recorded[k] == bundle.state->0.commands[k].1.path);
        } else {
            assert(wished[k - recorded.len()] == desired[k - recorded.len()].1.path);
        }
    }
    if exists|i: int|
        0 <= i < desired.len() && paths::same_path((#[trigger] desired[i]).1.path, path) {
        let i = choose|i: int|
            0 <= i < desired.len() && paths::same_path((#[trigger] desired[i]).1.path, path);
        assert((recorded + wished)[recorded.len() + i] == desired[i].1.path);
    }
    if bundle.state is Some && exists|i: int|
        0 <= i < bundle.state->0.commands.len() && paths::same_path(
            (#[trigger] bundle.state->0.commands[i]).1.path,
            path,
        ) {
        let i = choose|i: int|
            0 <= i < bundle.state->0.commands.len() && paths::same_path(
                (#[trigger] bundle.state->0.commands[i]).1.path,
                path,
            );
        assert((recorded + wished)[i] == bundle.state->0.commands[i].1.path);
    }
}

/// Why a sync is refused: statuses that cannot be collected are told first, with
/// their error. Then come, without `force`, all commands that stand in the way, and
/// at last the first recorded command that may not be removed.
pub proof fn law_first_sync_error(
    bundle: BundleView,
    desired: Seq<(Seq<char>, DesiredView)>,
    found: Seq<(Seq<char>, NodeView)>,
    force: bool,
    error: ErrorView,
)
    requires
        plan_error(bundle, desired, found, force) == Some(error),
    ensures
        match status::collected(bundle, desired, found) {
            Err(cause) => error == cause,
            Ok(statuses) => if !force && exists|i: int|
                0 <= i < statuses.len() && ((#[trigger] statuses[i]).status == StatusKind::Modified
                    || statuses[i].status == StatusKind::Conflict) {
                error == (ErrorView::NotSafelyOwned { notices: blocker_notices(statuses) })
            } else {
                bundle.state is Some && exists|i: int|
                    {
                        &&& #[trigger] record_is_kept_back(
                            bundle.state->0,
                            bundle.id,
                            desired,
                            found,
                            force,
                            i,
                        )
                        &&& forall|j: int| #[trigger]
                            record_is_kept_back(
                                bundle.state->0,
                                bundle.id,
                                desired,
                                found,
                                force,
                                j,
                            ) ==> i <= j
                        &&& removal_error(
                            bundle.state->0.into,
                            bundle.id,
                            bundle.state->0.commands[i].0,
                            bundle.state->0.commands[i].1,
                            status::node_of(found, bundle.state->0.commands[i].0),
                            force,
                        ) == Some(error)
                    }
            },
        },
{
    let statuses = status::values(status::all_statuses(bundle, desired, found));
    let places = law_blockers(statuses);
    if blockers(statuses).len() > 0 {
        assert(places.contains(places[0]));
        assert(statuses[places[0]].status == StatusKind::Modified || statuses[places[0]].status
            == StatusKind::Conflict);
    } else {
        assert forall|i: int| 0 <= i < statuses.len() implies !((#[trigger] statuses[i]).status
            == StatusKind::Modified || statuses[i].status == StatusKind::Conflict) by {
            if statuses[i].status == StatusKind::Modified || statuses[i].status
                == StatusKind::Conflict {
                assert(places.contains(i));
            }
        }
    }
    if let Some(state) = bundle.state {
        let errors = removal_errors(state, bundle.id, desired, found, force);
        bundle::lemma_error_or_all_pass(errors);
        assert(forall|i: int| #[trigger]
            record_is_kept_back(state, bundle.id, desired, found, force, i) ==> 0 <= i
                < errors.len() && errors[i] is Some);
        if bundle::first_error(errors) is Some {
            let i = choose|i: int|
                0 <= i < errors.len() && (#[trigger] errors[i]) == bundle::first_error(errors) && (
                forall|j: int| 0 <= j < i ==> (#[trigger] errors[j]) is None);
            assert(record_is_kept_back(state, bundle.id, desired, found, force, i));
            assert forall|j: int| #[trigger]
                record_is_kept_back(state, bundle.id, desired, found, force, j) implies i <= j by {
                if j < i {
                    assert(errors[j] is None);
                }
            }
        }
    }
}

} // verus!
