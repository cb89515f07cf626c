//! How the commands of a bundle stand, compared with what is desired.
use vstd::prelude::*;
use crate::owner;
use crate::digest;
use crate::bundle;
use crate::bundle::Bundle;
use crate::bundle::BundleView;
use crate::bundle::ManagedCommand;
use crate::bundle::ManagedView;
use crate::bundle::StateView;
use crate::command;
use crate::desired::DesiredCommand;
use crate::desired::DesiredView;
use crate::error::ErrorView;
use crate::error::StubError;
use crate::message;
use crate::name_map;
use crate::name_map::NameMap;
use crate::node;
use crate::node::Node;
use crate::node::NodeView;
use crate::sift;
use crate::text;

verus! {

/// How one command stands.
#[derive(Clone, Copy, Debug, PartialEq, Eq, Structural)]
pub enum StatusKind {
    /// It is as desired.
    Current,
    /// It is not there.
    Missing,
    /// It was changed after the bundle wrote it.
    Modified,
    /// It is as the bundle wrote it, and no longer as desired.
    Stale,
    /// Something that the bundle did not write stands in its place.
    Conflict,
}

impl StatusKind {
    /// The word for the status.
    pub open spec fn word(self) -> Seq<char> {
        match self {
            StatusKind::Current => "current"@,
            StatusKind::Missing => "missing"@,
            StatusKind::Modified => "modified"@,
            StatusKind::Stale => "stale"@,
            StatusKind::Conflict => "conflict"@,
        }
    }

    /// The word for the status.
    pub fn as_str(self) -> (word: &'static str)
        ensures
            word@ == self.word(),
    {
        match self {
            StatusKind::Current => "current",
            StatusKind::Missing => "missing",
            StatusKind::Modified => "modified",
            StatusKind::Stale => "stale",
            StatusKind::Conflict => "conflict",
        }
    }
}

/// Each status has a word of its own.
pub proof fn law_words_distinct(a: StatusKind, b: StatusKind)
    requires
        a.word() == b.word(),
    ensures
        a == b,
{
    reveal_strlit("current");
    reveal_strlit("missing");
    reveal_strlit("modified");
    reveal_strlit("stale");
    reveal_strlit("conflict");
    assert("current"@[1] == 'u' && "missing"@[1] == 'i' && "modified"@[1] == 'o');
    assert("stale"@[1] == 't' && "conflict"@[1] == 'o');
    assert("modified"@[0] == 'm' && "conflict"@[0] == 'c');
}

/// The status of one command.
#[derive(Debug)]
pub struct CommandStatus {
    pub command: String,
    pub path: String,
    pub status: StatusKind,
}

/// The model of a [`CommandStatus`].
pub struct CommandStatusView {
    pub command: Seq<char>,
    pub path: Seq<char>,
    pub status: StatusKind,
}

impl View for CommandStatus {
    type V = CommandStatusView;

    open spec fn view(&self) -> CommandStatusView {
        CommandStatusView { command: self.command@, path: self.path@, status: self.status }
    }
}

/// The models of some statuses.
pub open spec fn status_views(statuses: Seq<CommandStatus>) -> Seq<CommandStatusView> {
    Seq::new(statuses.len(), |i: int| statuses[i]@)
}

/// What was found for the command `name`. Where nothing is listed, nothing was
/// found.
pub open spec fn node_of(found: Seq<(Seq<char>, NodeView)>, name: Seq<char>) -> NodeView {
    match name_map::lookup(found, name) {
        Some(node) => node,
        None => NodeView::Absent,
    }
}

/// How a desired command stands when `node` is at its path.
pub open spec fn classified(
    path: Seq<char>,
    node: NodeView,
    expected_hash: Seq<char>,
    bundle_id: Seq<char>,
    previous: Option<ManagedView>,
) -> Result<StatusKind, ErrorView> {
    if !node.present() {
        Ok(StatusKind::Missing)
    } else if !(node is File) {
        Ok(StatusKind::Conflict)
    } else {
        match node.hash() {
            None => Err(ErrorView::Unreadable { path }),
            Some(actual) => if node.owner() != Some(bundle_id) {
                Ok(StatusKind::Conflict)
            } else if actual == expected_hash {
                Ok(
                    if node->File_executable {
                        StatusKind::Current
                    } else {
                        StatusKind::Stale
                    },
                )
            } else {
                match previous {
                    Some(managed) => if managed.content_hash != actual {
                        Ok(StatusKind::Modified)
                    } else {
                        Ok(StatusKind::Stale)
                    },
                    None => Ok(StatusKind::Conflict),
                }
            },
        }
    }
}

/// The model of a classification.
pub open spec fn kind_view(kind: Result<StatusKind, StubError>) -> Result<StatusKind, ErrorView> {
    match kind {
        Ok(status) => Ok(status),
        Err(error) => Err(error@),
    }
}

/// The model of an optional managed command.
pub open spec fn managed_view(managed: Option<&ManagedCommand>) -> Option<ManagedView> {
    match managed {
        Some(command) => Some(command@),
        None => None,
    }
}

/// Tells how a desired command stands when `node` is at its path. `previous` is
/// what the bundle recorded of the command.
pub fn classify_path(
    path: &str,
    node: &Node,
    expected_hash: &str,
    bundle_id: &str,
    previous: Option<&ManagedCommand>,
) -> (kind: Result<StatusKind, StubError>)
    ensures
        kind_view(kind) == classified(
            path@,
            node@,
            expected_hash@,
            bundle_id@,
            managed_view(previous),
        ),
{
    if !node::path_exists(node) {
        return Ok(StatusKind::Missing);
    }
    let executable = match node {
        Node::File { executable, .. } => *executable,
        _ => {
            return Ok(StatusKind::Conflict);
        },
    };
    let actual = match node::file_hash(path, node) {
        Ok(hash) => hash,
        Err(error) => {
            return Err(error);
        },
    };
    if !node::file_is_owned_by_bundle(node, bundle_id) {
        return Ok(StatusKind::Conflict);
    }
    if text::text_eq(actual.as_str(), expected_hash) {
        return Ok(
            if executable {
                StatusKind::Current
            } else {
                StatusKind::Stale
            },
        );
    }
    match previous {
        Some(managed) => if !text::text_eq(managed.content_hash.as_str(), actual.as_str()) {
            Ok(StatusKind::Modified)
        } else {
            Ok(StatusKind::Stale)
        },
        None => Ok(StatusKind::Conflict),
    }
}

/// What the bundle recorded of the command `name`.
pub open spec fn recorded(bundle: BundleView, name: Seq<char>) -> Option<ManagedView> {
    match bundle.state {
        Some(state) => name_map::lookup(state.commands, name),
        None => None,
    }
}

/// What the bundle recorded of its commands.
pub open spec fn recorded_commands(bundle: BundleView) -> Seq<(Seq<char>, ManagedView)> {
    match bundle.state {
        Some(state) => state.commands,
        None => Seq::empty(),
    }
}

/// How a desired command stands.
pub open spec fn desired_kind(
    bundle: BundleView,
    found: Seq<(Seq<char>, NodeView)>,
    name: Seq<char>,
    command: DesiredView,
) -> Result<StatusKind, ErrorView> {
    classified(
        command.path,
        node_of(found, name),
        command.content_hash,
        bundle.id,
        recorded(bundle, name),
    )
}

/// How a recorded command that is no longer desired stands.
pub open spec fn stale_kind(managed: ManagedView, node: NodeView) -> StatusKind {
    if node.present() && !node.unchanged(managed.content_hash) {
        StatusKind::Modified
    } else {
        StatusKind::Stale
    }
}

/// Why it cannot be told how a recorded command that is no longer desired
/// stands.
pub open spec fn stale_error(
    into: Seq<char>,
    name: Seq<char>,
    managed: ManagedView,
    node: NodeView,
) -> Option<ErrorView> {
    match command::managed_path_error(into, name, managed.path) {
        Some(error) => Some(error),
        None => if node is File && node.hash() is None {
            Some(ErrorView::Unreadable { path: managed.path })
        } else {
            None
        },
    }
}

/// Why it cannot be told how each desired command stands.
pub open spec fn desired_errors(
    bundle: BundleView,
    desired: Seq<(Seq<char>, DesiredView)>,
    found: Seq<(Seq<char>, NodeView)>,
) -> Seq<Option<ErrorView>> {
    Seq::new(
        desired.len(),
        |i: int|
            match desired_kind(bundle, found, desired[i].0, desired[i].1) {
                Ok(_) => None,
                Err(error) => Some(error),
            },
    )
}

/// Why it cannot be told how each recorded command stands. Those that are
/// desired do not count.
pub open spec fn stale_errors(
    state: StateView,
    desired: Seq<(Seq<char>, DesiredView)>,
    found: Seq<(Seq<char>, NodeView)>,
) -> Seq<Option<ErrorView>> {
    Seq::new(
        state.commands.len(),
        |i: int|
            if name_map::has_name(desired, state.commands[i].0) {
                None
            } else {
                stale_error(
                    state.into,
                    state.commands[i].0,
                    state.commands[i].1,
                    node_of(found, state.commands[i].0),
                )
            },
    )
}

/// Why it cannot be told how the commands stand: first for those that are
/// desired, then for those that are only recorded.
pub open spec fn status_error(
    bundle: BundleView,
    desired: Seq<(Seq<char>, DesiredView)>,
    found: Seq<(Seq<char>, NodeView)>,
) -> Option<ErrorView> {
    match bundle::first_error(desired_errors(bundle, desired, found)) {
        Some(error) => Some(error),
        None => match bundle.state {
            Some(state) => bundle::first_error(stale_errors(state, desired, found)),
            None => None,
        },
    }
}

/// The statuses of the desired commands.
pub open spec fn desired_statuses(
    bundle: BundleView,
    desired: Seq<(Seq<char>, DesiredView)>,
    found: Seq<(Seq<char>, NodeView)>,
) -> Seq<(Seq<char>, CommandStatusView)> {
    Seq::new(
        desired.len(),
        |i: int|
            (
                desired[i].0,
                CommandStatusView {
                    command: desired[i].0,
                    path: desired[i].1.path,
                    status: desired_kind(bundle, found, desired[i].0, desired[i].1)->Ok_0,
                },
            ),
    )
}

/// The statuses known so far, with those of the recorded commands that are not
/// desired, at their places in the order.
pub open spec fn with_stale(
    known: Seq<(Seq<char>, CommandStatusView)>,
    commands: Seq<(Seq<char>, ManagedView)>,
    desired: Seq<(Seq<char>, DesiredView)>,
    found: Seq<(Seq<char>, NodeView)>,
) -> Seq<(Seq<char>, CommandStatusView)>
    decreases commands.len(),
{
    if commands.len() == 0 {
        known
    } else {
        let before = with_stale(known, commands.drop_last(), desired, found);
        let (name, managed) = commands.last();
        if name_map::has_name(desired, name) {
            before
        } else {
            name_map::with_name(
                before,
                name,
                CommandStatusView {
                    command: name,
                    path: managed.path,
                    status: stale_kind(managed, node_of(found, name)),
                },
            )
        }
    }
}

/// The statuses of all commands that are desired or recorded, by name.
pub open spec fn all_statuses(
    bundle: BundleView,
    desired: Seq<(Seq<char>, DesiredView)>,
    found: Seq<(Seq<char>, NodeView)>,
) -> Seq<(Seq<char>, CommandStatusView)> {
    with_stale(
        desired_statuses(bundle, desired, found),
        recorded_commands(bundle),
        desired,
        found,
    )
}

/// The values of the entries.
pub open spec fn values<T>(entries: Seq<(Seq<char>, T)>) -> Seq<T> {
    Seq::new(entries.len(), |i: int| entries[i].1)
}

/// The status of the command `name`, desired or recorded.
pub open spec fn status_of(
    bundle: BundleView,
    desired: Seq<(Seq<char>, DesiredView)>,
    found: Seq<(Seq<char>, NodeView)>,
    name: Seq<char>,
) -> Option<CommandStatusView> {
    match name_map::lookup(desired, name) {
        Some(command) => Some(
            CommandStatusView {
                command: name,
                path: command.path,
                status: desired_kind(bundle, found, name, command)->Ok_0,
            },
        ),
        None => match recorded(bundle, name) {
            Some(managed) => Some(
                CommandStatusView {
                    command: name,
                    path: managed.path,
                    status: stale_kind(managed, node_of(found, name)),
                },
            ),
            None => None,
        },
    }
}

/// Adding the recorded commands keeps the order and decides only for names that
/// are not desired.
pub proof fn lemma_with_stale(
    known: Seq<(Seq<char>, CommandStatusView)>,
    commands: Seq<(Seq<char>, ManagedView)>,
    desired: Seq<(Seq<char>, DesiredView)>,
    found: Seq<(Seq<char>, NodeView)>,
    name: Seq<char>,
)
    requires
        name_map::names_sorted(known),
        name_map::names_sorted(commands),
    ensures
        name_map::names_sorted(with_stale(known, commands, desired, found)),
        name_map::lookup(with_stale(known, commands, desired, found), name) == (
        if !name_map::has_name(desired, name) && name_map::has_name(commands, name) {
            Some(
                CommandStatusView {
                    command: name,
                    path: name_map::lookup(commands, name)->0.path,
                    status: stale_kind(
                        name_map::lookup(commands, name)->0,
                        node_of(found, name),
                    ),
                },
            )
        } else {
            name_map::lookup(known, name)
        }),
    decreases commands.len(),
{
    if commands.len() > 0 {
        let rest = commands.drop_last();
        let last = commands.last();
        name_map::lemma_drop_last_name(commands, name);
        lemma_with_stale(known, rest, desired, found, name);
        name_map::law_with_name(
            with_stale(known, rest, desired, found),
            last.0,
            CommandStatusView {
                command: last.0,
                path: last.1.path,
                status: stale_kind(last.1, node_of(found, last.0)),
            },
            name,
        );
    }
}

/// The statuses list every command that is desired or recorded once, in the
/// order of the names, and no other.
pub proof fn law_statuses_cover(
    bundle: BundleView,
    desired: Seq<(Seq<char>, DesiredView)>,
    found: Seq<(Seq<char>, NodeView)>,
    name: Seq<char>,
)
    requires
        name_map::names_sorted(desired),
        name_map::names_sorted(recorded_commands(bundle)),
    ensures
        name_map::names_sorted(all_statuses(bundle, desired, found)),
        name_map::lookup(all_statuses(bundle, desired, found), name) == status_of(
            bundle,
            desired,
            found,
            name,
        ),
{
    let known = desired_statuses(bundle, desired, found);
    assert forall|i: int, j: int| 0 <= i < j < known.len() implies text::text_lt(
        (#[trigger] known[i]).0,
        (#[trigger] known[j]).0,
    ) by {
        assert(known[i].0 == desired[i].0 && known[j].0 == desired[j].0);
    }
    lemma_with_stale(known, recorded_commands(bundle), desired, found, name);
    if name_map::has_name(desired, name) {
        let i = choose|i: int| 0 <= i < desired.len() && (#[trigger] desired[i]).0 == name;
        name_map::lemma_lookup_at(desired, i);
        assert(known[i].0 == name);
        name_map::lemma_lookup_at(known, i);
    } else if name_map::has_name(known, name) {
        let i = choose|i: int| 0 <= i < known.len() && (#[trigger] known[i]).0 == name;
        assert(desired[i].0 == name);
    }
}

/// The names under which statuses stand are their own.
pub proof fn law_status_names(
    bundle: BundleView,
    desired: Seq<(Seq<char>, DesiredView)>,
    found: Seq<(Seq<char>, NodeView)>,
)
    requires
        name_map::names_sorted(desired),
        name_map::names_sorted(recorded_commands(bundle)),
    ensures
        forall|i: int|
            0 <= i < all_statuses(bundle, desired, found).len() ==> (#[trigger] all_statuses(
                bundle,
                desired,
                found,
            )[i]).0 == all_statuses(bundle, desired, found)[i].1.command,
{
    let all = all_statuses(bundle, desired, found);
    assert forall|i: int| 0 <= i < all.len() implies (#[trigger] all[i]).0 == all[i].1.command by {
        law_statuses_cover(bundle, desired, found, all[i].0);
        name_map::lemma_lookup_at(all, i);
    }
}

/// The node that was found for a command.
pub(crate) fn found_node<'a>(found: &'a NameMap<Node>, name: &str, absent: &'a Node) -> (node: &'a Node)
    requires
        absent@ == NodeView::Absent,
    ensures
        node@ == node_of(found@, name@),
{
    match found.get(name) {
        Some(node) => node,
        None => absent,
    }
}

/// Tells how a recorded command that is no longer desired stands.
fn classify_stale(into: &str, name: &str, managed: &ManagedCommand, node: &Node) -> (kind: Result<
    StatusKind,
    StubError,
>)
    ensures
        match kind {
            Ok(status) => stale_error(into@, name@, managed@, node@) is None && status
                == stale_kind(managed@, node@),
            Err(error) => stale_error(into@, name@, managed@, node@) == Some(error@),
        },
{
    match command::validate_place(into, name, managed.path.as_str()) {
        Ok(_) => {},
        Err(error) => {
            return Err(error);
        },
    }
    if !node::path_exists(node) {
        return Ok(StatusKind::Stale);
    }
    if !node::is_regular_file(node) {
        return Ok(StatusKind::Modified);
    }
    match node::file_hash(managed.path.as_str(), node) {
        Ok(hash) => Ok(
            if text::text_eq(hash.as_str(), managed.content_hash.as_str()) {
                StatusKind::Stale
            } else {
                StatusKind::Modified
            },
        ),
        Err(error) => Err(error),
    }
}

/// The model of the outcome of collecting statuses.
pub open spec fn collected(
    bundle: BundleView,
    desired: Seq<(Seq<char>, DesiredView)>,
    found: Seq<(Seq<char>, NodeView)>,
) -> Result<Seq<CommandStatusView>, ErrorView> {
    match status_error(bundle, desired, found) {
        Some(error) => Err(error),
        None => Ok(values(all_statuses(bundle, desired, found))),
    }
}

/// The model of statuses or an error.
pub open spec fn statuses_view(statuses: Result<Vec<CommandStatus>, StubError>) -> Result<
    Seq<CommandStatusView>,
    ErrorView,
> {
    match statuses {
        Ok(list) => Ok(status_views(list@)),
        Err(error) => Err(error@),
    }
}

/// The statuses of the desired commands, by name.
fn collect_desired(
    bundle: &Bundle,
    desired: &NameMap<DesiredCommand>,
    found: &NameMap<Node>,
) -> (statuses: Result<NameMap<CommandStatus>, StubError>)
    ensures
        match statuses {
            Ok(map) => {
                &&& bundle::first_error(desired_errors(bundle@, desired@, found@)) is None
                &&& map@ == desired_statuses(bundle@, desired@, found@)
            },
            Err(error) => bundle::first_error(desired_errors(bundle@, desired@, found@)) == Some(
                error@,
            ),
        },
{
    let count = desired.len();
    let absent = Node::Absent;
    let ghost errors = desired_errors(bundle@, desired@, found@);
    let ghost wanted = desired_statuses(bundle@, desired@, found@);
    let mut map: NameMap<CommandStatus> = NameMap::new();
    let mut i: usize = 0;
    assert(wanted.take(0) =~= Seq::empty());
    while i < count
        invariant
            count == desired@.len(),
            i <= count,
            name_map::names_sorted(desired@),
            absent@ == NodeView::Absent,
            errors == desired_errors(bundle@, desired@, found@),
            wanted == desired_statuses(bundle@, desired@, found@),
            forall|j: int| 0 <= j < i ==> errors[j] is None,
            map@ == wanted.take(i as int),
        decreases count - i,
    {
        let name = desired.name_at(i);
        let wish = desired.value_at(i);
        let previous = match &bundle.state {
            Some(state) => state.commands.get(name.as_str()),
            None => None,
        };
        assert(managed_view(previous) == recorded(bundle@, name@));
        match classify_path(
            wish.path.as_str(),
            found_node(found, name.as_str(), &absent),
            wish.content_hash.as_str(),
            bundle.id.as_str(),
            previous,
        ) {
            Ok(status) => {
                let entry = CommandStatus {
                    command: name.clone(),
                    path: wish.path.clone(),
                    status,
                };
                proof {
                    let next = wanted[i as int];
                    assert(next == (name@, entry@));
                    assert(wanted.take(i + 1) =~= wanted.take(i as int).push(next));
                    assert forall|a: int, b: int|
                        0 <= a < b < wanted.take(i + 1).len() implies text::text_lt(
                        (#[trigger] wanted.take(i + 1)[a]).0,
                        (#[trigger] wanted.take(i + 1)[b]).0,
                    ) by {
                        assert(text::text_lt(desired@[a].0, desired@[b].0));
                    }
                    name_map::lemma_with_last_name(wanted.take(i as int), next.0, next.1);
                }
                map = map.insert(name.clone(), entry);
            },
            Err(error) => {
                proof {
                    bundle::lemma_first_error(errors, i as int);
                }
                return Err(error);
            },
        }
        i += 1;
    }
    proof {
        bundle::lemma_no_error(errors);
        assert(wanted.take(count as int) =~= wanted);
    }
    Ok(map)
}

/// The statuses in the map, in order.
pub fn into_list(map: &NameMap<CommandStatus>) -> (list: Vec<CommandStatus>)
    ensures
        status_views(list@) == values(map@),
{
    let count = map.len();
    let mut list: Vec<CommandStatus> = Vec::new();
    let mut i: usize = 0;
    while i < count
        invariant
            count == map@.len(),
            i <= count,
            list@.len() == i,
            forall|j: int| 0 <= j < i ==> (#[trigger] list@[j])@ == map@[j].1,
        decreases count - i,
    {
        let entry = map.value_at(i);
        list.push(
            CommandStatus {
                command: entry.command.clone(),
                path: entry.path.clone(),
                status: entry.status,
            },
        );
        i += 1;
    }
    assert(status_views(list@) =~= values(map@));
    list
}

/// The statuses of all commands that are desired or recorded, by name.
pub fn collect_by_name(
    bundle: &Bundle,
    desired: &NameMap<DesiredCommand>,
    found: &NameMap<Node>,
) -> (statuses: Result<NameMap<CommandStatus>, StubError>)
    ensures
        match statuses {
            Ok(map) => {
                &&& status_error(bundle@, desired@, found@) is None
                &&& map@ == all_statuses(bundle@, desired@, found@)
                &&& name_map::names_sorted(recorded_commands(bundle@))
            },
            Err(error) => status_error(bundle@, desired@, found@) == Some(error@),
        },
{
    let mut map = match collect_desired(bundle, desired, found) {
        Ok(map) => map,
        Err(error) => {
            return Err(error);
        },
    };
    let ghost known = map@;
    match &bundle.state {
        Some(state) => {
            let count = state.commands.len();
            let absent = Node::Absent;
            let ghost commands = state@.commands;
            let ghost errors = stale_errors(state@, desired@, found@);
            let mut i: usize = 0;
            assert(commands.take(0) =~= Seq::empty());
            while i < count
                invariant
                    count == commands.len(),
                    commands == state@.commands,
                    i <= count,
                    bundle@.state == Some(state@),
                    absent@ == NodeView::Absent,
                    bundle::first_error(desired_errors(bundle@, desired@, found@)) is None,
                    errors == stale_errors(state@, desired@, found@),
                    forall|j: int| 0 <= j < i ==> errors[j] is None,
                    map@ == with_stale(known, commands.take(i as int), desired@, found@),
                decreases count - i,
            {
                let name = state.commands.name_at(i);
                let managed = state.commands.value_at(i);
                proof {
                    assert(commands.take(i + 1).drop_last() =~= commands.take(i as int));
                    assert(commands.take(i + 1).last() == (name@, managed@));
                }
                if !desired.contains(name.as_str()) {
                    match classify_stale(
                        state.into.as_str(),
                        name.as_str(),
                        managed,
                        found_node(found, name.as_str(), &absent),
                    ) {
                        Ok(status) => {
                            map = map.insert(
                                name.clone(),
                                CommandStatus {
                                    command: name.clone(),
                                    path: managed.path.clone(),
                                    status,
                                },
                            );
                        },
                        Err(error) => {
                            proof {
                                bundle::lemma_first_error(errors, i as int);
                            }
                            return Err(error);
                        },
                    }
                }
                i += 1;
            }
            proof {
                bundle::lemma_no_error(errors);
                assert(commands.take(count as int) =~= commands);
            }
        },
        None => {},
    }
    Ok(map)
}

/// Tells how every command that is desired or recorded stands, given what was
/// found for each name.
pub fn collect_status(
    bundle: &Bundle,
    desired: &NameMap<DesiredCommand>,
    found: &NameMap<Node>,
) -> (statuses: Result<Vec<CommandStatus>, StubError>)
    ensures
        statuses_view(statuses) == collected(bundle@, desired@, found@),
{
    match collect_by_name(bundle, desired, found) {
        Ok(map) => Ok(into_list(&map)),
        Err(error) => Err(error),
    }
}

/// The statuses of the commands that need a sync.
pub open spec fn not_current(statuses: Seq<CommandStatusView>) -> Seq<CommandStatusView> {
    statuses.filter(|status: CommandStatusView| status.status != StatusKind::Current)
}

/// Exactly the statuses other than current are kept.
pub proof fn law_not_current(statuses: Seq<CommandStatusView>, entry: CommandStatusView)
    ensures
        not_current(statuses).contains(entry) <==> statuses.contains(entry) && entry.status
            != StatusKind::Current,
{
    sift::law_filter_contains(
        statuses,
        |status: CommandStatusView| status.status != StatusKind::Current,
        entry,
    );
}

/// The statuses other than current keep their order, and each is kept once.
pub proof fn law_not_current_in_order(statuses: Seq<CommandStatusView>) -> (places: Seq<int>)
    ensures
        sift::comes_from(statuses, not_current(statuses), places),
        forall|i: int|
            0 <= i < statuses.len() ==> ((#[trigger] statuses[i]).status != StatusKind::Current
                <==> places.contains(i)),
{
    sift::law_filter(
        statuses,
        |status: CommandStatusView| status.status != StatusKind::Current,
    )
}

/// Keeps the statuses of the commands that need a sync.
pub fn retain_missing(statuses: Vec<CommandStatus>) -> (kept: Vec<CommandStatus>)
    ensures
        status_views(kept@) == not_current(status_views(statuses@)),
{
    let ghost all = status_views(statuses@);
    let ghost needed = |status: CommandStatusView| status.status != StatusKind::Current;
    let mut kept: Vec<CommandStatus> = Vec::new();
    proof {
        reveal(Seq::filter);
        assert(all.take(0).filter(needed) =~= Seq::empty());
        assert(status_views(kept@) =~= Seq::empty());
    }
    for status in it: statuses
        invariant
            all == status_views(it.seq()),
            needed == (|status: CommandStatusView| status.status != StatusKind::Current),
            status_views(kept@) == all.take(it.index()).filter(needed),
    {
        let ghost before = status_views(kept@);
        proof {
            reveal(Seq::filter);
            assert(all.take(it.index() + 1).drop_last() =~= all.take(it.index()));
            assert(all.take(it.index() + 1).last() == status@);
        }
        if status.status != StatusKind::Current {
            kept.push(status);
            assert(status_views(kept@) =~= before.push(status@));
        }
    }
    assert(all.take(all.len() as int) =~= all);
    kept
}

/// The line that shows a status: the status, the command and the path in columns.
/// `shown` is how the path is shown.
pub open spec fn status_row(status: CommandStatusView, shown: Seq<char>) -> Seq<char> {
    text::padded(status.status.word(), 9) + " "@ + text::padded(status.command, 20) + " "@ + shown
}

/// `line` shows a status: with `missing` it is the command alone.
pub open spec fn status_line<D: Fn(&String) -> String>(
    status: CommandStatusView,
    missing: bool,
    show: D,
    line: Seq<char>,
) -> bool {
    if missing {
        line == status.command
    } else {
        exists|shown: Seq<char>| #[trigger]
            message::shows(show, status.path, shown) && line == status_row(status, shown)
    }
}

/// Writes the line that shows a status, given how its path is shown.
pub fn write_row(status: &CommandStatus, shown: &str) -> (line: String)
    ensures
        line@ == status_row(status@, shown@),
{
    let mut line = text::pad_right(status.status.as_str(), 9);
    line.append(" ");
    line.append(text::pad_right(status.command.as_str(), 20).as_str());
    line.append(" ");
    line.append(shown);
    line
}

/// `lines` show the statuses, one each.
pub open spec fn shown_by<D: Fn(&String) -> String>(
    statuses: Seq<CommandStatusView>,
    missing: bool,
    show: D,
    lines: Seq<Seq<char>>,
) -> bool {
    &&& lines.len() == statuses.len()
    &&& forall|i: int|
        0 <= i < lines.len() ==> status_line(statuses[i], missing, show, #[trigger] lines[i])
}

/// The lines that show the statuses, with paths as `show` shows them. `missing`
/// asks only for the names of the commands that need a sync.
pub fn status_lines<D: Fn(&String) -> String>(
    statuses: &Vec<CommandStatus>,
    missing: bool,
    show: &D,
) -> (lines: Vec<String>)
    requires
        forall|path: &String| call_requires(*show, (path,)),
    ensures
        shown_by(status_views(statuses@), missing, *show, text::texts(lines@)),
{
    let mut lines: Vec<String> = Vec::new();
    for i in 0..statuses.len()
        invariant
            forall|path: &String| call_requires(*show, (path,)),
            lines@.len() == i,
            forall|j: int|
                0 <= j < i ==> status_line(
                    statuses@[j]@,
                    missing,
                    *show,
                    (#[trigger] lines@[j])@,
                ),
    {
        let status = &statuses[i];
        if missing {
            lines.push(status.command.clone());
        } else {
            let shown = message::show_path(&status.path, show);
            assert(message::shows(*show, status@.path, shown@));
            lines.push(write_row(status, shown.as_str()));
        }
    }
    let ghost told = text::texts(lines@);
    assert forall|i: int| 0 <= i < told.len() implies status_line(
        status_views(statuses@)[i],
        missing,
        *show,
        #[trigger] told[i],
    ) by {
        assert(told[i] == lines@[i]@);
    }
    lines
}

/// What was found for a command is the node under its name, and nothing where
/// there is none.
pub proof fn law_node_of(found: Seq<(Seq<char>, NodeView)>, name: Seq<char>)
    ensures
        name_map::lookup(found, name) matches Some(node) ==> node_of(found, name) == node,
        name_map::lookup(found, name) is None ==> node_of(found, name) is Absent,
{
}

/// A desired command is missing exactly if nothing is known to stand at its path,
/// and current exactly if the file there is executable, has the desired contents
/// and names the bundle.
pub proof fn law_current_or_missing(
    path: Seq<char>,
    node: NodeView,
    expected_hash: Seq<char>,
    bundle_id: Seq<char>,
    previous: Option<ManagedView>,
)
    ensures
        classified(path, node, expected_hash, bundle_id, previous) == Ok::<StatusKind, ErrorView>(
            StatusKind::Missing,
        ) <==> node is Absent || node is Unknown,
        classified(path, node, expected_hash, bundle_id, previous) == Ok::<StatusKind, ErrorView>(
            StatusKind::Current,
        ) <==> (node matches NodeView::File { bytes: Some(bytes), executable } && executable
            && digest::sha256_hex(bytes) == expected_hash && owner::owner_of_bytes(bytes) == Some(
            bundle_id,
        )),
{
}

/// How a desired command stands cannot be told exactly if a regular file stands at
/// its path that cannot be read.
pub proof fn law_unreadable_command(
    path: Seq<char>,
    node: NodeView,
    expected_hash: Seq<char>,
    bundle_id: Seq<char>,
    previous: Option<ManagedView>,
)
    ensures
        classified(path, node, expected_hash, bundle_id, previous) is Err <==> (
        node matches NodeView::File { bytes: None, .. }),
        classified(path, node, expected_hash, bundle_id, previous) matches Err(error) ==> error
            == (ErrorView::Unreadable { path }),
{
}

/// A file that names the bundle and has other contents than desired is stale if it
/// is as the bundle wrote it, and modified if it is not. One with the desired
/// contents that is not executable is stale too.
pub proof fn law_stale_or_modified(
    path: Seq<char>,
    node: NodeView,
    expected_hash: Seq<char>,
    bundle_id: Seq<char>,
    previous: Option<ManagedView>,
)
    ensures
        classified(path, node, expected_hash, bundle_id, previous) == Ok::<StatusKind, ErrorView>(
            StatusKind::Stale,
        ) <==> (node matches NodeView::File { bytes: Some(bytes), executable }
            && owner::owner_of_bytes(bytes) == Some(bundle_id) && {
            ||| digest::sha256_hex(bytes) == expected_hash && !executable
            ||| digest::sha256_hex(bytes) != expected_hash && (previous matches Some(managed)
                && managed.content_hash == digest::sha256_hex(bytes))
        }),
        classified(path, node, expected_hash, bundle_id, previous) == Ok::<StatusKind, ErrorView>(
            StatusKind::Modified,
        ) <==> (node matches NodeView::File { bytes: Some(bytes), .. } && owner::owner_of_bytes(
            bytes,
        ) == Some(bundle_id) && digest::sha256_hex(bytes) != expected_hash && (
        previous matches Some(managed) && managed.content_hash != digest::sha256_hex(bytes))),
{
}

/// A desired command is in conflict exactly if what stands at its path is no
/// regular file, does not name the bundle, or was never recorded and has other
/// contents than desired.
pub proof fn law_conflict(
    path: Seq<char>,
    node: NodeView,
    expected_hash: Seq<char>,
    bundle_id: Seq<char>,
    previous: Option<ManagedView>,
)
    ensures
        classified(path, node, expected_hash, bundle_id, previous) == Ok::<StatusKind, ErrorView>(
            StatusKind::Conflict,
        ) <==> {
            ||| node is Symlink || node is Directory || node is Special
            ||| node matches NodeView::File { bytes: Some(bytes), .. } && {
                ||| owner::owner_of_bytes(bytes) != Some(bundle_id)
                ||| digest::sha256_hex(bytes) != expected_hash && previous is None
            }
        },
{
}

/// A recorded command that is no longer desired is stale if nothing is known to
/// stand there or the file there has the recorded hash, and modified otherwise. It
/// cannot be told exactly if its place is not valid or the file cannot be read.
pub proof fn law_recorded_only(
    into: Seq<char>,
    name: Seq<char>,
    managed: ManagedView,
    node: NodeView,
)
    ensures
        stale_kind(managed, node) == StatusKind::Stale <==> {
            ||| node is Absent || node is Unknown
            ||| node matches NodeView::File { bytes: Some(bytes), .. } && digest::sha256_hex(bytes)
                == managed.content_hash
        },
        stale_kind(managed, node) == StatusKind::Stale || stale_kind(managed, node)
            == StatusKind::Modified,
        stale_error(into, name, managed, node) is None <==> {
            &&& command::managed_path_error(into, name, managed.path) is None
            &&& !(node matches NodeView::File { bytes: None, .. })
        },
        stale_error(into, name, managed, node) matches Some(error) ==> {
            ||| command::managed_path_error(into, name, managed.path) == Some(error)
            ||| error == (ErrorView::Unreadable { path: managed.path })
        },
{
}

/// The collected statuses come in the order of the commands' names. They hold each
/// command that is desired or recorded once, and no other. A desired command has
/// its desired path and is classified by it; one that is only recorded has its
/// recorded path.
pub proof fn law_collected_statuses(
    bundle: BundleView,
    desired: Seq<(Seq<char>, DesiredView)>,
    found: Seq<(Seq<char>, NodeView)>,
    list: Seq<CommandStatusView>,
)
    requires
        name_map::names_sorted(desired),
        name_map::names_sorted(recorded_commands(bundle)),
        collected(bundle, desired, found) == Ok::<Seq<CommandStatusView>, ErrorView>(list),
    ensures
        forall|i: int, j: int|
            0 <= i < j < list.len() ==> text::text_lt(
                (#[trigger] list[i]).command,
                (#[trigger] list[j]).command,
            ),
        forall|i: int|
            0 <= i < desired.len() ==> exists|k: int|
                0 <= k < list.len() && (#[trigger] list[k]).command == (#[trigger] desired[i]).0
                    && list[k].path == desired[i].1.path && classified(
                    desired[i].1.path,
                    node_of(found, desired[i].0),
                    desired[i].1.content_hash,
                    bundle.id,
                    recorded(bundle, desired[i].0),
                ) == Ok::<StatusKind, ErrorView>(list[k].status),
        bundle.state matches Some(state) ==> forall|i: int|
            0 <= i < state.commands.len() && !name_map::has_name(
                desired,
                (#[trigger] state.commands[i]).0,
            ) ==> exists|k: int|
                0 <= k < list.len() && (#[trigger] list[k]).command == state.commands[i].0
                    && list[k].path == state.commands[i].1.path && list[k].status == stale_kind(
                    state.commands[i].1,
                    node_of(found, state.commands[i].0),
                ),
        forall|k: int|
            0 <= k < list.len() ==> name_map::has_name(desired, (#[trigger] list[k]).command) || (
            bundle.state matches Some(state) && name_map::has_name(
                state.commands,
                list[k].command,
            )),
{
    let all = all_statuses(bundle, desired, found);
    law_status_names(bundle, desired, found);
    law_statuses_cover(bundle, desired, found, Seq::empty());
    assert(forall|k: int| 0 <= k < all.len() ==> #[trigger] list[k] == all[k].1);
    assert forall|i: int, j: int| 0 <= i < j < list.len() implies text::text_lt(
        (#[trigger] list[i]).command,
        (#[trigger] list[j]).command,
    ) by {
        assert(text::text_lt(all[i].0, all[j].0));
    }
    assert forall|i: int| 0 <= i < desired.len() implies exists|k: int|
        0 <= k < list.len() && (#[trigger] list[k]).command == (#[trigger] desired[i]).0
            && list[k].path == desired[i].1.path && classified(
            desired[i].1.path,
            node_of(found, desired[i].0),
            desired[i].1.content_hash,
            bundle.id,
            recorded(bundle, desired[i].0),
        ) == Ok::<StatusKind, ErrorView>(list[k].status) by {
        name_map::lemma_lookup_at(desired, i);
        law_statuses_cover(bundle, desired, found, desired[i].0);
        bundle::lemma_all_pass(desired_errors(bundle, desired, found));
        assert(desired_errors(bundle, desired, found)[i] is None);
        let k = choose|k: int| 0 <= k < all.len() && (#[trigger] all[k]).0 == desired[i].0;
        name_map::lemma_lookup_at(all, k);
        assert(list[k] == all[k].1);
    }
    if let Some(state) = bundle.state {
        assert forall|i: int|
            0 <= i < state.commands.len() && !name_map::has_name(
                desired,
                (#[trigger] state.commands[i]).0,
            ) implies exists|k: int|
            0 <= k < list.len() && (#[trigger] list[k]).command == state.commands[i].0
                && list[k].path == state.commands[i].1.path && list[k].status == stale_kind(
                state.commands[i].1,
                node_of(found, state.commands[i].0),
            ) by {
            name_map::lemma_lookup_at(state.commands, i);
            law_statuses_cover(bundle, desired, found, state.commands[i].0);
            let k = choose|k: int|
                0 <= k < all.len() && (#[trigger] all[k]).0 == state.commands[i].0;
            name_map::lemma_lookup_at(all, k);
            assert(list[k] == all[k].1);
        }
    }
    assert forall|k: int| 0 <= k < list.len() implies name_map::has_name(
        desired,
        (#[trigger] list[k]).command,
    ) || (bundle.state matches Some(state) && name_map::has_name(
        state.commands,
        list[k].command,
    )) by {
        name_map::lemma_lookup_at(all, k);
        law_statuses_cover(bundle, desired, found, all[k].0);
    }
}

/// A regular file that cannot be read was found for the desired command at `i`.
pub open spec fn wish_is_unreadable(
    desired: Seq<(Seq<char>, DesiredView)>,
    found: Seq<(Seq<char>, NodeView)>,
    i: int,
) -> bool {
    0 <= i < desired.len() && (node_of(found, desired[i].0) matches NodeView::File {
        bytes: None,
        ..
    })
}

/// The recorded command at `i` is not desired, and its place is not valid or a
/// regular file stands there that cannot be read.
pub open spec fn record_is_unreadable(
    state: StateView,
    desired: Seq<(Seq<char>, DesiredView)>,
    found: Seq<(Seq<char>, NodeView)>,
    i: int,
) -> bool {
    &&& 0 <= i < state.commands.len()
    &&& !name_map::has_name(desired, state.commands[i].0)
    &&& {
        ||| command::managed_path_error(
            state.into,
            state.commands[i].0,
            state.commands[i].1.path,
        ) is Some
        ||| node_of(found, state.commands[i].0) matches NodeView::File { bytes: None, .. }
    }
}

/// Statuses are refused exactly if some desired command is a file that cannot be
/// read, or some command that is only recorded is such a file or has no valid
/// place.
pub proof fn law_collecting_refused(
    bundle: BundleView,
    desired: Seq<(Seq<char>, DesiredView)>,
    found: Seq<(Seq<char>, NodeView)>,
)
    ensures
        collected(bundle, desired, found) is Err <==> {
            ||| exists|i: int| #[trigger] wish_is_unreadable(desired, found, i)
            ||| bundle.state is Some && exists|i: int| #[trigger]
                record_is_unreadable(bundle.state->0, desired, found, i)
        },
{
    let wishes = desired_errors(bundle, desired, found);
    bundle::lemma_error_or_all_pass(wishes);
    assert forall|i: int| 0 <= i < wishes.len() implies ((#[trigger] wishes[i]) is Some
        <==> wish_is_unreadable(desired, found, i)) by {}
    assert(forall|i: int| #[trigger]
        wish_is_unreadable(desired, found, i) ==> wishes[i] is Some);
    assert((exists|i: int| #[trigger] wish_is_unreadable(desired, found, i))
        <==> bundle::first_error(wishes) is Some);
    if let Some(state) = bundle.state {
        let stale = stale_errors(state, desired, found);
        bundle::lemma_error_or_all_pass(stale);
        assert forall|i: int| 0 <= i < stale.len() implies ((#[trigger] stale[i]) is Some
            <==> record_is_unreadable(state, desired, found, i)) by {}
        assert(forall|i: int| #[trigger]
            record_is_unreadable(state, desired, found, i) ==> stale[i] is Some);
        assert((exists|i: int| #[trigger] record_is_unreadable(state, desired, found, i))
            <==> bundle::first_error(stale) is Some);
    }
}

/// Where statuses are refused, the first desired command that cannot be read
/// decides. Without one, the first that is only recorded decides, with what is wrong
/// with its place or with its file.
pub proof fn law_first_status_error(
    bundle: BundleView,
    desired: Seq<(Seq<char>, DesiredView)>,
    found: Seq<(Seq<char>, NodeView)>,
    error: ErrorView,
)
    requires
        collected(bundle, desired, found) == Err::<Seq<CommandStatusView>, ErrorView>(error),
    ensures
        (exists|i: int| #[trigger] wish_is_unreadable(desired, found, i)) ==> exists|i: int|
            {
                &&& #[trigger] wish_is_unreadable(desired, found, i)
                &&& forall|j: int| #[trigger] wish_is_unreadable(desired, found, j) ==> i <= j
                &&& error == (ErrorView::Unreadable { path: desired[i].1.path })
            },
        (forall|i: int| !#[trigger] wish_is_unreadable(desired, found, i)) ==> bundle.state is Some
            && exists|i: int|
            {
                &&& #[trigger] record_is_unreadable(bundle.state->0, desired, found, i)
                &&& forall|j: int| #[trigger]
                    record_is_unreadable(bundle.state->0, desired, found, j) ==> i <= j
                &&& stale_error(
                    bundle.state->0.into,
                    bundle.state->0.commands[i].0,
                    bundle.state->0.commands[i].1,
                    node_of(found, bundle.state->0.commands[i].0),
                ) == Some(error)
            },
{
    let wishes = desired_errors(bundle, desired, found);
    bundle::lemma_error_or_all_pass(wishes);
    assert(forall|i: int| #[trigger]
        wish_is_unreadable(desired, found, i) ==> 0 <= i < wishes.len() && wishes[i] is Some);
    if bundle::first_error(wishes) is Some {
        let i = choose|i: int|
            0 <= i < wishes.len() && (#[trigger] wishes[i]) == bundle::first_error(wishes) && (
            forall|j: int| 0 <= j < i ==> (#[trigger] wishes[j]) is None);
        assert(wish_is_unreadable(desired, found, i));
        assert forall|j: int| #[trigger] wish_is_unreadable(desired, found, j) implies i <= j by {
            if j < i {
                assert(wishes[j] is None);
            }
        }
    } else if let Some(state) = bundle.state {
        let stale = stale_errors(state, desired, found);
        bundle::lemma_error_or_all_pass(stale);
        assert(forall|i: int| #[trigger]
            record_is_unreadable(state, desired, found, i) ==> 0 <= i < stale.len()
                && stale[i] is Some);
        let i = choose|i: int|
            0 <= i < stale.len() && (#[trigger] stale[i]) == bundle::first_error(stale) && (forall|
                j: int,
            |
                0 <= j < i ==> (#[trigger] stale[j]) is None);
        assert(record_is_unreadable(state, desired, found, i));
        assert forall|j: int| #[trigger]
            record_is_unreadable(state, desired, found, j) implies i <= j by {
            if j < i {
                assert(stale[j] is None);
            }
        }
    }
}

} // verus!
