//! What removing a bundle takes away.
use vstd::prelude::*;
use crate::command;
use crate::bundle;
use crate::bundle::Bundle;
use crate::bundle::BundleView;
use crate::bundle::ManagedView;
use crate::bundle::StateView;
use crate::error::ErrorView;
use crate::error::StubError;
use crate::name_map::NameMap;
use crate::node;
use crate::node::Node;
use crate::node::NodeView;
use crate::plan;
use crate::status;

verus! {

/// A command that is removed: it is no longer tracked, and its file, if there is
/// one, is deleted first.
#[derive(Debug)]
pub struct RemovalStep {
    pub path: String,
    pub delete: bool,
}

/// The model of a [`RemovalStep`].
pub struct RemovalStepView {
    pub path: Seq<char>,
    pub delete: bool,
}

impl View for RemovalStep {
    type V = RemovalStepView;

    open spec fn view(&self) -> RemovalStepView {
        RemovalStepView { path: self.path@, delete: self.delete }
    }
}

/// The models of some steps.
pub open spec fn removal_views(steps: Seq<RemovalStep>) -> Seq<RemovalStepView> {
    Seq::new(steps.len(), |i: int| steps[i]@)
}

/// What removing a bundle takes away.
#[derive(Debug)]
pub enum Removal {
    /// Nothing: no state is recorded for the bundle.
    NotSynchronized { source: String },
    /// These commands, and then the recorded state.
    Remove { steps: Vec<RemovalStep> },
}

/// The model of a [`Removal`].
pub enum RemovalView {
    NotSynchronized { source: Seq<char> },
    Remove { steps: Seq<RemovalStepView> },
}

impl View for Removal {
    type V = RemovalView;

    open spec fn view(&self) -> RemovalView {
        match self {
            Removal::NotSynchronized { source } => RemovalView::NotSynchronized { source: source@ },
            Removal::Remove { steps } => RemovalView::Remove { steps: removal_views(steps@) },
        }
    }
}

/// Why each recorded command may not be removed.
pub open spec fn bundle_removal_errors(
    state: StateView,
    found: Seq<(Seq<char>, NodeView)>,
    force: bool,
) -> Seq<Option<ErrorView>> {
    Seq::new(
        state.commands.len(),
        |i: int|
            plan::removal_error(
                state.into,
                state.id,
                state.commands[i].0,
                state.commands[i].1,
                status::node_of(found, state.commands[i].0),
                force,
            ),
    )
}

/// The commands that are removed: all recorded ones, except where another bundle
/// has taken the place.
pub open spec fn removal_steps(
    id: Seq<char>,
    commands: Seq<(Seq<char>, ManagedView)>,
    found: Seq<(Seq<char>, NodeView)>,
) -> Seq<RemovalStepView>
    decreases commands.len(),
{
    if commands.len() == 0 {
        Seq::empty()
    } else {
        let before = removal_steps(id, commands.drop_last(), found);
        let (name, managed) = commands.last();
        let node = status::node_of(found, name);
        if plan::taken_over(id, node) {
            before
        } else {
            before.push(RemovalStepView { path: managed.path, delete: node.present() })
        }
    }
}

/// What removing a bundle takes away, or why it is refused.
pub open spec fn removal_plan(
    bundle: BundleView,
    found: Seq<(Seq<char>, NodeView)>,
    force: bool,
) -> Result<RemovalView, ErrorView> {
    match bundle.state {
        None => Ok(RemovalView::NotSynchronized { source: bundle.source_path }),
        Some(state) => match bundle::first_error(bundle_removal_errors(state, found, force)) {
            Some(error) => Err(error),
            None => Ok(
                RemovalView::Remove { steps: removal_steps(state.id, state.commands, found) },
            ),
        },
    }
}

/// The model of a removal or an error.
pub open spec fn removal_result(removal: Result<Removal, StubError>) -> Result<
    RemovalView,
    ErrorView,
> {
    match removal {
        Ok(what) => Ok(what@),
        Err(error) => Err(error@),
    }
}

/// Tells what removing a bundle takes away, given what was found for each name,
/// or why it is refused. With `force`, modified commands are removed too.
pub fn remove_bundle(bundle: &Bundle, found: &NameMap<Node>, force: bool) -> (removal: Result<
    Removal,
    StubError,
>)
    ensures
        removal_result(removal) == removal_plan(bundle@, found@, force),
{
    let state = match &bundle.state {
        Some(state) => state,
        None => {
            return Ok(Removal::NotSynchronized { source: bundle.source_path.clone() });
        },
    };
    let count = state.commands.len();
    let absent = Node::Absent;
    let ghost commands = state@.commands;
    let ghost errors = bundle_removal_errors(state@, found@, force);
    let mut steps: Vec<RemovalStep> = Vec::new();
    let mut i: usize = 0;
    assert(commands.take(0) =~= Seq::empty());
    assert(removal_views(steps@) =~= Seq::empty());
    while i < count
        invariant
            count == commands.len(),
            commands == state@.commands,
            bundle@.state == Some(state@),
            i <= count,
            absent@ == NodeView::Absent,
            errors == bundle_removal_errors(state@, found@, force),
            forall|j: int| 0 <= j < i ==> errors[j] is None,
            removal_views(steps@) == removal_steps(state@.id, commands.take(i as int), found@),
        decreases count - i,
    {
        let name = state.commands.name_at(i);
        let managed = state.commands.value_at(i);
        let there = status::found_node(found, name.as_str(), &absent);
        let ghost before = removal_views(steps@);
        proof {
            assert(commands.take(i + 1).drop_last() =~= commands.take(i as int));
            assert(commands.take(i + 1).last() == (name@, managed@));
        }
        match plan::check_removal(
            state.into.as_str(),
            state.id.as_str(),
            name.as_str(),
            managed,
            there,
            force,
        ) {
            Ok(ours) => {
                if ours {
                    let step = RemovalStep {
                        path: managed.path.clone(),
                        delete: node::path_exists(there),
                    };
                    let ghost view = step@;
                    steps.push(step);
                    assert(removal_views(steps@) =~= before.push(view));
                }
            },
            Err(error) => {
                proof {
                    bundle::lemma_first_error(errors, i as int);
                }
                return Err(error);
            },
        }
        i += 1;
    }
    proof {
        bundle::lemma_no_error(errors);
        assert(commands.take(count as int) =~= commands);
    }
    Ok(Removal::Remove { steps })
}

/// The step that removes a recorded command.
pub open spec fn removal_step(
    found: Seq<(Seq<char>, NodeView)>,
    name: Seq<char>,
    managed: ManagedView,
) -> RemovalStepView {
    RemovalStepView { path: managed.path, delete: status::node_of(found, name).present() }
}

/// Every recorded command is removed unless another bundle has taken it over,
/// and nothing else is.
pub proof fn law_removal_steps(
    id: Seq<char>,
    commands: Seq<(Seq<char>, ManagedView)>,
    found: Seq<(Seq<char>, NodeView)>,
    step: RemovalStepView,
)
    ensures
        removal_steps(id, commands, found).contains(step) <==> exists|i: int|
            0 <= i < commands.len() && step == removal_step(
                found,
                (#[trigger] commands[i]).0,
                commands[i].1,
            ) && !plan::taken_over(id, status::node_of(found, commands[i].0)),
    decreases commands.len(),
{
    let steps = removal_steps(id, commands, found);
    if commands.len() > 0 {
        let rest = commands.drop_last();
        let before = removal_steps(id, rest, found);
        let last = commands.len() - 1;
        law_removal_steps(id, rest, found, step);
        assert(commands[last] == commands.last());
        if steps.contains(step) && !before.contains(step) {
            let k = choose|k: int| 0 <= k < steps.len() && steps[k] == step;
            if k < before.len() {
                assert(before[k] == step);
            }
        }
        if before.contains(step) {
            let k = choose|k: int| 0 <= k < before.len() && before[k] == step;
            assert(steps[k] == step);
            let i = choose|i: int|
                0 <= i < rest.len() && step == removal_step(
                    found,
                    (#[trigger] rest[i]).0,
                    rest[i].1,
                ) && !plan::taken_over(id, status::node_of(found, rest[i].0));
            assert(commands[i] == rest[i]);
        }
        if exists|i: int|
            0 <= i < commands.len() && step == removal_step(
                found,
                (#[trigger] commands[i]).0,
                commands[i].1,
            ) && !plan::taken_over(id, status::node_of(found, commands[i].0)) {
            let i = choose|i: int|
                0 <= i < commands.len() && step == removal_step(
                    found,
                    (#[trigger] commands[i]).0,
                    commands[i].1,
                ) && !plan::taken_over(id, status::node_of(found, commands[i].0));
            if i < last {
                assert(rest[i] == commands[i]);
            } else {
                assert(steps[before.len() as int] == step);
            }
        }
    }
}

/// Without `force`, removing a bundle deletes only files that are as the bundle
/// wrote them.
pub proof fn law_removal_is_safe(
    bundle: BundleView,
    found: Seq<(Seq<char>, NodeView)>,
    i: int,
)
    requires
        removal_plan(bundle, found, false) is Ok,
        bundle.state is Some,
        0 <= i < bundle.state->0.commands.len(),
        status::node_of(found, bundle.state->0.commands[i].0).present(),
    ensures
        ({
            let (name, managed) = bundle.state->0.commands[i];
            let node = status::node_of(found, name);
            plan::taken_over(bundle.state->0.id, node) || node.unchanged(managed.content_hash)
        }),
{
    let errors = bundle_removal_errors(bundle.state->0, found, false);
    bundle::lemma_all_pass(errors);
    assert(errors[i] is None);
}

/// Removing a bundle that has no recorded state takes nothing away. Otherwise it is
/// refused exactly if one of the recorded commands may not be removed.
pub proof fn law_removal_refused(
    bundle: BundleView,
    found: Seq<(Seq<char>, NodeView)>,
    force: bool,
)
    ensures
        bundle.state is None ==> removal_plan(bundle, found, force) == Ok::<RemovalView, ErrorView>(
            RemovalView::NotSynchronized { source: bundle.source_path },
        ),
        bundle.state matches Some(state) ==> (removal_plan(bundle, found, force) is Err
            <==> exists|i: int|
            0 <= i < state.commands.len() && plan::removal_error(
                state.into,
                state.id,
                (#[trigger] state.commands[i]).0,
                state.commands[i].1,
                status::node_of(found, state.commands[i].0),
                force,
            ) is Some),
        bundle.state is Some && removal_plan(bundle, found, force) is Ok ==> removal_plan(
            bundle,
            found,
            force,
        )->Ok_0 is Remove,
{
    if let Some(state) = bundle.state {
        let errors = bundle_removal_errors(state, found, force);
        bundle::lemma_error_or_all_pass(errors);
        if bundle::first_error(errors) is Some {
            let i = choose|i: int| 0 <= i < errors.len() && (#[trigger] errors[i]) is Some;
            assert(errors[i] == plan::removal_error(
                state.into,
                state.id,
                state.commands[i].0,
                state.commands[i].1,
                status::node_of(found, state.commands[i].0),
                force,
            ));
        }
        assert forall|i: int|
            0 <= i < state.commands.len() && plan::removal_error(
                state.into,
                state.id,
                (#[trigger] state.commands[i]).0,
                state.commands[i].1,
                status::node_of(found, state.commands[i].0),
                force,
            ) is Some implies bundle::first_error(errors) is Some by {
            assert(errors[i] is Some);
        }
    }
}

/// With `force`, a removal is refused only for a place that is not valid or a file
/// that cannot be read, never because a command was modified.
pub proof fn law_forced_removal(bundle: BundleView, found: Seq<(Seq<char>, NodeView)>)
    requires
        bundle.state is Some,
        forall|i: int|
            0 <= i < bundle.state->0.commands.len() ==> command::managed_path_error(
                bundle.state->0.into,
                (#[trigger] bundle.state->0.commands[i]).0,
                bundle.state->0.commands[i].1.path,
            ) is None && !(status::node_of(
                found,
                bundle.state->0.commands[i].0,
            ) matches NodeView::File { bytes: None, .. }),
    ensures
        removal_plan(bundle, found, true) is Ok,
{
    law_removal_refused(bundle, found, true);
}

/// The steps of a removal follow the recorded commands in their order. There is one
/// for each of them but for those whose place names another bundle. It ends the
/// tracking of the recorded path, and deletes what stands there, if anything does.
pub proof fn law_removal_steps_in_order(
    id: Seq<char>,
    commands: Seq<(Seq<char>, ManagedView)>,
    found: Seq<(Seq<char>, NodeView)>,
) -> (places: Seq<int>)
    ensures
        places.len() == removal_steps(id, commands, found).len(),
        forall|k: int|
            0 <= k < places.len() ==> {
                &&& 0 <= #[trigger] places[k] < commands.len()
                &&& removal_steps(id, commands, found)[k].path == commands[places[k]].1.path
                &&& removal_steps(id, commands, found)[k].delete <==> !(status::node_of(
                    found,
                    commands[places[k]].0,
                ) is Absent) && !(status::node_of(found, commands[places[k]].0) is Unknown)
            },
        forall|k: int, l: int|
            0 <= k < l < places.len() ==> #[trigger] places[k] < #[trigger] places[l],
        forall|i: int|
            0 <= i < commands.len() ==> (places.contains(i) <==> !(status::node_of(
                found,
                (#[trigger] commands[i]).0,
            ).owner() matches Some(owner) && owner != id)),
    decreases commands.len(),
{
    if commands.len() == 0 {
        Seq::empty()
    } else {
        let rest = commands.drop_last();
        let last = commands.len() - 1;
        let before = law_removal_steps_in_order(id, rest, found);
        let node = status::node_of(found, commands[last].0);
        let foreign = node.owner() matches Some(owner) && owner != id;
        let places = if foreign {
            before
        } else {
            before.push(last)
        };
        assert(forall|i: int| 0 <= i < last ==> rest[i] == #[trigger] commands[i]);
        assert forall|i: int| 0 <= i < commands.len() implies (places.contains(i) <==> !(
        status::node_of(found, (#[trigger] commands[i]).0).owner() matches Some(owner) && owner
            != id)) by {
            if i < last {
                assert(rest[i] == commands[i]);
                if before.contains(i) {
                    let k = choose|k: int| 0 <= k < before.len() && before[k] == i;
                    assert(places[k] == i);
                }
                if places.contains(i) {
                    let k = choose|k: int| 0 <= k < places.len() && places[k] == i;
                    assert(before[k] == i);
                }
            } else {
                if !foreign {
                    assert(places[before.len() as int] == i);
                }
                if places.contains(i) && foreign {
                    let k = choose|k: int| 0 <= k < places.len() && places[k] == i;
                    assert(before[k] < rest.len());
                }
            }
        }
        places
    }
}

/// A removal is refused with what is wrong with the first recorded command that may
/// not be removed.
pub proof fn law_first_removal_error(
    bundle: BundleView,
    found: Seq<(Seq<char>, NodeView)>,
    force: bool,
    error: ErrorView,
)
    requires
        removal_plan(bundle, found, force) == Err::<RemovalView, ErrorView>(error),
    ensures
        bundle.state matches Some(state) && exists|i: int|
            {
                &&& 0 <= i < state.commands.len()
                &&& plan::removal_error(
                    state.into,
                    state.id,
                    (#[trigger] state.commands[i]).0,
                    state.commands[i].1,
                    status::node_of(found, state.commands[i].0),
                    force,
                ) == Some(error)
                &&& forall|j: int|
                    0 <= j < i ==> plan::removal_error(
                        state.into,
                        state.id,
                        (#[trigger] state.commands[j]).0,
                        state.commands[j].1,
                        status::node_of(found, state.commands[j].0),
                        force,
                    ) is None
            },
{
    if let Some(state) = bundle.state {
        let errors = bundle_removal_errors(state, found, force);
        bundle::lemma_error_or_all_pass(errors);
        let i = choose|i: int|
            0 <= i < errors.len() && (#[trigger] errors[i]) == bundle::first_error(errors) && (
            forall|j: int| 0 <= j < i ==> (#[trigger] errors[j]) is None);
        assert forall|j: int| 0 <= j < i implies plan::removal_error(
            state.into,
            state.id,
            (#[trigger] state.commands[j]).0,
            state.commands[j].1,
            status::node_of(found, state.commands[j].0),
            force,
        ) is None by {
            assert(errors[j] is None);
        }
        assert(state.commands[i] == state.commands[i]);
    }
}

} // verus!
