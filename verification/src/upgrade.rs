//! The stubs whose tools an upgrade looks at.
use vstd::prelude::*;
use crate::command;
use crate::bundle;
use crate::bundle::Bundle;
use crate::bundle::BundleState;
use crate::bundle::BundleView;
use crate::bundle::StateView;
use crate::error::ErrorView;
use crate::error::StubError;
use crate::paths;
use crate::plan;
use crate::text;

verus! {

/// The model of some paths or an error.
pub open spec fn paths_view(found: Result<Vec<String>, StubError>) -> Result<
    Seq<Seq<char>>,
    ErrorView,
> {
    match found {
        Ok(list) => Ok(text::texts(list@)),
        Err(error) => Err(error@),
    }
}

/// The paths of the recorded commands of some states, in order.
pub open spec fn recorded_paths(states: Seq<StateView>) -> Seq<Seq<char>>
    decreases states.len(),
{
    if states.len() == 0 {
        Seq::empty()
    } else {
        recorded_paths(states.drop_last()) + plan::managed_paths(states.last().commands)
    }
}

/// What is wrong with the recorded places of each state.
pub open spec fn recorded_errors(states: Seq<StateView>) -> Seq<Option<ErrorView>> {
    Seq::new(states.len(), |i: int| bundle::first_error(states[i].place_errors()))
}

/// The stubs that some states record, or the first place that is not valid.
pub open spec fn stub_paths(states: Seq<StateView>) -> Result<Seq<Seq<char>>, ErrorView> {
    match bundle::first_error(recorded_errors(states)) {
        Some(error) => Err(error),
        None => Ok(recorded_paths(states)),
    }
}

/// Adds the paths of the recorded commands of a state to a list.
fn append_paths(list: Vec<String>, state: &BundleState) -> (all: Vec<String>)
    ensures
        text::texts(all@) == text::texts(list@) + plan::managed_paths(state@.commands),
{
    let count = state.commands.len();
    let ghost before = text::texts(list@);
    let ghost more = plan::managed_paths(state@.commands);
    let mut all = list;
    let mut i: usize = 0;
    assert(before + more.take(0) =~= before);
    while i < count
        invariant
            count == state@.commands.len(),
            i <= count,
            more == plan::managed_paths(state@.commands),
            text::texts(all@) == before + more.take(i as int),
        decreases count - i,
    {
        let ghost known = text::texts(all@);
        let path = state.commands.value_at(i).path.clone();
        let ghost view = path@;
        all.push(path);
        assert(text::texts(all@) =~= known.push(view));
        assert(known.push(view) =~= before + more.take(i + 1));
        i += 1;
    }
    assert(more.take(count as int) =~= more);
    all
}

/// The stubs that some states record.
pub fn stub_paths_from_states(states: &Vec<BundleState>) -> (found: Result<Vec<String>, StubError>)
    ensures
        paths_view(found) == stub_paths(bundle::state_views(states@)),
{
    let ghost all = bundle::state_views(states@);
    let ghost errors = recorded_errors(all);
    let mut list: Vec<String> = Vec::new();
    assert(all.take(0) =~= Seq::empty());
    assert(text::texts(list@) =~= Seq::empty());
    for i in 0..states.len()
        invariant
            all == bundle::state_views(states@),
            errors == recorded_errors(all),
            forall|j: int| 0 <= j < i ==> errors[j] is None,
            text::texts(list@) == recorded_paths(all.take(i as int)),
    {
        let state = &states[i];
        proof {
            assert(all.take(i + 1).drop_last() =~= all.take(i as int));
            assert(all.take(i + 1).last() == state@);
        }
        match bundle::validate_managed_paths(state) {
            Ok(_) => {},
            Err(error) => {
                proof {
                    bundle::lemma_first_error(errors, i as int);
                }
                return Err(error);
            },
        }
        list = append_paths(list, state);
    }
    proof {
        bundle::lemma_no_error(errors);
        assert(all.take(all.len() as int) =~= all);
    }
    Ok(list)
}

/// The stubs that are tracked or recorded for the system, in the order of
/// paths. Of paths that are the same the first is kept.
pub open spec fn all_stub_paths(known: Seq<Seq<char>>, states: Seq<StateView>) -> Result<
    Seq<Seq<char>>,
    ErrorView,
> {
    match stub_paths(states) {
        Ok(recorded) => Ok(paths::path_set((known + recorded).reverse())),
        Err(error) => Err(error),
    }
}

/// Adds paths to a sorted list, the last first.
fn sort_paths(list: &Vec<String>) -> (sorted: Vec<String>)
    ensures
        text::texts(sorted@) == paths::path_set(text::texts(list@).reverse()),
{
    let ghost backwards = text::texts(list@).reverse();
    let count = list.len();
    let mut sorted: Vec<String> = Vec::new();
    let mut left: usize = count;
    assert(text::texts(sorted@) =~= paths::path_set(backwards.take(0)));
    while left > 0
        invariant
            count == list@.len(),
            left <= count,
            backwards == text::texts(list@).reverse(),
            text::texts(sorted@) == paths::path_set(backwards.take(count - left)),
        decreases left,
    {
        left -= 1;
        proof {
            let upto = backwards.take(count - left);
            assert(upto.drop_last() =~= backwards.take(count - left - 1));
            assert(upto.last() == list@[left as int]@);
            paths::law_path_set(backwards.take(count - left - 1), upto.last());
        }
        sorted = paths::insert_path(sorted, list[left].clone());
    }
    assert(backwards.take(count as int) =~= backwards);
    sorted
}

/// The stubs that are tracked (`known`) or recorded for the system, in the order
/// of paths, each once.
pub fn tracked_stub_paths(known: Vec<String>, system_states: &Vec<BundleState>) -> (found: Result<
    Vec<String>,
    StubError,
>)
    ensures
        paths_view(found) == all_stub_paths(
            text::texts(known@),
            bundle::state_views(system_states@),
        ),
{
    let ghost first = text::texts(known@);
    let mut list = known;
    match stub_paths_from_states(system_states) {
        Ok(recorded) => {
            let ghost second = text::texts(recorded@);
            for path in it: recorded
                invariant
                    second == text::texts(it.seq()),
                    text::texts(list@) == first + second.take(it.index()),
            {
                let ghost known_now = text::texts(list@);
                let ghost view = path@;
                proof {
                    assert(second[it.index()] == view);
                }
                list.push(path);
                assert(text::texts(list@) =~= known_now.push(view));
                assert(known_now.push(view) =~= first + second.take(it.index() + 1));
            }
            assert(second.take(second.len() as int) =~= second);
        },
        Err(error) => {
            return Err(error);
        },
    }
    Ok(sort_paths(&list))
}

/// The listed stubs come in order, hold each tracked and each recorded path
/// once, and no other.
pub proof fn law_all_stub_paths(known: Seq<Seq<char>>, states: Seq<StateView>, path: Seq<char>)
    requires
        stub_paths(states) is Ok,
    ensures
        paths::paths_sorted(all_stub_paths(known, states)->Ok_0),
        paths::has_path(all_stub_paths(known, states)->Ok_0, path) <==> paths::has_path(known, path)
            || paths::has_path(recorded_paths(states), path),
{
    let recorded = recorded_paths(states);
    let both = known + recorded;
    let list = both.reverse();
    paths::law_path_set(list, path);
    if paths::has_path(list, path) {
        let i = choose|i: int| 0 <= i < list.len() && paths::same_path(#[trigger] list[i], path);
        let j = both.len() - 1 - i;
        assert(list[i] == both[j]);
        if j < known.len() {
            assert(paths::same_path(known[j], path));
        } else {
            assert(paths::same_path(recorded[j - known.len()], path));
        }
    }
    if paths::has_path(known, path) {
        let j = choose|j: int| 0 <= j < known.len() && paths::same_path(#[trigger] known[j], path);
        assert(both[j] == known[j]);
        assert(list[both.len() - 1 - j] == both[j]);
        assert(paths::same_path(list[both.len() - 1 - j], path));
    }
    if paths::has_path(recorded, path) {
        let j = choose|j: int|
            0 <= j < recorded.len() && paths::same_path(#[trigger] recorded[j], path);
        let k = j + known.len();
        assert(both[k] == recorded[j]);
        assert(list[both.len() - 1 - k] == both[k]);
        assert(paths::same_path(list[both.len() - 1 - k], path));
    }
}

/// The stubs that a synchronised bundle records.
pub open spec fn bundle_stubs(bundle: BundleView) -> Result<Seq<Seq<char>>, ErrorView> {
    match bundle.state {
        None => Err(ErrorView::NotSynchronized { source: bundle.source_path }),
        Some(state) => match bundle::first_error(state.place_errors()) {
            Some(error) => Err(error),
            None => Ok(plan::managed_paths(state.commands)),
        },
    }
}

/// The stubs that a synchronised bundle records.
pub fn bundle_stub_paths(bundle: &Bundle) -> (found: Result<Vec<String>, StubError>)
    ensures
        paths_view(found) == bundle_stubs(bundle@),
{
    match &bundle.state {
        None => Err(StubError::NotSynchronized { source: bundle.source_path.clone() }),
        Some(state) => {
            match bundle::validate_managed_paths(state) {
                Ok(_) => {},
                Err(error) => {
                    return Err(error);
                },
            }
            let none: Vec<String> = Vec::new();
            let list = append_paths(none, state);
            assert(text::texts(list@) =~= plan::managed_paths(state@.commands));
            Ok(list)
        },
    }
}

/// An upgrade of a bundle that was never synchronized is refused. Otherwise it looks
/// at the path of each recorded command, in order, unless one of these is not
/// valid.
pub proof fn law_bundle_stubs(bundle: BundleView)
    ensures
        bundle.state is None ==> bundle_stubs(bundle) == Err::<Seq<Seq<char>>, ErrorView>(
            ErrorView::NotSynchronized { source: bundle.source_path },
        ),
        bundle.state matches Some(state) ==> match bundle_stubs(bundle) {
            Ok(list) => {
                &&& list.len() == state.commands.len()
                &&& forall|i: int|
                    0 <= i < list.len() ==> #[trigger] list[i] == state.commands[i].1.path
                        && command::managed_path_error(
                        state.into,
                        state.commands[i].0,
                        state.commands[i].1.path,
                    ) is None
            },
            Err(error) => exists|i: int|
                0 <= i < state.commands.len() && command::managed_path_error(
                    state.into,
                    (#[trigger] state.commands[i]).0,
                    state.commands[i].1.path,
                ) == Some(error),
        },
{
    if let Some(state) = bundle.state {
        let errors = state.place_errors();
        bundle::lemma_error_or_all_pass(errors);
        match bundle_stubs(bundle) {
            Ok(list) => {
                bundle::lemma_all_pass(errors);
                assert forall|i: int| 0 <= i < list.len() implies #[trigger] list[i]
                    == state.commands[i].1.path && command::managed_path_error(
                    state.into,
                    state.commands[i].0,
                    state.commands[i].1.path,
                ) is None by {
                    assert(errors[i] is None);
                }
            },
            Err(error) => {
                let i = choose|i: int|
                    0 <= i < errors.len() && (#[trigger] errors[i]) == bundle::first_error(errors);
                assert(command::managed_path_error(
                    state.into,
                    state.commands[i].0,
                    state.commands[i].1.path,
                ) == Some(error));
            },
        }
    }
}

/// The stubs of one state are the paths of its commands, in order, and those of
/// several states follow each other.
pub proof fn law_recorded_paths(first: Seq<StateView>, second: Seq<StateView>, state: StateView)
    ensures
        recorded_paths(first + second) == recorded_paths(first) + recorded_paths(second),
        recorded_paths(Seq::empty()) == Seq::<Seq<char>>::empty(),
        recorded_paths(seq![state]).len() == state.commands.len(),
        forall|i: int|
            0 <= i < state.commands.len() ==> #[trigger] recorded_paths(seq![state])[i]
                == state.commands[i].1.path,
    decreases second.len(),
{
    let one = seq![state];
    assert(one.drop_last() =~= Seq::<StateView>::empty());
    assert(recorded_paths(one.drop_last()) =~= Seq::empty());
    assert(recorded_paths(one) =~= plan::managed_paths(state.commands));
    if second.len() == 0 {
        assert(first + second =~= first);
        assert(recorded_paths(first) + recorded_paths(second) =~= recorded_paths(first));
    } else {
        law_recorded_paths(first, second.drop_last(), state);
        assert((first + second).drop_last() =~= first + second.drop_last());
        assert((first + second).last() == second.last());
        assert(recorded_paths(first + second) =~= recorded_paths(first) + recorded_paths(second));
    }
}

/// The stubs that states record are refused exactly if some recorded place is not
/// valid.
pub proof fn law_stub_paths_refused(states: Seq<StateView>)
    ensures
        stub_paths(states) is Ok <==> forall|i: int, k: int|
            0 <= i < states.len() && 0 <= k < states[i].commands.len()
                ==> command::managed_path_error(
                states[i].into,
                (#[trigger] states[i].commands[k]).0,
                states[i].commands[k].1.path,
            ) is None,
        stub_paths(states) matches Ok(list) ==> list == recorded_paths(states),
{
    let errors = recorded_errors(states);
    bundle::lemma_error_or_all_pass(errors);
    if bundle::first_error(errors) is Some {
        let i = choose|i: int| 0 <= i < errors.len() && (#[trigger] errors[i]) is Some;
        let inner = states[i].place_errors();
        bundle::lemma_error_or_all_pass(inner);
        let k = choose|k: int| 0 <= k < inner.len() && (#[trigger] inner[k]) is Some;
        assert(command::managed_path_error(
            states[i].into,
            states[i].commands[k].0,
            states[i].commands[k].1.path,
        ) is Some);
    } else {
        bundle::lemma_all_pass(errors);
        assert forall|i: int, k: int|
            0 <= i < states.len() && 0 <= k < states[i].commands.len() implies
            command::managed_path_error(
            states[i].into,
            (#[trigger] states[i].commands[k]).0,
            states[i].commands[k].1.path,
        ) is None by {
            assert(errors[i] is None);
            bundle::lemma_all_pass(states[i].place_errors());
            assert(states[i].place_errors()[k] is None);
        }
    }
}

/// Each listed stub is a tracked or a recorded one, as it was written there.
pub proof fn law_listed_stubs_are_given(
    known: Seq<Seq<char>>,
    states: Seq<StateView>,
    list: Seq<Seq<char>>,
)
    requires
        all_stub_paths(known, states) == Ok::<Seq<Seq<char>>, ErrorView>(list),
    ensures
        forall|i: int|
            0 <= i < list.len() ==> known.contains(#[trigger] list[i]) || recorded_paths(
                states,
            ).contains(list[i]),
{
    let given = known + recorded_paths(states);
    paths::law_path_set(given.reverse(), Seq::empty());
    assert forall|i: int| 0 <= i < list.len() implies known.contains(#[trigger] list[i])
        || recorded_paths(states).contains(list[i]) by {
        assert(given.reverse().contains(list[i]));
        let k = choose|k: int| 0 <= k < given.reverse().len() && given.reverse()[k] == list[i];
        let j = given.len() - 1 - k;
        assert(given[j] == list[i]);
        if j < known.len() {
            assert(known[j] == list[i]);
        } else {
            assert(recorded_paths(states)[j - known.len()] == list[i]);
        }
    }
}

/// Of tracked and recorded stubs that are the same path, the first is listed as it
/// is written.
pub proof fn law_first_spelling_is_listed(
    known: Seq<Seq<char>>,
    states: Seq<StateView>,
    list: Seq<Seq<char>>,
    at: int,
)
    requires
        all_stub_paths(known, states) == Ok::<Seq<Seq<char>>, ErrorView>(list),
        0 <= at < (known + recorded_paths(states)).len(),
        forall|j: int|
            0 <= j < at ==> !paths::same_path(
                #[trigger] (known + recorded_paths(states))[j],
                (known + recorded_paths(states))[at],
            ),
    ensures
        list.contains((known + recorded_paths(states))[at]),
{
    let given = known + recorded_paths(states);
    let turned = given.reverse();
    let place = given.len() - 1 - at;
    assert(turned[place] == given[at]);
    assert forall|j: int| place < j < turned.len() implies !paths::same_path(
        #[trigger] turned[j],
        turned[place],
    ) by {
        assert(turned[j] == given[given.len() - 1 - j]);
    }
    paths::law_last_path_is_kept(turned, place);
}

} // verus!
