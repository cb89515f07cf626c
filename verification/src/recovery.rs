//! How an interrupted sync is undone.
//!
//! Undoing a sync never removes a file that the sync did not install. Where it
//! cannot undo a change, it goes on with the others and keeps the transaction.
use vstd::prelude::*;
use crate::owner;
use crate::digest;
use crate::bundle::Bundle;
use crate::bundle::BundleState;
use crate::bundle::BundleView;
use crate::command;
use crate::error::ErrorView;
use crate::error::StubError;
use crate::message;
use crate::message::Notice;
use crate::message::NoticeView;
use crate::message::Subject;
use crate::message::SubjectView;
use crate::name_map::NameMap;
use crate::node;
use crate::node::Node;
use crate::node::NodeView;
use crate::paths;
use crate::text;
use crate::transaction;
use crate::transaction::RecordFile;
use crate::transaction::RecordFileView;
use crate::transaction::RecordView;
use crate::transaction::SnapshotView;
use crate::transaction::SyncFileTransaction;
use crate::transaction::SyncTransactionRecord;
use crate::transaction::TrackedStubSnapshot;
use crate::transaction::TransactionChange;
use crate::transaction::TransactionChangeView;

verus! {

/// Whether what stands at the destination of a change is to be removed when the
/// change is undone. Only a file that the sync installed may be.
pub open spec fn destination_outcome(
    path: Seq<char>,
    found: NodeView,
    id: Seq<char>,
    installed_hash: Option<Seq<char>>,
) -> Result<bool, ErrorView> {
    match found {
        NodeView::Absent => Ok(false),
        NodeView::Unknown { reason } => Err(ErrorView::Inaccessible { path, reason }),
        NodeView::Directory => Err(ErrorView::RecoversDirectory { path }),
        NodeView::File { .. } => if installed_hash is None {
            Err(ErrorView::NotInstalled { path })
        } else if found.hash() is None {
            Err(ErrorView::Unreadable { path })
        } else if found.hash() != installed_hash {
            Err(ErrorView::ChangedAfterSync { path })
        } else if found.owner() != Some(id) {
            Err(ErrorView::OtherOwner { path })
        } else {
            Ok(true)
        },
        _ => Err(ErrorView::NotInstalled { path }),
    }
}

/// Tells whether what stands at the destination of a change is to be removed
/// when the change is undone.
pub fn remove_transaction_destination(
    path: &str,
    found: &Node,
    bundle_id: &str,
    installed_hash: &Option<String>,
) -> (removes: Result<bool, StubError>)
    ensures
        transaction::answer_view(removes) == destination_outcome(
            path@,
            found@,
            bundle_id@,
            text::text_view(*installed_hash),
        ),
{
    match found {
        Node::Absent => Ok(false),
        Node::Unknown { reason } => Err(
            StubError::Inaccessible { path: path.to_owned(), reason: reason.clone() },
        ),
        Node::Directory => Err(StubError::RecoversDirectory { path: path.to_owned() }),
        Node::File { .. } => {
            let expected = match installed_hash {
                Some(hash) => hash,
                None => {
                    return Err(StubError::NotInstalled { path: path.to_owned() });
                },
            };
            let actual = match node::file_hash(path, found) {
                Ok(hash) => hash,
                Err(error) => {
                    return Err(error);
                },
            };
            if !text::text_eq(actual.as_str(), expected.as_str()) {
                return Err(StubError::ChangedAfterSync { path: path.to_owned() });
            }
            if !node::file_is_owned_by_bundle(found, bundle_id) {
                return Err(StubError::OtherOwner { path: path.to_owned() });
            }
            Ok(true)
        },
        _ => Err(StubError::NotInstalled { path: path.to_owned() }),
    }
}

/// How a change is undone: first what stands at the destination is removed, then
/// the original is moved back, as far as each applies.
#[derive(Clone, Copy, Debug, PartialEq, Eq, Structural)]
pub struct Undo {
    pub remove_destination: bool,
    pub restore_original: bool,
}

/// How a change is undone, given what stands at its destination and among the
/// originals.
pub open spec fn undo_outcome(
    destination: Seq<char>,
    found: NodeView,
    original: NodeView,
    id: Seq<char>,
    change: TransactionChangeView,
) -> Result<Undo, ErrorView> {
    if original.present() || !change.had_original {
        match destination_outcome(destination, found, id, change.installed_hash) {
            Ok(remove_destination) => Ok(
                Undo { remove_destination, restore_original: original.present() },
            ),
            Err(error) => Err(error),
        }
    } else {
        Ok(Undo { remove_destination: false, restore_original: false })
    }
}

/// The model of an undo or an error.
pub open spec fn undo_view(undo: Result<Undo, StubError>) -> Result<Undo, ErrorView> {
    match undo {
        Ok(how) => Ok(how),
        Err(error) => Err(error@),
    }
}

/// Tells how a change is undone, given what stands at its destination and among
/// the originals.
pub fn undo_change(
    destination: &str,
    found: &Node,
    original: &Node,
    bundle_id: &str,
    change: &TransactionChange,
) -> (undo: Result<Undo, StubError>)
    ensures
        undo_view(undo) == undo_outcome(destination@, found@, original@, bundle_id@, change@),
{
    let restore_original = node::path_exists(original);
    if restore_original || !change.had_original {
        match remove_transaction_destination(
            destination,
            found,
            bundle_id,
            &change.installed_hash,
        ) {
            Ok(remove_destination) => Ok(Undo { remove_destination, restore_original }),
            Err(error) => Err(error),
        }
    } else {
        Ok(Undo { remove_destination: false, restore_original: false })
    }
}

/// What happens to the file that records the state of a bundle.
#[derive(Clone, Copy, Debug, PartialEq, Eq, Structural)]
pub enum StateAction {
    /// The state is written.
    Write,
    /// The file is removed.
    Remove,
    /// There is no file to remove.
    Nothing,
}

/// What brings the recorded state back to `state`, given what stands at its
/// place.
pub open spec fn state_action(path: Seq<char>, recorded: bool, place: NodeView) -> Result<
    StateAction,
    ErrorView,
> {
    if recorded {
        Ok(StateAction::Write)
    } else {
        match place {
            NodeView::Absent => Ok(StateAction::Nothing),
            NodeView::Unknown { reason } => Err(ErrorView::Inaccessible { path, reason }),
            _ => Ok(StateAction::Remove),
        }
    }
}

/// What brings the recorded state at `path` back to `state`, given what stands
/// there.
pub fn restore_bundle_state(path: &str, state: &Option<BundleState>, place: &Node) -> (action:
    Result<StateAction, StubError>)
    ensures
        match action {
            Ok(what) => state_action(path@, state is Some, place@) == Ok::<StateAction, ErrorView>(
                what,
            ),
            Err(error) => state_action(path@, state is Some, place@) == Err::<
                StateAction,
                ErrorView,
            >(error@),
        },
        state is Some ==> action == Ok::<StateAction, StubError>(StateAction::Write),
        state is None && place@ is Absent ==> action == Ok::<StateAction, StubError>(
            StateAction::Nothing,
        ),
        state is None && place@.present() ==> action == Ok::<StateAction, StubError>(
            StateAction::Remove,
        ),
{
    match state {
        Some(_) => Ok(StateAction::Write),
        None => match place {
            Node::Absent => Ok(StateAction::Nothing),
            Node::Unknown { reason } => Err(
                StubError::Inaccessible { path: path.to_owned(), reason: reason.clone() },
            ),
            _ => Ok(StateAction::Remove),
        },
    }
}

/// What brings the tracking of one stub back.
#[derive(Debug)]
pub enum TrackingAction {
    /// The stub is tracked.
    Track { path: String },
    /// The stub is no longer tracked.
    Untrack { path: String },
}

/// The model of a [`TrackingAction`].
pub enum TrackingActionView {
    Track { path: Seq<char> },
    Untrack { path: Seq<char> },
}

impl View for TrackingAction {
    type V = TrackingActionView;

    open spec fn view(&self) -> TrackingActionView {
        match self {
            TrackingAction::Track { path } => TrackingActionView::Track { path: path@ },
            TrackingAction::Untrack { path } => TrackingActionView::Untrack { path: path@ },
        }
    }
}

/// What a snapshot asks for: what was tracked is tracked again, and nothing else.
pub open spec fn tracking_action(snapshot: SnapshotView) -> TrackingActionView {
    if snapshot.was_tracked {
        TrackingActionView::Track { path: snapshot.path }
    } else {
        TrackingActionView::Untrack { path: snapshot.path }
    }
}

/// What a snapshot asks for.
pub fn action_of(snapshot: &TrackedStubSnapshot) -> (action: TrackingAction)
    ensures
        action@ == tracking_action(snapshot@),
{
    if snapshot.was_tracked {
        TrackingAction::Track { path: snapshot.path.clone() }
    } else {
        TrackingAction::Untrack { path: snapshot.path.clone() }
    }
}

/// How a message tells that something failed, and why.
pub open spec fn failure_notice(subject: SubjectView, reason: Seq<char>) -> NoticeView {
    NoticeView { subject, rest: ": "@ + reason }
}

/// What tells of the snapshots that could not be restored.
pub open spec fn tracking_errors(
    snapshots: Seq<SnapshotView>,
    failures: Seq<Option<Seq<char>>>,
) -> Seq<NoticeView>
    decreases failures.len(),
{
    if failures.len() == 0 {
        Seq::empty()
    } else {
        let before = tracking_errors(snapshots, failures.drop_last());
        match failures.last() {
            Some(reason) => before.push(
                failure_notice(SubjectView::Path(snapshots[failures.len() - 1].path), reason),
            ),
            None => before,
        }
    }
}

/// The error of restoring the tracking, given why each snapshot could not be
/// restored, if so.
pub open spec fn tracking_error(
    snapshots: Seq<SnapshotView>,
    failures: Seq<Option<Seq<char>>>,
) -> Option<ErrorView> {
    let errors = tracking_errors(snapshots, failures);
    if errors.len() == 0 {
        None
    } else {
        Some(ErrorView::TrackingFailed { notices: errors })
    }
}

/// The texts of optional strings.
pub open spec fn failure_views(failures: Seq<Option<String>>) -> Seq<Option<Seq<char>>> {
    Seq::new(failures.len(), |i: int| text::text_view(failures[i]))
}

/// Restoring the tracking succeeds exactly if every snapshot could be restored.
pub proof fn law_tracking_error(
    snapshots: Seq<SnapshotView>,
    failures: Seq<Option<Seq<char>>>,
)
    ensures
        tracking_error(snapshots, failures) is None <==> forall|i: int|
            0 <= i < failures.len() ==> (#[trigger] failures[i]) is None,
    decreases failures.len(),
{
    if failures.len() > 0 {
        let rest = failures.drop_last();
        let last = failures.len() - 1;
        law_tracking_error(snapshots, rest);
        assert(failures[last] == failures.last());
        if forall|i: int| 0 <= i < rest.len() ==> (#[trigger] rest[i]) is None {
            assert forall|i: int| 0 <= i < last implies (#[trigger] failures[i]) is None by {
                assert(rest[i] == failures[i]);
            }
        } else {
            let i = choose|i: int| 0 <= i < rest.len() && !((#[trigger] rest[i]) is None);
            assert(failures[i] == rest[i]);
        }
    }
}

/// The outcome of restoring the tracking, given why each snapshot could not be
/// restored, if so.
pub fn tracking_outcome(
    snapshots: &Vec<TrackedStubSnapshot>,
    failures: &Vec<Option<String>>,
) -> (restored: Result<(), StubError>)
    requires
        failures@.len() == snapshots@.len(),
    ensures
        command::error_of(restored) == tracking_error(
            transaction::snapshot_views(snapshots@),
            failure_views(failures@),
        ),
{
    let ghost views = transaction::snapshot_views(snapshots@);
    let ghost all = failure_views(failures@);
    let mut errors: Vec<Notice> = Vec::new();
    assert(all.take(0) =~= Seq::empty());
    assert(message::notice_views(errors@) =~= Seq::empty());
    for i in 0..failures.len()
        invariant
            failures@.len() == snapshots@.len(),
            views == transaction::snapshot_views(snapshots@),
            all == failure_views(failures@),
            message::notice_views(errors@) == tracking_errors(views, all.take(i as int)),
    {
        let ghost before = message::notice_views(errors@);
        proof {
            assert(all.take(i + 1).drop_last() =~= all.take(i as int));
            assert(all.take(i + 1).last() == all[i as int]);
        }
        match &failures[i] {
            Some(reason) => {
                errors.push(
                    Notice {
                        subject: Subject::Path(snapshots[i].path.clone()),
                        rest: text::concat(": ", reason.as_str()),
                    },
                );
                assert(message::notice_views(errors@) =~= before.push(
                    failure_notice(SubjectView::Path(views[i as int].path), reason@),
                ));
            },
            None => {},
        }
    }
    assert(all.take(all.len() as int) =~= all);
    assert(message::notice_views(errors@).len() == errors@.len());
    if errors.len() == 0 {
        Ok(())
    } else {
        Err(StubError::TrackingFailed { notices: errors })
    }
}

/// Trying the action with `apply` may end with `failure`.
pub open spec fn tried_with<F: Fn(&TrackingAction) -> Option<String>>(
    apply: F,
    action: TrackingActionView,
    failure: Option<Seq<char>>,
) -> bool {
    exists|asked: TrackingAction, told: Option<String>| #[trigger]
        call_ensures(apply, (&asked,), told) && asked@ == action && text::text_view(told)
            == failure
}

/// Brings the tracking of stubs back: what each snapshot asks for is tried, in
/// order, also after another has failed. `apply` performs an action, and tells
/// why it failed, if it did.
pub fn restore_tracking<F: Fn(&TrackingAction) -> Option<String>>(
    snapshots: &Vec<TrackedStubSnapshot>,
    apply: F,
) -> (restored: Result<(), StubError>)
    requires
        forall|action: &TrackingAction| call_requires(apply, (action,)),
    ensures
        exists|failures: Seq<Option<Seq<char>>>|
            {
                &&& command::error_of(restored) == #[trigger] tracking_error(
                    transaction::snapshot_views(snapshots@),
                    failures,
                )
                &&& failures.len() == snapshots@.len()
                &&& forall|i: int|
                    0 <= i < failures.len() ==> tried_with(
                        apply,
                        tracking_action(snapshots@[i]@),
                        #[trigger] failures[i],
                    )
            },
{
    let mut failures: Vec<Option<String>> = Vec::new();
    for i in 0..snapshots.len()
        invariant
            forall|action: &TrackingAction| call_requires(apply, (action,)),
            failures@.len() == i,
            forall|j: int|
                0 <= j < i ==> tried_with(
                    apply,
                    tracking_action(snapshots@[j]@),
                    text::text_view(#[trigger] failures@[j]),
                ),
    {
        let action = action_of(&snapshots[i]);
        let failure = apply(&action);
        assert(tried_with(apply, action@, text::text_view(failure)));
        failures.push(failure);
    }
    let ghost views = failure_views(failures@);
    assert forall|i: int| 0 <= i < views.len() implies tried_with(
        apply,
        tracking_action(snapshots@[i]@),
        #[trigger] views[i],
    ) by {
        assert(views[i] == text::text_view(failures@[i]));
    }
    tracking_outcome(snapshots, &failures)
}

/// One step of undoing a sync.
#[derive(Debug)]
pub enum RollbackStep {
    /// The change of a command is undone.
    Undo { name: String, destination: String, original: String },
    /// The moves reach the disk.
    SyncCommands,
    /// The state of the bundle is brought back.
    RestoreState,
    /// The tracking of the stubs is brought back.
    RestoreTracking,
}

/// The model of a [`RollbackStep`].
pub enum RollbackStepView {
    Undo { name: Seq<char>, destination: Seq<char>, original: Seq<char> },
    SyncCommands,
    RestoreState,
    RestoreTracking,
}

impl View for RollbackStep {
    type V = RollbackStepView;

    open spec fn view(&self) -> RollbackStepView {
        match self {
            RollbackStep::Undo { name, destination, original } => RollbackStepView::Undo {
                name: name@,
                destination: destination@,
                original: original@,
            },
            RollbackStep::SyncCommands => RollbackStepView::SyncCommands,
            RollbackStep::RestoreState => RollbackStepView::RestoreState,
            RollbackStep::RestoreTracking => RollbackStepView::RestoreTracking,
        }
    }
}

impl RollbackStepView {
    /// What a message calls the step.
    pub open spec fn label(self) -> SubjectView {
        match self {
            RollbackStepView::Undo { name, destination, original } => SubjectView::Path(
                destination,
            ),
            RollbackStepView::SyncCommands => SubjectView::Named("command directory"@),
            RollbackStepView::RestoreState => SubjectView::Named("bundle state"@),
            RollbackStepView::RestoreTracking => SubjectView::Named("tracked stubs"@),
        }
    }
}

impl RollbackStep {
    /// What a message calls the step.
    pub fn label(&self) -> (label: Subject)
        ensures
            label@ == self@.label(),
    {
        match self {
            RollbackStep::Undo { destination, .. } => Subject::Path(destination.clone()),
            RollbackStep::SyncCommands => Subject::Named("command directory".to_owned()),
            RollbackStep::RestoreState => Subject::Named("bundle state".to_owned()),
            RollbackStep::RestoreTracking => Subject::Named("tracked stubs".to_owned()),
        }
    }
}

/// The models of some steps.
pub open spec fn rollback_views(steps: Seq<RollbackStep>) -> Seq<RollbackStepView> {
    Seq::new(steps.len(), |i: int| steps[i]@)
}

/// The step that undoes the change of the command `name`.
pub open spec fn undo_step(into: Seq<char>, transaction: Seq<char>, name: Seq<char>) -> RollbackStepView {
    RollbackStepView::Undo {
        name,
        destination: paths::joined(into, name),
        original: paths::joined(transaction::originals_place(transaction), name),
    }
}

/// The steps that undo the changes, the last first.
pub open spec fn undo_steps(
    into: Seq<char>,
    transaction: Seq<char>,
    changes: Seq<(Seq<char>, TransactionChangeView)>,
) -> Seq<RollbackStepView> {
    Seq::new(
        changes.len(),
        |i: int| undo_step(into, transaction, changes[changes.len() - 1 - i].0),
    )
}

/// The steps that undo a sync, in the order in which they are performed.
pub open spec fn rollback_steps(
    into: Seq<char>,
    transaction: Seq<char>,
    changes: Seq<(Seq<char>, TransactionChangeView)>,
) -> Seq<RollbackStepView> {
    undo_steps(into, transaction, changes) + seq![
        RollbackStepView::SyncCommands,
        RollbackStepView::RestoreState,
        RollbackStepView::RestoreTracking,
    ]
}

/// An interrupted sync that is being undone.
#[derive(Debug)]
pub struct Rollback {
    /// The directory of the transaction.
    pub path: String,
    /// The record of the sync.
    pub record: SyncTransactionRecord,
    /// The steps, in order.
    pub steps: Vec<RollbackStep>,
    /// The number of steps that were tried.
    pub done: usize,
    /// What failed.
    pub errors: Vec<Notice>,
}

/// The model of a [`Rollback`].
pub struct RollbackView {
    pub path: Seq<char>,
    pub record: RecordView,
    pub steps: Seq<RollbackStepView>,
    pub done: int,
    pub errors: Seq<NoticeView>,
}

impl View for Rollback {
    type V = RollbackView;

    open spec fn view(&self) -> RollbackView {
        RollbackView {
            path: self.path@,
            record: self.record@,
            steps: rollback_views(self.steps@),
            done: self.done as int,
            errors: message::notice_views(self.errors@),
        }
    }
}

/// The beginning of undoing a sync of the bundle.
pub open spec fn begun_rollback(
    into: Seq<char>,
    transaction: Seq<char>,
    record: RecordView,
) -> RollbackView {
    RollbackView {
        path: transaction,
        record,
        steps: rollback_steps(into, transaction, record.changes),
        done: 0,
        errors: Seq::empty(),
    }
}

impl RollbackView {
    /// The rollback after its next step was tried. `failure` tells why it
    /// failed, if it did.
    pub open spec fn after(self, failure: Option<Seq<char>>) -> RollbackView {
        if self.done < self.steps.len() {
            RollbackView {
                done: self.done + 1,
                errors: match failure {
                    Some(reason) => self.errors.push(
                        failure_notice(self.steps[self.done].label(), reason),
                    ),
                    None => self.errors,
                },
                ..self
            }
        } else {
            self
        }
    }

    /// The rollback after several steps were tried.
    pub open spec fn after_all(self, failures: Seq<Option<Seq<char>>>) -> RollbackView
        decreases failures.len(),
    {
        if failures.len() == 0 {
            self
        } else {
            self.after_all(failures.drop_last()).after(failures.last())
        }
    }

    /// What became of the rollback once all steps were tried.
    pub open spec fn outcome(self) -> Option<Result<Seq<char>, ErrorView>> {
        if self.done < self.steps.len() {
            None
        } else if self.errors.len() == 0 {
            Some(Ok(self.path))
        } else {
            Some(
                Err(
                    ErrorView::RollbackFailed {
                        notices: self.errors,
                        path: self.path,
                    },
                ),
            )
        }
    }
}

/// The steps that undo a sync.
fn plan_rollback(into: &str, transaction: &str, changes: &NameMap<TransactionChange>) -> (steps: Vec<
    RollbackStep,
>)
    ensures
        rollback_views(steps@) == rollback_steps(into@, transaction@, changes@),
{
    let count = changes.len();
    let originals = transaction::originals_path(transaction);
    let ghost undone = undo_steps(into@, transaction@, changes@);
    let mut steps: Vec<RollbackStep> = Vec::new();
    let mut left: usize = count;
    while left > 0
        invariant
            count == changes@.len(),
            left <= count,
            originals@ == transaction::originals_place(transaction@),
            undone == undo_steps(into@, transaction@, changes@),
            steps@.len() == count - left,
            forall|j: int| 0 <= j < count - left ==> (#[trigger] steps@[j])@ == undone[j],
        decreases left,
    {
        left -= 1;
        let name = changes.name_at(left);
        steps.push(
            RollbackStep::Undo {
                name: name.clone(),
                destination: paths::join(into, name.as_str()),
                original: paths::join(originals.as_str(), name.as_str()),
            },
        );
    }
    steps.push(RollbackStep::SyncCommands);
    steps.push(RollbackStep::RestoreState);
    steps.push(RollbackStep::RestoreTracking);
    assert(rollback_views(steps@) =~= rollback_steps(into@, transaction@, changes@));
    steps
}

/// The model of a rollback or an error.
pub open spec fn rollback_result(rollback: Result<Rollback, StubError>) -> Result<
    RollbackView,
    ErrorView,
> {
    match rollback {
        Ok(begun) => Ok(begun@),
        Err(error) => Err(error@),
    }
}

/// How undoing the sync that `record` tells of begins, or why the record cannot
/// be followed.
pub open spec fn rollback_outcome(
    bundle: BundleView,
    transaction: Seq<char>,
    record: RecordView,
) -> Result<RollbackView, ErrorView> {
    match transaction::record_error(bundle, record) {
        Some(error) => Err(error),
        None => Ok(begun_rollback(bundle.into, transaction, record)),
    }
}

/// Begins to undo the sync that `record` tells of.
pub fn rollback_transaction(
    bundle: &Bundle,
    path: &str,
    record: SyncTransactionRecord,
) -> (rollback: Result<Rollback, StubError>)
    ensures
        rollback_result(rollback) == rollback_outcome(bundle@, path@, record@),
{
    match transaction::validate_transaction_record(bundle, &record) {
        Ok(_) => {},
        Err(error) => {
            return Err(error);
        },
    }
    let steps = plan_rollback(bundle.into.as_str(), path, &record.changes);
    let errors: Vec<Notice> = Vec::new();
    assert(message::notice_views(errors@) =~= Seq::empty());
    Ok(Rollback { path: path.to_owned(), record, steps, done: 0, errors })
}

impl Rollback {
    /// The step that is to be performed next, if any is left.
    pub fn next(&self) -> (step: Option<&RollbackStep>)
        ensures
            match step {
                Some(next) => self@.done < self@.steps.len() && next@ == self@.steps[self@.done],
                None => self@.done >= self@.steps.len(),
            },
    {
        if self.done < self.steps.len() {
            Some(&self.steps[self.done])
        } else {
            None
        }
    }

    /// The rollback after its next step was tried. `failure` tells why it
    /// failed, if it did.
    pub fn report(self, failure: Option<String>) -> (rollback: Rollback)
        ensures
            rollback@ == self@.after(text::text_view(failure)),
    {
        if self.done >= self.steps.len() {
            return self;
        }
        let ghost before = message::notice_views(self.errors@);
        let mut errors = self.errors;
        match failure {
            Some(reason) => {
                let notice = Notice {
                    subject: self.steps[self.done].label(),
                    rest: text::concat(": ", reason.as_str()),
                };
                let ghost view = notice@;
                errors.push(notice);
                assert(message::notice_views(errors@) =~= before.push(view));
            },
            None => {},
        }
        Rollback {
            path: self.path,
            record: self.record,
            steps: self.steps,
            done: self.done + 1,
            errors,
        }
    }

    /// What became of the rollback, once all steps were tried: the transaction
    /// can be removed, or it is kept because something failed.
    pub fn outcome(&self) -> (outcome: Option<Result<String, StubError>>)
        ensures
            match outcome {
                Some(ended) => self@.outcome() == Some(command::result_view(ended)),
                None => self@.outcome() is None,
            },
    {
        assert(message::notice_views(self.errors@).len() == self.errors@.len());
        if self.done < self.steps.len() {
            None
        } else if self.errors.len() == 0 {
            Some(Ok(self.path.clone()))
        } else {
            Some(
                Err(
                    StubError::RollbackFailed {
                        notices: message::copy_notices(&self.errors),
                        path: self.path.clone(),
                    },
                ),
            )
        }
    }
}

impl SyncFileTransaction {
    /// Begins to undo what the transaction has done, by what was read of its
    /// record.
    pub fn rollback(self, bundle: &Bundle, file: RecordFile) -> (rollback: Result<
        Rollback,
        StubError,
    >)
        ensures
            rollback_result(rollback) == match transaction::record_outcome(self.path@, file@) {
                Ok(record) => rollback_outcome(bundle@, self.path@, record),
                Err(error) => Err(error),
            },
    {
        match transaction::read_transaction_record(self.path.as_str(), file) {
            Ok(record) => rollback_transaction(bundle, self.path.as_str(), record),
            Err(error) => Err(error),
        }
    }
}

/// What the steps of a rollback report.
pub proof fn lemma_reported(
    into: Seq<char>,
    transaction: Seq<char>,
    record: RecordView,
    failures: Seq<Option<Seq<char>>>,
)
    requires
        failures.len() <= rollback_steps(into, transaction, record.changes).len(),
    ensures
        ({
            let begun = begun_rollback(into, transaction, record);
            let after = begun.after_all(failures);
            &&& after.done == failures.len()
            &&& after.steps == begun.steps
            &&& after.path == begun.path
            &&& after.errors.len() == 0 <==> forall|i: int|
                0 <= i < failures.len() ==> (#[trigger] failures[i]) is None
        }),
    decreases failures.len(),
{
    if failures.len() > 0 {
        let rest = failures.drop_last();
        let last = failures.len() - 1;
        lemma_reported(into, transaction, record, rest);
        assert(failures[last] == failures.last());
        if forall|i: int| 0 <= i < rest.len() ==> (#[trigger] rest[i]) is None {
            assert forall|i: int| 0 <= i < last implies (#[trigger] failures[i]) is None by {
                assert(rest[i] == failures[i]);
            }
        } else {
            let i = choose|i: int| 0 <= i < rest.len() && !((#[trigger] rest[i]) is None);
            assert(failures[i] == rest[i]);
        }
    }
}

/// A rollback tries all its steps, whether or not some fail. Its transaction can
/// be removed exactly if none failed.
pub proof fn law_rollback_tries_all_steps(
    into: Seq<char>,
    transaction: Seq<char>,
    record: RecordView,
    failures: Seq<Option<Seq<char>>>,
)
    requires
        failures.len() <= rollback_steps(into, transaction, record.changes).len(),
    ensures
        ({
            let begun = begun_rollback(into, transaction, record);
            let after = begun.after_all(failures);
            &&& failures.len() < begun.steps.len() ==> after.outcome() is None
            &&& failures.len() == begun.steps.len() ==> {
                after.outcome() == Some(Ok::<Seq<char>, ErrorView>(transaction)) <==> forall|i: int|
                    0 <= i < failures.len() ==> (#[trigger] failures[i]) is None
            }
        }),
{
    lemma_reported(into, transaction, record, failures);
}

/// What is to be done about an interrupted sync.
#[derive(Debug)]
pub enum Recovery {
    /// There is none.
    Nothing,
    /// The transaction at this path is complete, or had not begun, and is to be
    /// removed.
    Discard { path: String },
    /// The sync is to be undone.
    RollBack(Rollback),
}

/// The model of a [`Recovery`].
pub enum RecoveryView {
    Nothing,
    Discard { path: Seq<char> },
    RollBack(RollbackView),
}

impl View for Recovery {
    type V = RecoveryView;

    open spec fn view(&self) -> RecoveryView {
        match self {
            Recovery::Nothing => RecoveryView::Nothing,
            Recovery::Discard { path } => RecoveryView::Discard { path: path@ },
            Recovery::RollBack(rollback) => RecoveryView::RollBack(rollback@),
        }
    }
}

/// What is to be done about an interrupted sync of the bundle, given what stands
/// at the places of the transaction, its record and its commit marker.
pub open spec fn recovery_outcome(
    bundle: BundleView,
    place: NodeView,
    file: RecordFileView,
    marker: NodeView,
) -> Result<RecoveryView, ErrorView> {
    let path = transaction::transaction_place(bundle.into, bundle.id);
    match place {
        NodeView::Absent => Ok(RecoveryView::Nothing),
        NodeView::Unknown { reason } => Err(ErrorView::Inaccessible { path, reason }),
        NodeView::Directory => match file {
            RecordFileView::Missing { .. } => Ok(RecoveryView::Discard { path }),
            _ => match transaction::record_outcome(path, file) {
                Err(error) => Err(error),
                Ok(record) => match transaction::record_error(bundle, record) {
                    Some(error) => Err(error),
                    None => match transaction::commit_outcome(
                        transaction::commit_place(path),
                        marker,
                    ) {
                        Err(error) => Err(error),
                        Ok(true) => Ok(RecoveryView::Discard { path }),
                        Ok(false) => Ok(
                            RecoveryView::RollBack(begun_rollback(bundle.into, path, record)),
                        ),
                    },
                },
            },
        },
        _ => Err(ErrorView::InvalidTransactionPath { path }),
    }
}

/// The model of a recovery or an error.
pub open spec fn recovery_result(recovery: Result<Recovery, StubError>) -> Result<
    RecoveryView,
    ErrorView,
> {
    match recovery {
        Ok(what) => Ok(what@),
        Err(error) => Err(error@),
    }
}

/// Tells what is to be done about an interrupted sync of the bundle, given what
/// stands at the places of the transaction, its record and its commit marker.
pub fn recover_interrupted_sync(
    bundle: &Bundle,
    place: &Node,
    file: RecordFile,
    marker: &Node,
) -> (recovery: Result<Recovery, StubError>)
    ensures
        recovery_result(recovery) == recovery_outcome(bundle@, place@, file@, marker@),
{
    let path = transaction::transaction_path(bundle);
    match place {
        Node::Absent => {
            return Ok(Recovery::Nothing);
        },
        Node::Unknown { reason } => {
            return Err(StubError::Inaccessible { path, reason: reason.clone() });
        },
        Node::Directory => {},
        _ => {
            return Err(StubError::InvalidTransactionPath { path });
        },
    }
    match &file {
        RecordFile::Missing { .. } => {
            // The record is written before any command is moved, so without it
            // nothing has changed yet.
            return Ok(Recovery::Discard { path });
        },
        _ => {},
    }
    let record = match transaction::read_transaction_record(path.as_str(), file) {
        Ok(record) => record,
        Err(error) => {
            return Err(error);
        },
    };
    match transaction::validate_transaction_record(bundle, &record) {
        Ok(_) => {},
        Err(error) => {
            return Err(error);
        },
    }
    match transaction::transaction_is_committed(path.as_str(), marker) {
        Err(error) => Err(error),
        Ok(true) => Ok(Recovery::Discard { path }),
        Ok(false) => match rollback_transaction(bundle, path.as_str(), record) {
            Ok(rollback) => Ok(Recovery::RollBack(rollback)),
            Err(error) => Err(error),
        },
    }
}

/// What stands at the destination of a change is removed exactly if it is the file
/// that the sync installed: a readable file with the recorded hash that names the
/// bundle. Nothing there is fine too. Anything else is refused.
pub proof fn law_only_installed_files_are_removed(
    path: Seq<char>,
    found: NodeView,
    id: Seq<char>,
    installed_hash: Option<Seq<char>>,
)
    ensures
        destination_outcome(path, found, id, installed_hash) == Ok::<bool, ErrorView>(true) <==> (
        found matches NodeView::File { bytes: Some(bytes), .. } && installed_hash == Some(
            digest::sha256_hex(bytes),
        ) && owner::owner_of_bytes(bytes) == Some(id)),
        destination_outcome(path, found, id, installed_hash) == Ok::<bool, ErrorView>(false)
            <==> found is Absent,
        destination_outcome(path, found, id, installed_hash) matches Err(error) ==> match found {
            NodeView::Unknown { reason } => error == (ErrorView::Inaccessible { path, reason }),
            NodeView::Directory => error == (ErrorView::RecoversDirectory { path }),
            NodeView::File { bytes, .. } => if installed_hash is None {
                error == (ErrorView::NotInstalled { path })
            } else if bytes is None {
                error == (ErrorView::Unreadable { path })
            } else if digest::sha256_hex(bytes->0) != installed_hash->0 {
                error == (ErrorView::ChangedAfterSync { path })
            } else {
                error == (ErrorView::OtherOwner { path })
            },
            _ => error == (ErrorView::NotInstalled { path }),
        },
{
}

/// Undoing a change puts the original back exactly if it was kept. A change that
/// had an original which was not moved yet needs nothing. Otherwise what the sync
/// installed goes first, and the undo is refused where that is refused.
pub proof fn law_undo(
    destination: Seq<char>,
    found: NodeView,
    original: NodeView,
    id: Seq<char>,
    change: TransactionChangeView,
)
    ensures
        ({
            let kept = !(original is Absent) && !(original is Unknown);
            let undo = undo_outcome(destination, found, original, id, change);
            if !kept && change.had_original {
                undo == Ok::<Undo, ErrorView>(
                    Undo { remove_destination: false, restore_original: false },
                )
            } else {
                match destination_outcome(destination, found, id, change.installed_hash) {
                    Ok(removes) => undo matches Ok(how) && how.restore_original == kept
                        && how.remove_destination == removes,
                    Err(error) => undo == Err::<Undo, ErrorView>(error),
                }
            }
        }),
{
}

/// A rollback undoes each change once, the last first, then brings the state and
/// the tracking back.
pub proof fn law_rollback_steps(
    into: Seq<char>,
    transaction: Seq<char>,
    changes: Seq<(Seq<char>, TransactionChangeView)>,
)
    ensures
        ({
            let steps = rollback_steps(into, transaction, changes);
            let count = changes.len() as int;
            &&& steps.len() == count + 3
            &&& forall|i: int|
                0 <= i < count ==> #[trigger] steps[i] == (RollbackStepView::Undo {
                    name: changes[count - 1 - i].0,
                    destination: paths::joined(into, changes[count - 1 - i].0),
                    original: paths::joined(
                        paths::joined(transaction, "originals"@),
                        changes[count - 1 - i].0,
                    ),
                })
            &&& steps[count] is SyncCommands
            &&& steps[count + 1] is RestoreState
            &&& steps[count + 2] is RestoreTracking
        }),
{
}

/// Nothing is to be recovered exactly if there is no transaction. A transaction
/// without a record, and one that is complete, is discarded. One with a valid
/// record that is not complete is rolled back from the start, by that record.
pub proof fn law_what_is_recovered(
    bundle: BundleView,
    place: NodeView,
    file: RecordFileView,
    marker: NodeView,
)
    ensures
        ({
            let path = transaction::transaction_place(bundle.into, bundle.id);
            let outcome = recovery_outcome(bundle, place, file, marker);
            &&& outcome == Ok::<RecoveryView, ErrorView>(RecoveryView::Nothing) <==> place is Absent
            &&& outcome == Ok::<RecoveryView, ErrorView>(RecoveryView::Discard { path }) <==> {
                &&& place is Directory
                &&& {
                    ||| file is Missing
                    ||| file matches RecordFileView::Parsed(record) && transaction::record_error(
                        bundle,
                        record,
                    ) is None && (marker matches NodeView::File { bytes: Some(bytes), .. } && bytes
                        == vstd::utf8::encode_utf8("committed\n"@))
                }
            }
            &&& outcome matches Ok(RecoveryView::Discard { path: discarded }) ==> discarded == path
            &&& outcome matches Ok(RecoveryView::RollBack(rollback)) ==> {
                &&& place is Directory
                &&& file == RecordFileView::Parsed(rollback.record)
                &&& marker is Absent
                &&& transaction::record_error(bundle, rollback.record) is None
                &&& rollback.path == path
                &&& rollback.done == 0
                &&& rollback.errors.len() == 0
                &&& rollback.steps == rollback_steps(bundle.into, path, rollback.record.changes)
            }
            &&& place is Directory && marker is Absent && (file matches RecordFileView::Parsed(
                record,
            ) && transaction::record_error(bundle, record) is None) ==> (
            outcome matches Ok(RecoveryView::RollBack(_)))
        }),
{
}

/// A recovery is refused exactly if something other than a directory stands at the
/// place of the transaction, or the record or the marker cannot be trusted.
pub proof fn law_recovery_refused(
    bundle: BundleView,
    place: NodeView,
    file: RecordFileView,
    marker: NodeView,
)
    ensures
        recovery_outcome(bundle, place, file, marker) is Err <==> {
            ||| place is Unknown || place is File || place is Symlink || place is Special
            ||| place is Directory && (file is Inaccessible || file is Malformed)
            ||| place is Directory && (file matches RecordFileView::Parsed(record) && {
                ||| transaction::record_error(bundle, record) is Some
                ||| !(marker is Absent) && !(marker matches NodeView::File {
                    bytes: Some(bytes),
                    ..
                } && bytes == vstd::utf8::encode_utf8("committed\n"@))
            })
        },
{
}

/// What is told of the snapshots that could not be restored: the path and the
/// reason of each failure, in order, and nothing else.
pub proof fn law_tracking_failures_are_told(
    snapshots: Seq<SnapshotView>,
    failures: Seq<Option<Seq<char>>>,
) -> (places: Seq<int>)
    ensures
        places.len() == tracking_errors(snapshots, failures).len(),
        forall|k: int|
            0 <= k < places.len() ==> {
                &&& 0 <= #[trigger] places[k] < failures.len()
                &&& failures[places[k]] is Some
                &&& tracking_errors(snapshots, failures)[k].subject == SubjectView::Path(
                    snapshots[places[k]].path,
                )
                &&& tracking_errors(snapshots, failures)[k].rest == ": "@ + failures[places[k]]->0
            },
        forall|k: int, l: int|
            0 <= k < l < places.len() ==> #[trigger] places[k] < #[trigger] places[l],
        forall|i: int|
            0 <= i < failures.len() && (#[trigger] failures[i]) is Some ==> places.contains(i),
    decreases failures.len(),
{
    if failures.len() == 0 {
        Seq::empty()
    } else {
        let rest = failures.drop_last();
        let last = failures.len() - 1;
        let before = law_tracking_failures_are_told(snapshots, rest);
        let places = if failures[last] is Some {
            before.push(last)
        } else {
            before
        };
        assert forall|i: int|
            0 <= i < failures.len() && (#[trigger] failures[i]) is Some implies places.contains(
            i,
        ) by {
            if i < last {
                assert(rest[i] is Some);
                let k = choose|k: int| 0 <= k < before.len() && before[k] == i;
                assert(places[k] == i);
            } else {
                assert(places[before.len() as int] == i);
            }
        }
        places
    }
}

/// What is told of a rollback: what each failed step is called and the reason, in
/// order, and nothing else.
pub proof fn law_rollback_failures_are_told(
    begun: RollbackView,
    failures: Seq<Option<Seq<char>>>,
) -> (places: Seq<int>)
    requires
        begun.done == 0,
        begun.errors.len() == 0,
        failures.len() <= begun.steps.len(),
    ensures
        ({
            let after = begun.after_all(failures);
            &&& after.done == failures.len()
            &&& after.steps == begun.steps
            &&& after.path == begun.path
            &&& after.record == begun.record
            &&& places.len() == after.errors.len()
            &&& forall|k: int|
                0 <= k < places.len() ==> {
                    &&& 0 <= #[trigger] places[k] < failures.len()
                    &&& failures[places[k]] is Some
                    &&& after.errors[k].rest == ": "@ + failures[places[k]]->0
                    &&& match begun.steps[places[k]] {
                        RollbackStepView::Undo { destination, .. } => after.errors[k].subject
                            == SubjectView::Path(destination),
                        RollbackStepView::SyncCommands => after.errors[k].subject
                            == SubjectView::Named("command directory"@),
                        RollbackStepView::RestoreState => after.errors[k].subject
                            == SubjectView::Named("bundle state"@),
                        RollbackStepView::RestoreTracking => after.errors[k].subject
                            == SubjectView::Named("tracked stubs"@),
                    }
                }
        }),
        forall|k: int, l: int|
            0 <= k < l < places.len() ==> #[trigger] places[k] < #[trigger] places[l],
        forall|i: int|
            0 <= i < failures.len() && (#[trigger] failures[i]) is Some ==> places.contains(i),
    decreases failures.len(),
{
    if failures.len() == 0 {
        Seq::empty()
    } else {
        let rest = failures.drop_last();
        let last = failures.len() - 1;
        let before = law_rollback_failures_are_told(begun, rest);
        let places = if failures[last] is Some {
            before.push(last)
        } else {
            before
        };
        assert forall|i: int|
            0 <= i < failures.len() && (#[trigger] failures[i]) is Some implies places.contains(
            i,
        ) by {
            if i < last {
                assert(rest[i] is Some);
                let k = choose|k: int| 0 <= k < before.len() && before[k] == i;
                assert(places[k] == i);
            } else {
                assert(places[before.len() as int] == i);
            }
        }
        places
    }
}

/// A rollback that failed keeps the errors and names the directory where the
/// originals are. One without errors gives the directory to remove.
pub proof fn law_rollback_outcome(rollback: RollbackView)
    ensures
        rollback.done < rollback.steps.len() ==> rollback.outcome() is None,
        rollback.done >= rollback.steps.len() && rollback.errors.len() == 0 ==> rollback.outcome()
            == Some(Ok::<Seq<char>, ErrorView>(rollback.path)),
        rollback.done >= rollback.steps.len() && rollback.errors.len() > 0 ==> rollback.outcome()
            == Some(
            Err::<Seq<char>, ErrorView>(
                ErrorView::RollbackFailed { notices: rollback.errors, path: rollback.path },
            ),
        ),
{
}

/// What is tried for a snapshot is that its path is tracked, if it was before, or no
/// longer tracked, if it was not. It fails exactly if a reason is told.
pub proof fn law_tried_action<F: Fn(&TrackingAction) -> Option<String>>(
    apply: F,
    snapshot: SnapshotView,
    failure: Option<Seq<char>>,
)
    requires
        tried_with(apply, tracking_action(snapshot), failure),
    ensures
        exists|asked: TrackingAction, told: Option<String>|
            {
                &&& #[trigger] call_ensures(apply, (&asked,), told)
                &&& told is Some <==> failure is Some
                &&& failure is Some ==> told->0@ == failure->0
                &&& match asked {
                    TrackingAction::Track { path } => snapshot.was_tracked && path@ == snapshot.path,
                    TrackingAction::Untrack { path } => !snapshot.was_tracked && path@
                        == snapshot.path,
                }
            },
{
    let (asked, told) = choose|asked: TrackingAction, told: Option<String>| #[trigger]
        call_ensures(apply, (&asked,), told) && asked@ == tracking_action(snapshot)
            && text::text_view(told) == failure;
    assert(text::text_view(told) == failure);
    assert(asked@ == tracking_action(snapshot));
}

} // verus!
