//! The record that a sync keeps of its changes until they are complete.
//!
//! While a sync changes commands, a transaction directory beside them holds the
//! originals and a record of what is being changed. A commit marker in it says
//! that the sync is complete.
use vstd::prelude::*;
use crate::digest;
use crate::bundle;
use crate::bundle::Bundle;
use crate::bundle::BundleState;
use crate::bundle::BundleView;
use crate::bundle::StateView;
use crate::command;
use crate::error::ErrorView;
use crate::error::StubError;
use crate::name_map;
use crate::name_map::NameMap;
use crate::node;
use crate::node::Node;
use crate::node::NodeView;
use crate::paths;
use crate::text;

verus! {

/// The version of the transaction record that this library reads and writes.
pub const TRANSACTION_SCHEMA_VERSION: u8 = 1;

/// What the name of a transaction directory starts with.
pub const TRANSACTION_DIR_PREFIX: &'static str = ".mise-tool-stubs-transaction-";

/// What a commit marker holds.
pub const COMMIT_MARKER: &'static str = "committed\n";

/// What the record says of one changed command.
#[derive(Debug)]
pub struct TransactionChange {
    /// Something stood at the command's place.
    pub had_original: bool,
    /// The hash of the file that is installed there, if any.
    pub installed_hash: Option<String>,
}

/// The model of a [`TransactionChange`].
pub struct TransactionChangeView {
    pub had_original: bool,
    pub installed_hash: Option<Seq<char>>,
}

impl View for TransactionChange {
    type V = TransactionChangeView;

    open spec fn view(&self) -> TransactionChangeView {
        TransactionChangeView {
            had_original: self.had_original,
            installed_hash: text::text_view(self.installed_hash),
        }
    }
}

/// Whether a stub was tracked before the sync.
#[derive(Debug)]
pub struct TrackedStubSnapshot {
    pub path: String,
    pub was_tracked: bool,
}

/// The model of a [`TrackedStubSnapshot`].
pub struct SnapshotView {
    pub path: Seq<char>,
    pub was_tracked: bool,
}

impl View for TrackedStubSnapshot {
    type V = SnapshotView;

    open spec fn view(&self) -> SnapshotView {
        SnapshotView { path: self.path@, was_tracked: self.was_tracked }
    }
}

/// The models of some snapshots.
pub open spec fn snapshot_views(snapshots: Seq<TrackedStubSnapshot>) -> Seq<SnapshotView> {
    Seq::new(snapshots.len(), |i: int| snapshots[i]@)
}

/// The record of a sync: what it changes, and how things were before.
#[derive(Debug)]
pub struct SyncTransactionRecord {
    pub schema_version: u8,
    pub bundle_id: String,
    pub into: String,
    pub state_before: Option<BundleState>,
    pub changes: NameMap<TransactionChange>,
    pub tracking_before: Vec<TrackedStubSnapshot>,
}

/// The model of a [`SyncTransactionRecord`].
pub struct RecordView {
    pub schema_version: u8,
    pub bundle_id: Seq<char>,
    pub into: Seq<char>,
    pub state_before: Option<StateView>,
    pub changes: Seq<(Seq<char>, TransactionChangeView)>,
    pub tracking_before: Seq<SnapshotView>,
}

impl View for SyncTransactionRecord {
    type V = RecordView;

    open spec fn view(&self) -> RecordView {
        RecordView {
            schema_version: self.schema_version,
            bundle_id: self.bundle_id@,
            into: self.into@,
            state_before: bundle::state_view(self.state_before),
            changes: self.changes@,
            tracking_before: snapshot_views(self.tracking_before@),
        }
    }
}

/// A file that is to be moved.
#[derive(Debug)]
pub struct Rename {
    pub from: String,
    pub to: String,
}

/// A file that is to be written as a whole.
#[derive(Debug)]
pub struct FileWrite {
    pub path: String,
    pub contents: String,
}

/// Where the transaction of the bundle `id` in the directory `into` stands.
pub open spec fn transaction_place(into: Seq<char>, id: Seq<char>) -> Seq<char> {
    paths::joined(into, TRANSACTION_DIR_PREFIX@ + id)
}

/// Where the transaction of a bundle stands.
pub fn transaction_path(bundle: &Bundle) -> (path: String)
    ensures
        path@ == transaction_place(bundle@.into, bundle@.id),
{
    paths::join(
        bundle.into.as_str(),
        text::concat(TRANSACTION_DIR_PREFIX, bundle.id.as_str()).as_str(),
    )
}

/// A transaction directory does not stand at the place of any command.
pub proof fn law_transaction_is_no_command(into: Seq<char>, id: Seq<char>, name: Seq<char>)
    requires
        !id.contains('/'),
        command::valid_command_name(name),
    ensures
        !paths::same_path(paths::joined(into, name), transaction_place(into, id)),
{
    let reserved = TRANSACTION_DIR_PREFIX@ + id;
    reveal_strlit(".mise-tool-stubs-transaction-");
    reveal_strlit(".mise-tool-stubs-");
    let prefix = ".mise-tool-stubs-"@;
    assert forall|i: int| 0 <= i < reserved.len() implies reserved[i] != '/' by {
        if i >= TRANSACTION_DIR_PREFIX@.len() {
            assert(id.contains(id[i - TRANSACTION_DIR_PREFIX@.len()]));
        }
    }
    assert(reserved.len() > 2);
    assert(paths::is_plain_name(reserved));
    assert(prefix =~= reserved.subrange(0, prefix.len() as int));
    assert(prefix.is_prefix_of(reserved));
    if paths::same_path(paths::joined(into, name), transaction_place(into, id)) {
        paths::law_joined_injective(into, name, reserved);
    }
}

/// Where the record of a transaction stands.
pub open spec fn record_place(transaction: Seq<char>) -> Seq<char> {
    paths::joined(transaction, "transaction.json"@)
}

/// Where the record of a transaction stands.
pub fn transaction_record_path(transaction: &str) -> (path: String)
    ensures
        path@ == record_place(transaction@),
{
    paths::join(transaction, "transaction.json")
}

/// Where the commit marker of a transaction stands.
pub open spec fn commit_place(transaction: Seq<char>) -> Seq<char> {
    paths::joined(transaction, "committed"@)
}

/// Where the commit marker of a transaction stands.
pub fn transaction_commit_path(transaction: &str) -> (path: String)
    ensures
        path@ == commit_place(transaction@),
{
    paths::join(transaction, "committed")
}

/// Where a transaction keeps the originals of changed commands.
pub open spec fn originals_place(transaction: Seq<char>) -> Seq<char> {
    paths::joined(transaction, "originals"@)
}

/// Where a transaction keeps the originals of changed commands.
pub fn originals_path(transaction: &str) -> (path: String)
    ensures
        path@ == originals_place(transaction@),
{
    paths::join(transaction, "originals")
}

/// Whether two runs of bytes are equal.
fn bytes_eq(a: &[u8], b: &[u8]) -> (equal: bool)
    ensures
        equal == (a@ == b@),
{
    if a.len() != b.len() {
        return false;
    }
    for i in 0..a.len()
        invariant
            a@.len() == b@.len(),
            forall|j: int| 0 <= j < i ==> a@[j] == b@[j],
    {
        if a[i] != b[i] {
            return false;
        }
    }
    assert(a@ =~= b@);
    true
}

/// Whether the commit marker at `path` says that the transaction is complete.
pub open spec fn commit_outcome(path: Seq<char>, marker: NodeView) -> Result<bool, ErrorView> {
    match marker {
        NodeView::Absent => Ok(false),
        NodeView::Unknown { reason } => Err(ErrorView::Inaccessible { path, reason }),
        NodeView::File { bytes, executable } => match bytes {
            Some(data) => if data == vstd::utf8::encode_utf8(COMMIT_MARKER@) {
                Ok(true)
            } else {
                Err(ErrorView::InvalidCommitMarker { path })
            },
            None => Err(ErrorView::Unreadable { path }),
        },
        _ => Err(ErrorView::InvalidCommitMarker { path }),
    }
}

/// The model of an answer or an error.
pub open spec fn answer_view(answer: Result<bool, StubError>) -> Result<bool, ErrorView> {
    match answer {
        Ok(yes) => Ok(yes),
        Err(error) => Err(error@),
    }
}

/// Whether a transaction is complete, given what stands at the place of its
/// commit marker.
pub fn transaction_is_committed(transaction: &str, marker: &Node) -> (committed: Result<
    bool,
    StubError,
>)
    ensures
        answer_view(committed) == commit_outcome(commit_place(transaction@), marker@),
{
    let path = transaction_commit_path(transaction);
    match marker {
        Node::Absent => Ok(false),
        Node::Unknown { reason } => Err(StubError::Inaccessible { path, reason: reason.clone() }),
        Node::File { bytes: Some(bytes), .. } => {
            if bytes_eq(bytes.as_slice(), COMMIT_MARKER.as_bytes()) {
                Ok(true)
            } else {
                Err(StubError::InvalidCommitMarker { path })
            }
        },
        Node::File { bytes: None, .. } => Err(StubError::Unreadable { path }),
        _ => Err(StubError::InvalidCommitMarker { path }),
    }
}

/// A record file, as far as it could be read.
#[derive(Debug)]
pub enum RecordFile {
    /// There is no file.
    Missing { reason: String },
    /// The file could not be read.
    Inaccessible { reason: String },
    /// The file does not hold a record.
    Malformed { reason: String },
    /// The record that the file holds.
    Parsed(SyncTransactionRecord),
}

/// The model of a [`RecordFile`].
pub enum RecordFileView {
    Missing { reason: Seq<char> },
    Inaccessible { reason: Seq<char> },
    Malformed { reason: Seq<char> },
    Parsed(RecordView),
}

impl View for RecordFile {
    type V = RecordFileView;

    open spec fn view(&self) -> RecordFileView {
        match self {
            RecordFile::Missing { reason } => RecordFileView::Missing { reason: reason@ },
            RecordFile::Inaccessible { reason } => RecordFileView::Inaccessible { reason: reason@ },
            RecordFile::Malformed { reason } => RecordFileView::Malformed { reason: reason@ },
            RecordFile::Parsed(record) => RecordFileView::Parsed(record@),
        }
    }
}

/// The record that the record file of a transaction gives.
pub open spec fn record_outcome(transaction: Seq<char>, file: RecordFileView) -> Result<
    RecordView,
    ErrorView,
> {
    let path = record_place(transaction);
    match file {
        RecordFileView::Missing { reason } => Err(ErrorView::Inaccessible { path, reason }),
        RecordFileView::Inaccessible { reason } => Err(ErrorView::Inaccessible { path, reason }),
        RecordFileView::Malformed { reason } => Err(ErrorView::Malformed { path, reason }),
        RecordFileView::Parsed(record) => Ok(record),
    }
}

/// The model of a record or an error.
pub open spec fn record_result(record: Result<SyncTransactionRecord, StubError>) -> Result<
    RecordView,
    ErrorView,
> {
    match record {
        Ok(read) => Ok(read@),
        Err(error) => Err(error@),
    }
}

/// The record of a transaction, from what was read of its file.
pub fn read_transaction_record(transaction: &str, file: RecordFile) -> (record: Result<
    SyncTransactionRecord,
    StubError,
>)
    ensures
        record_result(record) == record_outcome(transaction@, file@),
{
    let path = transaction_record_path(transaction);
    match file {
        RecordFile::Missing { reason } => Err(StubError::Inaccessible { path, reason }),
        RecordFile::Inaccessible { reason } => Err(StubError::Inaccessible { path, reason }),
        RecordFile::Malformed { reason } => Err(StubError::Malformed { path, reason }),
        RecordFile::Parsed(record) => Ok(record),
    }
}

/// Where and how the serialised record of a transaction is written.
pub fn write_transaction_record(transaction: &str, json: &str) -> (write: FileWrite)
    ensures
        write.path@ == record_place(transaction@),
        write.contents@ == json@ + "\n"@,
{
    FileWrite { path: transaction_record_path(transaction), contents: text::concat(json, "\n") }
}

/// Where and how the serialised state of a bundle is written.
pub fn save_state(path: &str, json: &str) -> (write: FileWrite)
    ensures
        write.path@ == path@,
        write.contents@ == json@ + "\n"@,
{
    FileWrite { path: path.to_owned(), contents: text::concat(json, "\n") }
}

/// What is wrong with the state that a record holds.
pub open spec fn previous_error(bundle: BundleView, state: StateView) -> Option<ErrorView> {
    if state.id != bundle.id || !paths::same_path(state.into, bundle.into) || state.id
        != bundle::bundle_id_of(state.source_path, state.into) {
        Some(ErrorView::PreviousState { path: transaction_place(bundle.into, bundle.id) })
    } else {
        bundle::first_error(state.place_errors())
    }
}

/// What is wrong with a tracked path that a record holds.
pub open spec fn snapshot_error(into: Seq<char>, path: Seq<char>) -> Option<ErrorView> {
    match paths::file_name(path) {
        None => Some(ErrorView::InvalidTrackedPath { path }),
        Some(name) => match command::name_error(name) {
            Some(error) => Some(error),
            None => if paths::same_path(path, paths::joined(into, name)) {
                None
            } else {
                Some(ErrorView::InvalidTrackedPath { path })
            },
        },
    }
}

/// What is wrong with each changed name of a record.
pub open spec fn change_name_errors<T>(changes: Seq<(Seq<char>, T)>) -> Seq<Option<ErrorView>> {
    Seq::new(changes.len(), |i: int| command::name_error(changes[i].0))
}

/// What is wrong with each tracked path of a record.
pub open spec fn snapshot_errors(into: Seq<char>, snapshots: Seq<SnapshotView>) -> Seq<
    Option<ErrorView>,
> {
    Seq::new(snapshots.len(), |i: int| snapshot_error(into, snapshots[i].path))
}

/// What is wrong with a record as the record of a sync of the bundle.
pub open spec fn record_error(bundle: BundleView, record: RecordView) -> Option<ErrorView> {
    let place = transaction_place(bundle.into, bundle.id);
    let previous = match record.state_before {
        Some(state) => previous_error(bundle, state),
        None => None,
    };
    let names = bundle::first_error(change_name_errors(record.changes));
    if record.schema_version != TRANSACTION_SCHEMA_VERSION {
        Some(ErrorView::UnsupportedTransaction { version: record.schema_version, path: place })
    } else if record.bundle_id != bundle.id || !paths::same_path(record.into, bundle.into) {
        Some(ErrorView::TransactionIdentity { path: place })
    } else if previous is Some {
        previous
    } else if names is Some {
        names
    } else {
        bundle::first_error(snapshot_errors(bundle.into, record.tracking_before))
    }
}

/// Checks the state that a record holds.
fn validate_previous(bundle: &Bundle, state: &BundleState) -> (checked: Result<(), StubError>)
    ensures
        command::error_of(checked) == previous_error(bundle@, state@),
{
    let id = bundle::bundle_id(state.source_path.as_str(), state.into.as_str());
    if !text::text_eq(state.id.as_str(), bundle.id.as_str()) || !paths::path_eq(
        state.into.as_str(),
        bundle.into.as_str(),
    ) || !text::text_eq(state.id.as_str(), id.as_str()) {
        return Err(StubError::PreviousState { path: transaction_path(bundle) });
    }
    bundle::validate_managed_paths(state)
}

/// Checks the changed names of a record.
fn validate_change_names(changes: &NameMap<TransactionChange>) -> (checked: Result<(), StubError>)
    ensures
        command::error_of(checked) == bundle::first_error(change_name_errors(changes@)),
{
    let count = changes.len();
    let ghost errors = change_name_errors(changes@);
    let mut i: usize = 0;
    while i < count
        invariant
            count == changes@.len(),
            i <= count,
            errors == change_name_errors(changes@),
            forall|j: int| 0 <= j < i ==> errors[j] is None,
        decreases count - i,
    {
        match command::validate_command_name(changes.name_at(i).as_str()) {
            Ok(_) => {},
            Err(error) => {
                proof {
                    bundle::lemma_first_error(errors, i as int);
                }
                return Err(error);
            },
        }
        i += 1;
    }
    proof {
        bundle::lemma_no_error(errors);
    }
    Ok(())
}

/// Checks one tracked path of a record.
fn validate_snapshot(into: &str, path: &str) -> (checked: Result<(), StubError>)
    ensures
        command::error_of(checked) == snapshot_error(into@, path@),
{
    match paths::file_name_of(path) {
        None => Err(StubError::InvalidTrackedPath { path: path.to_owned() }),
        Some(name) => match command::validate_command_name(name.as_str()) {
            Err(error) => Err(error),
            Ok(_) => if paths::path_eq(path, paths::join(into, name.as_str()).as_str()) {
                Ok(())
            } else {
                Err(StubError::InvalidTrackedPath { path: path.to_owned() })
            },
        },
    }
}

/// Checks the tracked paths of a record.
fn validate_snapshots(into: &str, snapshots: &Vec<TrackedStubSnapshot>) -> (checked: Result<
    (),
    StubError,
>)
    ensures
        command::error_of(checked) == bundle::first_error(
            snapshot_errors(into@, snapshot_views(snapshots@)),
        ),
{
    let ghost errors = snapshot_errors(into@, snapshot_views(snapshots@));
    for i in 0..snapshots.len()
        invariant
            errors == snapshot_errors(into@, snapshot_views(snapshots@)),
            forall|j: int| 0 <= j < i ==> errors[j] is None,
    {
        match validate_snapshot(into, snapshots[i].path.as_str()) {
            Ok(_) => {},
            Err(error) => {
                proof {
                    bundle::lemma_first_error(errors, i as int);
                }
                return Err(error);
            },
        }
    }
    proof {
        bundle::lemma_no_error(errors);
    }
    Ok(())
}

/// Checks that a record is one of a sync of the bundle.
pub fn validate_transaction_record(bundle: &Bundle, record: &SyncTransactionRecord) -> (checked:
    Result<(), StubError>)
    ensures
        command::error_of(checked) == record_error(bundle@, record@),
{
    if record.schema_version != TRANSACTION_SCHEMA_VERSION {
        return Err(
            StubError::UnsupportedTransaction {
                version: record.schema_version,
                path: transaction_path(bundle),
            },
        );
    }
    if !text::text_eq(record.bundle_id.as_str(), bundle.id.as_str()) || !paths::path_eq(
        record.into.as_str(),
        bundle.into.as_str(),
    ) {
        return Err(StubError::TransactionIdentity { path: transaction_path(bundle) });
    }
    match &record.state_before {
        Some(state) => {
            match validate_previous(bundle, state) {
                Ok(_) => {},
                Err(error) => {
                    return Err(error);
                },
            }
        },
        None => {},
    }
    match validate_change_names(&record.changes) {
        Ok(_) => {},
        Err(error) => {
            return Err(error);
        },
    }
    validate_snapshots(bundle.into.as_str(), &record.tracking_before)
}

/// A file that was written to take the place of a command.
#[derive(Debug)]
pub struct StagedFile {
    pub path: String,
    pub node: Node,
}

/// A change that is about to be made: where, what stands there, and the staged
/// file that takes its place, if any.
#[derive(Debug)]
pub struct StagedChange {
    pub path: String,
    pub found: Node,
    pub staged: Option<StagedFile>,
}

/// The model of a [`StagedFile`].
pub struct StagedFileView {
    pub path: Seq<char>,
    pub node: NodeView,
}

/// The model of a [`StagedChange`].
pub struct StagedChangeView {
    pub path: Seq<char>,
    pub found: NodeView,
    pub staged: Option<StagedFileView>,
}

impl View for StagedFile {
    type V = StagedFileView;

    open spec fn view(&self) -> StagedFileView {
        StagedFileView { path: self.path@, node: self.node@ }
    }
}

impl View for StagedChange {
    type V = StagedChangeView;

    open spec fn view(&self) -> StagedChangeView {
        StagedChangeView {
            path: self.path@,
            found: self.found@,
            staged: match self.staged {
                Some(file) => Some(file@),
                None => None,
            },
        }
    }
}

/// Why a staged change cannot be recorded: its staged file cannot be read.
pub open spec fn staged_error(change: StagedChangeView) -> Option<ErrorView> {
    match change.staged {
        Some(file) => if file.node.hash() is None {
            Some(ErrorView::Unreadable { path: file.path })
        } else {
            None
        },
        None => None,
    }
}

/// What the record says of a staged change.
pub open spec fn recorded_change(change: StagedChangeView) -> TransactionChangeView {
    TransactionChangeView {
        had_original: change.found.present(),
        installed_hash: match change.staged {
            Some(file) => file.node.hash(),
            None => None,
        },
    }
}

/// Why each staged change cannot be recorded.
pub open spec fn staged_errors(changes: Seq<(Seq<char>, StagedChangeView)>) -> Seq<
    Option<ErrorView>,
> {
    Seq::new(changes.len(), |i: int| staged_error(changes[i].1))
}

/// What the record says of the staged changes.
pub open spec fn recorded_changes(changes: Seq<(Seq<char>, StagedChangeView)>) -> Seq<
    (Seq<char>, TransactionChangeView),
> {
    Seq::new(changes.len(), |i: int| (changes[i].0, recorded_change(changes[i].1)))
}

/// The record of a sync that is about to make some changes.
pub open spec fn begun_record(
    bundle: BundleView,
    changes: Seq<(Seq<char>, StagedChangeView)>,
    tracking_before: Seq<SnapshotView>,
) -> RecordView {
    RecordView {
        schema_version: TRANSACTION_SCHEMA_VERSION,
        bundle_id: bundle.id,
        into: bundle.into,
        state_before: bundle.state,
        changes: recorded_changes(changes),
        tracking_before,
    }
}

/// Why a transaction cannot begin.
pub open spec fn begin_error(
    bundle: BundleView,
    place: NodeView,
    changes: Seq<(Seq<char>, StagedChangeView)>,
) -> Option<ErrorView> {
    if place.present() {
        Some(ErrorView::TransactionExists { path: transaction_place(bundle.into, bundle.id) })
    } else {
        bundle::first_error(staged_errors(changes))
    }
}

/// What the record says of the staged changes, or why one of them cannot be
/// recorded.
fn record_changes(changes: &NameMap<StagedChange>) -> (recorded: Result<
    NameMap<TransactionChange>,
    StubError,
>)
    ensures
        match recorded {
            Ok(map) => bundle::first_error(staged_errors(changes@)) is None && map@
                == recorded_changes(changes@),
            Err(error) => bundle::first_error(staged_errors(changes@)) == Some(error@),
        },
{
    let count = changes.len();
    let ghost errors = staged_errors(changes@);
    let ghost wanted = recorded_changes(changes@);
    let mut map: NameMap<TransactionChange> = NameMap::new();
    let mut i: usize = 0;
    assert(wanted.take(0) =~= Seq::empty());
    while i < count
        invariant
            count == changes@.len(),
            i <= count,
            name_map::names_sorted(changes@),
            errors == staged_errors(changes@),
            wanted == recorded_changes(changes@),
            forall|j: int| 0 <= j < i ==> errors[j] is None,
            map@ == wanted.take(i as int),
        decreases count - i,
    {
        let change = changes.value_at(i);
        let installed_hash = match &change.staged {
            Some(file) => match node::file_hash(file.path.as_str(), &file.node) {
                Ok(hash) => Some(hash),
                Err(error) => {
                    proof {
                        bundle::lemma_first_error(errors, i as int);
                    }
                    return Err(error);
                },
            },
            None => None,
        };
        let entry = TransactionChange {
            had_original: node::path_exists(&change.found),
            installed_hash,
        };
        proof {
            let next = wanted[i as int];
            let upto = wanted.take(i + 1);
            assert(next.1 == entry@);
            assert(upto =~= wanted.take(i as int).push(next));
            assert forall|a: int, b: int| 0 <= a < b < upto.len() implies text::text_lt(
                (#[trigger] upto[a]).0,
                (#[trigger] upto[b]).0,
            ) by {
                assert(text::text_lt(changes@[a].0, changes@[b].0));
            }
            name_map::lemma_with_last_name(wanted.take(i as int), next.0, next.1);
        }
        map = map.insert(changes.name_at(i).clone(), entry);
        i += 1;
    }
    proof {
        bundle::lemma_no_error(errors);
        assert(wanted.take(count as int) =~= wanted);
    }
    Ok(map)
}

/// The files of a transaction.
#[derive(Debug)]
pub struct SyncFileTransaction {
    pub path: String,
    pub originals: String,
}

/// The directory that is to be removed when the transaction at `path` ends.
pub open spec fn removal_outcome(path: Seq<char>, place: NodeView) -> Result<
    Option<Seq<char>>,
    ErrorView,
> {
    match place {
        NodeView::Absent => Ok(None),
        NodeView::Unknown { reason } => Err(ErrorView::Inaccessible { path, reason }),
        NodeView::Directory => Ok(Some(path)),
        _ => Err(ErrorView::InvalidTransactionDirectory { path }),
    }
}

/// The model of an optional path or an error.
pub open spec fn place_view(place: Result<Option<String>, StubError>) -> Result<
    Option<Seq<char>>,
    ErrorView,
> {
    match place {
        Ok(path) => Ok(text::text_view(path)),
        Err(error) => Err(error@),
    }
}

/// The directory that is to be removed when the transaction at `path` ends,
/// given what stands there.
pub fn remove_transaction_dir(path: &str, place: &Node) -> (removed: Result<
    Option<String>,
    StubError,
>)
    ensures
        place_view(removed) == removal_outcome(path@, place@),
{
    match place {
        Node::Absent => Ok(None),
        Node::Unknown { reason } => Err(
            StubError::Inaccessible { path: path.to_owned(), reason: reason.clone() },
        ),
        Node::Directory => Ok(Some(path.to_owned())),
        _ => Err(StubError::InvalidTransactionDirectory { path: path.to_owned() }),
    }
}

/// Where the original of a command goes before it is changed: nowhere if there
/// is none.
pub open spec fn back_up_outcome(
    originals: Seq<char>,
    name: Seq<char>,
    path: Seq<char>,
    found: NodeView,
) -> Result<Option<Seq<char>>, ErrorView> {
    match found {
        NodeView::Absent => Ok(None),
        NodeView::Unknown { reason } => Err(ErrorView::Inaccessible { path, reason }),
        NodeView::Directory => Err(ErrorView::ReplacesDirectory { path }),
        _ => Ok(Some(paths::joined(originals, name))),
    }
}

impl SyncFileTransaction {
    /// Begins a transaction of the bundle: its files, and the record that is to
    /// be written first. `place` is what stands at the place of the transaction.
    pub fn begin(
        bundle: &Bundle,
        place: &Node,
        changes: &NameMap<StagedChange>,
        tracking_before: Vec<TrackedStubSnapshot>,
    ) -> (begun: Result<(SyncFileTransaction, SyncTransactionRecord), StubError>)
        ensures
            match begun {
                Ok((transaction, record)) => {
                    &&& begin_error(bundle@, place@, changes@) is None
                    &&& transaction.path@ == transaction_place(bundle@.into, bundle@.id)
                    &&& transaction.originals@ == originals_place(transaction.path@)
                    &&& record@ == begun_record(
                        bundle@,
                        changes@,
                        snapshot_views(tracking_before@),
                    )
                },
                Err(error) => begin_error(bundle@, place@, changes@) == Some(error@),
            },
    {
        let path = transaction_path(bundle);
        if node::path_exists(place) {
            return Err(StubError::TransactionExists { path });
        }
        let originals = originals_path(path.as_str());
        match record_changes(changes) {
            Ok(recorded) => Ok(
                (
                    SyncFileTransaction { path, originals },
                    SyncTransactionRecord {
                        schema_version: TRANSACTION_SCHEMA_VERSION,
                        bundle_id: bundle.id.clone(),
                        into: bundle.into.clone(),
                        state_before: bundle::copy_state(&bundle.state),
                        changes: recorded,
                        tracking_before,
                    },
                ),
            ),
            Err(error) => Err(error),
        }
    }

    /// The move that keeps the original of a command, if there is one.
    pub fn back_up(&self, name: &str, path: &str, found: &Node) -> (kept: Result<
        Option<Rename>,
        StubError,
    >)
        ensures
            match kept {
                Ok(Some(rename)) => {
                    &&& rename.from@ == path@
                    &&& back_up_outcome(self.originals@, name@, path@, found@) == Ok::<
                        Option<Seq<char>>,
                        ErrorView,
                    >(Some(rename.to@))
                },
                Ok(None) => back_up_outcome(self.originals@, name@, path@, found@) == Ok::<
                    Option<Seq<char>>,
                    ErrorView,
                >(None),
                Err(error) => back_up_outcome(self.originals@, name@, path@, found@) == Err::<
                    Option<Seq<char>>,
                    ErrorView,
                >(error@),
            },
    {
        match found {
            Node::Absent => Ok(None),
            Node::Unknown { reason } => Err(
                StubError::Inaccessible { path: path.to_owned(), reason: reason.clone() },
            ),
            Node::Directory => Err(StubError::ReplacesDirectory { path: path.to_owned() }),
            _ => Ok(
                Some(
                    Rename {
                        from: path.to_owned(),
                        to: paths::join(self.originals.as_str(), name),
                    },
                ),
            ),
        }
    }

    /// The move that puts a staged file at the place of a command.
    pub fn install(&self, staged_path: &str, path: &str) -> (rename: Rename)
        ensures
            rename.from@ == staged_path@,
            rename.to@ == path@,
    {
        Rename { from: staged_path.to_owned(), to: path.to_owned() }
    }

    /// The directories that are to be synchronised with the disk once the
    /// originals are kept.
    pub fn sync_backups(&self, into: &str) -> (directories: Vec<String>)
        ensures
            text::texts(directories@) == seq![self.originals@, into@],
    {
        let directories = vec![self.originals.clone(), into.to_owned()];
        assert(text::texts(directories@) =~= seq![self.originals@, into@]);
        directories
    }

    /// The commit marker that says that the transaction is complete.
    pub fn mark_committed(&self) -> (write: FileWrite)
        ensures
            write.path@ == commit_place(self.path@),
            write.contents@ == COMMIT_MARKER@,
    {
        FileWrite {
            path: transaction_commit_path(self.path.as_str()),
            contents: COMMIT_MARKER.to_owned(),
        }
    }

    /// The directory that is to be removed now that the transaction is complete,
    /// given what stands at its place.
    pub fn finish(self, place: &Node) -> (removed: Result<Option<String>, StubError>)
        ensures
            place_view(removed) == removal_outcome(self.path@, place@),
    {
        remove_transaction_dir(self.path.as_str(), place)
    }
}

/// The commit marker that a transaction writes is one that says that it is
/// complete.
pub proof fn law_marker_commits(path: Seq<char>, executable: bool)
    ensures
        commit_outcome(
            path,
            NodeView::File {
                bytes: Some(vstd::utf8::encode_utf8(COMMIT_MARKER@)),
                executable,
            },
        ) == Ok::<bool, ErrorView>(true),
{
}

/// The files of a transaction stand in a directory of the bundle's own beside the
/// commands, each at a place of its own.
pub proof fn law_transaction_places(into: Seq<char>, id: Seq<char>)
    ensures
        transaction_place(into, id) == paths::joined(into, ".mise-tool-stubs-transaction-"@ + id),
        record_place(transaction_place(into, id)) == paths::joined(
            transaction_place(into, id),
            "transaction.json"@,
        ),
        commit_place(transaction_place(into, id)) == paths::joined(
            transaction_place(into, id),
            "committed"@,
        ),
        originals_place(transaction_place(into, id)) == paths::joined(
            transaction_place(into, id),
            "originals"@,
        ),
{
}

/// A transaction counts as complete exactly if its marker is a file that holds the
/// word and a line feed, and as incomplete exactly if there is no marker. Anything
/// else is an error that names the marker.
pub proof fn law_commit_marker(path: Seq<char>, marker: NodeView)
    ensures
        commit_outcome(path, marker) == Ok::<bool, ErrorView>(true) <==> (
        marker matches NodeView::File { bytes: Some(bytes), .. } && bytes
            == vstd::utf8::encode_utf8("committed\n"@)),
        commit_outcome(path, marker) == Ok::<bool, ErrorView>(false) <==> marker is Absent,
        commit_outcome(path, marker) matches Err(error) ==> match marker {
            NodeView::Unknown { reason } => error == (ErrorView::Inaccessible { path, reason }),
            NodeView::File { bytes: None, .. } => error == (ErrorView::Unreadable { path }),
            _ => error == (ErrorView::InvalidCommitMarker { path }),
        },
{
}

/// A record is read exactly from a file that holds one.
pub proof fn law_record_is_read(transaction: Seq<char>, file: RecordFileView, record: RecordView)
    ensures
        record_outcome(transaction, file) == Ok::<RecordView, ErrorView>(record) <==> file
            == RecordFileView::Parsed(record),
        record_outcome(transaction, file) matches Err(error) ==> {
            let path = paths::joined(transaction, "transaction.json"@);
            match file {
                RecordFileView::Missing { reason } => error == (ErrorView::Inaccessible {
                    path,
                    reason,
                }),
                RecordFileView::Inaccessible { reason } => error == (ErrorView::Inaccessible {
                    path,
                    reason,
                }),
                RecordFileView::Malformed { reason } => error == (ErrorView::Malformed {
                    path,
                    reason,
                }),
                RecordFileView::Parsed(_) => false,
            }
        },
{
}

/// Ending a transaction removes a directory, does nothing where nothing is, and is
/// refused for anything else.
pub proof fn law_transaction_directory_is_removed(path: Seq<char>, place: NodeView)
    ensures
        removal_outcome(path, place) matches Ok(Some(removed)) ==> place is Directory && removed
            == path,
        place is Directory ==> removal_outcome(path, place) is Ok,
        removal_outcome(path, place) == Ok::<Option<Seq<char>>, ErrorView>(None) <==> place
            is Absent,
        removal_outcome(path, place) matches Err(error) ==> match place {
            NodeView::Unknown { reason } => error == (ErrorView::Inaccessible { path, reason }),
            _ => error == (ErrorView::InvalidTransactionDirectory { path }),
        },
{
}

/// Whatever can be moved is kept under its name among the originals before it is
/// changed. A directory is not replaced.
pub proof fn law_originals_are_kept(
    originals: Seq<char>,
    name: Seq<char>,
    path: Seq<char>,
    found: NodeView,
)
    ensures
        found is File || found is Symlink || found is Special ==> back_up_outcome(
            originals,
            name,
            path,
            found,
        ) == Ok::<Option<Seq<char>>, ErrorView>(Some(paths::joined(originals, name))),
        back_up_outcome(originals, name, path, found) == Ok::<Option<Seq<char>>, ErrorView>(None)
            <==> found is Absent,
        found is Directory ==> back_up_outcome(originals, name, path, found) == Err::<
            Option<Seq<char>>,
            ErrorView,
        >(ErrorView::ReplacesDirectory { path }),
        found matches NodeView::Unknown { reason } ==> back_up_outcome(
            originals,
            name,
            path,
            found,
        ) == Err::<Option<Seq<char>>, ErrorView>(ErrorView::Inaccessible { path, reason }),
{
}

/// A tracked path is accepted exactly if it is the place of an accepted name in the
/// directory.
pub proof fn law_accepted_tracked_path(into: Seq<char>, path: Seq<char>)
    ensures
        snapshot_error(into, path) is None <==> (paths::file_name(path) matches Some(name)
            && command::name_error(name) is None && paths::components(path) == paths::components(
            paths::joined(into, name),
        )),
        snapshot_error(into, path) matches Some(error) ==> {
            ||| error == (ErrorView::InvalidTrackedPath { path })
            ||| paths::file_name(path) matches Some(name) && command::name_error(name) == Some(
                error,
            )
        },
{
}

/// The state in a record is that of the bundle: it has its identifier and its
/// directory, and all its places are valid.
pub open spec fn is_state_of(bundle: BundleView, state: StateView) -> bool {
    &&& state.id == bundle.id
    &&& paths::components(state.into) == paths::components(bundle.into)
    &&& state.id == digest::sha256_hex(
        vstd::utf8::encode_utf8(state.source_path + "\0"@ + state.into),
    )
    &&& forall|i: int|
        0 <= i < state.commands.len() ==> command::managed_path_error(
            state.into,
            (#[trigger] state.commands[i]).0,
            state.commands[i].1.path,
        ) is None
}

/// A state is accepted as the previous one exactly if it is that of the bundle.
pub proof fn law_accepted_previous_state(bundle: BundleView, state: StateView)
    ensures
        previous_error(bundle, state) is None <==> is_state_of(bundle, state),
{
    let errors = state.place_errors();
    bundle::lemma_error_or_all_pass(errors);
    if bundle::first_error(errors) is None {
        bundle::lemma_all_pass(errors);
        assert forall|i: int| 0 <= i < state.commands.len() implies command::managed_path_error(
            state.into,
            (#[trigger] state.commands[i]).0,
            state.commands[i].1.path,
        ) is None by {
            assert(errors[i] is None);
        }
    } else {
        let i = choose|i: int| 0 <= i < errors.len() && (#[trigger] errors[i]) is Some;
        assert(command::managed_path_error(
            state.into,
            state.commands[i].0,
            state.commands[i].1.path,
        ) is Some);
    }
}

/// A record is accepted exactly if it has the right version, belongs to the bundle
/// and its directory, holds a state of the bundle or none, and names only commands
/// and tracked paths that stand directly in the directory.
pub proof fn law_accepted_record(bundle: BundleView, record: RecordView)
    ensures
        record_error(bundle, record) is None <==> {
            &&& record.schema_version == 1
            &&& record.bundle_id == bundle.id
            &&& paths::components(record.into) == paths::components(bundle.into)
            &&& record.state_before is Some ==> is_state_of(bundle, record.state_before->0)
            &&& forall|i: int|
                0 <= i < record.changes.len() ==> command::name_error(
                    (#[trigger] record.changes[i]).0,
                ) is None
            &&& forall|i: int|
                0 <= i < record.tracking_before.len() ==> snapshot_error(
                    bundle.into,
                    (#[trigger] record.tracking_before[i]).path,
                ) is None
        },
{
    if let Some(state) = record.state_before {
        law_accepted_previous_state(bundle, state);
    }
    let names = change_name_errors(record.changes);
    let noted = snapshot_errors(bundle.into, record.tracking_before);
    bundle::lemma_error_or_all_pass(names);
    bundle::lemma_error_or_all_pass(noted);
    assert forall|i: int| 0 <= i < record.changes.len() implies command::name_error(
        (#[trigger] record.changes[i]).0,
    ) == names[i] by {}
    assert forall|i: int| 0 <= i < record.tracking_before.len() implies snapshot_error(
        bundle.into,
        (#[trigger] record.tracking_before[i]).path,
    ) == noted[i] by {}
    if bundle::first_error(names) is Some {
        let i = choose|i: int| 0 <= i < names.len() && (#[trigger] names[i]) is Some;
        assert(command::name_error(record.changes[i].0) is Some);
    } else {
        bundle::lemma_all_pass(names);
    }
    if bundle::first_error(noted) is Some {
        let i = choose|i: int| 0 <= i < noted.len() && (#[trigger] noted[i]) is Some;
        assert(snapshot_error(bundle.into, record.tracking_before[i].path) is Some);
    } else {
        bundle::lemma_all_pass(noted);
    }
}

/// A record of another version, and one of another bundle or directory, is told
/// apart from one that is otherwise wrong.
pub proof fn law_refused_record(bundle: BundleView, record: RecordView)
    ensures
        ({
            let place = transaction_place(bundle.into, bundle.id);
            let other = record.bundle_id != bundle.id || paths::components(record.into)
                != paths::components(bundle.into);
            &&& record.schema_version != 1 <==> record_error(bundle, record) == Some(
                ErrorView::UnsupportedTransaction { version: record.schema_version, path: place },
            )
            &&& record.schema_version == 1 && other ==> record_error(bundle, record) == Some(
                ErrorView::TransactionIdentity { path: place },
            )
        }),
{
    if let Some(state) = record.state_before {
        bundle::lemma_error_or_all_pass(state.place_errors());
    }
    bundle::lemma_error_or_all_pass(change_name_errors(record.changes));
    bundle::lemma_error_or_all_pass(snapshot_errors(bundle.into, record.tracking_before));
}

/// The record of a sync tells of each change whether something stood there and the
/// hash of what is installed, and keeps the state and the tracking from before.
pub proof fn law_record_tells_of_changes(
    bundle: BundleView,
    changes: Seq<(Seq<char>, StagedChangeView)>,
    tracking_before: Seq<SnapshotView>,
)
    ensures
        ({
            let record = begun_record(bundle, changes, tracking_before);
            &&& record.schema_version == 1
            &&& record.bundle_id == bundle.id
            &&& record.into == bundle.into
            &&& record.state_before == bundle.state
            &&& record.tracking_before == tracking_before
            &&& record.changes.len() == changes.len()
            &&& forall|i: int|
                0 <= i < changes.len() ==> {
                    &&& (#[trigger] record.changes[i]).0 == changes[i].0
                    &&& record.changes[i].1.had_original <==> !(changes[i].1.found is Absent)
                        && !(changes[i].1.found is Unknown)
                    &&& record.changes[i].1.installed_hash == (if changes[i].1.staged is Some {
                        changes[i].1.staged->0.node.hash()
                    } else {
                        None
                    })
                }
        }),
{
}

/// A transaction begins exactly if none is there yet and every staged file can be
/// read.
pub proof fn law_transaction_begins(
    bundle: BundleView,
    place: NodeView,
    changes: Seq<(Seq<char>, StagedChangeView)>,
)
    ensures
        begin_error(bundle, place, changes) is None <==> {
            &&& place is Absent || place is Unknown
            &&& forall|i: int|
                0 <= i < changes.len() ==> ((#[trigger] changes[i]).1.staged is Some
                    ==> changes[i].1.staged->0.node.hash() is Some)
        },
        !(place is Absent || place is Unknown) ==> begin_error(bundle, place, changes) == Some(
            ErrorView::TransactionExists { path: transaction_place(bundle.into, bundle.id) },
        ),
{
    let errors = staged_errors(changes);
    bundle::lemma_error_or_all_pass(errors);
    if bundle::first_error(errors) is Some {
        let i = choose|i: int| 0 <= i < errors.len() && (#[trigger] errors[i]) is Some;
        assert(changes[i].1.staged is Some && changes[i].1.staged->0.node.hash() is None);
    } else {
        bundle::lemma_all_pass(errors);
        assert forall|i: int|
            0 <= i < changes.len() && (#[trigger] changes[i]).1.staged is Some implies
            changes[i].1.staged->0.node.hash() is Some by {
            assert(errors[i] is None);
        }
    }
}

} // verus!
