//! What can go wrong, and the message for each case.
use vstd::prelude::*;
use crate::message;
use crate::message::Notice;
use crate::message::NoticeView;
use crate::message::Subject;
use crate::message::SubjectView;
use crate::text;

verus! {

/// A reason why a request is refused or cannot be carried out.
#[derive(Debug)]
pub enum StubError {
    /// A command name is empty.
    EmptyName,
    /// A command name is not a single file name, or is reserved.
    InvalidName { name: String },
    /// A recorded path is not the command's place in the bundle's directory.
    InvalidManagedPath { path: String },
    /// Commands would be overwritten that the bundle does not safely own.
    NotSafelyOwned { notices: Vec<Notice> },
    /// A stub that would be removed was modified.
    ModifiedStub { path: String },
    /// A transaction directory is there already.
    TransactionExists { path: String },
    /// A directory stands where a stub would be installed.
    ReplacesDirectory { path: String },
    /// The commit marker is not a file with the expected contents.
    InvalidCommitMarker { path: String },
    /// The transaction path is not a directory.
    InvalidTransactionPath { path: String },
    /// The transaction record has another version.
    UnsupportedTransaction { version: u8, path: String },
    /// The transaction record belongs to another bundle.
    TransactionIdentity { path: String },
    /// The state in the transaction record belongs to another bundle.
    PreviousState { path: String },
    /// A tracked path in the transaction record is not a command's place in the directory.
    InvalidTrackedPath { path: String },
    /// A rollback did not succeed in all its steps.
    RollbackFailed { notices: Vec<Notice>, path: String },
    /// A directory stands where the interrupted sync installed a stub.
    RecoversDirectory { path: String },
    /// The interrupted sync did not install what stands at a destination.
    NotInstalled { path: String },
    /// What the interrupted sync installed was changed since.
    ChangedAfterSync { path: String },
    /// What stands at a destination belongs to another bundle.
    OtherOwner { path: String },
    /// What would be removed as a transaction is not a directory.
    InvalidTransactionDirectory { path: String },
    /// The tracking of stubs could not be restored.
    TrackingFailed { notices: Vec<Notice> },
    /// The bundle has no recorded state.
    NotSynchronized { source: String },
    /// A directory was given without a manifest.
    IntoWithoutManifest,
    /// Several bundles have the same source.
    AmbiguousBundles { source: String },
    /// A recorded state has another version.
    UnsupportedState { version: u8, path: String },
    /// A recorded state belongs to another bundle.
    StateIdentity { path: String },
    /// A file cannot be parsed.
    Malformed { path: String, reason: String },
    /// A tool request names no tool.
    InvalidToolRequest { name: String, request: String },
    /// A command is declared by a value of another type.
    NotToolOrTable { name: String },
    /// A table cannot be written as TOML.
    Unwritable { reason: String },
    /// A rendered stub is not a valid tool stub.
    RejectedStub { name: String, reason: String },
    /// A declared command cannot be made into a stub.
    InvalidCommand { name: String, source: String, reason: String },
    /// The file system refused a question about a path.
    Inaccessible { path: String, reason: String },
    /// The bytes of a file cannot be read.
    Unreadable { path: String },
    /// A path cannot be made absolute.
    Unresolved { path: String, reason: String },
}

/// The model of a [`StubError`].
pub enum ErrorView {
    EmptyName,
    InvalidName { name: Seq<char> },
    InvalidManagedPath { path: Seq<char> },
    NotSafelyOwned { notices: Seq<NoticeView> },
    ModifiedStub { path: Seq<char> },
    TransactionExists { path: Seq<char> },
    ReplacesDirectory { path: Seq<char> },
    InvalidCommitMarker { path: Seq<char> },
    InvalidTransactionPath { path: Seq<char> },
    UnsupportedTransaction { version: u8, path: Seq<char> },
    TransactionIdentity { path: Seq<char> },
    PreviousState { path: Seq<char> },
    InvalidTrackedPath { path: Seq<char> },
    RollbackFailed { notices: Seq<NoticeView>, path: Seq<char> },
    RecoversDirectory { path: Seq<char> },
    NotInstalled { path: Seq<char> },
    ChangedAfterSync { path: Seq<char> },
    OtherOwner { path: Seq<char> },
    InvalidTransactionDirectory { path: Seq<char> },
    TrackingFailed { notices: Seq<NoticeView> },
    NotSynchronized { source: Seq<char> },
    IntoWithoutManifest,
    AmbiguousBundles { source: Seq<char> },
    UnsupportedState { version: u8, path: Seq<char> },
    StateIdentity { path: Seq<char> },
    Malformed { path: Seq<char>, reason: Seq<char> },
    InvalidToolRequest { name: Seq<char>, request: Seq<char> },
    NotToolOrTable { name: Seq<char> },
    Unwritable { reason: Seq<char> },
    RejectedStub { name: Seq<char>, reason: Seq<char> },
    InvalidCommand { name: Seq<char>, source: Seq<char>, reason: Seq<char> },
    Inaccessible { path: Seq<char>, reason: Seq<char> },
    Unreadable { path: Seq<char> },
    Unresolved { path: Seq<char>, reason: Seq<char> },
}

impl View for StubError {
    type V = ErrorView;

    open spec fn view(&self) -> ErrorView {
        match self {
            StubError::EmptyName => ErrorView::EmptyName,
            StubError::InvalidName { name } => ErrorView::InvalidName { name: name@ },
            StubError::InvalidManagedPath { path } => ErrorView::InvalidManagedPath { path: path@ },
            StubError::NotSafelyOwned { notices } => ErrorView::NotSafelyOwned { notices: message::notice_views(notices@) },
            StubError::ModifiedStub { path } => ErrorView::ModifiedStub { path: path@ },
            StubError::TransactionExists { path } => ErrorView::TransactionExists { path: path@ },
            StubError::ReplacesDirectory { path } => ErrorView::ReplacesDirectory { path: path@ },
            StubError::InvalidCommitMarker { path } => ErrorView::InvalidCommitMarker { path: path@ },
            StubError::InvalidTransactionPath { path } => ErrorView::InvalidTransactionPath { path: path@ },
            StubError::UnsupportedTransaction { version, path } => ErrorView::UnsupportedTransaction { version: *version, path: path@ },
            StubError::TransactionIdentity { path } => ErrorView::TransactionIdentity { path: path@ },
            StubError::PreviousState { path } => ErrorView::PreviousState { path: path@ },
            StubError::InvalidTrackedPath { path } => ErrorView::InvalidTrackedPath { path: path@ },
            StubError::RollbackFailed { notices, path } => ErrorView::RollbackFailed { notices: message::notice_views(notices@), path: path@ },
            StubError::RecoversDirectory { path } => ErrorView::RecoversDirectory { path: path@ },
            StubError::NotInstalled { path } => ErrorView::NotInstalled { path: path@ },
            StubError::ChangedAfterSync { path } => ErrorView::ChangedAfterSync { path: path@ },
            StubError::OtherOwner { path } => ErrorView::OtherOwner { path: path@ },
            StubError::InvalidTransactionDirectory { path } => ErrorView::InvalidTransactionDirectory { path: path@ },
            StubError::TrackingFailed { notices } => ErrorView::TrackingFailed { notices: message::notice_views(notices@) },
            StubError::NotSynchronized { source } => ErrorView::NotSynchronized { source: source@ },
            StubError::IntoWithoutManifest => ErrorView::IntoWithoutManifest,
            StubError::AmbiguousBundles { source } => ErrorView::AmbiguousBundles { source: source@ },
            StubError::UnsupportedState { version, path } => ErrorView::UnsupportedState { version: *version, path: path@ },
            StubError::StateIdentity { path } => ErrorView::StateIdentity { path: path@ },
            StubError::Malformed { path, reason } => ErrorView::Malformed { path: path@, reason: reason@ },
            StubError::InvalidToolRequest { name, request } => ErrorView::InvalidToolRequest { name: name@, request: request@ },
            StubError::NotToolOrTable { name } => ErrorView::NotToolOrTable { name: name@ },
            StubError::Unwritable { reason } => ErrorView::Unwritable { reason: reason@ },
            StubError::RejectedStub { name, reason } => ErrorView::RejectedStub { name: name@, reason: reason@ },
            StubError::InvalidCommand { name, source, reason } => ErrorView::InvalidCommand { name: name@, source: source@, reason: reason@ },
            StubError::Inaccessible { path, reason } => ErrorView::Inaccessible { path: path@, reason: reason@ },
            StubError::Unreadable { path } => ErrorView::Unreadable { path: path@ },
            StubError::Unresolved { path, reason } => ErrorView::Unresolved { path: path@, reason: reason@ },
        }
    }
}

/// The decimal digits of a number.
pub open spec fn decimal(number: u8) -> Seq<char>
    decreases number,
{
    let digit = seq!["0123456789"@[number as int % 10]];
    if number < 10 {
        digit
    } else {
        decimal((number / 10) as u8) + digit
    }
}

/// Writes a number in decimal.
pub fn decimal_of(number: u8) -> (digits: String)
    ensures
        digits@ == decimal(number),
    decreases number,
{
    let all = "0123456789";
    proof {
        reveal_strlit("0123456789");
    }
    let last: usize = (number % 10) as usize;
    let digit = all.substring_char(last, last + 1);
    assert(digit@ =~= seq![all@[last as int]]);
    if number < 10 {
        digit.to_owned()
    } else {
        decimal_of(number / 10).concat(digit)
    }
}

/// A message that tells of one path.
fn only_path(path: &String) -> (subjects: Vec<Subject>)
    ensures
        message::subject_views(subjects@) == seq![SubjectView::Path(path@)],
{
    let mut subjects: Vec<Subject> = Vec::new();
    subjects.push(Subject::Path(path.clone()));
    assert(message::subject_views(subjects@) =~= seq![SubjectView::Path(path@)]);
    subjects
}

/// A message that tells of no path.
fn no_subjects() -> (subjects: Vec<Subject>)
    ensures
        message::subject_views(subjects@) == Seq::<SubjectView>::empty(),
{
    let subjects: Vec<Subject> = Vec::new();
    assert(message::subject_views(subjects@) =~= Seq::empty());
    subjects
}

impl ErrorView {
    /// What the message of the error tells of, in order.
    pub open spec fn subjects(self) -> Seq<SubjectView> {
        match self {
            ErrorView::EmptyName => Seq::empty(),
            ErrorView::InvalidName { .. } => Seq::empty(),
            ErrorView::InvalidManagedPath { path } => seq![SubjectView::Path(path)],
            ErrorView::NotSafelyOwned { notices } => message::notice_subjects(notices),
            ErrorView::ModifiedStub { path } => seq![SubjectView::Path(path)],
            ErrorView::TransactionExists { path } => seq![SubjectView::Path(path)],
            ErrorView::ReplacesDirectory { path } => seq![SubjectView::Path(path)],
            ErrorView::InvalidCommitMarker { path } => seq![SubjectView::Path(path)],
            ErrorView::InvalidTransactionPath { path } => seq![SubjectView::Path(path)],
            ErrorView::UnsupportedTransaction { path, .. } => seq![SubjectView::Path(path)],
            ErrorView::TransactionIdentity { path } => seq![SubjectView::Path(path)],
            ErrorView::PreviousState { path } => seq![SubjectView::Path(path)],
            ErrorView::InvalidTrackedPath { path } => seq![SubjectView::Path(path)],
            ErrorView::RollbackFailed { notices, path } => message::notice_subjects(notices).push(SubjectView::Path(path)),
            ErrorView::RecoversDirectory { path } => seq![SubjectView::Path(path)],
            ErrorView::NotInstalled { path } => seq![SubjectView::Path(path)],
            ErrorView::ChangedAfterSync { path } => seq![SubjectView::Path(path)],
            ErrorView::OtherOwner { path } => seq![SubjectView::Path(path)],
            ErrorView::InvalidTransactionDirectory { path } => seq![SubjectView::Path(path)],
            ErrorView::TrackingFailed { notices } => message::notice_subjects(notices),
            ErrorView::NotSynchronized { source } => seq![SubjectView::Path(source)],
            ErrorView::IntoWithoutManifest => Seq::empty(),
            ErrorView::AmbiguousBundles { source } => seq![SubjectView::Path(source)],
            ErrorView::UnsupportedState { path, .. } => seq![SubjectView::Path(path)],
            ErrorView::StateIdentity { path } => seq![SubjectView::Path(path)],
            ErrorView::Malformed { path, .. } => seq![SubjectView::Path(path)],
            ErrorView::InvalidToolRequest { .. } => Seq::empty(),
            ErrorView::NotToolOrTable { .. } => Seq::empty(),
            ErrorView::Unwritable { .. } => Seq::empty(),
            ErrorView::RejectedStub { .. } => Seq::empty(),
            ErrorView::InvalidCommand { source, .. } => seq![SubjectView::Path(source)],
            ErrorView::Inaccessible { path, .. } => seq![SubjectView::Path(path)],
            ErrorView::Unreadable { path } => seq![SubjectView::Path(path)],
            ErrorView::Unresolved { path, .. } => seq![SubjectView::Path(path)],
        }
    }

    /// The message that tells the user of the error. `told` is how it names what
    /// it tells of.
    pub open spec fn message(self, told: Seq<Seq<char>>) -> Seq<char> {
        match self {
            ErrorView::EmptyName => "command names cannot be empty"@,
            ErrorView::InvalidName { name } => "command name must be a single file name: "@ + name,
            ErrorView::InvalidManagedPath { .. } => "invalid managed tool-stub path "@ + told[0] + " in bundle state"@,
            ErrorView::NotSafelyOwned { notices } => "refusing to overwrite tool stubs not safely owned by this bundle: "@ + text::joined(message::notice_texts(notices, told), ", "@),
            ErrorView::ModifiedStub { .. } => "refusing to remove modified tool stub "@ + told[0] + "; use --force"@,
            ErrorView::TransactionExists { .. } => "tool-stub transaction already exists at "@ + told[0],
            ErrorView::ReplacesDirectory { .. } => "refusing to replace directory "@ + told[0] + "; remove it first"@,
            ErrorView::InvalidCommitMarker { .. } => "invalid tool-stub transaction commit marker "@ + told[0],
            ErrorView::InvalidTransactionPath { .. } => "invalid tool-stub transaction path "@ + told[0],
            ErrorView::UnsupportedTransaction { version, .. } => "unsupported tool-stub transaction version "@ + decimal(version) + " in "@ + told[0],
            ErrorView::TransactionIdentity { .. } => "tool-stub transaction identity does not match "@ + told[0],
            ErrorView::PreviousState { .. } => "previous bundle state does not match tool-stub transaction "@ + told[0],
            ErrorView::InvalidTrackedPath { .. } => "invalid tracked stub path "@ + told[0] + " in tool-stub transaction"@,
            ErrorView::RollbackFailed { notices, path } => text::joined(message::notice_texts(notices, told), "; "@) + "; original files preserved at "@ + told[notices.len() as int],
            ErrorView::RecoversDirectory { .. } => "refusing to remove directory while recovering "@ + told[0],
            ErrorView::NotInstalled { .. } => "refusing to remove a file not installed by the interrupted sync: "@ + told[0],
            ErrorView::ChangedAfterSync { .. } => "refusing to remove a file changed after the interrupted sync: "@ + told[0],
            ErrorView::OtherOwner { .. } => "refusing to remove a file owned by another tool-stub bundle while recovering: "@ + told[0],
            ErrorView::InvalidTransactionDirectory { .. } => "refusing to remove invalid tool-stub transaction path "@ + told[0],
            ErrorView::TrackingFailed { notices } => text::joined(message::notice_texts(notices, told), "; "@),
            ErrorView::NotSynchronized { .. } => "tool-stub bundle has not been synchronized: "@ + told[0],
            ErrorView::IntoWithoutManifest => "--into requires a manifest argument"@,
            ErrorView::AmbiguousBundles { .. } => "multiple tool-stub bundles use "@ + told[0] + "; specify --into"@,
            ErrorView::UnsupportedState { version, .. } => "unsupported tool-stub bundle state version "@ + decimal(version) + " in "@ + told[0],
            ErrorView::StateIdentity { .. } => "tool-stub bundle identity does not match "@ + told[0],
            ErrorView::Malformed { reason, .. } => "failed to parse "@ + told[0] + ": "@ + reason,
            ErrorView::InvalidToolRequest { name, request } => "invalid tool request for command "@ + name + ": "@ + request,
            ErrorView::NotToolOrTable { name } => "command "@ + name + " must be a tool string or table"@,
            ErrorView::Unwritable { reason } => reason,
            ErrorView::RejectedStub { name, reason } => "invalid tool-stub configuration for command "@ + name + ": "@ + reason,
            ErrorView::InvalidCommand { name, reason, .. } => "invalid tool-stub command "@ + name + " in "@ + told[0] + ": "@ + reason,
            ErrorView::Inaccessible { reason, .. } => "cannot access "@ + told[0] + ": "@ + reason,
            ErrorView::Unreadable { .. } => "cannot read "@ + told[0],
            ErrorView::Unresolved { reason, .. } => "failed to resolve "@ + told[0] + ": "@ + reason,
        }
    }

    /// `message` tells the user of the error, with paths as `show` shows them.
    pub open spec fn says<D: Fn(&String) -> String>(self, show: D, message: Seq<char>) -> bool {
        exists|told: Seq<Seq<char>>| #[trigger]
            message::tells_all(show, self.subjects(), told) && message == self.message(told)
    }
}

impl StubError {
    /// What the message of the error tells of, in order.
    pub fn subjects(&self) -> (subjects: Vec<Subject>)
        ensures
            message::subject_views(subjects@) == self@.subjects(),
    {
        match self {
            StubError::EmptyName => no_subjects(),
            StubError::InvalidName { .. } => no_subjects(),
            StubError::InvalidManagedPath { path } => only_path(path),
            StubError::NotSafelyOwned { notices } => message::subjects_of(notices),
            StubError::ModifiedStub { path } => only_path(path),
            StubError::TransactionExists { path } => only_path(path),
            StubError::ReplacesDirectory { path } => only_path(path),
            StubError::InvalidCommitMarker { path } => only_path(path),
            StubError::InvalidTransactionPath { path } => only_path(path),
            StubError::UnsupportedTransaction { path, .. } => only_path(path),
            StubError::TransactionIdentity { path } => only_path(path),
            StubError::PreviousState { path } => only_path(path),
            StubError::InvalidTrackedPath { path } => only_path(path),
            StubError::RollbackFailed { notices, path } => {
                let mut subjects = message::subjects_of(notices);
                subjects.push(Subject::Path(path.clone()));
                assert(message::subject_views(subjects@) =~= self@.subjects());
                subjects
            },
            StubError::RecoversDirectory { path } => only_path(path),
            StubError::NotInstalled { path } => only_path(path),
            StubError::ChangedAfterSync { path } => only_path(path),
            StubError::OtherOwner { path } => only_path(path),
            StubError::InvalidTransactionDirectory { path } => only_path(path),
            StubError::TrackingFailed { notices } => message::subjects_of(notices),
            StubError::NotSynchronized { source } => only_path(source),
            StubError::IntoWithoutManifest => no_subjects(),
            StubError::AmbiguousBundles { source } => only_path(source),
            StubError::UnsupportedState { path, .. } => only_path(path),
            StubError::StateIdentity { path } => only_path(path),
            StubError::Malformed { path, .. } => only_path(path),
            StubError::InvalidToolRequest { .. } => no_subjects(),
            StubError::NotToolOrTable { .. } => no_subjects(),
            StubError::Unwritable { .. } => no_subjects(),
            StubError::RejectedStub { .. } => no_subjects(),
            StubError::InvalidCommand { source, .. } => only_path(source),
            StubError::Inaccessible { path, .. } => only_path(path),
            StubError::Unreadable { path } => only_path(path),
            StubError::Unresolved { path, .. } => only_path(path),
        }
    }

    /// The message that tells the user of the error. `told` is how it names what
    /// it tells of.
    pub fn message_from(&self, told: &Vec<String>) -> (message: String)
        requires
            told@.len() == self@.subjects().len(),
        ensures
            message@ == self@.message(text::texts(told@)),
    {
        match self {
            StubError::EmptyName => "command names cannot be empty".to_owned(),
            StubError::InvalidName { name } => "command name must be a single file name: ".to_owned().concat(name.as_str()),
            StubError::InvalidManagedPath { .. } => "invalid managed tool-stub path ".to_owned().concat(told[0].as_str()).concat(" in bundle state"),
            StubError::NotSafelyOwned { notices } => "refusing to overwrite tool stubs not safely owned by this bundle: ".to_owned().concat(message::join_notices(notices, told, ", ").as_str()),
            StubError::ModifiedStub { .. } => "refusing to remove modified tool stub ".to_owned().concat(told[0].as_str()).concat("; use --force"),
            StubError::TransactionExists { .. } => "tool-stub transaction already exists at ".to_owned().concat(told[0].as_str()),
            StubError::ReplacesDirectory { .. } => "refusing to replace directory ".to_owned().concat(told[0].as_str()).concat("; remove it first"),
            StubError::InvalidCommitMarker { .. } => "invalid tool-stub transaction commit marker ".to_owned().concat(told[0].as_str()),
            StubError::InvalidTransactionPath { .. } => "invalid tool-stub transaction path ".to_owned().concat(told[0].as_str()),
            StubError::UnsupportedTransaction { version, .. } => "unsupported tool-stub transaction version ".to_owned().concat(decimal_of(*version).as_str()).concat(" in ").concat(told[0].as_str()),
            StubError::TransactionIdentity { .. } => "tool-stub transaction identity does not match ".to_owned().concat(told[0].as_str()),
            StubError::PreviousState { .. } => "previous bundle state does not match tool-stub transaction ".to_owned().concat(told[0].as_str()),
            StubError::InvalidTrackedPath { .. } => "invalid tracked stub path ".to_owned().concat(told[0].as_str()).concat(" in tool-stub transaction"),
            StubError::RollbackFailed { notices, path } => message::join_notices(notices, told, "; ").concat("; original files preserved at ").concat(told[notices.len()].as_str()),
            StubError::RecoversDirectory { .. } => "refusing to remove directory while recovering ".to_owned().concat(told[0].as_str()),
            StubError::NotInstalled { .. } => "refusing to remove a file not installed by the interrupted sync: ".to_owned().concat(told[0].as_str()),
            StubError::ChangedAfterSync { .. } => "refusing to remove a file changed after the interrupted sync: ".to_owned().concat(told[0].as_str()),
            StubError::OtherOwner { .. } => "refusing to remove a file owned by another tool-stub bundle while recovering: ".to_owned().concat(told[0].as_str()),
            StubError::InvalidTransactionDirectory { .. } => "refusing to remove invalid tool-stub transaction path ".to_owned().concat(told[0].as_str()),
            StubError::TrackingFailed { notices } => message::join_notices(notices, told, "; "),
            StubError::NotSynchronized { .. } => "tool-stub bundle has not been synchronized: ".to_owned().concat(told[0].as_str()),
            StubError::IntoWithoutManifest => "--into requires a manifest argument".to_owned(),
            StubError::AmbiguousBundles { .. } => "multiple tool-stub bundles use ".to_owned().concat(told[0].as_str()).concat("; specify --into"),
            StubError::UnsupportedState { version, .. } => "unsupported tool-stub bundle state version ".to_owned().concat(decimal_of(*version).as_str()).concat(" in ").concat(told[0].as_str()),
            StubError::StateIdentity { .. } => "tool-stub bundle identity does not match ".to_owned().concat(told[0].as_str()),
            StubError::Malformed { reason, .. } => "failed to parse ".to_owned().concat(told[0].as_str()).concat(": ").concat(reason.as_str()),
            StubError::InvalidToolRequest { name, request } => "invalid tool request for command ".to_owned().concat(name.as_str()).concat(": ").concat(request.as_str()),
            StubError::NotToolOrTable { name } => "command ".to_owned().concat(name.as_str()).concat(" must be a tool string or table"),
            StubError::Unwritable { reason } => reason.clone(),
            StubError::RejectedStub { name, reason } => "invalid tool-stub configuration for command ".to_owned().concat(name.as_str()).concat(": ").concat(reason.as_str()),
            StubError::InvalidCommand { name, reason, .. } => "invalid tool-stub command ".to_owned().concat(name.as_str()).concat(" in ").concat(told[0].as_str()).concat(": ").concat(reason.as_str()),
            StubError::Inaccessible { reason, .. } => "cannot access ".to_owned().concat(told[0].as_str()).concat(": ").concat(reason.as_str()),
            StubError::Unreadable { .. } => "cannot read ".to_owned().concat(told[0].as_str()),
            StubError::Unresolved { reason, .. } => "failed to resolve ".to_owned().concat(told[0].as_str()).concat(": ").concat(reason.as_str()),
        }
    }

    /// The message that tells the user of the error, with paths as `show` shows
    /// them.
    pub fn message<D: Fn(&String) -> String>(&self, show: &D) -> (message: String)
        requires
            forall|path: &String| call_requires(*show, (path,)),
        ensures
            self@.says(*show, message@),
    {
        let told = message::tell_all(&self.subjects(), show);
        self.message_from(&told)
    }
}

/// A message names all that it tells of, in the way that it is shown, and the
/// version, the name, the request and the reason of the error, where it has them.
pub proof fn law_message_tells_all(error: ErrorView, told: Seq<Seq<char>>)
    requires
        told.len() == error.subjects().len(),
    ensures
        forall|i: int| 0 <= i < told.len() ==> text::holds(error.message(told), #[trigger] told[i]),
        match error {
            ErrorView::InvalidName { name } => text::holds(error.message(told), name),
            ErrorView::Malformed { reason, .. } => text::holds(error.message(told), reason),
            ErrorView::InvalidToolRequest { name, request } => text::holds(error.message(told), name) && text::holds(error.message(told), request),
            ErrorView::NotToolOrTable { name } => text::holds(error.message(told), name),
            ErrorView::Unwritable { reason } => text::holds(error.message(told), reason),
            ErrorView::RejectedStub { name, reason } => text::holds(error.message(told), name) && text::holds(error.message(told), reason),
            ErrorView::InvalidCommand { name, reason, .. } => text::holds(error.message(told), name) && text::holds(error.message(told), reason),
            ErrorView::Inaccessible { reason, .. } => text::holds(error.message(told), reason),
            ErrorView::Unresolved { reason, .. } => text::holds(error.message(told), reason),
            ErrorView::UnsupportedTransaction { version, .. } => text::holds(
                error.message(told),
                decimal(version),
            ),
            ErrorView::UnsupportedState { version, .. } => text::holds(
                error.message(told),
                decimal(version),
            ),
            _ => true,
        },
{
    let whole = error.message(told);
    match error {
        ErrorView::InvalidName { name } => {
            assert(whole =~= ("command name must be a single file name: "@) + name + (Seq::<char>::empty()));
            text::lemma_stands_between(whole, "command name must be a single file name: "@, name, Seq::<char>::empty());
        },
        ErrorView::InvalidManagedPath { .. } => {
            assert(whole =~= ("invalid managed tool-stub path "@) + told[0] + (" in bundle state"@));
            text::lemma_stands_between(whole, "invalid managed tool-stub path "@, told[0], " in bundle state"@);
        },
        ErrorView::ModifiedStub { .. } => {
            assert(whole =~= ("refusing to remove modified tool stub "@) + told[0] + ("; use --force"@));
            text::lemma_stands_between(whole, "refusing to remove modified tool stub "@, told[0], "; use --force"@);
        },
        ErrorView::TransactionExists { .. } => {
            assert(whole =~= ("tool-stub transaction already exists at "@) + told[0] + (Seq::<char>::empty()));
            text::lemma_stands_between(whole, "tool-stub transaction already exists at "@, told[0], Seq::<char>::empty());
        },
        ErrorView::ReplacesDirectory { .. } => {
            assert(whole =~= ("refusing to replace directory "@) + told[0] + ("; remove it first"@));
            text::lemma_stands_between(whole, "refusing to replace directory "@, told[0], "; remove it first"@);
        },
        ErrorView::InvalidCommitMarker { .. } => {
            assert(whole =~= ("invalid tool-stub transaction commit marker "@) + told[0] + (Seq::<char>::empty()));
            text::lemma_stands_between(whole, "invalid tool-stub transaction commit marker "@, told[0], Seq::<char>::empty());
        },
        ErrorView::InvalidTransactionPath { .. } => {
            assert(whole =~= ("invalid tool-stub transaction path "@) + told[0] + (Seq::<char>::empty()));
            text::lemma_stands_between(whole, "invalid tool-stub transaction path "@, told[0], Seq::<char>::empty());
        },
        ErrorView::UnsupportedTransaction { version, .. } => {
            assert(whole =~= ("unsupported tool-stub transaction version "@) + decimal(version) + (" in "@ + told[0]));
            text::lemma_stands_between(whole, "unsupported tool-stub transaction version "@, decimal(version), " in "@ + told[0]);
            assert(whole =~= ("unsupported tool-stub transaction version "@ + decimal(version) + " in "@) + told[0] + (Seq::<char>::empty()));
            text::lemma_stands_between(whole, "unsupported tool-stub transaction version "@ + decimal(version) + " in "@, told[0], Seq::<char>::empty());
        },
        ErrorView::TransactionIdentity { .. } => {
            assert(whole =~= ("tool-stub transaction identity does not match "@) + told[0] + (Seq::<char>::empty()));
            text::lemma_stands_between(whole, "tool-stub transaction identity does not match "@, told[0], Seq::<char>::empty());
        },
        ErrorView::PreviousState { .. } => {
            assert(whole =~= ("previous bundle state does not match tool-stub transaction "@) + told[0] + (Seq::<char>::empty()));
            text::lemma_stands_between(whole, "previous bundle state does not match tool-stub transaction "@, told[0], Seq::<char>::empty());
        },
        ErrorView::InvalidTrackedPath { .. } => {
            assert(whole =~= ("invalid tracked stub path "@) + told[0] + (" in tool-stub transaction"@));
            text::lemma_stands_between(whole, "invalid tracked stub path "@, told[0], " in tool-stub transaction"@);
        },
        ErrorView::RecoversDirectory { .. } => {
            assert(whole =~= ("refusing to remove directory while recovering "@) + told[0] + (Seq::<char>::empty()));
            text::lemma_stands_between(whole, "refusing to remove directory while recovering "@, told[0], Seq::<char>::empty());
        },
        ErrorView::NotInstalled { .. } => {
            assert(whole =~= ("refusing to remove a file not installed by the interrupted sync: "@) + told[0] + (Seq::<char>::empty()));
            text::lemma_stands_between(whole, "refusing to remove a file not installed by the interrupted sync: "@, told[0], Seq::<char>::empty());
        },
        ErrorView::ChangedAfterSync { .. } => {
            assert(whole =~= ("refusing to remove a file changed after the interrupted sync: "@) + told[0] + (Seq::<char>::empty()));
            text::lemma_stands_between(whole, "refusing to remove a file changed after the interrupted sync: "@, told[0], Seq::<char>::empty());
        },
        ErrorView::OtherOwner { .. } => {
            assert(whole =~= ("refusing to remove a file owned by another tool-stub bundle while recovering: "@) + told[0] + (Seq::<char>::empty()));
            text::lemma_stands_between(whole, "refusing to remove a file owned by another tool-stub bundle while recovering: "@, told[0], Seq::<char>::empty());
        },
        ErrorView::InvalidTransactionDirectory { .. } => {
            assert(whole =~= ("refusing to remove invalid tool-stub transaction path "@) + told[0] + (Seq::<char>::empty()));
            text::lemma_stands_between(whole, "refusing to remove invalid tool-stub transaction path "@, told[0], Seq::<char>::empty());
        },
        ErrorView::NotSynchronized { .. } => {
            assert(whole =~= ("tool-stub bundle has not been synchronized: "@) + told[0] + (Seq::<char>::empty()));
            text::lemma_stands_between(whole, "tool-stub bundle has not been synchronized: "@, told[0], Seq::<char>::empty());
        },
        ErrorView::AmbiguousBundles { .. } => {
            assert(whole =~= ("multiple tool-stub bundles use "@) + told[0] + ("; specify --into"@));
            text::lemma_stands_between(whole, "multiple tool-stub bundles use "@, told[0], "; specify --into"@);
        },
        ErrorView::UnsupportedState { version, .. } => {
            assert(whole =~= ("unsupported tool-stub bundle state version "@) + decimal(version) + (" in "@ + told[0]));
            text::lemma_stands_between(whole, "unsupported tool-stub bundle state version "@, decimal(version), " in "@ + told[0]);
            assert(whole =~= ("unsupported tool-stub bundle state version "@ + decimal(version) + " in "@) + told[0] + (Seq::<char>::empty()));
            text::lemma_stands_between(whole, "unsupported tool-stub bundle state version "@ + decimal(version) + " in "@, told[0], Seq::<char>::empty());
        },
        ErrorView::StateIdentity { .. } => {
            assert(whole =~= ("tool-stub bundle identity does not match "@) + told[0] + (Seq::<char>::empty()));
            text::lemma_stands_between(whole, "tool-stub bundle identity does not match "@, told[0], Seq::<char>::empty());
        },
        ErrorView::Malformed { reason, .. } => {
            assert(whole =~= ("failed to parse "@) + told[0] + (": "@ + reason));
            text::lemma_stands_between(whole, "failed to parse "@, told[0], ": "@ + reason);
            assert(whole =~= ("failed to parse "@ + told[0] + ": "@) + reason + (Seq::<char>::empty()));
            text::lemma_stands_between(whole, "failed to parse "@ + told[0] + ": "@, reason, Seq::<char>::empty());
        },
        ErrorView::InvalidToolRequest { name, request } => {
            assert(whole =~= ("invalid tool request for command "@) + name + (": "@ + request));
            text::lemma_stands_between(whole, "invalid tool request for command "@, name, ": "@ + request);
            assert(whole =~= ("invalid tool request for command "@ + name + ": "@) + request + (Seq::<char>::empty()));
            text::lemma_stands_between(whole, "invalid tool request for command "@ + name + ": "@, request, Seq::<char>::empty());
        },
        ErrorView::NotToolOrTable { name } => {
            assert(whole =~= ("command "@) + name + (" must be a tool string or table"@));
            text::lemma_stands_between(whole, "command "@, name, " must be a tool string or table"@);
        },
        ErrorView::Unwritable { reason } => {
            assert(whole =~= (Seq::<char>::empty()) + reason + (Seq::<char>::empty()));
            text::lemma_stands_between(whole, Seq::<char>::empty(), reason, Seq::<char>::empty());
        },
        ErrorView::RejectedStub { name, reason } => {
            assert(whole =~= ("invalid tool-stub configuration for command "@) + name + (": "@ + reason));
            text::lemma_stands_between(whole, "invalid tool-stub configuration for command "@, name, ": "@ + reason);
            assert(whole =~= ("invalid tool-stub configuration for command "@ + name + ": "@) + reason + (Seq::<char>::empty()));
            text::lemma_stands_between(whole, "invalid tool-stub configuration for command "@ + name + ": "@, reason, Seq::<char>::empty());
        },
        ErrorView::InvalidCommand { name, reason, .. } => {
            assert(whole =~= ("invalid tool-stub command "@) + name + (" in "@ + told[0] + ": "@ + reason));
            text::lemma_stands_between(whole, "invalid tool-stub command "@, name, " in "@ + told[0] + ": "@ + reason);
            assert(whole =~= ("invalid tool-stub command "@ + name + " in "@) + told[0] + (": "@ + reason));
            text::lemma_stands_between(whole, "invalid tool-stub command "@ + name + " in "@, told[0], ": "@ + reason);
            assert(whole =~= ("invalid tool-stub command "@ + name + " in "@ + told[0] + ": "@) + reason + (Seq::<char>::empty()));
            text::lemma_stands_between(whole, "invalid tool-stub command "@ + name + " in "@ + told[0] + ": "@, reason, Seq::<char>::empty());
        },
        ErrorView::Inaccessible { reason, .. } => {
            assert(whole =~= ("cannot access "@) + told[0] + (": "@ + reason));
            text::lemma_stands_between(whole, "cannot access "@, told[0], ": "@ + reason);
            assert(whole =~= ("cannot access "@ + told[0] + ": "@) + reason + (Seq::<char>::empty()));
            text::lemma_stands_between(whole, "cannot access "@ + told[0] + ": "@, reason, Seq::<char>::empty());
        },
        ErrorView::Unreadable { .. } => {
            assert(whole =~= ("cannot read "@) + told[0] + (Seq::<char>::empty()));
            text::lemma_stands_between(whole, "cannot read "@, told[0], Seq::<char>::empty());
        },
        ErrorView::Unresolved { reason, .. } => {
            assert(whole =~= ("failed to resolve "@) + told[0] + (": "@ + reason));
            text::lemma_stands_between(whole, "failed to resolve "@, told[0], ": "@ + reason);
            assert(whole =~= ("failed to resolve "@ + told[0] + ": "@) + reason + (Seq::<char>::empty()));
            text::lemma_stands_between(whole, "failed to resolve "@ + told[0] + ": "@, reason, Seq::<char>::empty());
        },
        ErrorView::NotSafelyOwned { notices } => {
            let start = "refusing to overwrite tool stubs not safely owned by this bundle: "@;
            assert forall|i: int| 0 <= i < told.len() implies text::holds(
                whole,
                #[trigger] told[i],
            ) by {
                lemma_notice_is_told(notices, told, ", "@, i);
                let list = text::joined(message::notice_texts(notices, told), ", "@);
                text::lemma_holds(start, list, Seq::empty(), told[i]);
                assert(start + list + Seq::<char>::empty() =~= whole);
            }
        },
        ErrorView::TrackingFailed { notices } => {
            assert forall|i: int| 0 <= i < told.len() implies text::holds(
                whole,
                #[trigger] told[i],
            ) by {
                lemma_notice_is_told(notices, told, "; "@, i);
            }
        },
        ErrorView::RollbackFailed { notices, path } => {
            let list = text::joined(message::notice_texts(notices, told), "; "@);
            let middle = "; original files preserved at "@;
            let last = told[notices.len() as int];
            assert forall|i: int| 0 <= i < told.len() implies text::holds(
                whole,
                #[trigger] told[i],
            ) by {
                if i < notices.len() {
                    lemma_notice_is_told(notices, told, "; "@, i);
                    text::lemma_holds(Seq::empty(), list, middle + last, told[i]);
                    assert(Seq::<char>::empty() + list + (middle + last) =~= whole);
                } else {
                    assert(whole =~= (list + middle) + last + Seq::<char>::empty());
                    text::lemma_stands_between(whole, list + middle, last, Seq::empty());
                }
            }
        },
        _ => {},
    }
}

/// Joined notices hold how what they tell of is shown.
pub proof fn lemma_notice_is_told(
    notices: Seq<NoticeView>,
    told: Seq<Seq<char>>,
    separator: Seq<char>,
    i: int,
)
    requires
        0 <= i < notices.len(),
        notices.len() <= told.len(),
    ensures
        text::holds(text::joined(message::notice_texts(notices, told), separator), told[i]),
{
    let texts = message::notice_texts(notices, told);
    let list = text::joined(texts, separator);
    text::law_joined_holds(texts, separator, i);
    let at = choose|at: int|
        0 <= at <= list.len() - texts[i].len() && #[trigger] list.subrange(
            at,
            at + texts[i].len(),
        ) == texts[i];
    assert(texts[i] == told[i] + notices[i].rest);
    assert forall|k: int| 0 <= k < told[i].len() implies list[at + k] == told[i][k] by {
        assert(list.subrange(at, at + texts[i].len())[k] == texts[i][k]);
    }
    assert(list.subrange(at, at + told[i].len()) =~= told[i]);
}

/// The message of an error tells of every path that the error holds.
pub proof fn law_subjects_are_the_paths(error: ErrorView)
    ensures
        match error {
            ErrorView::RollbackFailed { notices, path } => {
                &&& error.subjects().len() == notices.len() + 1
                &&& error.subjects().last() == SubjectView::Path(path)
                &&& forall|i: int|
                    0 <= i < notices.len() ==> #[trigger] error.subjects()[i] == notices[i].subject
            },
            ErrorView::NotSafelyOwned { notices } => {
                &&& error.subjects().len() == notices.len()
                &&& forall|i: int|
                    0 <= i < notices.len() ==> #[trigger] error.subjects()[i] == notices[i].subject
            },
            ErrorView::TrackingFailed { notices } => {
                &&& error.subjects().len() == notices.len()
                &&& forall|i: int|
                    0 <= i < notices.len() ==> #[trigger] error.subjects()[i] == notices[i].subject
            },
            ErrorView::InvalidCommand { source, .. } => error.subjects() == seq![
                SubjectView::Path(source),
            ],
            ErrorView::NotSynchronized { source } => error.subjects() == seq![
                SubjectView::Path(source),
            ],
            ErrorView::AmbiguousBundles { source } => error.subjects() == seq![
                SubjectView::Path(source),
            ],
            ErrorView::Malformed { path, .. } => error.subjects() == seq![SubjectView::Path(path)],
            ErrorView::Inaccessible { path, .. } => error.subjects() == seq![
                SubjectView::Path(path),
            ],
            ErrorView::ModifiedStub { path } => error.subjects() == seq![SubjectView::Path(path)],
            ErrorView::Unreadable { path } => error.subjects() == seq![SubjectView::Path(path)],
            ErrorView::Unresolved { path, .. } => error.subjects() == seq![SubjectView::Path(path)],
            _ => error.subjects().len() <= 1,
        },
{
}

/// The number that decimal digits stand for.
pub open spec fn number_of(digits: Seq<char>) -> int
    decreases digits.len(),
{
    if digits.len() == 0 {
        0
    } else {
        10 * number_of(digits.drop_last()) + (digits.last() as int - '0' as int)
    }
}

/// A number can be read back from its decimal digits, which have no zero in front.
pub proof fn law_decimal_reads_back(number: u8)
    ensures
        number_of(decimal(number)) == number,
        decimal(number).len() > 0,
        forall|i: int| 0 <= i < decimal(number).len() ==> '0' <= #[trigger] decimal(number)[i] <= '9',
        decimal(number)[0] == '0' ==> number == 0,
    decreases number,
{
    reveal_strlit("0123456789");
    let digits = decimal(number);
    if number >= 10 {
        let rest = (number / 10) as u8;
        law_decimal_reads_back(rest);
        assert(digits.drop_last() =~= decimal(rest));
        assert(digits[0] == decimal(rest)[0]);
        assert(forall|i: int| 0 <= i < decimal(rest).len() ==> digits[i] == decimal(rest)[i]);
    } else {
        assert(digits.drop_last() =~= Seq::empty());
        assert(number_of(digits.drop_last()) == 0);
    }
}

/// Where a flag of the request would help, or files were kept, the message says so.
pub proof fn law_message_tells_the_way_out(error: ErrorView, told: Seq<Seq<char>>)
    requires
        told.len() == error.subjects().len(),
    ensures
        error is ModifiedStub ==> text::holds(error.message(told), "; use --force"@),
        error is AmbiguousBundles ==> text::holds(error.message(told), "; specify --into"@),
        error is RollbackFailed ==> text::holds(
            error.message(told),
            "; original files preserved at "@ + told.last(),
        ),
{
    let whole = error.message(told);
    let nothing = Seq::<char>::empty();
    match error {
        ErrorView::ModifiedStub { .. } => {
            let start = "refusing to remove modified tool stub "@ + told[0];
            assert(whole =~= start + "; use --force"@ + nothing);
            text::lemma_stands_between(whole, start, "; use --force"@, nothing);
        },
        ErrorView::AmbiguousBundles { .. } => {
            let start = "multiple tool-stub bundles use "@ + told[0];
            assert(whole =~= start + "; specify --into"@ + nothing);
            text::lemma_stands_between(whole, start, "; specify --into"@, nothing);
        },
        ErrorView::RollbackFailed { notices, path } => {
            let start = text::joined(message::notice_texts(notices, told), "; "@);
            let end = "; original files preserved at "@ + told.last();
            assert(whole =~= start + end + nothing);
            text::lemma_stands_between(whole, start, end, nothing);
        },
        _ => {},
    }
}

} // verus!
