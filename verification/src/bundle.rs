//! Bundles: their identity, their recorded state, and how a request finds one.
use vstd::prelude::*;
use crate::command;
use crate::digest;
use crate::error::ErrorView;
use crate::error::StubError;
use crate::message;
use crate::name_map;
use crate::name_map::NameMap;
use crate::paths;
use crate::text;

verus! {

/// The version of the recorded state that this library reads and writes.
pub const STATE_SCHEMA_VERSION: u8 = 1;

/// A command that a bundle has written: where, and with which hash.
#[derive(Debug)]
pub struct ManagedCommand {
    pub path: String,
    pub content_hash: String,
}

/// The model of a [`ManagedCommand`].
pub struct ManagedView {
    pub path: Seq<char>,
    pub content_hash: Seq<char>,
}

impl View for ManagedCommand {
    type V = ManagedView;

    open spec fn view(&self) -> ManagedView {
        ManagedView { path: self.path@, content_hash: self.content_hash@ }
    }
}

impl ManagedCommand {
    /// A copy.
    pub fn copy(&self) -> (copy: ManagedCommand)
        ensures
            copy@ == self@,
    {
        ManagedCommand { path: self.path.clone(), content_hash: self.content_hash.clone() }
    }
}

/// The recorded state of a bundle: what it last wrote, from where, into which
/// directory.
#[derive(Debug)]
pub struct BundleState {
    pub schema_version: u8,
    pub id: String,
    pub source_path: String,
    pub source_hash: String,
    pub into: String,
    pub commands: NameMap<ManagedCommand>,
}

/// The model of a [`BundleState`].
pub struct StateView {
    pub schema_version: u8,
    pub id: Seq<char>,
    pub source_path: Seq<char>,
    pub source_hash: Seq<char>,
    pub into: Seq<char>,
    pub commands: Seq<(Seq<char>, ManagedView)>,
}

impl View for BundleState {
    type V = StateView;

    open spec fn view(&self) -> StateView {
        StateView {
            schema_version: self.schema_version,
            id: self.id@,
            source_path: self.source_path@,
            source_hash: self.source_hash@,
            into: self.into@,
            commands: self.commands@,
        }
    }
}

/// The model of an optional state.
pub open spec fn state_view(state: Option<BundleState>) -> Option<StateView> {
    match state {
        Some(known) => Some(known@),
        None => None,
    }
}

/// The models of some states.
pub open spec fn state_views(states: Seq<BundleState>) -> Seq<StateView> {
    Seq::new(states.len(), |i: int| states[i]@)
}

/// A copy of the managed commands.
pub fn copy_commands(commands: &NameMap<ManagedCommand>) -> (copy: NameMap<ManagedCommand>)
    ensures
        copy@ == commands@,
{
    let count = commands.len();
    let mut copy: NameMap<ManagedCommand> = NameMap::new();
    let mut i: usize = 0;
    assert(commands@.take(0) =~= Seq::empty());
    while i < count
        invariant
            count == commands@.len(),
            i <= count,
            name_map::names_sorted(commands@),
            copy@ == commands@.take(i as int),
        decreases count - i,
    {
        proof {
            let next = commands@[i as int];
            assert(commands@.take(i + 1) =~= commands@.take(i as int).push(next));
            name_map::lemma_with_last_name(commands@.take(i as int), next.0, next.1);
        }
        copy = copy.insert(commands.name_at(i).clone(), commands.value_at(i).copy());
        i += 1;
    }
    assert(commands@.take(count as int) =~= commands@);
    copy
}

impl BundleState {
    /// A copy.
    pub fn copy(&self) -> (copy: BundleState)
        ensures
            copy@ == self@,
    {
        BundleState {
            schema_version: self.schema_version,
            id: self.id.clone(),
            source_path: self.source_path.clone(),
            source_hash: self.source_hash.clone(),
            into: self.into.clone(),
            commands: copy_commands(&self.commands),
        }
    }
}

/// A copy of an optional state.
pub fn copy_state(state: &Option<BundleState>) -> (copy: Option<BundleState>)
    ensures
        state_view(copy) == state_view(*state),
{
    match state {
        Some(known) => Some(known.copy()),
        None => None,
    }
}

/// A bundle: the commands that one source declares for one directory.
#[derive(Debug)]
pub struct Bundle {
    pub id: String,
    pub source_path: String,
    pub manifest_path: Option<String>,
    pub into: String,
    pub state_path: String,
    pub state: Option<BundleState>,
    pub system: bool,
}

/// The model of a [`Bundle`].
pub struct BundleView {
    pub id: Seq<char>,
    pub source_path: Seq<char>,
    pub manifest_path: Option<Seq<char>>,
    pub into: Seq<char>,
    pub state_path: Seq<char>,
    pub state: Option<StateView>,
    pub system: bool,
}

impl View for Bundle {
    type V = BundleView;

    open spec fn view(&self) -> BundleView {
        BundleView {
            id: self.id@,
            source_path: self.source_path@,
            manifest_path: text::text_view(self.manifest_path),
            into: self.into@,
            state_path: self.state_path@,
            state: state_view(self.state),
            system: self.system,
        }
    }
}

/// The places that the environment gives to configuration, stubs and states.
#[derive(Debug)]
pub struct Locations {
    /// The configuration file that the environment names for the system.
    pub system_config_file: Option<String>,
    /// The system configuration directory.
    pub system_config: String,
    /// The configuration file that the environment names for the user.
    pub global_config_file: Option<String>,
    /// The user's configuration directory.
    pub config: String,
    /// The directory of system stubs.
    pub system_tool_stubs: String,
    /// The directory of the user's stubs.
    pub tool_stubs: String,
    /// The directory of the states of system bundles.
    pub system_tool_stub_bundles: String,
    /// The directory of the states of the user's bundles.
    pub tool_stub_bundles: String,
}

impl Locations {
    /// The source of a bundle without a manifest.
    pub open spec fn config_source(&self, system: bool) -> Seq<char> {
        let (file, directory) = if system {
            (self.system_config_file, self.system_config)
        } else {
            (self.global_config_file, self.config)
        };
        match file {
            Some(path) => path@,
            None => directory@,
        }
    }

    /// The directory of a bundle for which none is given or recorded.
    pub open spec fn stub_directory(&self, system: bool) -> Seq<char> {
        if system {
            self.system_tool_stubs@
        } else {
            self.tool_stubs@
        }
    }

    /// The directory of the recorded states.
    pub open spec fn state_directory(&self, system: bool) -> Seq<char> {
        if system {
            self.system_tool_stub_bundles@
        } else {
            self.tool_stub_bundles@
        }
    }
}

/// The source of a bundle without a manifest.
pub fn default_config_source(system: bool, locations: &Locations) -> (path: String)
    ensures
        path@ == locations.config_source(system),
{
    if system {
        match &locations.system_config_file {
            Some(path) => path.clone(),
            None => locations.system_config.clone(),
        }
    } else {
        match &locations.global_config_file {
            Some(path) => path.clone(),
            None => locations.config.clone(),
        }
    }
}

/// The directory of a bundle for which none is given or recorded.
pub fn default_into(system: bool, locations: &Locations) -> (path: String)
    ensures
        path@ == locations.stub_directory(system),
{
    if system {
        locations.system_tool_stubs.clone()
    } else {
        locations.tool_stubs.clone()
    }
}

/// The directory of the recorded states.
pub fn state_dir(system: bool, locations: &Locations) -> (path: &str)
    ensures
        path@ == locations.state_directory(system),
{
    if system {
        locations.system_tool_stub_bundles.as_str()
    } else {
        locations.tool_stub_bundles.as_str()
    }
}

/// A path that starts at the root.
pub open spec fn is_absolute(path: Seq<char>) -> bool {
    path.len() > 0 && path[0] == '/'
}

/// `found` is an absolute path for `path`: one that is absolute already stays the
/// same path, and a relative one is taken from some absolute directory.
pub open spec fn absolute_for(path: Seq<char>, found: Seq<char>) -> bool {
    &&& is_absolute(found)
    &&& if is_absolute(path) {
        paths::same_path(found, path)
    } else {
        exists|base: Seq<char>|
            is_absolute(base) && paths::same_path(found, #[trigger] paths::joined(base, path))
    }
}

/// `std::path::absolute` on a Unix system, with paths and the error as text. What
/// is found is left out where it is not UTF-8. The contract claims that what is
/// found is absolute; that a path which is absolute already is not refused, and
/// is found as the same path; that a relative one is found as itself inside an
/// absolute directory; and that the empty path is refused. Which directory that
/// is rests on the current one, and is left open.
#[verifier::external_body]
fn absolute_path(path: &str) -> (found: Result<Option<String>, String>)
    ensures
        match found {
            Ok(Some(resolved)) => absolute_for(path@, resolved@),
            Ok(None) => !is_absolute(path@),
            Err(_) => !is_absolute(path@),
        },
        path@.len() == 0 ==> found is Err,
{
    match std::path::absolute(path) {
        Ok(resolved) => Ok(resolved.to_str().map(str::to_owned)),
        Err(error) => Err(error.to_string()),
    }
}

/// The error of a path that cannot be made absolute.
pub open spec fn unresolved(path: Seq<char>, reason: Seq<char>) -> ErrorView {
    ErrorView::Unresolved { path, reason }
}

/// The absolute path that was found for `path`, or why there is none.
pub fn resolved_path(path: &str, found: Result<Option<String>, String>) -> (resolved: Result<
    String,
    StubError,
>)
    ensures
        command::result_view(resolved) == match found {
            Ok(Some(text)) => Ok(text@),
            Ok(None) => Err(unresolved(path@, "the absolute path is not valid UTF-8"@)),
            Err(reason) => Err(unresolved(path@, reason@)),
        },
{
    match found {
        Ok(Some(text)) => Ok(text),
        Ok(None) => Err(
            StubError::Unresolved {
                path: path.to_owned(),
                reason: "the absolute path is not valid UTF-8".to_owned(),
            },
        ),
        Err(reason) => Err(StubError::Unresolved { path: path.to_owned(), reason }),
    }
}

/// `outcome` may be what making `path` absolute gives: an absolute path for it, or,
/// of a path that is not absolute already, an error.
pub open spec fn absolute_outcome(path: Seq<char>, outcome: Result<Seq<char>, ErrorView>) -> bool {
    match outcome {
        Ok(found) => path.len() > 0 && absolute_for(path, found),
        Err(error) => !is_absolute(path) && exists|reason: Seq<char>|
            error == #[trigger] unresolved(path, reason),
    }
}

/// `path`, as seen from the current directory.
pub fn absolute(path: &str) -> (resolved: Result<String, StubError>)
    ensures
        absolute_outcome(path@, command::result_view(resolved)),
{
    let found = absolute_path(path);
    let ghost reason = if found is Err {
        found->Err_0@
    } else {
        "the absolute path is not valid UTF-8"@
    };
    let resolved = resolved_path(path, found);
    assert(resolved matches Err(error) ==> error@ == unresolved(path@, reason));
    resolved
}

/// The identifier of the bundle of a source and a directory.
pub open spec fn bundle_id_of(source_path: Seq<char>, into: Seq<char>) -> Seq<char> {
    digest::sha256_hex(vstd::utf8::encode_utf8(source_path + "\0"@ + into))
}

/// An identifier that names a bundle: 64 hexadecimal digits.
pub open spec fn is_bundle_id(id: Seq<char>) -> bool {
    &&& id.len() == 64
    &&& forall|i: int| 0 <= i < 64 ==> digest::is_hex_digit(#[trigger] id[i])
}

/// The identifier of a bundle fits into a marker line and is a plain file name
/// without a dot.
pub proof fn law_bundle_id_is_plain(id: Seq<char>)
    requires
        is_bundle_id(id),
    ensures
        command::fits_marker(id),
        paths::is_plain_name(id),
        !id.contains('.'),
{
    assert(!id.contains('\n') && !id.contains('/') && !id.contains('.'));
    assert(digest::is_hex_digit(id[63]));
}

/// The identifier of the bundle of a source and a directory.
pub fn bundle_id(source_path: &str, into: &str) -> (id: String)
    ensures
        id@ == bundle_id_of(source_path@, into@),
        is_bundle_id(id@),
{
    let key = text::concat(text::concat(source_path, "\0").as_str(), into);
    digest::hash_sha256_to_str(key.as_str())
}

/// Where the state of the bundle `id` is recorded.
pub open spec fn state_path_of(directory: Seq<char>, id: Seq<char>) -> Seq<char> {
    paths::joined(directory, id + ".json"@)
}

/// Where the state of the bundle `id` is recorded.
pub fn state_path(id: &str, system: bool, locations: &Locations) -> (path: String)
    ensures
        path@ == state_path_of(locations.state_directory(system), id@),
{
    paths::join(state_dir(system, locations), text::concat(id, ".json").as_str())
}

/// What is wrong with a state that was read from `path`.
pub open spec fn state_error(path: Seq<char>, state: StateView) -> Option<ErrorView> {
    if state.schema_version != STATE_SCHEMA_VERSION {
        Some(ErrorView::UnsupportedState { version: state.schema_version, path })
    } else if paths::file_stem(path) != Some(state.id) || state.id != bundle_id_of(
        state.source_path,
        state.into,
    ) {
        Some(ErrorView::StateIdentity { path })
    } else {
        None
    }
}

/// A state file, as far as it could be read.
#[derive(Debug)]
pub enum StateFile {
    /// There is no file.
    Missing,
    /// The file could not be read.
    Inaccessible { reason: String },
    /// The file does not hold a state.
    Malformed { reason: String },
    /// The state that the file holds.
    Parsed(BundleState),
}

/// The model of a [`StateFile`].
pub enum StateFileView {
    Missing,
    Inaccessible { reason: Seq<char> },
    Malformed { reason: Seq<char> },
    Parsed(StateView),
}

impl View for StateFile {
    type V = StateFileView;

    open spec fn view(&self) -> StateFileView {
        match self {
            StateFile::Missing => StateFileView::Missing,
            StateFile::Inaccessible { reason } => StateFileView::Inaccessible { reason: reason@ },
            StateFile::Malformed { reason } => StateFileView::Malformed { reason: reason@ },
            StateFile::Parsed(state) => StateFileView::Parsed(state@),
        }
    }
}

/// The state that a state file gives.
pub open spec fn loaded_state(path: Seq<char>, file: StateFileView) -> Result<
    Option<StateView>,
    ErrorView,
> {
    match file {
        StateFileView::Missing => Ok(None),
        StateFileView::Inaccessible { reason } => Err(ErrorView::Inaccessible { path, reason }),
        StateFileView::Malformed { reason } => Err(ErrorView::Malformed { path, reason }),
        StateFileView::Parsed(state) => match state_error(path, state) {
            Some(error) => Err(error),
            None => Ok(Some(state)),
        },
    }
}

/// The model of the outcome of loading a state.
pub open spec fn load_view(outcome: Result<Option<BundleState>, StubError>) -> Result<
    Option<StateView>,
    ErrorView,
> {
    match outcome {
        Ok(state) => Ok(state_view(state)),
        Err(error) => Err(error@),
    }
}

/// Accepts the state that was read from `path`, if it has the right version and
/// identity.
pub fn load_state(path: &str, file: StateFile) -> (loaded: Result<Option<BundleState>, StubError>)
    ensures
        load_view(loaded) == loaded_state(path@, file@),
{
    match file {
        StateFile::Missing => Ok(None),
        StateFile::Inaccessible { reason } => Err(
            StubError::Inaccessible { path: path.to_owned(), reason },
        ),
        StateFile::Malformed { reason } => Err(
            StubError::Malformed { path: path.to_owned(), reason },
        ),
        StateFile::Parsed(state) => {
            if state.schema_version != STATE_SCHEMA_VERSION {
                return Err(
                    StubError::UnsupportedState {
                        version: state.schema_version,
                        path: path.to_owned(),
                    },
                );
            }
            let named = match paths::file_stem_of(path) {
                Some(stem) => text::text_eq(stem.as_str(), state.id.as_str()),
                None => false,
            };
            let id = bundle_id(state.source_path.as_str(), state.into.as_str());
            if !named || !text::text_eq(state.id.as_str(), id.as_str()) {
                return Err(StubError::StateIdentity { path: path.to_owned() });
            }
            Ok(Some(state))
        },
    }
}

/// The file name of a state's place, without its extension, is the identifier of
/// the bundle.
pub proof fn lemma_state_path_stem(directory: Seq<char>, id: Seq<char>)
    requires
        is_bundle_id(id),
    ensures
        paths::file_stem(state_path_of(directory, id)) == Some(id),
{
    let name = id + ".json"@;
    reveal_strlit(".json");
    assert(name[64] == '.');
    assert forall|i: int| 0 <= i < name.len() implies name[i] != '/' by {
        if i < 64 {
            assert(digest::is_hex_digit(id[i]));
        }
    }
    assert(paths::is_plain_name(name));
    paths::law_file_name_of_joined(directory, name);
    paths::lemma_last_dot_unique(name, 64);
    assert(name.take(64) =~= id);
}

/// The state that a bundle writes for itself is the one that is accepted when
/// it is read back from its place.
pub proof fn law_saved_state_loads(directory: Seq<char>, state: StateView)
    requires
        state.schema_version == STATE_SCHEMA_VERSION,
        state.id == bundle_id_of(state.source_path, state.into),
        is_bundle_id(state.id),
    ensures
        loaded_state(
            state_path_of(directory, state.id),
            StateFileView::Parsed(state),
        ) == Ok::<Option<StateView>, ErrorView>(Some(state)),
{
    lemma_state_path_stem(directory, state.id);
}

/// What is accepted from the place of a bundle's state is a state of that
/// bundle.
pub proof fn law_loaded_state_is_own(
    directory: Seq<char>,
    id: Seq<char>,
    file: StateFileView,
    state: StateView,
)
    requires
        is_bundle_id(id),
        loaded_state(state_path_of(directory, id), file) == Ok::<Option<StateView>, ErrorView>(
            Some(state),
        ),
    ensures
        file == StateFileView::Parsed(state),
        state.id == id,
        state.id == bundle_id_of(state.source_path, state.into),
        state.schema_version == STATE_SCHEMA_VERSION,
{
    lemma_state_path_stem(directory, id);
}

/// One entry of the directory of recorded states.
#[derive(Debug)]
pub struct StateEntry {
    pub path: String,
    pub file: StateFile,
}

/// The model of a [`StateEntry`].
pub struct StateEntryView {
    pub path: Seq<char>,
    pub file: StateFileView,
}

impl View for StateEntry {
    type V = StateEntryView;

    open spec fn view(&self) -> StateEntryView {
        StateEntryView { path: self.path@, file: self.file@ }
    }
}

/// The models of some entries.
pub open spec fn entry_views(entries: Seq<StateEntry>) -> Seq<StateEntryView> {
    Seq::new(entries.len(), |i: int| entries[i]@)
}

/// The outcome of loading an entry that is a state file. Other entries do not
/// count.
pub open spec fn entry_outcome(entry: StateEntryView) -> Result<Option<StateView>, ErrorView> {
    if paths::extension(entry.path) == Some("json"@) {
        loaded_state(entry.path, entry.file)
    } else {
        Ok(None)
    }
}

/// The states among the entries, in their order.
pub open spec fn listed_states(entries: Seq<StateEntryView>) -> Seq<StateView>
    decreases entries.len(),
{
    if entries.len() == 0 {
        Seq::empty()
    } else {
        let before = listed_states(entries.drop_last());
        match entry_outcome(entries.last()) {
            Ok(Some(state)) => before.push(state),
            _ => before,
        }
    }
}

/// A state file that is passed over, and why.
#[derive(Debug)]
pub struct IgnoredState {
    pub path: String,
    pub error: StubError,
}

/// The model of an [`IgnoredState`].
pub struct IgnoredStateView {
    pub path: Seq<char>,
    pub error: ErrorView,
}

impl View for IgnoredState {
    type V = IgnoredStateView;

    open spec fn view(&self) -> IgnoredStateView {
        IgnoredStateView { path: self.path@, error: self.error@ }
    }
}

/// The warning that tells of a state file that is passed over, given how its path
/// is shown and the message of the error.
pub open spec fn state_warning(shown: Seq<char>, message: Seq<char>) -> Seq<char> {
    "ignoring invalid tool-stub bundle state "@ + shown + ": "@ + message
}

/// Warns of a state file that is passed over.
pub fn warn_of_state(shown: &str, message: &str) -> (warning: String)
    ensures
        warning@ == state_warning(shown@, message@),
{
    let mut warning = "ignoring invalid tool-stub bundle state ".to_owned();
    warning.append(shown);
    warning.append(": ");
    warning.append(message);
    warning
}

impl IgnoredState {
    /// The warning that tells of the file, with paths as `show` shows them.
    pub fn warning<D: Fn(&String) -> String>(&self, show: &D) -> (warning: String)
        requires
            forall|path: &String| call_requires(*show, (path,)),
        ensures
            exists|shown: Seq<char>, message: Seq<char>|
                {
                    &&& warning@ == #[trigger] state_warning(shown, message)
                    &&& message::shows(*show, self@.path, shown)
                    &&& self@.error.says(*show, message)
                },
    {
        let shown = message::show_path(&self.path, show);
        let message = self.error.message(show);
        warn_of_state(shown.as_str(), message.as_str())
    }
}

/// The state files that are passed over, in their order.
pub open spec fn ignored_states(entries: Seq<StateEntryView>) -> Seq<IgnoredStateView>
    decreases entries.len(),
{
    if entries.len() == 0 {
        Seq::empty()
    } else {
        let before = ignored_states(entries.drop_last());
        match entry_outcome(entries.last()) {
            Err(error) => before.push(IgnoredStateView { path: entries.last().path, error }),
            _ => before,
        }
    }
}

/// The recorded states, and the state files that were passed over.
#[derive(Debug)]
pub struct StateListing {
    pub states: Vec<BundleState>,
    pub ignored: Vec<IgnoredState>,
}

/// The models of some state files that are passed over.
pub open spec fn ignored_views(ignored: Seq<IgnoredState>) -> Seq<IgnoredStateView> {
    Seq::new(ignored.len(), |i: int| ignored[i]@)
}

/// The states among the entries of a directory. A state file that cannot be
/// accepted is passed over.
pub fn list_states_in(entries: Vec<StateEntry>) -> (listing: StateListing)
    ensures
        state_views(listing.states@) == listed_states(entry_views(entries@)),
        ignored_views(listing.ignored@) == ignored_states(entry_views(entries@)),
{
    let ghost all = entry_views(entries@);
    let mut states: Vec<BundleState> = Vec::new();
    let mut ignored: Vec<IgnoredState> = Vec::new();
    assert(state_views(states@) =~= Seq::empty());
    assert(ignored_views(ignored@) =~= Seq::empty());
    for entry in it: entries
        invariant
            all == entry_views(it.seq()),
            state_views(states@) == listed_states(all.take(it.index())),
            ignored_views(ignored@) == ignored_states(all.take(it.index())),
    {
        let ghost upto = all.take(it.index() + 1);
        let ghost known = state_views(states@);
        let ghost passed = ignored_views(ignored@);
        proof {
            assert(upto.drop_last() =~= all.take(it.index()));
            assert(upto.last() == entry@);
        }
        let is_state = match paths::extension_of(entry.path.as_str()) {
            Some(found) => text::text_eq(found.as_str(), "json"),
            None => false,
        };
        if is_state {
            match load_state(entry.path.as_str(), entry.file) {
                Ok(Some(state)) => {
                    states.push(state);
                    assert(state_views(states@) =~= known.push(state@));
                },
                Ok(None) => {},
                Err(error) => {
                    let entry = IgnoredState { path: entry.path, error };
                    let ghost view = entry@;
                    ignored.push(entry);
                    assert(ignored_views(ignored@) =~= passed.push(view));
                },
            }
        }
    }
    assert(all.take(all.len() as int) =~= all);
    StateListing { states, ignored }
}

/// The entries of the two directories of recorded states.
#[derive(Debug)]
pub struct StateDirectories {
    /// Those of the user's bundles.
    pub user: Vec<StateEntry>,
    /// Those of system bundles.
    pub system: Vec<StateEntry>,
}

impl StateDirectories {
    /// The entries of the directory that a request looks at.
    pub open spec fn entries(&self, system: bool) -> Seq<StateEntryView> {
        if system {
            entry_views(self.system@)
        } else {
            entry_views(self.user@)
        }
    }
}

/// The recorded states of the user's or of system bundles.
pub fn list_states(system: bool, directories: StateDirectories) -> (listing: StateListing)
    ensures
        state_views(listing.states@) == listed_states(directories.entries(system)),
        ignored_views(listing.ignored@) == ignored_states(directories.entries(system)),
        system ==> state_views(listing.states@) == listed_states(entry_views(directories.system@)),
        !system ==> state_views(listing.states@) == listed_states(entry_views(directories.user@)),
{
    if system {
        list_states_in(directories.system)
    } else {
        list_states_in(directories.user)
    }
}

/// The states that were written from `source_path`.
pub open spec fn states_of_source(states: Seq<StateView>, source_path: Seq<char>) -> Seq<
    StateView,
> {
    states.filter(|state: StateView| paths::same_path(state.source_path, source_path))
}

/// The directory that is recorded for `source_path`: none, or the one of the only
/// state that was written from it.
pub open spec fn recorded_directory(states: Seq<StateView>, source_path: Seq<char>) -> Result<
    Option<Seq<char>>,
    ErrorView,
> {
    let known = states_of_source(states, source_path);
    if known.len() > 1 {
        Err(ErrorView::AmbiguousBundles { source: source_path })
    } else if known.len() == 1 {
        Ok(Some(known[0].into))
    } else {
        Ok(None)
    }
}

/// The bundle of a source and a directory. Its state is yet to be loaded.
pub open spec fn bundle_at(
    from_manifest: bool,
    source_path: Seq<char>,
    into: Seq<char>,
    locations: &Locations,
    system: bool,
) -> BundleView {
    let id = bundle_id_of(source_path, into);
    BundleView {
        id,
        source_path,
        manifest_path: if from_manifest {
            Some(source_path)
        } else {
            None
        },
        into,
        state_path: state_path_of(locations.state_directory(system), id),
        state: None,
        system,
    }
}

/// `outcome` may be the bundle of a source and of the directory that `into`
/// stands for.
pub open spec fn directory_outcome(
    from_manifest: bool,
    source_path: Seq<char>,
    into: Seq<char>,
    locations: &Locations,
    system: bool,
    outcome: Result<BundleView, ErrorView>,
) -> bool {
    exists|found: Result<Seq<char>, ErrorView>| #[trigger]
        absolute_outcome(into, found) && outcome == match found {
            Ok(directory) => Ok(bundle_at(from_manifest, source_path, directory, locations, system)),
            Err(error) => Err(error),
        }
}

/// `outcome` may be the bundle of the source `source_path`, or why there is none.
pub open spec fn source_outcome(
    from_manifest: bool,
    source_path: Seq<char>,
    into: Option<Seq<char>>,
    states: Seq<StateView>,
    locations: &Locations,
    system: bool,
    outcome: Result<BundleView, ErrorView>,
) -> bool {
    match into {
        Some(given) => directory_outcome(
            from_manifest,
            source_path,
            given,
            locations,
            system,
            outcome,
        ),
        None => match recorded_directory(states, source_path) {
            Err(error) => outcome == Err::<BundleView, ErrorView>(error),
            Ok(Some(directory)) => outcome == Ok::<BundleView, ErrorView>(
                bundle_at(from_manifest, source_path, directory, locations, system),
            ),
            Ok(None) => directory_outcome(
                from_manifest,
                source_path,
                locations.stub_directory(system),
                locations,
                system,
                outcome,
            ),
        },
    }
}

/// `outcome` may be the bundle of the source that `source` stands for, or why
/// there is none.
pub open spec fn resolution_from(
    from_manifest: bool,
    source: Seq<char>,
    into: Option<Seq<char>>,
    states: Seq<StateView>,
    locations: &Locations,
    system: bool,
    outcome: Result<BundleView, ErrorView>,
) -> bool {
    exists|found: Result<Seq<char>, ErrorView>| #[trigger]
        absolute_outcome(source, found) && match found {
            Ok(source_path) => source_outcome(
                from_manifest,
                source_path,
                into,
                states,
                locations,
                system,
                outcome,
            ),
            Err(error) => outcome == Err::<BundleView, ErrorView>(error),
        }
}

/// `outcome` may be the bundle that a request means, or why there is none.
/// `manifest` and `into` are what the request gives. Only what is made absolute
/// is left open.
pub open spec fn resolution(
    manifest: Option<Seq<char>>,
    into: Option<Seq<char>>,
    states: Seq<StateView>,
    locations: &Locations,
    system: bool,
    outcome: Result<BundleView, ErrorView>,
) -> bool {
    if manifest is None && into is Some {
        outcome == Err::<BundleView, ErrorView>(ErrorView::IntoWithoutManifest)
    } else {
        match manifest {
            Some(source) => resolution_from(true, source, into, states, locations, system, outcome),
            None => resolution_from(
                false,
                locations.config_source(system),
                into,
                states,
                locations,
                system,
                outcome,
            ),
        }
    }
}

/// The model of a bundle or an error.
pub open spec fn bundle_result(found: Result<Bundle, StubError>) -> Result<BundleView, ErrorView> {
    match found {
        Ok(bundle) => Ok(bundle@),
        Err(error) => Err(error@),
    }
}

/// The model of an optional directory or an error.
pub open spec fn directory_result(found: Result<Option<String>, StubError>) -> Result<
    Option<Seq<char>>,
    ErrorView,
> {
    match found {
        Ok(directory) => Ok(text::text_view(directory)),
        Err(error) => Err(error@),
    }
}

/// The first state that was written from `source_path`, and whether there are
/// more.
fn find_state(states: &Vec<BundleState>, source_path: &str) -> (found: (Option<usize>, bool))
    ensures
        found.1 == (states_of_source(state_views(states@), source_path@).len() > 1),
        match found.0 {
            Some(at) => {
                &&& at < states@.len()
                &&& states_of_source(state_views(states@), source_path@).len() > 0
                &&& states_of_source(state_views(states@), source_path@)[0] == states@[at as int]@
            },
            None => states_of_source(state_views(states@), source_path@).len() == 0,
        },
{
    let ghost all = state_views(states@);
    let ghost same = |state: StateView| paths::same_path(state.source_path, source_path@);
    let mut first: Option<usize> = None;
    let mut more = false;
    proof {
        reveal(Seq::filter);
        assert(all.take(0) =~= Seq::empty());
        assert(all.take(0).filter(same) =~= Seq::empty());
    }
    for i in 0..states.len()
        invariant
            all == state_views(states@),
            same == (|state: StateView| paths::same_path(state.source_path, source_path@)),
            more == (all.take(i as int).filter(same).len() > 1),
            match first {
                Some(at) => {
                    &&& at < i
                    &&& all.take(i as int).filter(same).len() > 0
                    &&& all.take(i as int).filter(same)[0] == states@[at as int]@
                },
                None => all.take(i as int).filter(same).len() == 0,
            },
    {
        proof {
            reveal(Seq::filter);
            assert(all.take(i + 1).drop_last() =~= all.take(i as int));
            assert(all.take(i + 1).last() == states@[i as int]@);
        }
        if paths::path_eq(states[i].source_path.as_str(), source_path) {
            if first.is_none() {
                first = Some(i);
            } else {
                more = true;
            }
        }
    }
    assert(all.take(all.len() as int) =~= all);
    (first, more)
}

/// The directory that is recorded for a source.
pub fn find_directory(states: &Vec<BundleState>, source_path: &str) -> (found: Result<
    Option<String>,
    StubError,
>)
    ensures
        directory_result(found) == recorded_directory(state_views(states@), source_path@),
{
    let (first, more) = find_state(states, source_path);
    if more {
        return Err(StubError::AmbiguousBundles { source: source_path.to_owned() });
    }
    match first {
        Some(at) => Ok(Some(states[at].into.clone())),
        None => Ok(None),
    }
}

/// The bundle of a source and a directory. Its state is yet to be loaded.
pub fn bundle_for(
    from_manifest: bool,
    source_path: String,
    into: String,
    locations: &Locations,
    system: bool,
) -> (bundle: Bundle)
    ensures
        bundle@ == bundle_at(from_manifest, source_path@, into@, locations, system),
        is_bundle_id(bundle.id@),
{
    let id = bundle_id(source_path.as_str(), into.as_str());
    let place = state_path(id.as_str(), system, locations);
    Bundle {
        id,
        manifest_path: if from_manifest {
            Some(source_path.clone())
        } else {
            None
        },
        source_path,
        into,
        state_path: place,
        state: None,
        system,
    }
}

/// The bundle of a source and of the directory that `into` stands for.
fn bundle_in(
    from_manifest: bool,
    source_path: String,
    into: &str,
    locations: &Locations,
    system: bool,
) -> (bundle: Result<Bundle, StubError>)
    ensures
        directory_outcome(
            from_manifest,
            source_path@,
            into@,
            locations,
            system,
            bundle_result(bundle),
        ),
        bundle matches Ok(found) ==> is_bundle_id(found.id@),
{
    let found = absolute(into);
    assert(absolute_outcome(into@, command::result_view(found)));
    match found {
        Ok(directory) => Ok(bundle_for(from_manifest, source_path, directory, locations, system)),
        Err(error) => Err(error),
    }
}

/// Finds the bundle that a request means. The state of the bundle is yet to be
/// loaded.
pub fn resolve_bundle(
    manifest: Option<String>,
    into: Option<String>,
    states: &Vec<BundleState>,
    locations: &Locations,
    system: bool,
) -> (bundle: Result<Bundle, StubError>)
    ensures
        resolution(
            text::text_view(manifest),
            text::text_view(into),
            state_views(states@),
            locations,
            system,
            bundle_result(bundle),
        ),
        bundle matches Ok(found) ==> is_bundle_id(found.id@),
{
    if manifest.is_none() && into.is_some() {
        return Err(StubError::IntoWithoutManifest);
    }
    let from_manifest = manifest.is_some();
    let source = match manifest {
        Some(path) => path,
        None => default_config_source(system, locations),
    };
    let found = absolute(source.as_str());
    assert(absolute_outcome(source@, command::result_view(found)));
    let source_path = match found {
        Ok(path) => path,
        Err(error) => {
            return Err(error);
        },
    };
    match into {
        Some(given) => bundle_in(from_manifest, source_path, given.as_str(), locations, system),
        None => match find_directory(states, source_path.as_str()) {
            Err(error) => Err(error),
            Ok(Some(directory)) => Ok(
                bundle_for(from_manifest, source_path, directory, locations, system),
            ),
            Ok(None) => {
                let directory = default_into(system, locations);
                bundle_in(from_manifest, source_path, directory.as_str(), locations, system)
            },
        },
    }
}

/// The state at `at` was written from `source_path`.
pub open spec fn from_source(states: Seq<StateView>, source_path: Seq<char>, at: int) -> bool {
    0 <= at < states.len() && paths::components(states[at].source_path) == paths::components(
        source_path,
    )
}

/// Whether a source has no state, one, or several.
pub proof fn lemma_states_of_source(states: Seq<StateView>, source_path: Seq<char>)
    ensures
        ({
            let known = states_of_source(states, source_path);
            &&& known.len() == 0 <==> forall|i: int| !#[trigger] from_source(states, source_path, i)
            &&& known.len() > 0 ==> exists|i: int| #[trigger]
                from_source(states, source_path, i) && states[i] == known[0]
            &&& known.len() == 1 ==> forall|i: int| #[trigger]
                from_source(states, source_path, i) ==> states[i] == known[0]
            &&& known.len() <= 1 <==> forall|i: int, j: int| #[trigger]
                from_source(states, source_path, i) && #[trigger] from_source(
                    states,
                    source_path,
                    j,
                ) ==> i == j
        }),
    decreases states.len(),
{
    reveal(Seq::filter);
    let known = states_of_source(states, source_path);
    if states.len() > 0 {
        let rest = states.drop_last();
        let last = states.len() - 1;
        let before = states_of_source(rest, source_path);
        lemma_states_of_source(rest, source_path);
        assert(forall|i: int|
            from_source(rest, source_path, i) <==> #[trigger] from_source(states, source_path, i)
                && i != last);
        assert(from_source(states, source_path, last) <==> paths::same_path(
            states.last().source_path,
            source_path,
        ));
        if from_source(states, source_path, last) {
            assert(known == before.push(states.last()));
            if before.len() > 0 {
                let i = choose|i: int| #[trigger]
                    from_source(rest, source_path, i) && rest[i] == before[0];
                assert(from_source(states, source_path, i) && states[i] == known[0]);
            }
        } else {
            assert(known == before);
            if before.len() > 0 {
                let i = choose|i: int| #[trigger]
                    from_source(rest, source_path, i) && rest[i] == before[0];
                assert(from_source(states, source_path, i) && states[i] == known[0]);
            }
            if before.len() > 1 {
                let (i, j) = choose|i: int, j: int| #[trigger]
                    from_source(rest, source_path, i) && #[trigger] from_source(
                        rest,
                        source_path,
                        j,
                    ) && i != j;
                assert(from_source(states, source_path, i) && from_source(states, source_path, j));
            }
        }
    }
}

/// The text that a request names its source by: the manifest, or without one the
/// configuration of the user or of the system.
pub open spec fn named_source(manifest: Option<Seq<char>>, locations: &Locations, system: bool) -> Seq<
    char,
> {
    match manifest {
        Some(path) => path,
        None => locations.config_source(system),
    }
}

/// The bundle that a request means has the source that the request names, and an
/// identifier and a state file of its own. Its directory is the given one. Without
/// one it is that of the only recorded bundle of the source, and without such a
/// bundle the directory for stubs.
pub proof fn law_resolved_bundle(
    manifest: Option<Seq<char>>,
    into: Option<Seq<char>>,
    states: Seq<StateView>,
    locations: &Locations,
    system: bool,
    bundle: BundleView,
)
    requires
        resolution(manifest, into, states, locations, system, Ok::<BundleView, ErrorView>(bundle)),
    ensures
        manifest is None ==> into is None,
        match manifest {
            Some(path) => absolute_for(path, bundle.source_path) && bundle.manifest_path == Some(
                bundle.source_path,
            ),
            None => bundle.manifest_path is None,
        },
        manifest is None && system ==> match locations.system_config_file {
            Some(file) => absolute_for(file@, bundle.source_path),
            None => absolute_for(locations.system_config@, bundle.source_path),
        },
        manifest is None && !system ==> match locations.global_config_file {
            Some(file) => absolute_for(file@, bundle.source_path),
            None => absolute_for(locations.config@, bundle.source_path),
        },
        match into {
            Some(directory) => absolute_for(directory, bundle.into),
            None => {
                ||| exists|i: int|
                    {
                        &&& #[trigger] from_source(states, bundle.source_path, i)
                        &&& bundle.into == states[i].into
                        &&& forall|j: int| #[trigger]
                            from_source(states, bundle.source_path, j) ==> j == i
                    }
                ||| {
                    &&& forall|i: int| !#[trigger] from_source(states, bundle.source_path, i)
                    &&& system ==> absolute_for(locations.system_tool_stubs@, bundle.into)
                    &&& !system ==> absolute_for(locations.tool_stubs@, bundle.into)
                }
            },
        },
        bundle.id == digest::sha256_hex(
            vstd::utf8::encode_utf8(bundle.source_path + "\0"@ + bundle.into),
        ),
        system ==> bundle.state_path == paths::joined(
            locations.system_tool_stub_bundles@,
            bundle.id + ".json"@,
        ),
        !system ==> bundle.state_path == paths::joined(
            locations.tool_stub_bundles@,
            bundle.id + ".json"@,
        ),
        bundle.state is None,
        bundle.system == system,
{
    let source = named_source(manifest, locations, system);
    let found = choose|found: Result<Seq<char>, ErrorView>| #[trigger]
        absolute_outcome(source, found) && match found {
            Ok(source_path) => source_outcome(
                manifest is Some,
                source_path,
                into,
                states,
                locations,
                system,
                Ok::<BundleView, ErrorView>(bundle),
            ),
            Err(error) => Ok::<BundleView, ErrorView>(bundle) == Err::<BundleView, ErrorView>(
                error,
            ),
        };
    let source_path = found->Ok_0;
    assert(found is Ok && bundle.source_path == source_path);
    lemma_states_of_source(states, source_path);
    if into is None && states_of_source(states, source_path).len() == 1 {
        let i = choose|i: int| #[trigger]
            from_source(states, source_path, i) && states[i] == states_of_source(
                states,
                source_path,
            )[0];
        assert(from_source(states, bundle.source_path, i));
    }
}

/// A request is refused only for one of these reasons: it gives a directory
/// without a manifest, its source or its directory is relative and cannot be made
/// absolute, or it gives no directory and its source has several recorded bundles.
pub proof fn law_refused_resolution(
    manifest: Option<Seq<char>>,
    into: Option<Seq<char>>,
    states: Seq<StateView>,
    locations: &Locations,
    system: bool,
    error: ErrorView,
)
    requires
        resolution(manifest, into, states, locations, system, Err::<BundleView, ErrorView>(error)),
    ensures
        manifest is None && into is Some <==> error == ErrorView::IntoWithoutManifest,
        error is IntoWithoutManifest || error is AmbiguousBundles || error is Unresolved,
        error matches ErrorView::AmbiguousBundles { source } ==> {
            &&& into is None
            &&& absolute_for(named_source(manifest, locations, system), source)
            &&& exists|i: int, j: int|
                i != j && #[trigger] from_source(states, source, i) && #[trigger] from_source(
                    states,
                    source,
                    j,
                )
        },
        error matches ErrorView::Unresolved { path, reason } ==> {
            &&& !is_absolute(path)
            &&& {
                ||| path == named_source(manifest, locations, system)
                ||| into is Some && path == into->0
                ||| into is None && path == locations.stub_directory(system)
            }
        },
{
    if !(manifest is None && into is Some) {
        let source = named_source(manifest, locations, system);
        let outcome = Err::<BundleView, ErrorView>(error);
        let found = choose|found: Result<Seq<char>, ErrorView>| #[trigger]
            absolute_outcome(source, found) && match found {
                Ok(source_path) => source_outcome(
                    manifest is Some,
                    source_path,
                    into,
                    states,
                    locations,
                    system,
                    outcome,
                ),
                Err(error) => outcome == Err::<BundleView, ErrorView>(error),
            };
        if found is Ok {
            let source_path = found->Ok_0;
            lemma_states_of_source(states, source_path);
            if into is None && states_of_source(states, source_path).len() > 1 {
                let (i, j) = choose|i: int, j: int| #[trigger]
                    from_source(states, source_path, i) && #[trigger] from_source(
                        states,
                        source_path,
                        j,
                    ) && i != j;
                assert(error == ErrorView::AmbiguousBundles { source: source_path });
                assert(i != j && from_source(states, source_path, i) && from_source(
                    states,
                    source_path,
                    j,
                ));
                assert(error->AmbiguousBundles_source == source_path);
                assert(absolute_for(source, source_path));
            } else {
                assert(error is Unresolved);
            }
        } else {
            assert(error is Unresolved);
        }
    }
}

/// A request without a directory means the bundle that its source has recorded,
/// if there is just one.
pub proof fn law_resolves_recorded_bundle(
    manifest: Option<Seq<char>>,
    states: Seq<StateView>,
    locations: &Locations,
    system: bool,
    recorded: StateView,
    outcome: Result<BundleView, ErrorView>,
)
    requires
        states_of_source(states, recorded.source_path) == seq![recorded],
        recorded.id == bundle_id_of(recorded.source_path, recorded.into),
        source_outcome(
            manifest is Some,
            recorded.source_path,
            None,
            states,
            locations,
            system,
            outcome,
        ),
    ensures
        outcome matches Ok(bundle) && {
            &&& bundle.id == recorded.id
            &&& bundle.into == recorded.into
            &&& bundle.state_path == state_path_of(
                locations.state_directory(system),
                recorded.id,
            )
        },
{
}

impl Bundle {
    /// The bundle with the state that its state file gives.
    pub fn load(self, file: StateFile) -> (loaded: Result<Bundle, StubError>)
        ensures
            match loaded_state(self.state_path@, file@) {
                Ok(state) => loaded matches Ok(bundle) && bundle@ == (BundleView {
                    state,
                    ..self@
                }),
                Err(error) => loaded matches Err(e) && e@ == error,
            },
    {
        match load_state(self.state_path.as_str(), file) {
            Ok(state) => Ok(Bundle { state, ..self }),
            Err(error) => Err(error),
        }
    }
}

/// The first error among some checks, in their order.
pub open spec fn first_error(errors: Seq<Option<ErrorView>>) -> Option<ErrorView>
    decreases errors.len(),
{
    if errors.len() == 0 {
        None
    } else if errors[0] is Some {
        errors[0]
    } else {
        first_error(errors.drop_first())
    }
}

/// The first error among checks is the one at a place before which all pass.
pub proof fn lemma_first_error(errors: Seq<Option<ErrorView>>, at: int)
    requires
        0 <= at < errors.len(),
        errors[at] is Some,
        forall|i: int| 0 <= i < at ==> errors[i] is None,
    ensures
        first_error(errors) == errors[at],
    decreases at,
{
    if at > 0 {
        lemma_first_error(errors.drop_first(), at - 1);
    }
}

/// There is no error where all checks pass.
pub proof fn lemma_no_error(errors: Seq<Option<ErrorView>>)
    requires
        forall|i: int| 0 <= i < errors.len() ==> errors[i] is None,
    ensures
        first_error(errors) is None,
    decreases errors.len(),
{
    if errors.len() > 0 {
        lemma_no_error(errors.drop_first());
    }
}

/// Where there is no first error, all checks pass.
pub proof fn lemma_all_pass(errors: Seq<Option<ErrorView>>)
    requires
        first_error(errors) is None,
    ensures
        forall|i: int| 0 <= i < errors.len() ==> errors[i] is None,
    decreases errors.len(),
{
    if errors.len() > 0 {
        lemma_all_pass(errors.drop_first());
        assert forall|i: int| 0 <= i < errors.len() implies errors[i] is None by {
            if i > 0 {
                assert(errors[i] == errors.drop_first()[i - 1]);
            }
        }
    }
}

/// There is a first error exactly if some check fails; it is that of a failed
/// check before which all pass.
pub proof fn lemma_error_or_all_pass(errors: Seq<Option<ErrorView>>)
    ensures
        first_error(errors) is Some <==> exists|i: int|
            0 <= i < errors.len() && (#[trigger] errors[i]) is Some,
        first_error(errors) is Some ==> exists|i: int|
            0 <= i < errors.len() && (#[trigger] errors[i]) == first_error(errors) && (forall|
                j: int,
            |
                0 <= j < i ==> (#[trigger] errors[j]) is None),
    decreases errors.len(),
{
    if errors.len() > 0 && errors[0] is None {
        let rest = errors.drop_first();
        lemma_error_or_all_pass(rest);
        if exists|i: int| 0 <= i < errors.len() && (#[trigger] errors[i]) is Some {
            let i = choose|i: int| 0 <= i < errors.len() && (#[trigger] errors[i]) is Some;
            assert(rest[i - 1] is Some);
        }
        if first_error(rest) is Some {
            let i = choose|i: int|
                0 <= i < rest.len() && (#[trigger] rest[i]) == first_error(rest) && (forall|
                    j: int,
                |
                    0 <= j < i ==> (#[trigger] rest[j]) is None);
            assert(errors[i + 1] == first_error(errors));
            assert forall|j: int| 0 <= j < i + 1 implies (#[trigger] errors[j]) is None by {
                if j > 0 {
                    assert(rest[j - 1] is None);
                }
            }
        }
    } else if errors.len() > 0 {
        assert(errors[0] == first_error(errors));
    }
}

impl StateView {
    /// What is wrong with the recorded place of each command.
    pub open spec fn place_errors(self) -> Seq<Option<ErrorView>> {
        Seq::new(
            self.commands.len(),
            |i: int|
                command::managed_path_error(
                    self.into,
                    self.commands[i].0,
                    self.commands[i].1.path,
                ),
        )
    }
}

/// The recorded places of two commands of a valid state are different paths.
pub proof fn law_places_distinct(state: StateView, first: int, second: int)
    requires
        name_map::names_sorted(state.commands),
        first_error(state.place_errors()) is None,
        0 <= first < state.commands.len(),
        0 <= second < state.commands.len(),
        paths::same_path(state.commands[first].1.path, state.commands[second].1.path),
    ensures
        first == second,
{
    lemma_all_pass(state.place_errors());
    assert(state.place_errors()[first] is None);
    assert(state.place_errors()[second] is None);
    let one = state.commands[first].0;
    let other = state.commands[second].0;
    assert(paths::same_path(state.commands[first].1.path, paths::joined(state.into, one)));
    assert(paths::same_path(state.commands[second].1.path, paths::joined(state.into, other)));
    paths::law_joined_injective(state.into, one, other);
    name_map::lemma_names_distinct(state.commands);
}

/// Checks that `path` is the place of the command `name` of a recorded state.
pub fn validate_managed_path(state: &BundleState, name: &str, path: &str) -> (checked: Result<
    (),
    StubError,
>)
    ensures
        command::error_of(checked) == command::managed_path_error(state@.into, name@, path@),
{
    command::validate_place(state.into.as_str(), name, path)
}

/// Checks the recorded place of each command of a state.
pub fn validate_managed_paths(state: &BundleState) -> (checked: Result<(), StubError>)
    ensures
        command::error_of(checked) == first_error(state@.place_errors()),
{
    let count = state.commands.len();
    let ghost errors = state@.place_errors();
    let mut i: usize = 0;
    while i < count
        invariant
            count == state@.commands.len(),
            i <= count,
            errors == state@.place_errors(),
            forall|j: int| 0 <= j < i ==> errors[j] is None,
        decreases count - i,
    {
        match validate_managed_path(
            state,
            state.commands.name_at(i).as_str(),
            state.commands.value_at(i).path.as_str(),
        ) {
            Ok(_) => {},
            Err(error) => {
                proof {
                    lemma_first_error(errors, i as int);
                }
                return Err(error);
            },
        }
        i += 1;
    }
    proof {
        lemma_no_error(errors);
    }
    Ok(())
}

/// A state is accepted exactly from a file that holds one of the right version,
/// whose file name and whose source and directory give its identifier. Without a
/// file there is no state, which is no error.
pub proof fn law_accepted_state(path: Seq<char>, file: StateFileView, state: StateView)
    ensures
        loaded_state(path, file) == Ok::<Option<StateView>, ErrorView>(Some(state)) <==> {
            &&& file == StateFileView::Parsed(state)
            &&& state.schema_version == 1
            &&& paths::file_stem(path) == Some(state.id)
            &&& state.id == digest::sha256_hex(
                vstd::utf8::encode_utf8(state.source_path + "\0"@ + state.into),
            )
        },
        loaded_state(path, file) == Ok::<Option<StateView>, ErrorView>(None) <==> file is Missing,
        loaded_state(path, file) matches Err(error) ==> match file {
            StateFileView::Missing => false,
            StateFileView::Inaccessible { reason } => error == (ErrorView::Inaccessible {
                path,
                reason,
            }),
            StateFileView::Malformed { reason } => error == (ErrorView::Malformed { path, reason }),
            StateFileView::Parsed(read) => if read.schema_version != 1 {
                error == (ErrorView::UnsupportedState { version: read.schema_version, path })
            } else {
                error == (ErrorView::StateIdentity { path })
            },
        },
{
}

/// The listed states are exactly those that the state files among the entries give,
/// in their order.
pub proof fn law_listed_states(entries: Seq<StateEntryView>) -> (places: Seq<int>)
    ensures
        places.len() == listed_states(entries).len(),
        forall|k: int|
            0 <= k < places.len() ==> 0 <= #[trigger] places[k] < entries.len() && loaded_state(
                entries[places[k]].path,
                entries[places[k]].file,
            ) == Ok::<Option<StateView>, ErrorView>(Some(listed_states(entries)[k])),
        forall|k: int, l: int|
            0 <= k < l < places.len() ==> #[trigger] places[k] < #[trigger] places[l],
        forall|i: int|
            0 <= i < entries.len() ==> (places.contains(i) <==> paths::extension(
                (#[trigger] entries[i]).path,
            ) == Some("json"@) && (loaded_state(entries[i].path, entries[i].file) matches Ok(
                Some(_),
            ))),
    decreases entries.len(),
{
    if entries.len() == 0 {
        Seq::empty()
    } else {
        let rest = entries.drop_last();
        let last = entries.len() - 1;
        let before = law_listed_states(rest);
        let listed = entry_outcome(entries[last]) matches Ok(Some(_));
        let places = extended_places(before, last, listed);
        lemma_extended_places(before, last, listed);
        assert(forall|k: int| 0 <= k < before.len() ==> #[trigger] before[k] < last);
        assert forall|i: int| 0 <= i < entries.len() implies (places.contains(i)
            <==> paths::extension((#[trigger] entries[i]).path) == Some("json"@) && (loaded_state(
            entries[i].path,
            entries[i].file,
        ) matches Ok(Some(_)))) by {
            if i < last {
                assert(rest[i] == entries[i]);
            } else if before.contains(i) {
                let k = choose|k: int| 0 <= k < before.len() && before[k] == i;
                assert(before[k] < last);
            }
        }
        places
    }
}

/// The places, with one more behind them or not.
pub open spec fn extended_places(before: Seq<int>, last: int, extended: bool) -> Seq<int> {
    if extended {
        before.push(last)
    } else {
        before
    }
}

/// A number is among extended places exactly if it was there before, or is the one
/// that was added.
pub proof fn lemma_extended_places(before: Seq<int>, last: int, extended: bool)
    ensures
        forall|i: int| #[trigger]
            extended_places(before, last, extended).contains(i) <==> before.contains(i) || extended
                && i == last,
{
    let places = extended_places(before, last, extended);
    assert forall|i: int| #[trigger] places.contains(i) <==> before.contains(i) || extended && i
        == last by {
        if before.contains(i) {
            let k = choose|k: int| 0 <= k < before.len() && before[k] == i;
            assert(places[k] == i);
        }
        if extended && i == last {
            assert(places[before.len() as int] == i);
        }
        if places.contains(i) {
            let k = choose|k: int| 0 <= k < places.len() && places[k] == i;
            if k < before.len() {
                assert(before[k] == i);
            }
        }
    }
}

/// The state files that are passed over are exactly those that cannot be accepted,
/// each with its path and the reason, in their order.
pub proof fn law_ignored_states(entries: Seq<StateEntryView>) -> (places: Seq<int>)
    ensures
        places.len() == ignored_states(entries).len(),
        forall|k: int|
            0 <= k < places.len() ==> {
                &&& 0 <= #[trigger] places[k] < entries.len()
                &&& ignored_states(entries)[k].path == entries[places[k]].path
                &&& loaded_state(entries[places[k]].path, entries[places[k]].file) == Err::<
                    Option<StateView>,
                    ErrorView,
                >(ignored_states(entries)[k].error)
            },
        forall|k: int, l: int|
            0 <= k < l < places.len() ==> #[trigger] places[k] < #[trigger] places[l],
        forall|i: int|
            0 <= i < entries.len() ==> (places.contains(i) <==> paths::extension(
                (#[trigger] entries[i]).path,
            ) == Some("json"@) && loaded_state(entries[i].path, entries[i].file) is Err),
    decreases entries.len(),
{
    if entries.len() == 0 {
        Seq::empty()
    } else {
        let rest = entries.drop_last();
        let last = entries.len() - 1;
        let before = law_ignored_states(rest);
        let ignored = entry_outcome(entries[last]) is Err;
        let places = extended_places(before, last, ignored);
        lemma_extended_places(before, last, ignored);
        assert(forall|k: int| 0 <= k < before.len() ==> #[trigger] before[k] < last);
        assert forall|i: int| 0 <= i < entries.len() implies (places.contains(i)
            <==> paths::extension((#[trigger] entries[i]).path) == Some("json"@) && loaded_state(
            entries[i].path,
            entries[i].file,
        ) is Err) by {
            if i < last {
                assert(rest[i] == entries[i]);
            } else if before.contains(i) {
                let k = choose|k: int| 0 <= k < before.len() && before[k] == i;
                assert(before[k] < last);
            }
        }
        places
    }
}

/// Requests for the system and requests of a user look at places of their own.
pub proof fn law_places_of_requests(locations: &Locations, directories: StateDirectories)
    ensures
        locations.state_directory(true) == locations.system_tool_stub_bundles@,
        locations.state_directory(false) == locations.tool_stub_bundles@,
        locations.stub_directory(true) == locations.system_tool_stubs@,
        locations.stub_directory(false) == locations.tool_stubs@,
        locations.config_source(true) == (if locations.system_config_file is Some {
            locations.system_config_file->0@
        } else {
            locations.system_config@
        }),
        locations.config_source(false) == (if locations.global_config_file is Some {
            locations.global_config_file->0@
        } else {
            locations.config@
        }),
        directories.entries(true) == entry_views(directories.system@),
        directories.entries(false) == entry_views(directories.user@),
{
}

/// Making a path absolute never changes where it leads: an absolute path keeps its
/// components, and a relative one gets those of an absolute directory in front of
/// its segments. The empty path has no absolute one.
pub proof fn law_absolute(path: Seq<char>, outcome: Result<Seq<char>, ErrorView>)
    requires
        absolute_outcome(path, outcome),
    ensures
        path.len() == 0 ==> outcome is Err,
        path.len() > 0 && path[0] == '/' ==> outcome is Ok,
        outcome matches Ok(found) ==> {
            &&& found.len() > 0 && found[0] == '/'
            &&& path[0] == '/' ==> paths::components(found) == paths::components(path)
            &&& path[0] != '/' ==> exists|base: Seq<char>|
                base.len() > 0 && base[0] == '/' && paths::components(found)
                    == #[trigger] paths::components(base) + paths::segment_components(path)
        },
        outcome matches Err(error) ==> error matches ErrorView::Unresolved { path: told, .. }
            && told == path,
{
    if let Ok(found) = outcome {
        if path[0] != '/' {
            let base = choose|base: Seq<char>|
                is_absolute(base) && paths::same_path(found, #[trigger] paths::joined(base, path));
            paths::law_joined_paths(base, path);
            assert(paths::components(found) == paths::components(base)
                + paths::segment_components(path));
        }
    }
}

} // verus!
