use std::cell::RefCell;
use std::collections::{BTreeMap, BTreeSet};

use tool_stubs::bundle::{
    bundle_id, Bundle, BundleState, ManagedCommand, StateFile, STATE_SCHEMA_VERSION,
};
use tool_stubs::command::render_command;
use tool_stubs::command_spec::CommandSpec;
use tool_stubs::commit::{commit_steps, SyncPhase, SyncStep};
use tool_stubs::desired::{load_desired, DesiredCommand};
use tool_stubs::digest::hash_sha256_to_str;
use tool_stubs::document::CommandValue;
use tool_stubs::error::StubError;
use tool_stubs::name_map::NameMap;
use tool_stubs::node::Node;
use tool_stubs::paths::join;
use tool_stubs::plan::{plan_sync, SyncPlan};
use tool_stubs::recovery::{
    action_of, recover_interrupted_sync, remove_transaction_destination, restore_bundle_state,
    restore_tracking, tracking_outcome, Recovery, Rollback, RollbackStep, StateAction,
    TrackingAction,
};
use tool_stubs::removal::{remove_bundle, Removal};
use tool_stubs::status::{collect_status, StatusKind};
use tool_stubs::transaction::{
    read_transaction_record, remove_transaction_dir, save_state, transaction_commit_path,
    transaction_is_committed, transaction_path, transaction_record_path,
    validate_transaction_record, write_transaction_record, RecordFile, StagedChange, StagedFile,
    SyncFileTransaction, SyncTransactionRecord, TrackedStubSnapshot, TransactionChange,
    TRANSACTION_SCHEMA_VERSION,
};

/// Shows a path as it is.
fn as_is(path: &String) -> String {
    path.clone()
}

/// Shows what is below `/tmp/` in a short way.
fn shortened(path: &String) -> String {
    path.replace("/tmp/", "~")
}

fn no_objection(_contents: &String, _name: &String) -> Option<String> {
    None
}

/// What a path of the disk holds: a file, or a directory.
#[derive(Clone, PartialEq, Debug)]
enum Entry {
    Contents(Vec<u8>, bool),
    Folder,
}

/// A disk in memory, with the recorded state, the tracked stubs and the record of
/// a transaction.
struct Disk {
    entries: BTreeMap<String, Entry>,
    state: Option<BundleState>,
    stubs: BTreeSet<String>,
    record: Option<SyncTransactionRecord>,
}

impl Disk {
    fn new() -> Disk {
        Disk {
            entries: BTreeMap::new(),
            state: None,
            stubs: BTreeSet::new(),
            record: None,
        }
    }

    fn write(&mut self, path: &str, contents: &str, executable: bool) {
        self.entries.insert(
            path.to_string(),
            Entry::Contents(contents.as_bytes().to_vec(), executable),
        );
    }

    fn read(&self, path: &str) -> Option<String> {
        match self.entries.get(path) {
            Some(Entry::Contents(bytes, _)) => Some(String::from_utf8(bytes.clone()).unwrap()),
            _ => None,
        }
    }

    fn node(&self, path: &str) -> Node {
        match self.entries.get(path) {
            Some(Entry::Contents(bytes, executable)) => Node::File {
                bytes: Some(bytes.clone()),
                executable: *executable,
            },
            Some(Entry::Folder) => Node::Directory,
            None => Node::Absent,
        }
    }

    fn rename(&mut self, from: &str, to: &str) {
        let entry = self.entries.remove(from).expect("there is a file to move");
        self.entries.insert(to.to_string(), entry);
    }

    fn remove_below(&mut self, path: &str) {
        let below = format!("{path}/");
        self.entries
            .retain(|name, _| name != path && !name.starts_with(&below));
        self.record = None;
    }

    fn begin(
        &mut self,
        bundle: &Bundle,
        changes: &[(&str, &str, Option<&str>)],
    ) -> SyncFileTransaction {
        let mut staged_changes = NameMap::new();
        for (name, path, staged) in changes {
            staged_changes = staged_changes.insert(
                name.to_string(),
                StagedChange {
                    path: path.to_string(),
                    found: self.node(path),
                    staged: staged.map(|file| StagedFile {
                        path: file.to_string(),
                        node: self.node(file),
                    }),
                },
            );
        }
        let place = self.node(&transaction_path(bundle));
        let (transaction, record) =
            SyncFileTransaction::begin(bundle, &place, &staged_changes, vec![]).unwrap();
        self.start(&transaction, record);
        transaction
    }

    fn start(&mut self, transaction: &SyncFileTransaction, record: SyncTransactionRecord) {
        self.entries
            .insert(transaction.path.clone(), Entry::Folder);
        self.entries
            .insert(transaction.originals.clone(), Entry::Folder);
        self.record = Some(record);
    }

    fn back_up(&mut self, transaction: &SyncFileTransaction, name: &str, path: &str) {
        let node = self.node(path);
        if let Some(rename) = transaction.back_up(name, path, &node).unwrap() {
            self.rename(&rename.from, &rename.to);
        }
    }

    fn install(&mut self, transaction: &SyncFileTransaction, staged: &str, path: &str) {
        let rename = transaction.install(staged, path);
        self.rename(&rename.from, &rename.to);
    }

    fn mark_committed(&mut self, transaction: &SyncFileTransaction) {
        let marker = transaction.mark_committed();
        self.write(&marker.path, &marker.contents, false);
    }

    fn record_file(&mut self) -> RecordFile {
        match self.record.take() {
            Some(record) => RecordFile::Parsed(record),
            None => RecordFile::Missing {
                reason: "not found".to_string(),
            },
        }
    }

    fn undo(&mut self, rollback: &Rollback, step: &RollbackStep) -> Option<String> {
        match step {
            RollbackStep::Undo {
                name,
                destination,
                original,
            } => {
                let undo = match tool_stubs::recovery::undo_change(
                    destination,
                    &self.node(destination),
                    &self.node(original),
                    &rollback.record.bundle_id,
                    rollback.record.changes.get(name).unwrap(),
                ) {
                    Ok(undo) => undo,
                    Err(error) => return Some(error.message(&as_is)),
                };
                if undo.remove_destination {
                    self.entries.remove(destination);
                }
                if undo.restore_original {
                    self.rename(original, destination);
                }
                None
            }
            RollbackStep::SyncCommands => None,
            RollbackStep::RestoreState => {
                self.state = rollback.record.state_before.as_ref().map(BundleState::copy);
                None
            }
            RollbackStep::RestoreTracking => {
                for snapshot in &rollback.record.tracking_before {
                    match action_of(snapshot) {
                        TrackingAction::Track { path } => self.stubs.insert(path),
                        TrackingAction::Untrack { path } => self.stubs.remove(&path),
                    };
                }
                None
            }
        }
    }

    fn roll_back(&mut self, rollback: Rollback) -> Result<(), StubError> {
        let mut rollback = rollback;
        while let Some(step) = rollback.next() {
            let failure = self.undo(&rollback, step);
            rollback = rollback.report(failure);
        }
        match rollback.outcome().expect("all steps were tried") {
            Ok(path) => {
                self.remove_below(&path);
                Ok(())
            }
            Err(error) => {
                self.record = Some(rollback.record);
                Err(error)
            }
        }
    }

    fn recover(&mut self, bundle: &Bundle) -> Result<(), StubError> {
        let path = transaction_path(bundle);
        let file = self.record_file();
        let place = self.node(&path);
        let marker = self.node(&transaction_commit_path(&path));
        match recover_interrupted_sync(bundle, &place, file, &marker)? {
            Recovery::Nothing => Ok(()),
            Recovery::Discard { path } => {
                self.remove_below(&path);
                Ok(())
            }
            Recovery::RollBack(rollback) => self.roll_back(rollback),
        }
    }

    fn remove(&mut self, bundle: Bundle, force: bool) -> Result<(), StubError> {
        self.recover(&bundle)?;
        let state = self.state.as_ref().map(BundleState::copy);
        let bundle = Bundle { state, ..bundle };
        let found = self.found(&bundle, &NameMap::new());
        match remove_bundle(&bundle, &found, force)? {
            Removal::NotSynchronized { .. } => {}
            Removal::Remove { steps } => {
                for step in steps {
                    if step.delete {
                        self.entries.remove(&step.path);
                    }
                    self.stubs.remove(&step.path);
                }
                self.state = None;
            }
        }
        Ok(())
    }

    fn found(&self, bundle: &Bundle, desired: &NameMap<DesiredCommand>) -> NameMap<Node> {
        let mut found = NameMap::new();
        for i in 0..desired.len() {
            let name = desired.name_at(i);
            found = found.insert(name.clone(), self.node(&join(&bundle.into, name)));
        }
        if let Some(state) = &bundle.state {
            for i in 0..state.commands.len() {
                let name = state.commands.name_at(i);
                found = found.insert(name.clone(), self.node(&join(&bundle.into, name)));
            }
        }
        found
    }

    fn current(&self, bundle: &Bundle) -> Bundle {
        Bundle {
            id: bundle.id.clone(),
            source_path: bundle.source_path.clone(),
            manifest_path: bundle.manifest_path.clone(),
            into: bundle.into.clone(),
            state_path: bundle.state_path.clone(),
            state: self.state.as_ref().map(BundleState::copy),
            system: bundle.system,
        }
    }

    fn perform(
        &mut self,
        transaction: &SyncFileTransaction,
        plan: &SyncPlan,
        step: &SyncStep,
    ) -> Option<String> {
        match step {
            SyncStep::BackUp { name, path } => {
                match transaction.back_up(name, path, &self.node(path)) {
                    Ok(Some(rename)) => self.rename(&rename.from, &rename.to),
                    Ok(None) => {}
                    Err(error) => return Some(error.message(&as_is)),
                }
            }
            SyncStep::Install { name, path } => {
                let staged = format!("/stage/{name}");
                self.install(transaction, &staged, path);
            }
            SyncStep::Track { path } => {
                self.stubs.insert(path.clone());
            }
            SyncStep::Untrack { path } => {
                self.stubs.remove(path);
            }
            SyncStep::WriteState => self.state = Some(plan.state.copy()),
            SyncStep::MarkCommitted => self.mark_committed(transaction),
            SyncStep::SyncBackups | SyncStep::SyncCommands => {}
        }
        None
    }

    /// Syncs, and stops without a word after `limit` steps.
    fn sync(
        &mut self,
        bundle: &Bundle,
        desired: &NameMap<DesiredCommand>,
        force: bool,
        limit: usize,
    ) -> Result<usize, StubError> {
        let found = self.found(bundle, desired);
        let plan = plan_sync(bundle, "source", desired, &found, force)?;
        let mut staged_changes = NameMap::new();
        for i in 0..plan.changes.len() {
            let name = plan.changes.name_at(i);
            let change = plan.changes.value_at(i);
            let staged = change.contents.as_ref().map(|contents| {
                let path = format!("/stage/{name}");
                self.write(&path, contents, true);
                path
            });
            staged_changes = staged_changes.insert(
                name.clone(),
                StagedChange {
                    path: change.path.clone(),
                    found: self.node(&change.path),
                    staged: staged.map(|path| StagedFile {
                        node: self.node(&path),
                        path,
                    }),
                },
            );
        }
        let snapshots = plan
            .affected
            .iter()
            .map(|path| TrackedStubSnapshot {
                path: path.clone(),
                was_tracked: self.stubs.contains(path),
            })
            .collect();
        let place = self.node(&transaction_path(bundle));
        let (transaction, record) =
            SyncFileTransaction::begin(bundle, &place, &staged_changes, snapshots)?;
        self.start(&transaction, record);
        let steps = commit_steps(bundle, desired, &plan.changes);
        let mut performed = 0;
        let mut phase = SyncPhase::start(steps.len());
        loop {
            let failure = match &phase {
                SyncPhase::Committing { next } => {
                    if performed == limit {
                        return Ok(performed);
                    }
                    performed += 1;
                    self.perform(&transaction, &plan, &steps[*next])
                }
                SyncPhase::RollingBack { .. } => {
                    let file = self.record_file();
                    let copy = SyncFileTransaction {
                        path: transaction.path.clone(),
                        originals: transaction.originals.clone(),
                    };
                    let rollback = copy.rollback(bundle, file)?;
                    self.roll_back(rollback).err().map(|error| error.message(&as_is))
                }
                SyncPhase::Finishing => {
                    let path = remove_transaction_dir(&transaction.path, &Node::Directory)?;
                    self.remove_below(&path.unwrap());
                    None
                }
                SyncPhase::Complete { warning } => {
                    assert!(warning.is_none());
                    return Ok(performed);
                }
                SyncPhase::Failed { message } => {
                    return Err(StubError::Unwritable {
                        reason: message.clone(),
                    });
                }
            };
            phase = phase.report(steps.len(), failure);
        }
    }
}

fn request(name: &str, tool: &str) -> CommandSpec {
    CommandSpec {
        name: name.to_string(),
        value: CommandValue::Text(tool.to_string()),
        source: "/tmp/stubs.toml".to_string(),
    }
}

fn at_sign(request: &String) -> (String, Option<String>) {
    match request.split_once('@') {
        Some((tool, version)) => (tool.to_string(), Some(version.to_string())),
        None => (request.clone(), None),
    }
}

fn rendered(id: &str, name: &str, tool: &str) -> String {
    let value = toml::Value::String(tool.to_string());
    render_command(id, name, value, at_sign, no_objection).unwrap()
}

fn empty_bundle() -> Bundle {
    let source_path = "/tmp/stubs.toml".to_string();
    let into = "/tmp/bin".to_string();
    let id = bundle_id(&source_path, &into);
    Bundle {
        state_path: format!("/tmp/state/{id}.json"),
        id,
        source_path,
        manifest_path: None,
        into,
        state: None,
        system: false,
    }
}

fn state_with(bundle: &Bundle, commands: NameMap<ManagedCommand>) -> BundleState {
    BundleState {
        schema_version: STATE_SCHEMA_VERSION,
        id: bundle.id.clone(),
        source_path: bundle.source_path.clone(),
        source_hash: "source".to_string(),
        into: bundle.into.clone(),
        commands,
    }
}

fn wishes(bundle: &Bundle, specs: Vec<CommandSpec>) -> NameMap<DesiredCommand> {
    load_desired(bundle, specs, at_sign, no_objection).unwrap()
}

#[test]
fn recovers_an_interrupted_sync_after_backing_up_a_command() {
    let bundle = empty_bundle();
    let command = "/tmp/bin/rg";
    let mut disk = Disk::new();
    disk.write(command, "old", false);

    let transaction = disk.begin(&bundle, &[("rg", command, None)]);
    disk.back_up(&transaction, "rg", command);
    drop(transaction);

    assert!(disk.read(command).is_none());
    disk.recover(&bundle).unwrap();
    assert_eq!(disk.read(command).unwrap(), "old");
    assert!(!disk.entries.contains_key(&transaction_path(&bundle)));
}

#[test]
fn recovery_preserves_a_file_created_after_interruption() {
    let bundle = empty_bundle();
    let command = "/tmp/bin/rg";
    let staged = "/tmp/bin/staged-rg";
    let mut disk = Disk::new();
    disk.write(staged, "generated", false);

    let transaction = disk.begin(&bundle, &[("rg", command, Some(staged))]);
    drop(transaction);
    disk.write(command, "user-created", false);

    assert!(disk.recover(&bundle).is_err());
    assert_eq!(disk.read(command).unwrap(), "user-created");
    assert!(disk.entries.contains_key(&transaction_path(&bundle)));
}

#[test]
fn recovery_preserves_a_file_owned_by_another_bundle() {
    let bundle = empty_bundle();
    let command = "/tmp/bin/rg";
    let staged = "/tmp/bin/staged-rg";
    let other_contents = rendered("other-bundle", "rg", "dummy@1");
    let mut disk = Disk::new();
    disk.write(staged, &other_contents, false);

    let transaction = disk.begin(&bundle, &[("rg", command, Some(staged))]);
    disk.install(&transaction, staged, command);
    drop(transaction);

    assert!(disk.recover(&bundle).is_err());
    assert_eq!(disk.read(command).unwrap(), other_contents);
    assert!(disk.entries.contains_key(&transaction_path(&bundle)));
}

#[test]
fn remove_recovers_an_interrupted_sync_before_removing_the_bundle() {
    let mut bundle = empty_bundle();
    let command = "/tmp/bin/rg";
    let contents = rendered(&bundle.id, "rg", "dummy@1");
    let mut disk = Disk::new();
    disk.write(command, &contents, false);
    let commands = || {
        NameMap::new().insert(
            "rg".to_string(),
            ManagedCommand {
                path: command.to_string(),
                content_hash: hash_sha256_to_str(&contents),
            },
        )
    };
    disk.state = Some(state_with(&bundle, commands()));
    bundle.state = Some(state_with(&bundle, commands()));
    let transaction = disk.begin(&bundle, &[("rg", command, None)]);
    disk.back_up(&transaction, "rg", command);
    drop(transaction);

    disk.remove(bundle, false).unwrap();

    assert!(disk.read(command).is_none());
    assert!(disk.state.is_none());
}

#[test]
fn committed_sync_is_not_rolled_back_during_recovery() {
    let bundle = empty_bundle();
    let command = "/tmp/bin/rg";
    let staged = "/tmp/bin/staged-rg";
    let mut disk = Disk::new();
    disk.write(command, "old", false);
    disk.write(staged, "new", false);

    let transaction = disk.begin(&bundle, &[("rg", command, Some(staged))]);
    disk.back_up(&transaction, "rg", command);
    disk.install(&transaction, staged, command);
    disk.state = Some(state_with(&bundle, NameMap::new()));
    disk.mark_committed(&transaction);
    drop(transaction);

    disk.recover(&bundle).unwrap();
    assert_eq!(disk.read(command).unwrap(), "new");
    assert!(!disk.entries.contains_key(&transaction_path(&bundle)));
}

/// A bundle that has synchronised `rg` and `fd` and now wants another `rg`, and
/// `jq` in place of `fd`.
fn changing_bundle() -> (Disk, Bundle, NameMap<DesiredCommand>) {
    let bundle = empty_bundle();
    let mut disk = Disk::new();
    let first = wishes(&bundle, vec![request("rg", "ripgrep@13"), request("fd", "fd@9")]);
    disk.sync(&bundle, &first, false, usize::MAX).unwrap();
    let bundle = disk.current(&bundle);
    let second = wishes(&bundle, vec![request("rg", "ripgrep@14"), request("jq", "jq@1")]);
    (disk, bundle, second)
}

#[test]
fn a_sync_interrupted_anywhere_is_undone_as_a_whole() {
    let (mut disk, bundle, desired) = changing_bundle();
    let total = disk.sync(&bundle, &desired, false, usize::MAX).unwrap();
    for limit in 0..=total {
        let (mut disk, bundle, desired) = changing_bundle();
        let files = disk.entries.clone();
        let stubs = disk.stubs.clone();
        disk.sync(&bundle, &desired, false, limit).unwrap();
        disk.recover(&bundle).unwrap();
        let commands = |entries: &BTreeMap<String, Entry>| -> Vec<(String, Entry)> {
            entries
                .iter()
                .filter(|(path, _)| path.starts_with("/tmp/bin/"))
                .map(|(path, entry)| (path.clone(), entry.clone()))
                .collect()
        };
        let state = disk.state.as_ref().unwrap();
        if limit < total {
            assert_eq!(commands(&disk.entries), commands(&files), "{limit}");
            assert_eq!(disk.stubs, stubs, "{limit}");
            assert!(state.commands.contains("fd") && !state.commands.contains("jq"));
        } else {
            assert!(disk.read("/tmp/bin/fd").is_none());
            assert!(disk.read("/tmp/bin/jq").is_some());
            assert!(state.commands.contains("jq") && !state.commands.contains("fd"));
        }
    }
}

#[test]
fn a_recovery_can_be_interrupted_and_repeated() {
    for tried in 0..6 {
        let (mut disk, bundle, desired) = changing_bundle();
        let old = disk.read("/tmp/bin/rg").unwrap();
        disk.sync(&bundle, &desired, false, 6).unwrap();
        let path = transaction_path(&bundle);
        let file = disk.record_file();
        let recovery =
            recover_interrupted_sync(&bundle, &disk.node(&path), file, &Node::Absent).unwrap();
        let Recovery::RollBack(mut rollback) = recovery else {
            panic!("the sync is to be undone");
        };
        for _ in 0..tried {
            let step = rollback.next().unwrap();
            let failure = disk.undo(&rollback, step);
            assert!(failure.is_none());
            rollback = rollback.report(failure);
        }
        assert!(tried == 6 || rollback.outcome().is_none());
        disk.record = Some(rollback.record);
        disk.recover(&bundle).unwrap();
        assert_eq!(disk.read("/tmp/bin/rg").unwrap(), old);
        assert!(disk.read("/tmp/bin/fd").is_some());
        assert!(disk.read("/tmp/bin/jq").is_none());
    }
}

#[test]
fn everything_is_current_after_a_sync() {
    let (mut disk, bundle, desired) = changing_bundle();
    disk.sync(&bundle, &desired, false, usize::MAX).unwrap();
    let bundle = disk.current(&bundle);
    let found = disk.found(&bundle, &desired);
    let statuses = collect_status(&bundle, &desired, &found).unwrap();
    assert_eq!(statuses.len(), 2);
    assert!(statuses.iter().all(|s| s.status == StatusKind::Current));
    let plan = plan_sync(&bundle, "source", &desired, &found, false).unwrap();
    assert_eq!(plan.changes.len(), 0);
    assert_eq!(
        disk.stubs.iter().cloned().collect::<Vec<_>>(),
        vec!["/tmp/bin/jq", "/tmp/bin/rg"]
    );
    disk.remove(bundle, false).unwrap();
    assert!(disk.read("/tmp/bin/rg").is_none());
    assert!(disk.read("/tmp/bin/jq").is_none());
    assert!(disk.stubs.is_empty());
    assert!(disk.state.is_none());
}

#[test]
fn a_sync_refuses_what_it_does_not_safely_own() {
    let (mut disk, bundle, desired) = changing_bundle();
    disk.write("/tmp/bin/jq", "mine", true);
    disk.write("/tmp/bin/fd", "edited", true);
    let error = disk.sync(&bundle, &desired, false, usize::MAX).unwrap_err();
    assert_eq!(
        error.message(&as_is),
        "refusing to overwrite tool stubs not safely owned by this bundle: \
         /tmp/bin/fd (modified), /tmp/bin/jq (conflict)"
    );
    assert_eq!(
        error.message(&shortened),
        "refusing to overwrite tool stubs not safely owned by this bundle: \
         ~bin/fd (modified), ~bin/jq (conflict)"
    );
    assert_eq!(disk.read("/tmp/bin/jq").unwrap(), "mine");
    disk.sync(&bundle, &desired, true, usize::MAX).unwrap();
    assert!(disk.read("/tmp/bin/fd").is_none());
    assert!(disk.read("/tmp/bin/jq").unwrap().contains("tool = \"jq\""));
}

#[test]
fn a_forced_sync_leaves_alone_what_another_bundle_took_over() {
    let (mut disk, bundle, desired) = changing_bundle();
    let foreign = rendered("other-bundle", "fd", "fd@9");
    disk.write("/tmp/bin/fd", &foreign, true);
    disk.sync(&bundle, &desired, true, usize::MAX).unwrap();
    assert_eq!(disk.read("/tmp/bin/fd").unwrap(), foreign);
    assert!(disk.stubs.contains("/tmp/bin/fd"));
}

#[test]
fn a_failed_step_is_rolled_back() {
    let (mut disk, bundle, desired) = changing_bundle();
    disk.entries.insert("/tmp/bin/rg".to_string(), Entry::Folder);
    let error = disk.sync(&bundle, &desired, true, usize::MAX).unwrap_err();
    assert_eq!(
        error.message(&as_is),
        "refusing to replace directory /tmp/bin/rg; remove it first"
    );
    assert!(disk.read("/tmp/bin/fd").is_some());
    assert!(disk.read("/tmp/bin/jq").is_none());
    assert_eq!(disk.entries.get("/tmp/bin/rg"), Some(&Entry::Folder));
    assert!(!disk.entries.contains_key(&transaction_path(&bundle)));
}

#[test]
fn plans_name_the_affected_paths_and_the_new_state() {
    let (disk, bundle, desired) = changing_bundle();
    let found = disk.found(&bundle, &desired);
    let plan = plan_sync(&bundle, "hash", &desired, &found, false).unwrap();
    assert_eq!(
        plan.affected,
        vec!["/tmp/bin/fd", "/tmp/bin/jq", "/tmp/bin/rg"]
    );
    assert_eq!(plan.state.source_hash, "hash");
    assert_eq!(plan.state.commands.len(), 2);
    assert_eq!(plan.changes.len(), 3);
    for i in 0..plan.changes.len() {
        let place = join(&bundle.into, plan.changes.name_at(i));
        assert_eq!(plan.changes.value_at(i).path, place);
    }
    assert!(plan.changes.get("fd").unwrap().contents.is_none());
    assert!(plan.changes.get("jq").unwrap().contents.is_some());
    let steps = commit_steps(&bundle, &desired, &plan.changes);
    let names: Vec<String> = steps
        .iter()
        .map(|step| match step {
            SyncStep::BackUp { name, .. } => format!("back up {name}"),
            SyncStep::SyncBackups => "sync originals".to_string(),
            SyncStep::Install { name, .. } => format!("install {name}"),
            SyncStep::SyncCommands => "sync commands".to_string(),
            SyncStep::Track { path } => format!("track {path}"),
            SyncStep::Untrack { path } => format!("untrack {path}"),
            SyncStep::WriteState => "write state".to_string(),
            SyncStep::MarkCommitted => "commit".to_string(),
        })
        .collect();
    assert_eq!(
        names,
        vec![
            "back up fd",
            "back up jq",
            "back up rg",
            "sync originals",
            "install jq",
            "install rg",
            "sync commands",
            "track /tmp/bin/jq",
            "track /tmp/bin/rg",
            "untrack /tmp/bin/fd",
            "write state",
            "commit",
        ]
    );
}

#[test]
fn phases_tell_of_every_failure() {
    let phase = SyncPhase::start(2).report(2, None);
    assert!(matches!(phase, SyncPhase::Committing { next: 1 }));
    let phase = phase.report(2, None);
    assert!(matches!(phase, SyncPhase::Finishing));
    let phase = phase.report(2, Some("busy".to_string()));
    assert!(matches!(
        phase,
        SyncPhase::Complete { warning: Some(text) }
            if text == "failed to remove completed tool-stub transaction; the next sync will clean it up: busy"
    ));
    let phase = SyncPhase::start(1).report(1, Some("disk full".to_string()));
    assert!(matches!(&phase, SyncPhase::RollingBack { error } if error == "disk full"));
    let phase = phase.report(1, Some("still full".to_string()));
    assert!(matches!(
        phase,
        SyncPhase::Failed { message }
            if message == "failed to roll back tool-stub sync: still full: disk full"
    ));
    assert!(matches!(SyncPhase::start(0), SyncPhase::Finishing));
}

#[test]
fn transaction_files_have_their_places() {
    let bundle = empty_bundle();
    let path = transaction_path(&bundle);
    assert_eq!(
        path,
        format!("/tmp/bin/.mise-tool-stubs-transaction-{}", bundle.id)
    );
    let name = tool_stubs::paths::file_name_of(&path).unwrap();
    assert!(tool_stubs::command::validate_command_name(&name).is_err());
    assert_eq!(transaction_record_path("/t"), "/t/transaction.json");
    assert_eq!(transaction_commit_path("/t"), "/t/committed");
    let write = write_transaction_record("/t", "{}");
    assert_eq!((write.path.as_str(), write.contents.as_str()), ("/t/transaction.json", "{}\n"));
    let write = save_state("/state/x.json", "{}");
    assert_eq!((write.path.as_str(), write.contents.as_str()), ("/state/x.json", "{}\n"));
    let transaction = SyncFileTransaction {
        path: "/t".to_string(),
        originals: "/t/originals".to_string(),
    };
    assert_eq!(transaction.sync_backups("/bin"), vec!["/t/originals", "/bin"]);
    assert!(matches!(
        transaction.finish(&Node::Special),
        Err(StubError::InvalidTransactionDirectory { path }) if path == "/t"
    ));
    assert!(matches!(remove_transaction_dir("/t", &Node::Absent), Ok(None)));
}

#[test]
fn a_transaction_begins_only_once() {
    let bundle = empty_bundle();
    let none: NameMap<StagedChange> = NameMap::new();
    let error = SyncFileTransaction::begin(&bundle, &Node::Directory, &none, vec![]).unwrap_err();
    assert_eq!(
        error.message(&as_is),
        format!(
            "tool-stub transaction already exists at {}",
            transaction_path(&bundle)
        )
    );
    let unreadable = NameMap::new().insert(
        "rg".to_string(),
        StagedChange {
            path: "/tmp/bin/rg".to_string(),
            found: Node::Absent,
            staged: Some(StagedFile {
                path: "/stage/rg".to_string(),
                node: Node::Absent,
            }),
        },
    );
    let error = SyncFileTransaction::begin(&bundle, &Node::Absent, &unreadable, vec![]).unwrap_err();
    assert_eq!(error.message(&as_is), "cannot read /stage/rg");
}

#[test]
fn a_marker_must_be_a_file_that_says_so() {
    let file = |text: &str| Node::File {
        bytes: Some(text.as_bytes().to_vec()),
        executable: false,
    };
    assert!(matches!(transaction_is_committed("/t", &Node::Absent), Ok(false)));
    assert!(matches!(transaction_is_committed("/t", &file("committed\n")), Ok(true)));
    for node in [file("committed"), file(""), Node::Directory, Node::Symlink { bytes: None }] {
        let error = transaction_is_committed("/t", &node).unwrap_err();
        assert_eq!(
            error.message(&as_is),
            "invalid tool-stub transaction commit marker /t/committed"
        );
    }
}

fn plain_record(bundle: &Bundle) -> SyncTransactionRecord {
    SyncTransactionRecord {
        schema_version: TRANSACTION_SCHEMA_VERSION,
        bundle_id: bundle.id.clone(),
        into: bundle.into.clone(),
        state_before: None,
        changes: NameMap::new(),
        tracking_before: vec![],
    }
}

#[test]
fn records_of_other_syncs_are_not_followed() {
    let bundle = empty_bundle();
    let path = transaction_path(&bundle);
    let message = |record: &SyncTransactionRecord| {
        validate_transaction_record(&bundle, record)
            .unwrap_err()
            .message(&as_is)
    };
    assert!(validate_transaction_record(&bundle, &plain_record(&bundle)).is_ok());
    let mut record = plain_record(&bundle);
    record.schema_version = 9;
    assert_eq!(
        message(&record),
        format!("unsupported tool-stub transaction version 9 in {path}")
    );
    let mut record = plain_record(&bundle);
    record.into = "/tmp/other".to_string();
    assert_eq!(
        message(&record),
        format!("tool-stub transaction identity does not match {path}")
    );
    let mut record = plain_record(&bundle);
    let mut other = state_with(&bundle, NameMap::new());
    other.into = "/tmp/other".to_string();
    record.state_before = Some(other);
    assert_eq!(
        message(&record),
        format!("previous bundle state does not match tool-stub transaction {path}")
    );
    let mut record = plain_record(&bundle);
    record.changes = NameMap::new().insert(
        "../rg".to_string(),
        TransactionChange {
            had_original: false,
            installed_hash: None,
        },
    );
    assert_eq!(
        message(&record),
        "command name must be a single file name: ../rg"
    );
    for stray in ["/etc/rg", "/tmp/bin/sub/rg", "/"] {
        let mut record = plain_record(&bundle);
        record.tracking_before = vec![TrackedStubSnapshot {
            path: stray.to_string(),
            was_tracked: true,
        }];
        assert_eq!(
            message(&record),
            format!("invalid tracked stub path {stray} in tool-stub transaction")
        );
    }
}

#[test]
fn only_installed_files_are_removed_when_undoing() {
    let mine = "# managed by mise tool-stubs bundle mine\n";
    let hash = Some(hash_sha256_to_str(mine));
    let node = |text: &str| Node::File {
        bytes: Some(text.as_bytes().to_vec()),
        executable: true,
    };
    let check = |node: &Node, hash: &Option<String>| {
        remove_transaction_destination("/bin/rg", node, "mine", hash)
    };
    assert!(matches!(check(&Node::Absent, &hash), Ok(false)));
    assert!(matches!(check(&node(mine), &hash), Ok(true)));
    assert_eq!(
        check(&node("changed"), &hash).unwrap_err().message(&as_is),
        "refusing to remove a file changed after the interrupted sync: /bin/rg"
    );
    assert_eq!(
        check(&node(mine), &None).unwrap_err().message(&as_is),
        "refusing to remove a file not installed by the interrupted sync: /bin/rg"
    );
    assert_eq!(
        check(&Node::Symlink { bytes: None }, &hash).unwrap_err().message(&as_is),
        "refusing to remove a file not installed by the interrupted sync: /bin/rg"
    );
    assert_eq!(
        check(&Node::Directory, &hash).unwrap_err().message(&as_is),
        "refusing to remove directory while recovering /bin/rg"
    );
    let foreign = "# managed by mise tool-stubs bundle other\n";
    assert_eq!(
        check(&node(foreign), &Some(hash_sha256_to_str(foreign)))
            .unwrap_err()
            .message(&as_is),
        "refusing to remove a file owned by another tool-stub bundle while recovering: /bin/rg"
    );
}

#[test]
fn an_unfinished_setup_is_discarded() {
    let bundle = empty_bundle();
    let missing = || RecordFile::Missing {
        reason: "not found".to_string(),
    };
    let recovery =
        recover_interrupted_sync(&bundle, &Node::Directory, missing(), &Node::Absent).unwrap();
    assert!(matches!(recovery, Recovery::Discard { path } if path == transaction_path(&bundle)));
    let recovery =
        recover_interrupted_sync(&bundle, &Node::Absent, missing(), &Node::Absent).unwrap();
    assert!(matches!(recovery, Recovery::Nothing));
    let error =
        recover_interrupted_sync(&bundle, &Node::Special, missing(), &Node::Absent).unwrap_err();
    assert_eq!(
        error.message(&as_is),
        format!(
            "invalid tool-stub transaction path {}",
            transaction_path(&bundle)
        )
    );
    let malformed = RecordFile::Malformed {
        reason: "eof".to_string(),
    };
    let error = recover_interrupted_sync(&bundle, &Node::Directory, malformed, &Node::Absent)
        .unwrap_err();
    assert!(matches!(error, StubError::Malformed { .. }));
    assert!(matches!(
        read_transaction_record("/t", missing()).unwrap_err(),
        StubError::Inaccessible { path, .. } if path == "/t/transaction.json"
    ));
}

#[test]
fn a_rollback_goes_on_after_a_failure_and_keeps_the_originals() {
    let (mut disk, bundle, desired) = changing_bundle();
    let old = disk.read("/tmp/bin/rg").unwrap();
    let removed = disk.read("/tmp/bin/fd").unwrap();
    let stubs = disk.stubs.clone();
    disk.sync(&bundle, &desired, false, 7).unwrap();
    disk.write("/tmp/bin/jq", "user-created", true);
    let error = disk.recover(&bundle).unwrap_err();
    assert_eq!(
        error.message(&as_is),
        format!(
            "/tmp/bin/jq: refusing to remove a file changed after the interrupted sync: \
             /tmp/bin/jq; original files preserved at {}",
            transaction_path(&bundle)
        )
    );
    assert_eq!(
        error.message(&shortened),
        format!(
            "~bin/jq: refusing to remove a file changed after the interrupted sync: \
             /tmp/bin/jq; original files preserved at ~{}",
            transaction_path(&bundle).strip_prefix("/tmp/").unwrap()
        )
    );
    assert_eq!(disk.read("/tmp/bin/rg").unwrap(), old);
    assert_eq!(disk.read("/tmp/bin/fd").unwrap(), removed);
    assert_eq!(disk.stubs, stubs);
    assert!(disk.state.as_ref().unwrap().commands.contains("fd"));
    assert_eq!(disk.read("/tmp/bin/jq").unwrap(), "user-created");
    assert!(disk.entries.contains_key(&transaction_path(&bundle)));
}

#[test]
fn restoring_tells_of_every_failure() {
    let snapshots = vec![
        TrackedStubSnapshot {
            path: "/bin/fd".to_string(),
            was_tracked: true,
        },
        TrackedStubSnapshot {
            path: "/bin/jq".to_string(),
            was_tracked: false,
        },
        TrackedStubSnapshot {
            path: "/bin/rg".to_string(),
            was_tracked: true,
        },
    ];
    assert!(tracking_outcome(&snapshots, &vec![None, None, None]).is_ok());
    let failures = vec![Some("busy".to_string()), None, Some("gone".to_string())];
    assert_eq!(
        tracking_outcome(&snapshots, &failures).unwrap_err().message(&as_is),
        "/bin/fd: busy; /bin/rg: gone"
    );
    assert_eq!(
        tracking_outcome(&snapshots, &failures)
            .unwrap_err()
            .message(&|path: &String| format!("<{path}>")),
        "</bin/fd>: busy; </bin/rg>: gone"
    );
    let asked = RefCell::new(vec![]);
    let restored = restore_tracking(&snapshots, |action| {
        let (line, failure) = match action {
            TrackingAction::Track { path } => (format!("track {path}"), None),
            TrackingAction::Untrack { path } => {
                (format!("untrack {path}"), Some("busy".to_string()))
            }
        };
        asked.borrow_mut().push(line);
        failure
    });
    assert_eq!(
        asked.into_inner(),
        vec!["track /bin/fd", "untrack /bin/jq", "track /bin/rg"]
    );
    assert_eq!(restored.unwrap_err().message(&as_is), "/bin/jq: busy");
    assert!(restore_tracking(&snapshots, |_action| None).is_ok());
    let file = Node::File {
        bytes: None,
        executable: false,
    };
    let state = Some(state_with(&empty_bundle(), NameMap::new()));
    assert_eq!(restore_bundle_state("/s", &state, &Node::Absent).unwrap(), StateAction::Write);
    assert_eq!(restore_bundle_state("/s", &None, &file).unwrap(), StateAction::Remove);
    assert_eq!(restore_bundle_state("/s", &None, &Node::Absent).unwrap(), StateAction::Nothing);
}

#[test]
fn a_removal_spares_modified_and_foreign_files() {
    let (mut disk, bundle, _) = changing_bundle();
    let foreign = rendered("other-bundle", "fd", "fd@9");
    disk.write("/tmp/bin/fd", &foreign, true);
    disk.write("/tmp/bin/rg", "edited", true);
    let error = disk.remove(disk.current(&bundle), false).unwrap_err();
    assert_eq!(
        error.message(&as_is),
        "refusing to remove modified tool stub /tmp/bin/rg; use --force"
    );
    disk.remove(disk.current(&bundle), true).unwrap();
    assert_eq!(disk.read("/tmp/bin/fd").unwrap(), foreign);
    assert!(disk.read("/tmp/bin/rg").is_none());
    assert!(disk.stubs.contains("/tmp/bin/fd"));
    let found = NameMap::new();
    let removal = remove_bundle(&empty_bundle(), &found, false).unwrap();
    assert!(matches!(
        removal,
        Removal::NotSynchronized { source } if source == "/tmp/stubs.toml"
    ));
}

#[test]
fn a_bundle_takes_its_state_from_its_file() {
    let bundle = empty_bundle();
    let state = state_with(&bundle, NameMap::new());
    let loaded = bundle.load(StateFile::Parsed(state)).unwrap();
    assert!(loaded.state.is_some());
    let loaded = loaded.load(StateFile::Missing).unwrap();
    assert!(loaded.state.is_none());
}
