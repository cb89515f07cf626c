use tool_stubs::bundle::{Bundle, BundleState, ManagedCommand, STATE_SCHEMA_VERSION};
use tool_stubs::desired::DesiredCommand;
use tool_stubs::digest::hash_sha256_to_str;
use tool_stubs::error::StubError;
use tool_stubs::name_map::NameMap;
use tool_stubs::node::{
    file_bundle_owner, file_hash, file_is_owned_by_another_bundle, file_is_owned_by_bundle,
    path_exists, Node,
};
use tool_stubs::request::{Status, StatusReport};
use tool_stubs::status::{
    classify_path, collect_status, retain_missing, status_lines, write_row, StatusKind,
};

/// Shows a path as it is.
fn as_is(path: &String) -> String {
    path.clone()
}

fn plain_file(contents: &[u8], executable: bool) -> Node {
    Node::File {
        bytes: Some(contents.to_vec()),
        executable,
    }
}

fn managed(path: &str, contents: &str) -> ManagedCommand {
    ManagedCommand {
        path: path.to_string(),
        content_hash: hash_sha256_to_str(contents),
    }
}

fn wish(name: &str, contents: &str) -> DesiredCommand {
    DesiredCommand {
        name: name.to_string(),
        path: format!("/bin/{name}"),
        contents: contents.to_string(),
        content_hash: hash_sha256_to_str(contents),
    }
}

fn recorded(commands: NameMap<ManagedCommand>) -> Bundle {
    Bundle {
        id: "bundle".to_string(),
        source_path: "/stubs.toml".to_string(),
        manifest_path: None,
        into: "/bin".to_string(),
        state_path: "/state/bundle.json".to_string(),
        state: Some(BundleState {
            schema_version: STATE_SCHEMA_VERSION,
            id: "bundle".to_string(),
            source_path: "/stubs.toml".to_string(),
            source_hash: "source".to_string(),
            into: "/bin".to_string(),
            commands,
        }),
        system: false,
    }
}

#[test]
fn does_not_trust_an_unrecorded_ownership_marker() {
    let node = plain_file(b"# managed by mise tool-stubs bundle bundle\nchanged\n", false);
    assert_eq!(
        classify_path("/bin/rg", &node, "different", "bundle", None).unwrap(),
        StatusKind::Conflict
    );
}

#[test]
fn resumes_an_unrecorded_managed_write() {
    let contents = "# managed by mise tool-stubs bundle bundle\n";
    let node = plain_file(contents.as_bytes(), false);
    assert_eq!(
        classify_path(
            "/bin/rg",
            &node,
            &hash_sha256_to_str(contents),
            "bundle",
            None
        )
        .unwrap(),
        StatusKind::Stale
    );
}

#[test]
fn treats_non_utf8_files_as_conflicts() {
    let node = plain_file(&[0xff, 0xfe, 0x00], false);
    assert_eq!(
        classify_path("/bin/rg", &node, "different", "bundle", None).unwrap(),
        StatusKind::Conflict
    );
}

#[test]
fn treats_dangling_symlinks_as_conflicts() {
    let node = Node::Symlink { bytes: None };
    assert_eq!(
        classify_path("/bin/rg", &node, "different", "bundle", None).unwrap(),
        StatusKind::Conflict
    );
}

#[test]
fn classifies_what_stands_at_a_path() {
    let contents = "# managed by mise tool-stubs bundle bundle\n";
    let hash = hash_sha256_to_str(contents);
    let kind = |node: &Node, previous: Option<&ManagedCommand>| {
        classify_path("/bin/rg", node, &hash, "bundle", previous).unwrap()
    };
    let old = "# managed by mise tool-stubs bundle bundle\nold\n";
    let before = managed("/bin/rg", old);
    assert_eq!(kind(&Node::Absent, None), StatusKind::Missing);
    let unknown = Node::Unknown {
        reason: "permission denied".to_string(),
    };
    assert_eq!(kind(&unknown, None), StatusKind::Missing);
    assert_eq!(kind(&Node::Directory, Some(&before)), StatusKind::Conflict);
    assert_eq!(kind(&Node::Special, None), StatusKind::Conflict);
    let good = plain_file(contents.as_bytes(), true);
    assert_eq!(kind(&good, None), StatusKind::Current);
    let good_link = Node::Symlink {
        bytes: Some(contents.as_bytes().to_vec()),
    };
    assert_eq!(kind(&good_link, Some(&before)), StatusKind::Conflict);
    let outdated = plain_file(old.as_bytes(), true);
    assert_eq!(kind(&outdated, Some(&before)), StatusKind::Stale);
    assert_eq!(kind(&outdated, None), StatusKind::Conflict);
    let edited = plain_file(b"# managed by mise tool-stubs bundle bundle\nmine\n", true);
    assert_eq!(kind(&edited, Some(&before)), StatusKind::Modified);
    let foreign = plain_file(b"# managed by mise tool-stubs bundle other\n", true);
    assert_eq!(kind(&foreign, Some(&before)), StatusKind::Conflict);
    let unreadable = Node::File {
        bytes: None,
        executable: true,
    };
    let error = classify_path("/bin/rg", &unreadable, &hash, "bundle", None).unwrap_err();
    assert_eq!(error.message(&as_is), "cannot read /bin/rg");
}

#[test]
fn tells_owners_apart() {
    let mine = plain_file(b"# managed by mise tool-stubs bundle mine\n", true);
    assert_eq!(file_bundle_owner(&mine).as_deref(), Some("mine"));
    assert!(file_is_owned_by_bundle(&mine, "mine"));
    assert!(!file_is_owned_by_another_bundle(&mine, "mine"));
    assert!(file_is_owned_by_another_bundle(&mine, "other"));
    let plain = plain_file(b"echo\n", true);
    assert!(!file_is_owned_by_bundle(&plain, "mine"));
    assert!(!file_is_owned_by_another_bundle(&plain, "mine"));
    assert!(path_exists(&plain));
    assert!(path_exists(&Node::Symlink { bytes: None }));
    assert!(!path_exists(&Node::Absent));
    assert_eq!(
        file_hash("/bin/x", &plain_file(b"abc", false)).unwrap(),
        "ba7816bf8f01cfea414140de5dae2223b00361a396177a9cb410ff61f20015ad"
    );
    assert!(matches!(
        file_hash("/bin/x", &Node::Directory),
        Err(StubError::Unreadable { path }) if path == "/bin/x"
    ));
}

#[test]
fn status_words_are_distinct() {
    let words: Vec<&str> = [
        StatusKind::Current,
        StatusKind::Missing,
        StatusKind::Modified,
        StatusKind::Stale,
        StatusKind::Conflict,
    ]
    .iter()
    .map(|kind| kind.as_str())
    .collect();
    assert_eq!(
        words,
        vec!["current", "missing", "modified", "stale", "conflict"]
    );
}

#[test]
fn lists_desired_and_recorded_commands_in_order() {
    let marker = "# managed by mise tool-stubs bundle bundle\n";
    let bundle = recorded(
        NameMap::new()
            .insert("rg".to_string(), managed("/bin/rg", marker))
            .insert("bat".to_string(), managed("/bin/bat", marker))
            .insert("xsv".to_string(), managed("/bin/xsv", marker)),
    );
    let desired = NameMap::new()
        .insert("rg".to_string(), wish("rg", marker))
        .insert("fd".to_string(), wish("fd", marker));
    let found = NameMap::new()
        .insert("rg".to_string(), plain_file(marker.as_bytes(), true))
        .insert("bat".to_string(), plain_file(marker.as_bytes(), true))
        .insert("xsv".to_string(), plain_file(b"edited", true));
    let statuses = collect_status(&bundle, &desired, &found).unwrap();
    let seen: Vec<(&str, &str, StatusKind)> = statuses
        .iter()
        .map(|s| (s.command.as_str(), s.path.as_str(), s.status))
        .collect();
    assert_eq!(
        seen,
        vec![
            ("bat", "/bin/bat", StatusKind::Stale),
            ("fd", "/bin/fd", StatusKind::Missing),
            ("rg", "/bin/rg", StatusKind::Current),
            ("xsv", "/bin/xsv", StatusKind::Modified),
        ]
    );
    assert_eq!(
        status_lines(&statuses, false, &as_is),
        vec![
            "stale     bat                  /bin/bat",
            "missing   fd                   /bin/fd",
            "current   rg                   /bin/rg",
            "modified  xsv                  /bin/xsv",
        ]
    );
    assert_eq!(
        status_lines(&statuses, false, &|path: &String| path.replace("/bin", "~"))[1],
        "missing   fd                   ~/fd"
    );
    assert_eq!(write_row(&statuses[2], "..."), "current   rg                   ...");
    let needed = retain_missing(statuses);
    assert_eq!(status_lines(&needed, true, &as_is), vec!["bat", "fd", "xsv"]);
}

#[test]
fn refuses_recorded_places_outside_the_directory() {
    let bundle = recorded(NameMap::new().insert("rg".to_string(), managed("/etc/rg", "x")));
    let error = collect_status(&bundle, &NameMap::new(), &NameMap::new()).unwrap_err();
    assert_eq!(
        error.message(&as_is),
        "invalid managed tool-stub path /etc/rg in bundle state"
    );
}

#[test]
fn reports_statuses_as_asked() {
    let bundle = recorded(NameMap::new());
    let desired = NameMap::new().insert("fd".to_string(), wish("fd", "contents"));
    let report = |missing: bool, json: bool| {
        Status { missing, json }
            .run(&bundle, &desired, &NameMap::new(), as_is)
            .unwrap()
    };
    assert!(matches!(
        report(false, false),
        StatusReport::Lines(lines) if lines == vec!["missing   fd                   /bin/fd"]
    ));
    assert!(matches!(report(true, false), StatusReport::Lines(lines) if lines == vec!["fd"]));
    assert!(matches!(
        report(true, true),
        StatusReport::Structured(list) if list.len() == 1 && list[0].status == StatusKind::Missing
    ));
}
