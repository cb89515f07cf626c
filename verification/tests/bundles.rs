use tool_stubs::bundle::{
    absolute, bundle_id, default_config_source, default_into, list_states, list_states_in, load_state,
    resolve_bundle, resolved_path, state_dir, state_path, validate_managed_path, validate_managed_paths,
    warn_of_state, BundleState, Locations, ManagedCommand, StateDirectories, StateEntry, StateFile,
    STATE_SCHEMA_VERSION,
};
use tool_stubs::digest::hash_sha256_to_str;
use tool_stubs::error::StubError;
use tool_stubs::name_map::NameMap;
use tool_stubs::paths::{join, path_eq};
use tool_stubs::request::{Remove, Upgrade, UpgradeTarget};
use tool_stubs::upgrade::{bundle_stub_paths, stub_paths_from_states, tracked_stub_paths};

/// Shows a path as it is.
fn as_is(path: &String) -> String {
    path.clone()
}

fn locations() -> Locations {
    Locations {
        system_config_file: None,
        system_config: "/etc/mise".to_string(),
        global_config_file: Some("/home/.config/mise/config.toml".to_string()),
        config: "/home/.config/mise".to_string(),
        system_tool_stubs: "/usr/local/stubs".to_string(),
        tool_stubs: "/home/stubs".to_string(),
        system_tool_stub_bundles: "/var/bundles".to_string(),
        tool_stub_bundles: "/home/bundles".to_string(),
    }
}

fn state_of(source: &str, into: &str, names: &[&str]) -> BundleState {
    let mut commands = NameMap::new();
    for name in names {
        commands = commands.insert(
            name.to_string(),
            ManagedCommand {
                path: format!("{into}/{name}"),
                content_hash: hash_sha256_to_str(name),
            },
        );
    }
    BundleState {
        schema_version: STATE_SCHEMA_VERSION,
        id: bundle_id(source, into),
        source_path: source.to_string(),
        source_hash: "source".to_string(),
        into: into.to_string(),
        commands,
    }
}

#[test]
fn skips_invalid_state_while_discovering_bundles() {
    let state = state_of("/tmp/stubs.toml", "/tmp/bin", &[]);
    let id = state.id.clone();
    let entries = vec![
        StateEntry {
            path: "/tmp/broken.json".to_string(),
            file: StateFile::Malformed {
                reason: "expected ident at line 1 column 2".to_string(),
            },
        },
        StateEntry {
            path: format!("/tmp/{id}.json"),
            file: StateFile::Parsed(state),
        },
    ];
    let listing = list_states_in(entries);
    assert_eq!(listing.states.len(), 1);
    assert_eq!(listing.states[0].id, id);
    assert_eq!(listing.ignored.len(), 1);
    assert_eq!(
        listing.ignored[0].warning(&as_is),
        "ignoring invalid tool-stub bundle state /tmp/broken.json: \
         failed to parse /tmp/broken.json: expected ident at line 1 column 2"
    );
    assert_eq!(
        listing.ignored[0].warning(&|path: &String| path.replace("/tmp", "~")),
        "ignoring invalid tool-stub bundle state ~/broken.json: \
         failed to parse ~/broken.json: expected ident at line 1 column 2"
    );
    assert_eq!(
        warn_of_state("~", "why"),
        "ignoring invalid tool-stub bundle state ~: why"
    );
}

#[test]
fn lists_the_states_of_the_requested_kind() {
    let entry = |source: &str| {
        let state = state_of(source, "/bin", &[]);
        StateEntry {
            path: format!("/states/{}.json", state.id),
            file: StateFile::Parsed(state),
        }
    };
    let directories = || StateDirectories {
        user: vec![entry("/home/a.toml"), entry("/home/b.toml")],
        system: vec![entry("/etc/a.toml")],
    };
    assert_eq!(list_states(false, directories()).states.len(), 2);
    assert_eq!(list_states(true, directories()).states.len(), 1);
    let other = StateEntry {
        path: "/states/notes.txt".to_string(),
        file: StateFile::Malformed {
            reason: "no state".to_string(),
        },
    };
    let listing = list_states_in(vec![other]);
    assert!(listing.states.is_empty() && listing.ignored.is_empty());
}

#[test]
fn identifies_a_bundle_by_source_and_directory() {
    assert_eq!(
        bundle_id("/a", "/b"),
        hash_sha256_to_str("/a\0/b")
    );
    assert_ne!(bundle_id("/a", "/b"), bundle_id("/b", "/a"));
    assert_eq!(bundle_id("/a", "/b").len(), 64);
}

#[test]
fn finds_the_default_places() {
    let places = locations();
    assert_eq!(default_config_source(true, &places), "/etc/mise");
    assert_eq!(
        default_config_source(false, &places),
        "/home/.config/mise/config.toml"
    );
    assert_eq!(default_into(true, &places), "/usr/local/stubs");
    assert_eq!(default_into(false, &places), "/home/stubs");
    assert_eq!(state_dir(true, &places), "/var/bundles");
    assert_eq!(state_path("id", false, &places), "/home/bundles/id.json");
}

#[test]
fn a_saved_state_loads_again() {
    let state = state_of("/stubs.toml", "/bin", &["rg"]);
    let path = state_path(&state.id, false, &locations());
    let loaded = load_state(&path, StateFile::Parsed(state)).unwrap().unwrap();
    assert_eq!(loaded.commands.get("rg").unwrap().path, "/bin/rg");
    assert!(load_state(&path, StateFile::Missing).unwrap().is_none());
}

#[test]
fn refuses_states_of_another_version_or_bundle() {
    let mut state = state_of("/stubs.toml", "/bin", &[]);
    let path = state_path(&state.id, false, &locations());
    state.schema_version = 12;
    let error = load_state(&path, StateFile::Parsed(state)).unwrap_err();
    assert_eq!(
        error.message(&as_is),
        format!("unsupported tool-stub bundle state version 12 in {path}")
    );
    let state = state_of("/stubs.toml", "/bin", &[]);
    let error = load_state("/home/bundles/other.json", StateFile::Parsed(state)).unwrap_err();
    assert_eq!(
        error.message(&as_is),
        "tool-stub bundle identity does not match /home/bundles/other.json"
    );
    let mut state = state_of("/stubs.toml", "/bin", &[]);
    state.into = "/elsewhere".to_string();
    let error = load_state(&path, StateFile::Parsed(state)).unwrap_err();
    assert!(matches!(error, StubError::StateIdentity { .. }));
    let error = load_state(
        &path,
        StateFile::Inaccessible {
            reason: "permission denied".to_string(),
        },
    )
    .unwrap_err();
    assert_eq!(
        error.message(&as_is),
        format!("cannot access {path}: permission denied")
    );
}

#[test]
fn resolves_requests_to_bundles() {
    let places = locations();
    let bundle = resolve_bundle(None, None, &vec![], &places, false).unwrap();
    assert_eq!(bundle.source_path, "/home/.config/mise/config.toml");
    assert_eq!(bundle.manifest_path, None);
    assert_eq!(bundle.into, "/home/stubs");
    assert_eq!(bundle.id, bundle_id("/home/.config/mise/config.toml", "/home/stubs"));
    assert_eq!(
        bundle.state_path,
        format!("/home/bundles/{}.json", bundle.id)
    );
    let manifest = Some("/work/stubs.toml".to_string());
    let bundle = resolve_bundle(
        manifest.clone(),
        Some("/work/bin".to_string()),
        &vec![],
        &places,
        false,
    )
    .unwrap();
    assert_eq!(bundle.into, "/work/bin");
    let error = resolve_bundle(None, Some("/work/bin".to_string()), &vec![], &places, false)
        .unwrap_err();
    assert_eq!(error.message(&as_is), "--into requires a manifest argument");
}

#[test]
fn resolves_relative_paths_before_naming_a_bundle() {
    let places = locations();
    let bundle = resolve_bundle(
        Some("stubs.toml".to_string()),
        Some("./bin".to_string()),
        &vec![],
        &places,
        false,
    )
    .unwrap();
    assert_eq!(bundle.source_path, absolute("stubs.toml").unwrap());
    assert_eq!(bundle.manifest_path, Some(bundle.source_path.clone()));
    assert_eq!(bundle.into, absolute("bin").unwrap());
    assert_eq!(bundle.id, bundle_id(&bundle.source_path, &bundle.into));
    let error = resolve_bundle(Some(String::new()), None, &vec![], &places, false).unwrap_err();
    assert!(matches!(error, StubError::Unresolved { .. }));
}

#[test]
fn reuses_the_directory_of_a_recorded_bundle() {
    let places = locations();
    let manifest = Some("/work/stubs.toml".to_string());
    let states = vec![
        state_of("/other.toml", "/elsewhere", &[]),
        state_of("/work/stubs.toml", "/work/bin", &[]),
    ];
    let bundle = resolve_bundle(manifest.clone(), None, &states, &places, false).unwrap();
    assert_eq!(bundle.into, "/work/bin");
    assert_eq!(bundle.id, states[1].id);
    let states = vec![
        state_of("/work/stubs.toml", "/work/bin", &[]),
        state_of("/work//stubs.toml", "/work/other", &[]),
    ];
    let error = resolve_bundle(manifest, None, &states, &places, false).unwrap_err();
    assert_eq!(
        error.message(&as_is),
        "multiple tool-stub bundles use /work/stubs.toml; specify --into"
    );
}

#[test]
fn a_removal_means_the_bundle_of_its_request() {
    let request = Remove {
        manifest: Some("/work/stubs.toml".to_string()),
        into: None,
        system: true,
        force: false,
    };
    let (bundle, force) = request.run(&vec![], &locations()).unwrap();
    assert!(!force);
    assert_eq!(bundle.into, "/usr/local/stubs");
    assert!(bundle.system);
}

#[test]
fn recorded_places_must_be_in_the_directory() {
    let state = state_of("/stubs.toml", "/bin", &["rg", "fd"]);
    assert!(validate_managed_paths(&state).is_ok());
    assert!(validate_managed_path(&state, "rg", "/bin//rg").is_ok());
    assert_eq!(
        validate_managed_path(&state, "rg", "/bin/fd").unwrap_err().message(&as_is),
        "invalid managed tool-stub path /bin/fd in bundle state"
    );
    assert!(matches!(
        validate_managed_path(&state, "../rg", "/rg").unwrap_err(),
        StubError::InvalidName { .. }
    ));
    let mut shared = state_of("/stubs.toml", "/bin", &["rg"]);
    shared.commands = shared.commands.insert(
        "fd".to_string(),
        ManagedCommand {
            path: "/bin/rg".to_string(),
            content_hash: String::new(),
        },
    );
    assert!(validate_managed_paths(&shared).is_err());
}

#[test]
fn upgrades_look_at_the_stubs_they_mean() {
    let target = |manifest: Option<&str>, into: Option<&str>, system: bool| {
        Upgrade {
            manifest: manifest.map(str::to_string),
            into: into.map(str::to_string),
            system,
        }
        .run(&vec![], &locations())
    };
    assert!(matches!(target(None, None, false), Ok(UpgradeTarget::Known)));
    assert!(matches!(target(None, None, true), Ok(UpgradeTarget::System)));
    assert!(matches!(
        target(None, Some("/bin"), false),
        Err(StubError::IntoWithoutManifest)
    ));
    let Ok(UpgradeTarget::Stubs(mut bundle)) = target(Some("/stubs.toml"), Some("/bin"), false)
    else {
        panic!("a manifest means its bundle");
    };
    assert_eq!(
        bundle_stub_paths(&bundle).unwrap_err().message(&as_is),
        "tool-stub bundle has not been synchronized: /stubs.toml"
    );
    bundle.state = Some(state_of("/stubs.toml", "/bin", &["rg", "fd"]));
    assert_eq!(
        bundle_stub_paths(&bundle).unwrap(),
        vec!["/bin/fd", "/bin/rg"]
    );
}

#[test]
fn tracked_and_system_stubs_are_listed_once() {
    let states = vec![
        state_of("/a.toml", "/z", &["rg"]),
        state_of("/b.toml", "/a", &["fd", "bat"]),
    ];
    assert_eq!(
        stub_paths_from_states(&states).unwrap(),
        vec!["/z/rg", "/a/bat", "/a/fd"]
    );
    let known = vec!["/z//rg".to_string(), "/m/jq".to_string()];
    assert_eq!(
        tracked_stub_paths(known, &states).unwrap(),
        vec!["/a/bat", "/a/fd", "/m/jq", "/z//rg"]
    );
    let mut broken = state_of("/c.toml", "/c", &[]);
    broken.commands = broken.commands.insert(
        "rg".to_string(),
        ManagedCommand {
            path: "/d/rg".to_string(),
            content_hash: String::new(),
        },
    );
    assert!(matches!(
        tracked_stub_paths(vec![], &vec![broken]),
        Err(StubError::InvalidManagedPath { path }) if path == "/d/rg"
    ));
}

#[test]
fn paths_are_made_absolute() {
    assert_eq!(absolute("/work//stubs.toml").unwrap(), "/work/stubs.toml");
    let found = absolute("stubs.toml").unwrap();
    assert!(found.starts_with('/') && found.ends_with("/stubs.toml"));
    let here = absolute(".").unwrap();
    assert_eq!(found, join(&here, "stubs.toml"));
    assert!(path_eq(&absolute("./a/../b/").unwrap(), &join(&here, "a/../b")));
    assert_eq!(absolute("..").unwrap(), join(&here, ".."));
    assert!(matches!(
        absolute("").unwrap_err(),
        StubError::Unresolved { path, .. } if path.is_empty()
    ));
    assert_eq!(resolved_path("a", Ok(Some("/b".to_string()))).unwrap(), "/b");
    assert_eq!(
        resolved_path("a", Ok(None)).unwrap_err().message(&as_is),
        "failed to resolve a: the absolute path is not valid UTF-8"
    );
    assert_eq!(
        resolved_path("a", Err("no such directory".to_string()))
            .unwrap_err()
            .message(&as_is),
        "failed to resolve a: no such directory"
    );
}
