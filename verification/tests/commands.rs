use std::cell::RefCell;

use tool_stubs::bundle::{bundle_id, Bundle};
use tool_stubs::command::{
    checked_stub, draft_value, frame_stub, render_command, render_request, render_tool,
    render_value, validate_command_name,
};
use tool_stubs::command_spec::CommandSpec;
use tool_stubs::document::{command_value, CommandValue};
use tool_stubs::desired::{
    load_config_commands, load_desired, load_manifest_commands, ConfigFile, ConfigFileScope,
    Declaration,
};
use tool_stubs::digest::hash_sha256_to_str;
use tool_stubs::error::StubError;
use tool_stubs::owner::bundle_owner;

/// Shows a path as it is.
fn as_is(path: &String) -> String {
    path.clone()
}

fn text_value(request: &str) -> CommandValue {
    CommandValue::Text(request.to_string())
}

fn string(text: &str) -> toml::Value {
    toml::Value::String(text.to_string())
}

/// Splits `tool@version` requests of tools without an at sign in their names.
fn at_sign(request: &String) -> (String, Option<String>) {
    match request.split_once('@') {
        Some((tool, version)) => (tool.to_string(), Some(version.to_string())),
        None => (request.clone(), None),
    }
}

fn declare(name: &str, request: &str) -> Declaration {
    Declaration {
        name: name.to_string(),
        value: text_value(request),
    }
}

fn bundle_in(into: &str) -> Bundle {
    let source = "/work/stubs.toml";
    Bundle {
        id: bundle_id(source, into),
        source_path: source.to_string(),
        manifest_path: Some(source.to_string()),
        into: into.to_string(),
        state_path: "/state/x.json".to_string(),
        state: None,
        system: false,
    }
}

fn no_objection(_contents: &String, _name: &String) -> Option<String> {
    None
}

#[test]
fn renders_string_commands_as_valid_stubs() {
    let rendered =
        render_command("bundle", "rg", string("ripgrep@14"), at_sign, no_objection).unwrap();
    assert!(rendered.contains("tool = \"ripgrep\""));
    assert!(rendered.contains("version = \"14\""));
    assert!(rendered.contains("bin = \"rg\""));
    assert!(rendered.contains("# managed by mise tool-stubs bundle bundle"));
}

#[test]
fn rejects_command_paths() {
    assert!(validate_command_name("bin/rg").is_err());
    assert!(validate_command_name("..").is_err());
    assert!(validate_command_name(".mise-tool-stubs-transaction-owned").is_err());
    assert!(validate_command_name("rg").is_ok());
}

#[test]
fn says_why_a_name_is_rejected() {
    let empty = validate_command_name("").unwrap_err();
    assert!(matches!(empty, StubError::EmptyName));
    assert_eq!(empty.message(&as_is), "command names cannot be empty");
    for name in [".", "..", "/", "a/", "/a", "a/b", ".mise-tool-stubs-x"] {
        let error = validate_command_name(name).unwrap_err();
        assert_eq!(
            error.message(&as_is),
            format!("command name must be a single file name: {name}")
        );
    }
    for name in ["a", ".hidden", "...", "a b", "é", ".mise-tool-stub"] {
        assert!(validate_command_name(name).is_ok(), "{name:?}");
    }
}

#[test]
fn a_request_is_rendered_by_its_parts() {
    let parts = |tool: &str, version: Option<&str>| (tool.to_string(), version.map(str::to_string));
    assert_eq!(
        render_request("id", "ni", "npm:@antfu/ni@1", parts("npm:@antfu/ni", Some("1"))).unwrap(),
        render_tool("id", "ni", "npm:@antfu/ni", Some("1".to_string())).unwrap()
    );
    assert_eq!(
        render_request("id", "rg", "ripgrep", parts("ripgrep", None)).unwrap(),
        frame_stub(
            "id",
            "tool = \"ripgrep\"\nversion = \"latest\"\nbin = \"rg\"\n"
        )
    );
    assert_eq!(
        render_request("id", "rg", "?", parts("", Some("1"))).unwrap_err().message(&as_is),
        "invalid tool request for command rg: ?"
    );
    let swapped = |_request: &String| ("fd".to_string(), Some("9".to_string()));
    assert_eq!(
        render_value("id", "x", &text_value("ripgrep@14"), &swapped, &no_objection).unwrap(),
        render_tool("id", "x", "fd", Some("9".to_string())).unwrap()
    );
}

#[test]
fn values_are_told_apart() {
    assert!(matches!(command_value(string("x")), CommandValue::Text(text) if text == "x"));
    let mut table = toml::Table::new();
    table.insert("bin".to_string(), string("rg"));
    assert!(matches!(
        command_value(toml::Value::Table(table.clone())),
        CommandValue::Table(found) if found == table
    ));
    for other in [
        toml::Value::Integer(1),
        toml::Value::Float(0.5),
        toml::Value::Boolean(true),
        toml::Value::Array(vec![string("x")]),
        toml::Value::Datetime("1979-05-27".parse().unwrap()),
    ] {
        assert!(matches!(command_value(other), CommandValue::Other(_)));
    }
}

#[test]
fn renders_the_whole_stub() {
    assert_eq!(
        render_command("id", "rg", string("ripgrep@14"), at_sign, no_objection).unwrap(),
        "#!/usr/bin/env -S mise tool-stub\n\
         # managed by mise tool-stubs bundle id\n\
         \n\
         tool = \"ripgrep\"\n\
         version = \"14\"\n\
         bin = \"rg\"\n"
    );
    assert_eq!(
        render_command("id", "node", string("node"), at_sign, no_objection).unwrap(),
        render_tool("id", "node", "node", Some("latest".to_string())).unwrap()
    );
}

#[test]
fn renders_tables_in_their_own_order() {
    let mut table = toml::Table::new();
    table.insert("version".to_string(), toml::Value::String("22".to_string()));
    table.insert("bin".to_string(), toml::Value::String("node".to_string()));
    assert_eq!(
        render_command("id", "node", toml::Value::Table(table), at_sign, no_objection).unwrap(),
        "#!/usr/bin/env -S mise tool-stub\n\
         # managed by mise tool-stubs bundle id\n\
         \n\
         version = \"22\"\n\
         bin = \"node\"\n"
    );
}

#[test]
fn refuses_values_that_are_no_request() {
    let error = render_command("id", "rg", string("@14"), at_sign, no_objection).unwrap_err();
    assert_eq!(error.message(&as_is), "invalid tool request for command rg: @14");
    let number = toml::Value::Integer(14);
    let error = render_command("id", "rg", number, at_sign, no_objection).unwrap_err();
    assert_eq!(error.message(&as_is), "command rg must be a tool string or table");
}

#[test]
fn refuses_stubs_that_do_not_pass_the_check() {
    let asked = RefCell::new(vec![]);
    let check = |contents: &String, name: &String| {
        asked.borrow_mut().push((contents.clone(), name.clone()));
        Some("no tool is installed".to_string())
    };
    let error = render_command("id", "rg", string("ripgrep@14"), at_sign, check).unwrap_err();
    assert_eq!(
        error.message(&as_is),
        "invalid tool-stub configuration for command rg: no tool is installed"
    );
    let drafted = draft_value("id", "rg", &text_value("ripgrep@14"), &at_sign).unwrap();
    assert_eq!(asked.into_inner(), vec![(drafted.clone(), "rg".to_string())]);
    assert_eq!(checked_stub("rg", drafted.clone(), None).unwrap(), drafted);
    assert!(matches!(
        checked_stub("rg", drafted, Some("?".to_string())).unwrap_err(),
        StubError::RejectedStub { name, reason } if name == "rg" && reason == "?"
    ));
}

#[test]
fn the_first_configuration_file_decides() {
    let files = vec![
        ConfigFile {
            scope: ConfigFileScope::User,
            path: "/home/.config/mise/conf.d/a.toml".to_string(),
            tool_stubs: vec![declare("rg", "ripgrep@14")],
        },
        ConfigFile {
            scope: ConfigFileScope::Project,
            path: "/work/mise.toml".to_string(),
            tool_stubs: vec![declare("rg", "ripgrep@1"), declare("jq", "jq@1")],
        },
        ConfigFile {
            scope: ConfigFileScope::User,
            path: "/home/.config/mise/config.toml".to_string(),
            tool_stubs: vec![declare("fd", "fd@10"), declare("rg", "ripgrep@13")],
        },
    ];
    let (hash, commands) = load_config_commands(false, files).unwrap();
    assert_eq!(commands.len(), 2);
    assert_eq!(commands[0].name, "fd");
    assert_eq!(commands[0].source, "/home/.config/mise/config.toml");
    assert_eq!(commands[1].name, "rg");
    assert_eq!(commands[1].source, "/home/.config/mise/conf.d/a.toml");
    assert!(matches!(&commands[1].value, CommandValue::Text(request) if request == "ripgrep@14"));
    assert_eq!(
        hash,
        hash_sha256_to_str("fd = \"fd@10\"\nrg = \"ripgrep@14\"\n")
    );
}

#[test]
fn other_values_reach_the_hash() {
    let files = vec![ConfigFile {
        scope: ConfigFileScope::User,
        path: "/home/.config/mise/config.toml".to_string(),
        tool_stubs: vec![Declaration {
            name: "rg".to_string(),
            value: command_value(toml::Value::Integer(14)),
        }],
    }];
    let (hash, commands) = load_config_commands(false, files).unwrap();
    assert_eq!(hash, hash_sha256_to_str("rg = 14\n"));
    assert!(matches!(&commands[0].value, CommandValue::Other(_)));
}

#[test]
fn system_and_user_configuration_are_apart() {
    let files = || {
        vec![ConfigFile {
            scope: ConfigFileScope::System,
            path: "/etc/mise/config.toml".to_string(),
            tool_stubs: vec![declare("rg", "ripgrep@14")],
        }]
    };
    let (hash, commands) = load_config_commands(false, files()).unwrap();
    assert!(commands.is_empty());
    assert_eq!(hash, hash_sha256_to_str(""));
    let (_, commands) = load_config_commands(true, files()).unwrap();
    assert_eq!(commands.len(), 1);
}

#[test]
fn a_manifest_is_hashed_as_it_is_written() {
    let contents = "[commands]\nrg = \"ripgrep@14\"\n";
    let (hash, commands) = load_manifest_commands(
        "/work/stubs.toml",
        contents,
        vec![declare("rg", "ripgrep@14")],
    );
    assert_eq!(hash, hash_sha256_to_str(contents));
    assert_eq!(commands.len(), 1);
    assert_eq!(commands[0].source, "/work/stubs.toml");
}

#[test]
fn loads_the_desired_commands() {
    let bundle = bundle_in("/work/bin");
    let specs = vec![
        CommandSpec {
            name: "rg".to_string(),
            value: text_value("ripgrep@14"),
            source: "/work/stubs.toml".to_string(),
        },
        CommandSpec {
            name: "fd".to_string(),
            value: text_value("fd"),
            source: "/work/stubs.toml".to_string(),
        },
    ];
    let desired = load_desired(&bundle, specs, at_sign, no_objection).unwrap();
    assert_eq!(desired.len(), 2);
    assert_eq!(desired.name_at(0), "fd");
    let rg = desired.get("rg").unwrap();
    assert_eq!(rg.name, "rg");
    assert_eq!(rg.path, "/work/bin/rg");
    assert_eq!(rg.content_hash, hash_sha256_to_str(&rg.contents));
    assert!(rg.contents.contains(&bundle.id));
    assert_eq!(
        rg.contents,
        render_command(&bundle.id, "rg", string("ripgrep@14"), at_sign, no_objection).unwrap()
    );
}

#[test]
fn says_which_command_cannot_be_loaded() {
    let bundle = bundle_in("/work/bin");
    let spec = |name: &str, request: &str| {
        vec![CommandSpec {
            name: name.to_string(),
            value: text_value(request),
            source: "/work/stubs.toml".to_string(),
        }]
    };
    let error = load_desired(&bundle, spec("rg", "@14"), at_sign, no_objection).unwrap_err();
    assert_eq!(
        error.message(&as_is),
        "invalid tool-stub command rg in /work/stubs.toml: invalid tool request for command rg: @14"
    );
    let error = load_desired(&bundle, spec("a/b", "rg"), at_sign, no_objection).unwrap_err();
    assert!(matches!(error, StubError::InvalidName { .. }));
    let error = load_desired(&bundle, spec("rg", "ripgrep"), at_sign, |_contents, name| {
        Some(format!("{name} is not welcome"))
    })
    .unwrap_err();
    assert_eq!(
        error.message(&as_is),
        "invalid tool-stub command rg in /work/stubs.toml: \
         invalid tool-stub configuration for command rg: rg is not welcome"
    );
}

#[test]
fn a_rendered_stub_names_its_bundle() {
    let id = bundle_id("/work/stubs.toml", "/work/bin");
    assert!(validate_command_name(&id).is_ok());
    let stub = render_command(&id, "rg", string("ripgrep@14"), at_sign, no_objection).unwrap();
    assert_eq!(bundle_owner(&stub), Some(id));
}
