//! The commands that a manifest or the configuration asks for.
use vstd::prelude::*;
use crate::bundle::Bundle;
use crate::bundle::BundleView;
use crate::command;
use crate::command_spec::CommandSpec;
use crate::command_spec::CommandSpecView;
use crate::document::CommandValue;
use crate::document::CommandValueView;
use crate::digest;
use crate::document;
use crate::error::ErrorView;
use crate::error::StubError;
use crate::merge;
use crate::name_map;
use crate::name_map::NameMap;
use crate::owner;
use crate::paths;
use crate::text;

verus! {

/// Whom a configuration file speaks for.
#[derive(Clone, Copy, Debug, PartialEq, Eq, Structural)]
pub enum ConfigFileScope {
    System,
    User,
    Project,
}

/// A command as a configuration file declares it.
#[derive(Debug)]
pub struct Declaration {
    pub name: String,
    pub value: CommandValue,
}

/// The model of a [`Declaration`].
pub struct DeclarationView {
    pub name: Seq<char>,
    pub value: CommandValueView,
}

impl View for Declaration {
    type V = DeclarationView;

    open spec fn view(&self) -> DeclarationView {
        DeclarationView { name: self.name@, value: self.value@ }
    }
}

/// The models of some declarations.
pub open spec fn declaration_views(declarations: Seq<Declaration>) -> Seq<DeclarationView> {
    Seq::new(declarations.len(), |i: int| declarations[i]@)
}

/// A configuration file with the commands that it declares.
#[derive(Debug)]
pub struct ConfigFile {
    pub scope: ConfigFileScope,
    pub path: String,
    pub tool_stubs: Vec<Declaration>,
}

/// The model of a [`ConfigFile`].
pub struct ConfigFileView {
    pub scope: ConfigFileScope,
    pub path: Seq<char>,
    pub tool_stubs: Seq<DeclarationView>,
}

impl View for ConfigFile {
    type V = ConfigFileView;

    open spec fn view(&self) -> ConfigFileView {
        ConfigFileView {
            scope: self.scope,
            path: self.path@,
            tool_stubs: declaration_views(self.tool_stubs@),
        }
    }
}

/// The models of some configuration files.
pub open spec fn config_views(files: Seq<ConfigFile>) -> Seq<ConfigFileView> {
    Seq::new(files.len(), |i: int| files[i]@)
}

/// The models of some commands.
pub open spec fn spec_views(commands: Seq<CommandSpec>) -> Seq<CommandSpecView> {
    Seq::new(commands.len(), |i: int| commands[i]@)
}

/// The command that a declaration in the file `source` stands for.
pub open spec fn declared(source: Seq<char>, declaration: DeclarationView) -> CommandSpecView {
    CommandSpecView { name: declaration.name, value: declaration.value, source }
}

/// The commands known so far, with those that one file declares.
pub open spec fn with_declarations(
    known: Seq<(Seq<char>, CommandSpecView)>,
    source: Seq<char>,
    declarations: Seq<DeclarationView>,
) -> Seq<(Seq<char>, CommandSpecView)>
    decreases declarations.len(),
{
    if declarations.len() == 0 {
        known
    } else {
        document::put_entry(
            with_declarations(known, source, declarations.drop_last()),
            declarations.last().name,
            declared(source, declarations.last()),
        )
    }
}

/// The commands known so far, with those of the files of one scope. The last
/// file comes first, so that an earlier one takes precedence.
pub open spec fn with_files(
    known: Seq<(Seq<char>, CommandSpecView)>,
    files: Seq<ConfigFileView>,
    scope: ConfigFileScope,
) -> Seq<(Seq<char>, CommandSpecView)>
    decreases files.len(),
{
    if files.len() == 0 {
        known
    } else {
        let file = files.last();
        let next = if file.scope == scope {
            with_declarations(known, file.path, file.tool_stubs)
        } else {
            known
        };
        with_files(next, files.drop_last(), scope)
    }
}

/// The scope of a request.
pub open spec fn requested_scope(system: bool) -> ConfigFileScope {
    if system {
        ConfigFileScope::System
    } else {
        ConfigFileScope::User
    }
}

/// The commands that the configuration files declare for a request.
pub open spec fn configured(files: Seq<ConfigFileView>, system: bool) -> Seq<
    (Seq<char>, CommandSpecView),
> {
    with_files(Seq::empty(), files, requested_scope(system))
}

/// The names and values of commands.
pub open spec fn named_values(commands: Seq<CommandSpecView>) -> Seq<
    (Seq<char>, CommandValueView),
> {
    Seq::new(commands.len(), |i: int| (commands[i].name, commands[i].value))
}

/// The hash of a text.
pub open spec fn text_hash(content: Seq<char>) -> Seq<char> {
    digest::sha256_hex(vstd::utf8::encode_utf8(content))
}

/// The names under which commands are known are their own, and each is there
/// once.
pub open spec fn well_named(known: Seq<(Seq<char>, CommandSpecView)>) -> bool {
    &&& document::keys_distinct(known)
    &&& forall|i: int| 0 <= i < known.len() ==> (#[trigger] known[i]).0 == known[i].1.name
}

/// Putting a command under its own name keeps commands well named.
pub proof fn lemma_put_well_named(
    known: Seq<(Seq<char>, CommandSpecView)>,
    command: CommandSpecView,
)
    requires
        well_named(known),
    ensures
        well_named(document::put_entry(known, command.name, command)),
{
    document::law_put_entry(known, command.name, command, command.name);
    let at = document::first_with_key(known, command.name);
    document::lemma_first_with_key(known, command.name);
    if at < known.len() {
        document::lemma_put_known_entry(known, at, command.name, command);
    } else {
        document::lemma_put_new_entry(known, command.name, command);
    }
}

/// The last declaration of `name`.
pub open spec fn last_declaration(declarations: Seq<DeclarationView>, name: Seq<char>) -> Option<
    DeclarationView,
>
    decreases declarations.len(),
{
    if declarations.len() == 0 {
        None
    } else if declarations.last().name == name {
        Some(declarations.last())
    } else {
        last_declaration(declarations.drop_last(), name)
    }
}

/// The command `name` as the first file of a scope that declares it has it.
pub open spec fn strongest(
    files: Seq<ConfigFileView>,
    scope: ConfigFileScope,
    name: Seq<char>,
) -> Option<CommandSpecView>
    decreases files.len(),
{
    if files.len() == 0 {
        None
    } else if files[0].scope == scope && last_declaration(files[0].tool_stubs, name) is Some {
        Some(declared(files[0].path, last_declaration(files[0].tool_stubs, name)->0))
    } else {
        strongest(files.drop_first(), scope, name)
    }
}

/// A file that is added behind others counts only for names that they do not
/// declare.
pub proof fn lemma_strongest_behind(
    files: Seq<ConfigFileView>,
    scope: ConfigFileScope,
    name: Seq<char>,
)
    requires
        files.len() > 0,
    ensures
        strongest(files, scope, name) == match strongest(files.drop_last(), scope, name) {
            Some(command) => Some(command),
            None => strongest(seq![files.last()], scope, name),
        },
    decreases files.len(),
{
    if files.len() == 1 {
        assert(files =~= seq![files.last()]);
        assert(strongest(files.drop_last(), scope, name) is None);
    } else {
        let rest = files.drop_first();
        lemma_strongest_behind(rest, scope, name);
        assert(rest.drop_last() =~= files.drop_last().drop_first());
        assert(rest.last() == files.last());
    }
}

/// The declarations of a file replace what was known under their names.
pub proof fn lemma_declarations_replace(
    known: Seq<(Seq<char>, CommandSpecView)>,
    source: Seq<char>,
    declarations: Seq<DeclarationView>,
    name: Seq<char>,
)
    requires
        well_named(known),
    ensures
        well_named(with_declarations(known, source, declarations)),
        name_map::lookup(with_declarations(known, source, declarations), name)
            == match last_declaration(declarations, name) {
            Some(declaration) => Some(declared(source, declaration)),
            None => name_map::lookup(known, name),
        },
    decreases declarations.len(),
{
    if declarations.len() > 0 {
        let before = with_declarations(known, source, declarations.drop_last());
        let last = declarations.last();
        lemma_declarations_replace(known, source, declarations.drop_last(), name);
        document::law_put_entry(before, last.name, declared(source, last), name);
        lemma_put_well_named(before, declared(source, last));
    }
}

/// Merging files onto what is known gives each name the command of the first
/// file of the scope that declares it, or the known one.
pub proof fn lemma_files_replace(
    known: Seq<(Seq<char>, CommandSpecView)>,
    files: Seq<ConfigFileView>,
    scope: ConfigFileScope,
    name: Seq<char>,
)
    requires
        well_named(known),
    ensures
        well_named(with_files(known, files, scope)),
        name_map::lookup(with_files(known, files, scope), name) == match strongest(
            files,
            scope,
            name,
        ) {
            Some(command) => Some(command),
            None => name_map::lookup(known, name),
        },
    decreases files.len(),
{
    if files.len() > 0 {
        let file = files.last();
        lemma_declarations_replace(known, file.path, file.tool_stubs, name);
        let next = if file.scope == scope {
            with_declarations(known, file.path, file.tool_stubs)
        } else {
            known
        };
        lemma_files_replace(next, files.drop_last(), scope, name);
        lemma_strongest_behind(files, scope, name);
        let alone = seq![file];
        assert(alone.drop_first() =~= Seq::empty());
        assert(strongest(alone.drop_first(), scope, name) is None);
        assert(alone[0] == file);
    }
}

/// Of the configuration files of the requested scope, the first that declares a
/// name decides what the command is, and no other command is there.
pub proof fn law_first_file_decides(files: Seq<ConfigFileView>, system: bool, name: Seq<char>)
    ensures
        name_map::lookup(configured(files, system), name) == strongest(
            files,
            requested_scope(system),
            name,
        ),
{
    let none = Seq::<(Seq<char>, CommandSpecView)>::empty();
    lemma_files_replace(none, files, requested_scope(system), name);
}

/// Takes in the declarations of one file.
fn merge_declarations(
    known: indexmap::IndexMap<String, CommandSpec>,
    source: &str,
    declarations: Vec<Declaration>,
) -> (merged: indexmap::IndexMap<String, CommandSpec>)
    requires
        well_named(merge::merged_entries(known)),
    ensures
        merge::merged_entries(merged) == with_declarations(
            merge::merged_entries(known),
            source@,
            declaration_views(declarations@),
        ),
        well_named(merge::merged_entries(merged)),
{
    let ghost all = declaration_views(declarations@);
    let ghost before = merge::merged_entries(known);
    let mut merged = known;
    for declaration in it: declarations
        invariant
            all == declaration_views(it.seq()),
            merge::merged_entries(merged) == with_declarations(
                before,
                source@,
                all.take(it.index()),
            ),
            well_named(merge::merged_entries(merged)),
    {
        let ghost upto = all.take(it.index() + 1);
        proof {
            assert(upto.drop_last() =~= all.take(it.index()));
            assert(upto.last() == declaration@);
            lemma_put_well_named(merge::merged_entries(merged), declared(source@, declaration@));
        }
        let name = declaration.name.clone();
        merge::merge_command(
            &mut merged,
            name,
            CommandSpec {
                name: declaration.name,
                value: declaration.value,
                source: source.to_owned(),
            },
        );
    }
    assert(all.take(all.len() as int) =~= all);
    merged
}

/// What the configuration files give for a request: the hash of the document of
/// the commands' values, and the commands.
pub open spec fn config_outcome(files: Seq<ConfigFileView>, system: bool) -> Result<
    (Seq<char>, Seq<CommandSpecView>),
    ErrorView,
> {
    let known = configured(files, system);
    let commands = Seq::new(known.len(), |i: int| known[i].1);
    match document::document_text(named_values(commands)) {
        Ok(content) => Ok((text_hash(content), commands)),
        Err(reason) => Err(ErrorView::Unwritable { reason }),
    }
}

/// The model of loaded commands with the hash of their source.
pub open spec fn commands_view(loaded: Result<(String, Vec<CommandSpec>), StubError>) -> Result<
    (Seq<char>, Seq<CommandSpecView>),
    ErrorView,
> {
    match loaded {
        Ok((hash, commands)) => Ok((hash@, spec_views(commands@))),
        Err(error) => Err(error@),
    }
}

/// The commands that the configuration files declare for a request, with the
/// hash of the document of their values. Files are given by precedence, the
/// strongest first.
pub fn load_config_commands(system: bool, files: Vec<ConfigFile>) -> (loaded: Result<
    (String, Vec<CommandSpec>),
    StubError,
>)
    ensures
        commands_view(loaded) == config_outcome(config_views(files@), system),
{
    let scope = if system {
        ConfigFileScope::System
    } else {
        ConfigFileScope::User
    };
    let ghost all = config_views(files@);
    let mut rest = files;
    let mut merged = merge::new_merge();
    assert(config_views(rest@) =~= all);
    while rest.len() > 0
        invariant
            well_named(merge::merged_entries(merged)),
            scope == requested_scope(system),
            configured(all, system) == with_files(
                merge::merged_entries(merged),
                config_views(rest@),
                scope,
            ),
        decreases rest@.len(),
    {
        let ghost before = config_views(rest@);
        match rest.pop() {
            Some(file) => {
                proof {
                    assert(config_views(rest@) =~= before.drop_last());
                    assert(before.last() == file@);
                }
                if file.scope == scope {
                    merged = merge_declarations(merged, file.path.as_str(), file.tool_stubs);
                }
            },
            None => {},
        }
    }
    let ghost known = merge::merged_entries(merged);
    let ghost wanted = Seq::new(known.len(), |i: int| known[i].1);
    assert(known == configured(all, system));
    let commands = merge::merged_commands(merged);
    assert(spec_views(commands@) =~= wanted);
    let mut table = document::new_table();
    for i in 0..commands.len()
        invariant
            spec_views(commands@) == wanted,
            wanted == Seq::new(known.len(), |i: int| known[i].1),
            well_named(known),
            document::table_entries(table) == named_values(wanted).take(i as int),
    {
        proof {
            let values = named_values(wanted);
            let upto = values.take(i as int);
            assert(commands@[i as int]@ == wanted[i as int]);
            assert forall|j: int| 0 <= j < upto.len() implies (#[trigger] upto[j]).0
                != values[i as int].0 by {
                assert(known[j].0 != known[i as int].0);
            }
            document::lemma_put_new_entry(upto, values[i as int].0, values[i as int].1);
            assert(values.take(i + 1) =~= upto.push(values[i as int]));
        }
        document::insert_value(&mut table, commands[i].name.as_str(), &commands[i].value);
    }
    assert(named_values(wanted).take(commands@.len() as int) =~= named_values(wanted));
    match document::table_to_string(&table) {
        Ok(content) => Ok((digest::hash_sha256_to_str(content.as_str()), commands)),
        Err(reason) => Err(StubError::Unwritable { reason }),
    }
}

/// The commands that a manifest declares, with the hash of its contents.
pub fn load_manifest_commands(path: &str, contents: &str, declarations: Vec<Declaration>) -> (
loaded: (String, Vec<CommandSpec>))
    ensures
        loaded.0@ == text_hash(contents@),
        spec_views(loaded.1@) == declaration_views(declarations@).map_values(
            |declaration: DeclarationView| declared(path@, declaration),
        ),
        loaded.1@.len() == declarations@.len(),
        forall|i: int|
            0 <= i < declarations@.len() ==> (#[trigger] loaded.1@[i]).name@
                == declarations@[i].name@ && loaded.1@[i].value@ == declarations@[i].value@
                && loaded.1@[i].source@ == path@,
{
    let ghost all = declaration_views(declarations@);
    let mut commands: Vec<CommandSpec> = Vec::new();
    for declaration in it: declarations
        invariant
            all == declaration_views(it.seq()),
            commands@.len() == it.index(),
            forall|i: int|
                0 <= i < commands@.len() ==> (#[trigger] commands@[i])@ == declared(path@, all[i]),
    {
        commands.push(
            CommandSpec {
                name: declaration.name,
                value: declaration.value,
                source: path.to_owned(),
            },
        );
    }
    assert(spec_views(commands@) =~= all.map_values(
        |declaration: DeclarationView| declared(path@, declaration),
    ));
    (digest::hash_sha256_to_str(contents), commands)
}

/// A command as it should stand in the bundle's directory.
#[derive(Debug)]
pub struct DesiredCommand {
    pub name: String,
    pub path: String,
    pub contents: String,
    pub content_hash: String,
}

/// The model of a [`DesiredCommand`].
pub struct DesiredView {
    pub name: Seq<char>,
    pub path: Seq<char>,
    pub contents: Seq<char>,
    pub content_hash: Seq<char>,
}

impl View for DesiredCommand {
    type V = DesiredView;

    open spec fn view(&self) -> DesiredView {
        DesiredView {
            name: self.name@,
            path: self.path@,
            contents: self.contents@,
            content_hash: self.content_hash@,
        }
    }
}

/// `made` is a stub of the bundle for the command `name`: it stands at its place,
/// with the hash of its contents, which are the text of a stub.
pub open spec fn is_stub(bundle: BundleView, name: Seq<char>, made: DesiredView) -> bool {
    &&& command::valid_command_name(name)
    &&& made.name == name
    &&& made.path == paths::joined(bundle.into, name)
    &&& made.content_hash == text_hash(made.contents)
    &&& exists|body: Seq<char>| made.contents == #[trigger] command::framed(bundle.id, body)
}

/// `made` is the stub of the command `spec` in the bundle. `split` gives the
/// parts of a tool request, and `check` says what is wrong with a stub.
pub open spec fn makes<
    S: Fn(&String) -> (String, Option<String>),
    F: Fn(&String, &String) -> Option<String>,
>(bundle: BundleView, spec: CommandSpecView, split: S, check: F, made: DesiredView) -> bool {
    &&& command::valid_command_name(spec.name)
    &&& made.name == spec.name
    &&& made.path == paths::joined(bundle.into, spec.name)
    &&& made.content_hash == text_hash(made.contents)
    &&& command::renders(
        bundle.id,
        spec.name,
        spec.value,
        split,
        check,
        Ok::<Seq<char>, ErrorView>(made.contents),
    )
}

/// Some stubs by name. Of two with the same name the later counts.
pub open spec fn by_name(made: Seq<DesiredView>) -> Seq<(Seq<char>, DesiredView)>
    decreases made.len(),
{
    if made.len() == 0 {
        Seq::empty()
    } else {
        name_map::with_name(by_name(made.drop_last()), made.last().name, made.last())
    }
}

/// The error of a command that cannot be made into a stub for a reason.
pub open spec fn command_error(spec: CommandSpecView, reason: ErrorView) -> ErrorView {
    ErrorView::InvalidCommand {
        name: spec.name,
        source: spec.source,
        reason: reason.message(Seq::empty()),
    }
}

/// `error` is why the command `spec` is refused, which has a valid name: it cannot
/// be rendered for the reason `cause`.
pub open spec fn unmakeable<
    S: Fn(&String) -> (String, Option<String>),
    F: Fn(&String, &String) -> Option<String>,
>(
    bundle: BundleView,
    spec: CommandSpecView,
    split: S,
    check: F,
    cause: ErrorView,
    error: ErrorView,
) -> bool {
    command::renders(
        bundle.id,
        spec.name,
        spec.value,
        split,
        check,
        Err::<Seq<char>, ErrorView>(cause),
    ) && error == command_error(spec, cause)
}

/// `error` is why the command `spec` is refused: its name, its value, or what
/// the check says of its stub.
pub open spec fn refused<
    S: Fn(&String) -> (String, Option<String>),
    F: Fn(&String, &String) -> Option<String>,
>(bundle: BundleView, spec: CommandSpecView, split: S, check: F, error: ErrorView) -> bool {
    if command::name_error(spec.name) is Some {
        command::name_error(spec.name) == Some(error)
    } else {
        exists|cause: ErrorView| #[trigger]
            unmakeable(bundle, spec, split, check, cause, error)
    }
}

/// Makes the stub of one command.
fn make_command<
    S: Fn(&String) -> (String, Option<String>),
    F: Fn(&String, &String) -> Option<String>,
>(bundle: &Bundle, spec: CommandSpec, split: &S, check: &F) -> (stub: Result<
    DesiredCommand,
    StubError,
>)
    requires
        forall|request: &String| call_requires(*split, (request,)),
        forall|contents: &String, name: &String| call_requires(*check, (contents, name)),
    ensures
        match stub {
            Ok(desired) => makes(bundle@, spec@, *split, *check, desired@),
            Err(error) => refused(bundle@, spec@, *split, *check, error@),
        },
{
    match command::validate_command_name(spec.name.as_str()) {
        Ok(_) => {},
        Err(error) => {
            return Err(error);
        },
    }
    match command::render_value(
        bundle.id.as_str(),
        spec.name.as_str(),
        &spec.value,
        split,
        check,
    ) {
        Ok(contents) => Ok(
            DesiredCommand {
                name: spec.name.clone(),
                path: paths::join(bundle.into.as_str(), spec.name.as_str()),
                content_hash: digest::hash_sha256_to_str(contents.as_str()),
                contents,
            },
        ),
        Err(cause) => {
            let none: Vec<String> = Vec::new();
            proof {
                assert(text::texts(none@) =~= Seq::empty());
                command::lemma_cause_has_no_path(
                    bundle@.id,
                    spec@.name,
                    spec@.value,
                    *split,
                    *check,
                    cause@,
                );
            }
            let error = StubError::InvalidCommand {
                name: spec.name.clone(),
                source: spec.source.clone(),
                reason: cause.message_from(&none),
            };
            assert(unmakeable(bundle@, spec@, *split, *check, cause@, error@));
            Err(error)
        },
    }
}

/// Stubs by name stand under exactly their own names, in order.
pub proof fn law_names_by_name(made: Seq<DesiredView>, name: Seq<char>)
    ensures
        name_map::names_sorted(by_name(made)),
        name_map::has_name(by_name(made), name) <==> exists|i: int|
            0 <= i < made.len() && (#[trigger] made[i]).name == name,
    decreases made.len(),
{
    if made.len() > 0 {
        let rest = made.drop_last();
        let last = made.len() - 1;
        law_names_by_name(rest, name);
        name_map::law_with_name(by_name(rest), made[last].name, made[last], name);
        assert(name_map::lookup(by_name(made), name) is Some <==> made[last].name == name
            || name_map::lookup(by_name(rest), name) is Some);
        if name_map::has_name(by_name(rest), name) {
            let i = choose|i: int| 0 <= i < rest.len() && (#[trigger] rest[i]).name == name;
            assert(made[i].name == name);
        }
        if exists|i: int| 0 <= i < made.len() && (#[trigger] made[i]).name == name {
            let i = choose|i: int| 0 <= i < made.len() && (#[trigger] made[i]).name == name;
            if i < last {
                assert(rest[i].name == name);
            }
        }
    }
}

/// Of several stubs with the same name, the last stands under it.
pub proof fn law_last_by_name(made: Seq<DesiredView>, at: int)
    requires
        0 <= at < made.len(),
        forall|j: int| at < j < made.len() ==> (#[trigger] made[j]).name != made[at].name,
    ensures
        name_map::lookup(by_name(made), made[at].name) == Some(made[at]),
    decreases made.len(),
{
    let rest = made.drop_last();
    let last = made.len() - 1;
    law_names_by_name(rest, made[at].name);
    name_map::law_with_name(by_name(rest), made[last].name, made[last], made[at].name);
    if at < last {
        assert(made[last].name != made[at].name);
        assert forall|j: int| at < j < rest.len() implies (#[trigger] rest[j]).name
            != rest[at].name by {
            assert(made[j].name != made[at].name);
        }
        law_last_by_name(rest, at);
    }
}

/// `desired` holds the given commands: each name that is given and no other, with
/// the stub that is made of the last command of that name.
pub open spec fn holds_all<
    S: Fn(&String) -> (String, Option<String>),
    F: Fn(&String, &String) -> Option<String>,
>(
    bundle: BundleView,
    specs: Seq<CommandSpecView>,
    split: S,
    check: F,
    desired: Seq<(Seq<char>, DesiredView)>,
) -> bool {
    &&& name_map::names_sorted(desired)
    &&& forall|i: int|
        0 <= i < specs.len() ==> name_map::has_name(desired, (#[trigger] specs[i]).name)
    &&& forall|name: Seq<char>| #[trigger]
        name_map::has_name(desired, name) ==> exists|i: int|
            0 <= i < specs.len() && (#[trigger] specs[i]).name == name
    &&& forall|i: int|
        0 <= i < specs.len() && (forall|j: int|
            i < j < specs.len() ==> (#[trigger] specs[j]).name != specs[i].name) ==> (
        name_map::lookup(desired, (#[trigger] specs[i]).name) matches Some(stub) && makes(
            bundle,
            specs[i],
            split,
            check,
            stub,
        ))
}

/// When commands are loaded without an error, the result holds exactly the given
/// names, each with the stub of the last given command of that name.
pub proof fn law_loaded_commands_are_all_there<
    S: Fn(&String) -> (String, Option<String>),
    F: Fn(&String, &String) -> Option<String>,
>(
    bundle: BundleView,
    specs: Seq<CommandSpecView>,
    split: S,
    check: F,
    made: Seq<DesiredView>,
)
    requires
        made.len() == specs.len(),
        forall|i: int|
            0 <= i < made.len() ==> makes(bundle, specs[i], split, check, #[trigger] made[i]),
    ensures
        holds_all(bundle, specs, split, check, by_name(made)),
        forall|name: Seq<char>| #[trigger]
            name_map::has_name(by_name(made), name) <==> exists|i: int|
                0 <= i < specs.len() && (#[trigger] specs[i]).name == name,
        forall|i: int|
            0 <= i < specs.len() && (forall|j: int|
                i < j < specs.len() ==> (#[trigger] specs[j]).name != specs[i].name)
                ==> name_map::lookup(by_name(made), (#[trigger] specs[i]).name) == Some(made[i]),
{
    let desired = by_name(made);
    assert(forall|i: int|
        0 <= i < made.len() ==> (#[trigger] made[i]).name == (#[trigger] specs[i]).name);
    law_names_by_name(made, Seq::empty());
    assert forall|name: Seq<char>| #[trigger]
        name_map::has_name(desired, name) <==> exists|i: int|
            0 <= i < specs.len() && (#[trigger] specs[i]).name == name by {
        law_names_by_name(made, name);
        if name_map::has_name(desired, name) {
            let i = choose|i: int| 0 <= i < made.len() && (#[trigger] made[i]).name == name;
            assert(specs[i].name == name);
        }
        if exists|i: int| 0 <= i < specs.len() && (#[trigger] specs[i]).name == name {
            let i = choose|i: int| 0 <= i < specs.len() && (#[trigger] specs[i]).name == name;
            assert(made[i].name == name);
        }
    }
    assert forall|i: int|
        0 <= i < specs.len() && (forall|j: int|
            i < j < specs.len() ==> (#[trigger] specs[j]).name
                != specs[i].name) implies name_map::lookup(desired, (#[trigger] specs[i]).name)
        == Some(made[i]) by {
        assert(made[i].name == specs[i].name);
        assert forall|j: int| i < j < made.len() implies (#[trigger] made[j]).name
            != made[i].name by {
            assert(specs[j].name != specs[i].name);
        }
        law_last_by_name(made, i);
    }
}

/// The commands that should stand in the bundle's directory, or why the first
/// that cannot is refused. `split` gives the tool and the version that a tool
/// request asks for. `check` says what is wrong with the contents of a stub of a
/// name, if anything.
pub fn load_desired<
    S: Fn(&String) -> (String, Option<String>),
    F: Fn(&String, &String) -> Option<String>,
>(bundle: &Bundle, commands: Vec<CommandSpec>, split: S, check: F) -> (desired: Result<
    NameMap<DesiredCommand>,
    StubError,
>)
    requires
        forall|request: &String| call_requires(split, (request,)),
        forall|contents: &String, name: &String| call_requires(check, (contents, name)),
    ensures
        match desired {
            Ok(map) => exists|made: Seq<DesiredView>|
                {
                    &&& map@ == #[trigger] by_name(made)
                    &&& made.len() == commands@.len()
                    &&& forall|i: int|
                        0 <= i < made.len() ==> makes(
                            bundle@,
                            commands@[i]@,
                            split,
                            check,
                            #[trigger] made[i],
                        )
                },
            Err(error) => exists|made: Seq<DesiredView>|
                {
                    &&& #[trigger] made.len() < commands@.len()
                    &&& forall|i: int|
                        0 <= i < made.len() ==> makes(
                            bundle@,
                            commands@[i]@,
                            split,
                            check,
                            #[trigger] made[i],
                        )
                    &&& refused(bundle@, commands@[made.len() as int]@, split, check, error@)
                },
        },
        desired matches Ok(map) ==> holds_all(
            bundle@,
            spec_views(commands@),
            split,
            check,
            map@,
        ),
{
    let ghost all = commands@;
    let ghost mut made: Seq<DesiredView> = Seq::empty();
    let mut map: NameMap<DesiredCommand> = NameMap::new();
    for spec in it: commands
        invariant
            forall|request: &String| call_requires(split, (request,)),
            forall|contents: &String, name: &String| call_requires(check, (contents, name)),
            all == it.seq(),
            made.len() == it.index(),
            map@ == by_name(made),
            forall|i: int|
                0 <= i < made.len() ==> makes(bundle@, all[i]@, split, check, #[trigger] made[i]),
    {
        match make_command(bundle, spec, &split, &check) {
            Ok(desired) => {
                proof {
                    let next = made.push(desired@);
                    assert(next.drop_last() =~= made);
                    made = next;
                }
                map = map.insert(desired.name.clone(), desired);
            },
            Err(error) => {
                assert(made.len() < all.len());
                return Err(error);
            },
        }
    }
    proof {
        let specs = spec_views(all);
        assert forall|i: int| 0 <= i < made.len() implies makes(
            bundle@,
            specs[i],
            split,
            check,
            #[trigger] made[i],
        ) by {
            assert(specs[i] == all[i]@);
        }
        law_loaded_commands_are_all_there(bundle@, specs, split, check, made);
    }
    Ok(map)
}

/// The desired commands stand under their own names, each at its place in the
/// bundle's directory, with the hash of its contents, and name the bundle as
/// their owner.
pub open spec fn belongs(bundle: BundleView, desired: Seq<(Seq<char>, DesiredView)>) -> bool {
    &&& name_map::names_sorted(desired)
    &&& forall|i: int|
        0 <= i < desired.len() ==> {
            &&& (#[trigger] desired[i]).1.name == desired[i].0
            &&& command::valid_command_name(desired[i].0)
            &&& desired[i].1.path == paths::joined(bundle.into, desired[i].0)
            &&& desired[i].1.content_hash == text_hash(desired[i].1.contents)
            &&& owner::owner_in(desired[i].1.contents) == Some(bundle.id)
        }
}

/// The stub that a command is made into is a stub of the bundle.
pub proof fn lemma_made_is_stub<
    S: Fn(&String) -> (String, Option<String>),
    F: Fn(&String, &String) -> Option<String>,
>(bundle: BundleView, spec: CommandSpecView, split: S, check: F, made: DesiredView)
    requires
        makes(bundle, spec, split, check, made),
    ensures
        is_stub(bundle, spec.name, made),
{
    command::lemma_rendered_is_framed(
        bundle.id,
        spec.name,
        spec.value,
        split,
        check,
        made.contents,
    );
}

/// Stubs of a bundle belong to it.
pub proof fn lemma_stubs_belong(bundle: BundleView, made: Seq<DesiredView>)
    requires
        command::fits_marker(bundle.id),
        forall|i: int| 0 <= i < made.len() ==> is_stub(bundle, (#[trigger] made[i]).name, made[i]),
    ensures
        belongs(bundle, by_name(made)),
    decreases made.len(),
{
    if made.len() > 0 {
        let rest = made.drop_last();
        let stub = made.last();
        let before = by_name(rest);
        assert forall|i: int| 0 <= i < rest.len() implies is_stub(
            bundle,
            (#[trigger] rest[i]).name,
            rest[i],
        ) by {
            assert(rest[i] == made[i]);
        }
        lemma_stubs_belong(bundle, rest);
        assert(is_stub(bundle, made[made.len() - 1].name, made[made.len() - 1]));
        let body = choose|body: Seq<char>|
            stub.contents == #[trigger] command::framed(bundle.id, body);
        command::law_rendered_owner(bundle.id, body);
        name_map::law_with_name(before, stub.name, stub, stub.name);
        name_map::lemma_rank(before, stub.name);
        let after = by_name(made);
        let at = name_map::rank(before, stub.name);
        assert forall|i: int| 0 <= i < after.len() implies {
            &&& (#[trigger] after[i]).1.name == after[i].0
            &&& command::valid_command_name(after[i].0)
            &&& after[i].1.path == paths::joined(bundle.into, after[i].0)
            &&& after[i].1.content_hash == text_hash(after[i].1.contents)
            &&& owner::owner_in(after[i].1.contents) == Some(bundle.id)
        } by {
            if at < before.len() && before[at].0 == stub.name {
                if i != at {
                    assert(after[i] == before[i]);
                }
            } else if i < at {
                assert(after[i] == before[i]);
            } else if i > at {
                assert(after[i] == before[i - 1]);
            }
        }
    }
}

/// Whatever commands a bundle loads belong to it.
pub proof fn law_loaded_commands_belong<
    S: Fn(&String) -> (String, Option<String>),
    F: Fn(&String, &String) -> Option<String>,
>(
    bundle: BundleView,
    specs: Seq<CommandSpecView>,
    split: S,
    check: F,
    made: Seq<DesiredView>,
)
    requires
        command::fits_marker(bundle.id),
        made.len() == specs.len(),
        forall|i: int|
            0 <= i < made.len() ==> makes(bundle, specs[i], split, check, #[trigger] made[i]),
    ensures
        belongs(bundle, by_name(made)),
{
    assert forall|i: int| 0 <= i < made.len() implies is_stub(
        bundle,
        (#[trigger] made[i]).name,
        made[i],
    ) by {
        assert(makes(bundle, specs[i], split, check, made[i]));
        lemma_made_is_stub(bundle, specs[i], split, check, made[i]);
    }
    lemma_stubs_belong(bundle, made);
}

/// The file at `i` counts for the request and declares the command `name` at `j`.
pub open spec fn declares(
    files: Seq<ConfigFileView>,
    system: bool,
    name: Seq<char>,
    i: int,
    j: int,
) -> bool {
    &&& 0 <= i < files.len()
    &&& files[i].scope == (if system {
        ConfigFileScope::System
    } else {
        ConfigFileScope::User
    })
    &&& 0 <= j < files[i].tool_stubs.len()
    &&& files[i].tool_stubs[j].name == name
}

/// What the last declaration of a name is.
pub proof fn lemma_last_declaration(declarations: Seq<DeclarationView>, name: Seq<char>)
    ensures
        match last_declaration(declarations, name) {
            Some(declaration) => exists|j: int|
                0 <= j < declarations.len() && (#[trigger] declarations[j]) == declaration
                    && declaration.name == name && (forall|k: int|
                    j < k < declarations.len() ==> (#[trigger] declarations[k]).name != name),
            None => forall|j: int|
                0 <= j < declarations.len() ==> (#[trigger] declarations[j]).name != name,
        },
    decreases declarations.len(),
{
    if declarations.len() > 0 {
        let rest = declarations.drop_last();
        let last = declarations.len() - 1;
        assert(declarations[last] == declarations.last());
        if declarations[last].name != name {
            lemma_last_declaration(rest, name);
            if let Some(declaration) = last_declaration(rest, name) {
                let j = choose|j: int|
                    0 <= j < rest.len() && (#[trigger] rest[j]) == declaration
                        && declaration.name == name && (forall|k: int|
                        j < k < rest.len() ==> (#[trigger] rest[k]).name != name);
                assert(declarations[j] == declaration);
                assert forall|k: int| j < k < declarations.len() implies (
                #[trigger] declarations[k]).name != name by {
                    if k < last {
                        assert(rest[k].name != name);
                    }
                }
            } else {
                assert forall|j: int| 0 <= j < declarations.len() implies (
                #[trigger] declarations[j]).name != name by {
                    if j < last {
                        assert(rest[j].name != name);
                    }
                }
            }
        }
    }
}

/// The strongest declaration is the last one in the first file that counts and has
/// one.
pub proof fn lemma_strongest_at(
    files: Seq<ConfigFileView>,
    system: bool,
    name: Seq<char>,
    i: int,
    j: int,
)
    requires
        declares(files, system, name, i, j),
        forall|k: int, l: int| #[trigger]
            declares(files, system, name, k, l) ==> k > i || k == i && l <= j,
    ensures
        strongest(files, requested_scope(system), name) == Some(
            declared(files[i].path, files[i].tool_stubs[j]),
        ),
    decreases files.len(),
{
    let first = files[0].tool_stubs;
    lemma_last_declaration(first, name);
    if i == 0 {
        assert(first[j].name == name);
        let l = choose|l: int|
            0 <= l < first.len() && (#[trigger] first[l]) == last_declaration(first, name)->0
                && first[l].name == name && (forall|k: int|
                l < k < first.len() ==> (#[trigger] first[k]).name != name);
        assert(declares(files, system, name, 0, l));
        if l < j {
            assert(first[j].name != name);
        }
    } else {
        let rest = files.drop_first();
        assert(rest[i - 1] == files[i]);
        assert(declares(rest, system, name, i - 1, j));
        assert forall|k: int, l: int| #[trigger] declares(rest, system, name, k, l) implies k > i
            - 1 || k == i - 1 && l <= j by {
            assert(rest[k] == files[k + 1]);
            assert(declares(files, system, name, k + 1, l));
        }
        lemma_strongest_at(rest, system, name, i - 1, j);
        if files[0].scope == requested_scope(system) && last_declaration(first, name) is Some {
            let l = choose|l: int|
                0 <= l < first.len() && (#[trigger] first[l]) == last_declaration(first, name)->0
                    && first[l].name == name && (forall|k: int|
                    l < k < first.len() ==> (#[trigger] first[k]).name != name);
            assert(declares(files, system, name, 0, l));
        }
    }
}

/// A name that no file that counts declares has no strongest declaration.
pub proof fn lemma_no_strongest(files: Seq<ConfigFileView>, system: bool, name: Seq<char>)
    requires
        forall|k: int, l: int| !#[trigger] declares(files, system, name, k, l),
    ensures
        strongest(files, requested_scope(system), name) is None,
    decreases files.len(),
{
    if files.len() > 0 {
        let first = files[0].tool_stubs;
        lemma_last_declaration(first, name);
        if files[0].scope == requested_scope(system) && last_declaration(first, name) is Some {
            let l = choose|l: int|
                0 <= l < first.len() && (#[trigger] first[l]) == last_declaration(first, name)->0
                    && first[l].name == name;
            assert(declares(files, system, name, 0, l));
        }
        let rest = files.drop_first();
        assert forall|k: int, l: int| !#[trigger] declares(rest, system, name, k, l) by {
            if declares(rest, system, name, k, l) {
                assert(rest[k] == files[k + 1]);
                assert(declares(files, system, name, k + 1, l));
            }
        }
        lemma_no_strongest(rest, system, name);
    }
}

/// A command is configured exactly as the first file of the user, or of the system
/// where that is asked for, declares it, and there by its last declaration. It has
/// the value that is declared there, and comes from that file.
pub proof fn law_configured_command(
    files: Seq<ConfigFileView>,
    system: bool,
    name: Seq<char>,
    i: int,
    j: int,
)
    requires
        declares(files, system, name, i, j),
        forall|k: int, l: int| #[trigger]
            declares(files, system, name, k, l) ==> k > i || k == i && l <= j,
    ensures
        name_map::lookup(configured(files, system), name) == Some(
            CommandSpecView {
                name,
                value: files[i].tool_stubs[j].value,
                source: files[i].path,
            },
        ),
{
    lemma_strongest_at(files, system, name, i, j);
    law_first_file_decides(files, system, name);
}

/// Nothing is configured that no file of the user, or of the system where that is
/// asked for, declares.
pub proof fn law_nothing_else_is_configured(
    files: Seq<ConfigFileView>,
    system: bool,
    name: Seq<char>,
)
    requires
        forall|k: int, l: int| !#[trigger] declares(files, system, name, k, l),
    ensures
        !name_map::has_name(configured(files, system), name),
{
    lemma_no_strongest(files, system, name);
    law_first_file_decides(files, system, name);
}

/// What is configured by files behind a stronger one is taken in first.
pub proof fn lemma_stronger_file(
    known: Seq<(Seq<char>, CommandSpecView)>,
    file: ConfigFileView,
    files: Seq<ConfigFileView>,
    scope: ConfigFileScope,
)
    ensures
        with_files(known, seq![file] + files, scope) == (if file.scope == scope {
            with_declarations(with_files(known, files, scope), file.path, file.tool_stubs)
        } else {
            with_files(known, files, scope)
        }),
    decreases files.len(),
{
    let all = seq![file] + files;
    if files.len() == 0 {
        assert(all =~= seq![file]);
        assert(all.drop_last() =~= Seq::empty());
        assert(all.last() == file);
        let next = if file.scope == scope {
            with_declarations(known, file.path, file.tool_stubs)
        } else {
            known
        };
        assert(with_files(next, all.drop_last(), scope) == next);
    } else {
        let last = files.last();
        let next = if last.scope == scope {
            with_declarations(known, last.path, last.tool_stubs)
        } else {
            known
        };
        assert(all.last() == last);
        assert(all.drop_last() =~= seq![file] + files.drop_last());
        lemma_stronger_file(next, file, files.drop_last(), scope);
    }
}

/// A stronger file is taken in on top of what the others configure, if it counts
/// for the request, and not at all if it does not.
pub proof fn law_stronger_file(file: ConfigFileView, files: Seq<ConfigFileView>, system: bool)
    ensures
        configured(seq![file] + files, system) == (if file.scope == (if system {
            ConfigFileScope::System
        } else {
            ConfigFileScope::User
        }) {
            with_declarations(configured(files, system), file.path, file.tool_stubs)
        } else {
            configured(files, system)
        }),
{
    lemma_stronger_file(Seq::empty(), file, files, requested_scope(system));
}

/// Known names keep their places when a file is taken in. A name that is new comes
/// behind all others.
pub proof fn law_names_keep_their_places(
    known: Seq<(Seq<char>, CommandSpecView)>,
    source: Seq<char>,
    declarations: Seq<DeclarationView>,
    next: DeclarationView,
)
    ensures
        ({
            let before = with_declarations(known, source, declarations);
            let after = with_declarations(known, source, declarations.push(next));
            &&& after.len() >= before.len()
            &&& forall|k: int| 0 <= k < before.len() ==> (#[trigger] after[k]).0 == before[k].0
            &&& !name_map::has_name(before, next.name) ==> after == before.push(
                (
                    next.name,
                    CommandSpecView { name: next.name, value: next.value, source },
                ),
            )
            &&& name_map::has_name(before, next.name) ==> after.len() == before.len()
        }),
{
    let before = with_declarations(known, source, declarations);
    let all = declarations.push(next);
    assert(all.drop_last() =~= declarations);
    assert(all.last() == next);
    let at = document::first_with_key(before, next.name);
    document::lemma_first_with_key(before, next.name);
    if at < before.len() {
        assert(before[at].0 == next.name);
        document::lemma_put_known_entry(before, at, next.name, declared(source, next));
    } else {
        document::lemma_put_new_entry(before, next.name, declared(source, next));
    }
}

/// What the configuration files give: all configured commands in their order, and
/// the hash of the document of their names and values.
pub proof fn law_config_outcome(files: Seq<ConfigFileView>, system: bool)
    ensures
        match config_outcome(files, system) {
            Ok((hash, commands)) => {
                &&& commands.len() == configured(files, system).len()
                &&& forall|i: int|
                    0 <= i < commands.len() ==> #[trigger] commands[i] == configured(
                        files,
                        system,
                    )[i].1
                &&& document::document_text(
                    Seq::new(commands.len(), |i: int| (commands[i].name, commands[i].value)),
                ) matches Ok(content) && hash == digest::sha256_hex(
                    vstd::utf8::encode_utf8(content),
                )
            },
            Err(error) => document::document_text(
                Seq::new(
                    configured(files, system).len(),
                    |i: int|
                        (
                            configured(files, system)[i].1.name,
                            configured(files, system)[i].1.value,
                        ),
                ),
            ) matches Err(reason) && error == (ErrorView::Unwritable { reason }),
        },
{
    let known = configured(files, system);
    let commands = Seq::new(known.len(), |i: int| known[i].1);
    assert(named_values(commands) =~= Seq::new(
        known.len(),
        |i: int| (known[i].1.name, known[i].1.value),
    ));
    assert(named_values(commands) =~= Seq::new(
        commands.len(),
        |i: int| (commands[i].name, commands[i].value),
    ));
}

/// A manifest declares each of its commands with its name and its value, and is
/// their source.
pub proof fn law_declared(source: Seq<char>, declaration: DeclarationView, content: Seq<char>)
    ensures
        declared(source, declaration).name == declaration.name,
        declared(source, declaration).value == declaration.value,
        declared(source, declaration).source == source,
        text_hash(content) == digest::sha256_hex(vstd::utf8::encode_utf8(content)),
{
}

/// A command is refused for its name, with the error of that, or because it cannot
/// be rendered; then the error names the command, its source and the cause. A name
/// that is not accepted is always told first.
pub proof fn law_refused_command<
    S: Fn(&String) -> (String, Option<String>),
    F: Fn(&String, &String) -> Option<String>,
>(bundle: BundleView, spec: CommandSpecView, split: S, check: F, error: ErrorView)
    requires
        refused(bundle, spec, split, check, error),
    ensures
        command::name_error(spec.name) is Some ==> command::name_error(spec.name) == Some(error),
        command::name_error(spec.name) is None ==> exists|cause: ErrorView|
            {
                &&& #[trigger] command::renders(
                    bundle.id,
                    spec.name,
                    spec.value,
                    split,
                    check,
                    Err::<Seq<char>, ErrorView>(cause),
                )
                &&& error == (ErrorView::InvalidCommand {
                    name: spec.name,
                    source: spec.source,
                    reason: cause.message(Seq::empty()),
                })
            },
{
    if command::name_error(spec.name) is None {
        let cause = choose|cause: ErrorView| #[trigger]
            unmakeable(bundle, spec, split, check, cause, error);
        assert(command::renders(
            bundle.id,
            spec.name,
            spec.value,
            split,
            check,
            Err::<Seq<char>, ErrorView>(cause),
        ));
    }
}

/// A command that is made has an accepted name, stands under it in the directory of
/// the bundle, and has the contents that it renders to, with their hash.
pub proof fn law_made_command<
    S: Fn(&String) -> (String, Option<String>),
    F: Fn(&String, &String) -> Option<String>,
>(bundle: BundleView, spec: CommandSpecView, split: S, check: F, made: DesiredView)
    requires
        makes(bundle, spec, split, check, made),
    ensures
        command::name_error(spec.name) is None,
        made.name == spec.name,
        made.path == paths::joined(bundle.into, spec.name),
        made.content_hash == digest::sha256_hex(vstd::utf8::encode_utf8(made.contents)),
        command::renders(
            bundle.id,
            spec.name,
            spec.value,
            split,
            check,
            Ok::<Seq<char>, ErrorView>(made.contents),
        ),
{
}

} // verus!
