//! Command names, and the stub that a declared command is rendered to.
use vstd::prelude::*;
use crate::paths::ComponentView;
use crate::document::CommandValue;
use crate::document::CommandValueView;
use crate::document;
use crate::error::ErrorView;
use crate::error::StubError;
use crate::owner;
use crate::paths;
use crate::text;

verus! {

/// A name that a command may have: a single file name that does not start like
/// the names of the bundle's own temporary files.
pub open spec fn valid_command_name(name: Seq<char>) -> bool {
    paths::is_plain_name(name) && !".mise-tool-stubs-"@.is_prefix_of(name)
}

/// What is wrong with a command name.
pub open spec fn name_error(name: Seq<char>) -> Option<ErrorView> {
    if name.len() == 0 {
        Some(ErrorView::EmptyName)
    } else if !valid_command_name(name) {
        Some(ErrorView::InvalidName { name })
    } else {
        None
    }
}

/// What is wrong with `path` as the recorded place of the command `name` in
/// `into`.
pub open spec fn managed_path_error(into: Seq<char>, name: Seq<char>, path: Seq<char>) -> Option<
    ErrorView,
> {
    match name_error(name) {
        Some(error) => Some(error),
        None => if paths::same_path(path, paths::joined(into, name)) {
            None
        } else {
            Some(ErrorView::InvalidManagedPath { path })
        },
    }
}

/// The error of a check, if any.
pub open spec fn error_of(result: Result<(), StubError>) -> Option<ErrorView> {
    match result {
        Ok(_) => None,
        Err(error) => Some(error@),
    }
}

/// The text or the error of a result.
pub open spec fn result_view(result: Result<String, StubError>) -> Result<Seq<char>, ErrorView> {
    match result {
        Ok(text) => Ok(text@),
        Err(error) => Err(error@),
    }
}

/// A command name is valid exactly if it is its own only component and its own
/// file name, is neither `.` nor `..`, and is not reserved.
pub proof fn law_valid_name_is_one_component(name: Seq<char>)
    ensures
        valid_command_name(name) <==> {
            &&& name.len() > 0
            &&& paths::file_name(name) == Some(name)
            &&& paths::components(name).len() == 1
            &&& name != "."@
            &&& name != ".."@
            &&& !".mise-tool-stubs-"@.is_prefix_of(name)
        },
{
    reveal_strlit(".");
    reveal_strlit("..");
    assert("."@ =~= seq!['.']);
    assert(".."@ =~= seq!['.', '.']);
    if paths::is_plain_name(name) {
        paths::lemma_plain_name_components(name);
    } else if name.len() > 0 && name.contains('/') && paths::file_name(name) == Some(name) {
        lemma_component_has_no_separator(name, name);
    }
}

/// No name among the components of a path holds a separator.
pub proof fn lemma_component_has_no_separator(path: Seq<char>, name: Seq<char>)
    requires
        paths::file_name(path) == Some(name),
    ensures
        !name.contains('/'),
{
    let all = paths::components(path);
    let segments = paths::segment_components(path);
    assert(all.last() == paths::ComponentView::Normal(name));
    if segments.len() > 0 {
        assert(all.last() == segments.last());
        lemma_segment_has_no_separator(path, segments.len() - 1);
    } else {
        assert(all =~= paths::leading_component(path));
    }
}

/// No name among the segments of a path holds a separator.
pub proof fn lemma_segment_has_no_separator(path: Seq<char>, i: int)
    requires
        0 <= i < paths::segment_components(path).len(),
    ensures
        match paths::segment_components(path)[i] {
            paths::ComponentView::Normal(name) => !name.contains('/'),
            _ => true,
        },
    decreases path.len(),
{
    let end = text::find(path, '/');
    text::lemma_find(path, '/');
    if end < path.len() {
        let head = path.take(end);
        assert(!head.contains('/')) by {
            if head.contains('/') {
                let j = choose|j: int| 0 <= j < head.len() && head[j] == '/';
                assert(path[j] == '/');
            }
        }
        let first = paths::segment_component(head);
        if i >= first.len() {
            lemma_segment_has_no_separator(path.skip(end + 1), i - first.len());
        }
    }
}

/// Checks a command name.
pub fn validate_command_name(name: &str) -> (checked: Result<(), StubError>)
    ensures
        error_of(checked) == name_error(name@),
{
    if name.is_empty() {
        return Err(StubError::EmptyName);
    }
    proof {
        reveal_strlit(".");
        reveal_strlit("..");
        assert("."@ =~= seq!['.']);
        assert(".."@ =~= seq!['.', '.']);
    }
    if text::contains_char(name, '/') || text::text_eq(name, ".") || text::text_eq(name, "..")
        || text::starts_with(name, ".mise-tool-stubs-") {
        return Err(StubError::InvalidName { name: name.to_owned() });
    }
    Ok(())
}

/// Checks that `path` is the place of the command `name` in the directory
/// `into`.
pub fn validate_place(into: &str, name: &str, path: &str) -> (checked: Result<(), StubError>)
    ensures
        error_of(checked) == managed_path_error(into@, name@, path@),
{
    match validate_command_name(name) {
        Ok(_) => {},
        Err(error) => {
            return Err(error);
        },
    }
    if !paths::path_eq(path, paths::join(into, name).as_str()) {
        return Err(StubError::InvalidManagedPath { path: path.to_owned() });
    }
    Ok(())
}

/// The tool and the version that a tool request is split into.
pub type RequestParts = (Seq<char>, Option<Seq<char>>);

/// The model of the parts of a tool request.
pub open spec fn parts_view(parts: (String, Option<String>)) -> RequestParts {
    (parts.0@, text::text_view(parts.1))
}

/// `split` may give these parts of a tool request.
pub open spec fn splits<S: Fn(&String) -> (String, Option<String>)>(
    split: S,
    request: Seq<char>,
    parts: RequestParts,
) -> bool {
    exists|asked: String, given: (String, Option<String>)| #[trigger]
        call_ensures(split, (&asked,), given) && asked@ == request && parts_view(given) == parts
}

/// The text of a stub: how it is run, the bundle it belongs to, and its
/// configuration.
pub open spec fn framed(id: Seq<char>, body: Seq<char>) -> Seq<char> {
    "#!/usr/bin/env -S mise tool-stub\n"@ + owner::MANAGED_MARKER_PREFIX@ + id + "\n\n"@ + body
}

/// What the stub of a command is when its configuration holds these entries.
pub open spec fn rendering(id: Seq<char>, entries: Seq<(Seq<char>, CommandValueView)>) -> Result<
    Seq<char>,
    ErrorView,
> {
    match document::document_text(entries) {
        Ok(body) => Ok(framed(id, body)),
        Err(reason) => Err(ErrorView::Unwritable { reason }),
    }
}

/// The configuration that runs the command `bin` of a tool. Without a version
/// it is the latest.
pub open spec fn tool_entries(tool: Seq<char>, version: Option<Seq<char>>, bin: Seq<char>) -> Seq<
    (Seq<char>, CommandValueView),
> {
    seq![
        ("tool"@, CommandValueView::Text(tool)),
        (
            "version"@,
            CommandValueView::Text(
                match version {
                    Some(text) => text,
                    None => "latest"@,
                },
            ),
        ),
        ("bin"@, CommandValueView::Text(bin)),
    ]
}

/// What the command `name` becomes when it is declared by a tool request with
/// these parts.
pub open spec fn request_rendering(
    id: Seq<char>,
    name: Seq<char>,
    request: Seq<char>,
    parts: RequestParts,
) -> Result<Seq<char>, ErrorView> {
    if parts.0.len() == 0 {
        Err(ErrorView::InvalidToolRequest { name, request })
    } else {
        rendering(id, tool_entries(parts.0, parts.1, name))
    }
}

/// `drafted` is the stub of the command `name` that is declared by `value`, before
/// it is checked. `split` gives the parts of a tool request.
pub open spec fn drafts<S: Fn(&String) -> (String, Option<String>)>(
    id: Seq<char>,
    name: Seq<char>,
    value: CommandValueView,
    split: S,
    drafted: Result<Seq<char>, ErrorView>,
) -> bool {
    match value {
        CommandValueView::Text(request) => exists|parts: RequestParts| #[trigger]
            splits(split, request, parts) && drafted == request_rendering(
                id,
                name,
                request,
                parts,
            ),
        CommandValueView::Table(table) => drafted == rendering(id, document::table_entries(table)),
        CommandValueView::Other(_) => drafted == Err::<Seq<char>, ErrorView>(
            ErrorView::NotToolOrTable { name },
        ),
    }
}

/// The check may answer with `answer` on the contents of a stub of a name.
pub open spec fn answers<F: Fn(&String, &String) -> Option<String>>(
    check: F,
    contents: Seq<char>,
    name: Seq<char>,
    answer: Option<Seq<char>>,
) -> bool {
    exists|written: String, called: String, said: Option<String>| #[trigger]
        call_ensures(check, (&written, &called), said) && written@ == contents && called@ == name
            && text::text_view(said) == answer
}

/// What becomes of a stub once the check has answered.
pub open spec fn checked(
    name: Seq<char>,
    contents: Seq<char>,
    answer: Option<Seq<char>>,
) -> Result<Seq<char>, ErrorView> {
    match answer {
        None => Ok(contents),
        Some(reason) => Err(ErrorView::RejectedStub { name, reason }),
    }
}

/// `rendered` is what becomes of the stub `drafted` of the command `name` when
/// `check` says what is wrong with it.
pub open spec fn passes<F: Fn(&String, &String) -> Option<String>>(
    name: Seq<char>,
    drafted: Result<Seq<char>, ErrorView>,
    check: F,
    rendered: Result<Seq<char>, ErrorView>,
) -> bool {
    match drafted {
        Ok(contents) => exists|answer: Option<Seq<char>>| #[trigger]
            answers(check, contents, name, answer) && rendered == checked(name, contents, answer),
        Err(_) => rendered == drafted,
    }
}

/// `rendered` is what the command `name` becomes when it is declared by `value`.
/// `split` gives the parts of a tool request, and `check` says what is wrong with
/// a stub.
pub open spec fn renders<
    S: Fn(&String) -> (String, Option<String>),
    F: Fn(&String, &String) -> Option<String>,
>(
    id: Seq<char>,
    name: Seq<char>,
    value: CommandValueView,
    split: S,
    check: F,
    rendered: Result<Seq<char>, ErrorView>,
) -> bool {
    exists|drafted: Result<Seq<char>, ErrorView>| #[trigger]
        drafts(id, name, value, split, drafted) && passes(name, drafted, check, rendered)
}

/// The text of a stub of the bundle `id` whose configuration is the document
/// `body`.
pub fn frame_stub(id: &str, body: &str) -> (stub: String)
    ensures
        stub@ == framed(id@, body@),
{
    let mut stub = "#!/usr/bin/env -S mise tool-stub\n".to_owned();
    stub.append(owner::MANAGED_MARKER_PREFIX);
    stub.append(id);
    stub.append("\n\n");
    stub.append(body);
    stub
}

/// Renders the stub of a command whose configuration is `table`.
pub fn render_table(id: &str, table: &toml::Table) -> (rendered: Result<String, StubError>)
    ensures
        result_view(rendered) == rendering(id@, document::table_entries(*table)),
{
    match document::table_to_string(table) {
        Ok(body) => Ok(frame_stub(id, body.as_str())),
        Err(reason) => Err(StubError::Unwritable { reason }),
    }
}

/// Renders the stub of the command `name` of a tool.
pub fn render_tool(id: &str, name: &str, tool: &str, version: Option<String>) -> (rendered: Result<
    String,
    StubError,
>)
    ensures
        result_view(rendered) == rendering(
            id@,
            tool_entries(tool@, text::text_view(version), name@),
        ),
{
    let chosen = match &version {
        Some(text) => text.clone(),
        None => "latest".to_owned(),
    };
    let ghost entries = tool_entries(tool@, text::text_view(version), name@);
    let mut table = document::new_table();
    document::insert_value(&mut table, "tool", &CommandValue::Text(tool.to_owned()));
    document::insert_value(&mut table, "version", &CommandValue::Text(chosen));
    document::insert_value(&mut table, "bin", &CommandValue::Text(name.to_owned()));
    proof {
        reveal_strlit("tool");
        reveal_strlit("version");
        reveal_strlit("bin");
        assert("tool"@.len() == 4 && "version"@.len() == 7 && "bin"@.len() == 3);
        let none = Seq::<(Seq<char>, CommandValueView)>::empty();
        document::lemma_put_new_entry(none, entries[0].0, entries[0].1);
        let one = none.push(entries[0]);
        document::lemma_put_new_entry(one, entries[1].0, entries[1].1);
        let two = one.push(entries[1]);
        document::lemma_put_new_entry(two, entries[2].0, entries[2].1);
        assert(document::table_entries(table) =~= entries);
    }
    render_table(id, &table)
}

/// Renders the stub of the command `name` that a tool request with these parts
/// declares.
pub fn render_request(
    id: &str,
    name: &str,
    request: &str,
    parts: (String, Option<String>),
) -> (rendered: Result<String, StubError>)
    ensures
        result_view(rendered) == request_rendering(id@, name@, request@, parts_view(parts)),
{
    let (tool, version) = parts;
    if tool.as_str().is_empty() {
        return Err(
            StubError::InvalidToolRequest { name: name.to_owned(), request: request.to_owned() },
        );
    }
    render_tool(id, name, tool.as_str(), version)
}

/// Writes the stub of the command `name` that a value of one of the known kinds
/// declares, for the bundle `id`, without checking it.
pub fn draft_value<S: Fn(&String) -> (String, Option<String>)>(
    id: &str,
    name: &str,
    value: &CommandValue,
    split: &S,
) -> (drafted: Result<String, StubError>)
    requires
        forall|request: &String| call_requires(*split, (request,)),
    ensures
        drafts(id@, name@, value@, *split, result_view(drafted)),
{
    match value {
        CommandValue::Text(request) => {
            let parts = split(request);
            assert(splits(*split, request@, parts_view(parts)));
            render_request(id, name, request.as_str(), parts)
        },
        CommandValue::Table(table) => render_table(id, table),
        CommandValue::Other(_) => Err(StubError::NotToolOrTable { name: name.to_owned() }),
    }
}

/// The contents of a stub of the command `name`, once the check has said what is
/// wrong with them, if anything.
pub fn checked_stub(name: &str, contents: String, answer: Option<String>) -> (rendered: Result<
    String,
    StubError,
>)
    ensures
        result_view(rendered) == checked(name@, contents@, text::text_view(answer)),
{
    match answer {
        None => Ok(contents),
        Some(reason) => Err(StubError::RejectedStub { name: name.to_owned(), reason }),
    }
}

/// Renders the stub of the command `name` that a value of one of the known kinds
/// declares, for the bundle `id`.
pub fn render_value<
    S: Fn(&String) -> (String, Option<String>),
    F: Fn(&String, &String) -> Option<String>,
>(id: &str, name: &str, value: &CommandValue, split: &S, check: &F) -> (rendered: Result<
    String,
    StubError,
>)
    requires
        forall|request: &String| call_requires(*split, (request,)),
        forall|contents: &String, called: &String| call_requires(*check, (contents, called)),
    ensures
        renders(id@, name@, value@, *split, *check, result_view(rendered)),
{
    let drafted = draft_value(id, name, value, split);
    let ghost draft = result_view(drafted);
    match drafted {
        Ok(contents) => {
            let answer = check(&contents, &name.to_owned());
            assert(answers(*check, contents@, name@, text::text_view(answer)));
            let rendered = checked_stub(name, contents, answer);
            assert(passes(name@, draft, *check, result_view(rendered)));
            rendered
        },
        Err(error) => {
            assert(passes(name@, draft, *check, draft));
            Err(error)
        },
    }
}

/// Renders the stub of the command `name` that `value` declares, for the bundle
/// `id`. `split` gives the tool and the version that a tool request asks for.
/// `check` says what is wrong with the contents of a stub of a name, if anything.
pub fn render_command<
    S: Fn(&String) -> (String, Option<String>),
    F: Fn(&String, &String) -> Option<String>,
>(id: &str, name: &str, value: toml::Value, split: S, check: F) -> (rendered: Result<
    String,
    StubError,
>)
    requires
        forall|request: &String| call_requires(split, (request,)),
        forall|contents: &String, called: &String| call_requires(check, (contents, called)),
    ensures
        renders(id@, name@, document::value_contents(value), split, check, result_view(rendered)),
{
    let found = document::command_value(value);
    render_value(id, name, &found, &split, &check)
}

/// An identifier that a marker line can hold: it does not end the line.
pub open spec fn fits_marker(id: Seq<char>) -> bool {
    &&& !id.contains('\n')
    &&& id.len() > 0 ==> id.last() != '\r'
}

/// Whatever a command is declared by, what it is rendered to is the text of a
/// stub of its bundle.
pub proof fn lemma_rendered_is_framed<
    S: Fn(&String) -> (String, Option<String>),
    F: Fn(&String, &String) -> Option<String>,
>(
    id: Seq<char>,
    name: Seq<char>,
    value: CommandValueView,
    split: S,
    check: F,
    contents: Seq<char>,
)
    requires
        renders(id, name, value, split, check, Ok::<Seq<char>, ErrorView>(contents)),
    ensures
        exists|body: Seq<char>| contents == #[trigger] framed(id, body),
{
    let drafted = choose|drafted: Result<Seq<char>, ErrorView>| #[trigger]
        drafts(id, name, value, split, drafted) && passes(
            name,
            drafted,
            check,
            Ok::<Seq<char>, ErrorView>(contents),
        );
    assert(drafted == Ok::<Seq<char>, ErrorView>(contents));
    let entries = match value {
        CommandValueView::Text(request) => {
            let parts = choose|parts: RequestParts| #[trigger]
                splits(split, request, parts) && Ok::<Seq<char>, ErrorView>(contents)
                    == request_rendering(id, name, request, parts);
            tool_entries(parts.0, parts.1, name)
        },
        CommandValueView::Table(table) => document::table_entries(table),
        CommandValueView::Other(_) => Seq::empty(),
    };
    assert(contents == framed(id, document::document_text(entries)->Ok_0));
}

/// The message of why a command cannot be rendered tells of no path.
pub proof fn lemma_cause_has_no_path<
    S: Fn(&String) -> (String, Option<String>),
    F: Fn(&String, &String) -> Option<String>,
>(
    id: Seq<char>,
    name: Seq<char>,
    value: CommandValueView,
    split: S,
    check: F,
    cause: ErrorView,
)
    requires
        renders(id, name, value, split, check, Err::<Seq<char>, ErrorView>(cause)),
    ensures
        cause.subjects().len() == 0,
{
}

/// A rendered stub names the bundle that it was rendered for as its owner.
pub proof fn law_rendered_owner(id: Seq<char>, body: Seq<char>)
    requires
        fits_marker(id),
    ensures
        owner::owner_in(framed(id, body)) == Some(id),
{
    let prefix = owner::MANAGED_MARKER_PREFIX@;
    let shebang = "#!/usr/bin/env -S mise tool-stub\n"@;
    let stub = framed(id, body);
    let marked = prefix + id + "\n\n"@ + body;
    reveal_strlit("#!/usr/bin/env -S mise tool-stub\n");
    reveal_strlit("# managed by mise tool-stubs bundle ");
    reveal_strlit("\n\n");
    assert(stub =~= shebang + marked);
    assert(forall|i: int| 0 <= i < 32 ==> shebang[i] != '\n');
    assert(forall|i: int| 0 <= i < prefix.len() ==> prefix[i] != '\n');
    assert forall|i: int| 0 <= i < 32 implies stub[i] != '\n' by {
        assert(stub[i] == shebang[i]);
    }
    assert(stub[32] == '\n');
    text::lemma_find_unique(stub, '\n', 32);
    assert(owner::after_first_line(stub) =~= marked);
    let first = owner::first_line(stub);
    assert(first[1] == '!');
    assert(prefix[1] == ' ');
    if prefix.is_prefix_of(first) {
        assert(first.subrange(0, prefix.len() as int)[1] == prefix[1]);
    }
    let end = prefix.len() + id.len();
    assert forall|i: int| 0 <= i < end implies marked[i] != '\n' by {
        if i < prefix.len() {
            assert(marked[i] == prefix[i]);
        } else {
            assert(marked[i] == id[i - prefix.len()]);
        }
    }
    assert(marked[end as int] == '\n');
    text::lemma_find_unique(marked, '\n', end as int);
    assert(marked.take(end as int) =~= prefix + id);
    assert(owner::first_line(marked) =~= prefix + id);
    assert((prefix + id).subrange(0, prefix.len() as int) =~= prefix);
    assert((prefix + id).skip(prefix.len() as int) =~= id);
    reveal_with_fuel(owner::owner_in, 2);
}

/// A command name is accepted exactly if it is a single component of a path that
/// does not start like the bundle's own temporary files. The empty name is told
/// apart from the others.
pub proof fn law_accepted_names(name: Seq<char>)
    ensures
        name_error(name) is None <==> {
            &&& paths::components(name) == seq![ComponentView::Normal(name)]
            &&& !".mise-tool-stubs-"@.is_prefix_of(name)
        },
        name_error(name) == Some(ErrorView::EmptyName) <==> name.len() == 0,
        name_error(name) matches Some(error) ==> error is EmptyName || error
            == (ErrorView::InvalidName { name }),
{
    law_valid_name_is_one_component(name);
    text::lemma_find(name, '/');
    if paths::is_plain_name(name) {
        paths::lemma_plain_name_components(name);
    } else if paths::components(name) == seq![ComponentView::Normal(name)] {
        assert(paths::components(name)[0] == ComponentView::Normal(name));
        lemma_component_has_no_separator(name, name);
        assert(paths::segment_components(name) == paths::segment_component(name));
        assert(name.take(name.len() as int) =~= name);
        if name == seq!['.', '.'] {
            assert(paths::segment_component(name) == seq![ComponentView::Parent]);
            assert(paths::components(name).last() == ComponentView::Parent);
        }
    }
}

/// A recorded place is accepted exactly if the name is, and the place is that of
/// the name in the directory.
pub proof fn law_accepted_places(into: Seq<char>, name: Seq<char>, path: Seq<char>)
    ensures
        managed_path_error(into, name, path) is None <==> {
            &&& name_error(name) is None
            &&& paths::components(path) == paths::components(paths::joined(into, name))
        },
        name_error(name) is Some ==> managed_path_error(into, name, path) == name_error(name),
        name_error(name) is None && managed_path_error(into, name, path) is Some
            ==> managed_path_error(into, name, path) == Some(
            ErrorView::InvalidManagedPath { path },
        ),
{
}

/// A tool request without a tool is refused. Otherwise the stub runs the tool, in
/// the version that is asked for or else the latest, under the name of the
/// command.
pub proof fn law_rendered_request(
    id: Seq<char>,
    name: Seq<char>,
    request: Seq<char>,
    tool: Seq<char>,
    version: Option<Seq<char>>,
)
    ensures
        tool.len() == 0 ==> request_rendering(id, name, request, (tool, version)) == Err::<
            Seq<char>,
            ErrorView,
        >(ErrorView::InvalidToolRequest { name, request }),
        tool.len() > 0 ==> {
            let entries = seq![
                ("tool"@, CommandValueView::Text(tool)),
                (
                    "version"@,
                    CommandValueView::Text(
                        if version is Some {
                            version->0
                        } else {
                            "latest"@
                        },
                    ),
                ),
                ("bin"@, CommandValueView::Text(name)),
            ];
            match request_rendering(id, name, request, (tool, version)) {
                Ok(contents) => document::document_text(entries) matches Ok(body) && contents
                    == "#!/usr/bin/env -S mise tool-stub\n# managed by mise tool-stubs bundle "@
                    + id + "\n\n"@ + body,
                Err(error) => document::document_text(entries) matches Err(reason) && error
                    == (ErrorView::Unwritable { reason }),
            }
        },
{
    reveal_strlit("#!/usr/bin/env -S mise tool-stub\n# managed by mise tool-stubs bundle ");
    reveal_strlit("#!/usr/bin/env -S mise tool-stub\n");
    reveal_strlit("# managed by mise tool-stubs bundle ");
    assert("#!/usr/bin/env -S mise tool-stub\n# managed by mise tool-stubs bundle "@
        =~= "#!/usr/bin/env -S mise tool-stub\n"@ + "# managed by mise tool-stubs bundle "@);
    if tool.len() > 0 {
        let entries = tool_entries(tool, version, name);
        assert(entries =~= seq![
            ("tool"@, CommandValueView::Text(tool)),
            (
                "version"@,
                CommandValueView::Text(
                    if version is Some {
                        version->0
                    } else {
                        "latest"@
                    },
                ),
            ),
            ("bin"@, CommandValueView::Text(name)),
        ]);
        assert forall|body: Seq<char>| #[trigger] framed(id, body)
            == "#!/usr/bin/env -S mise tool-stub\n# managed by mise tool-stubs bundle "@ + id
            + "\n\n"@ + body by {}
    }
}

/// A command that is declared by a table becomes a stub of just that table, one
/// declared by a string becomes the stub of the tool request, and any other is
/// refused.
pub proof fn law_drafted_values<S: Fn(&String) -> (String, Option<String>)>(
    id: Seq<char>,
    name: Seq<char>,
    value: CommandValueView,
    split: S,
    drafted: Result<Seq<char>, ErrorView>,
)
    requires
        drafts(id, name, value, split, drafted),
    ensures
        value matches CommandValueView::Table(table) ==> match drafted {
            Ok(contents) => document::document_text(document::table_entries(table)) matches Ok(body)
                && contents == framed(id, body),
            Err(error) => document::document_text(
                document::table_entries(table),
            ) matches Err(reason) && error == (ErrorView::Unwritable { reason }),
        },
        value matches CommandValueView::Text(request) ==> exists|parts: RequestParts| #[trigger]
            splits(split, request, parts) && drafted == request_rendering(
                id,
                name,
                request,
                parts,
            ),
        value is Other ==> drafted == Err::<Seq<char>, ErrorView>(
            ErrorView::NotToolOrTable { name },
        ),
{
}

/// A stub is rendered exactly as it is written, and only where the check has
/// nothing against it.
pub proof fn law_rendered_stub_is_checked<
    S: Fn(&String) -> (String, Option<String>),
    F: Fn(&String, &String) -> Option<String>,
>(
    id: Seq<char>,
    name: Seq<char>,
    value: CommandValueView,
    split: S,
    check: F,
    rendered: Result<Seq<char>, ErrorView>,
)
    requires
        renders(id, name, value, split, check, rendered),
    ensures
        rendered matches Ok(contents) ==> {
            &&& drafts(id, name, value, split, Ok::<Seq<char>, ErrorView>(contents))
            &&& answers(check, contents, name, None)
        },
        rendered matches Err(error) ==> {
            ||| drafts(id, name, value, split, Err::<Seq<char>, ErrorView>(error))
            ||| exists|contents: Seq<char>, reason: Seq<char>|
                {
                    &&& drafts(id, name, value, split, Ok::<Seq<char>, ErrorView>(contents))
                    &&& #[trigger] answers(check, contents, name, Some(reason))
                    &&& error == (ErrorView::RejectedStub { name, reason })
                }
        },
{
    let drafted = choose|drafted: Result<Seq<char>, ErrorView>| #[trigger]
        drafts(id, name, value, split, drafted) && passes(name, drafted, check, rendered);
    if let Ok(contents) = drafted {
        let answer = choose|answer: Option<Seq<char>>| #[trigger]
            answers(check, contents, name, answer) && rendered == checked(name, contents, answer);
        if let Some(reason) = answer {
            assert(answers(check, contents, name, Some(reason)));
        }
    }
}

/// A tool request is split as it was declared, and its parts are what the split
/// gave.
pub proof fn law_split_sees_the_request<S: Fn(&String) -> (String, Option<String>)>(
    split: S,
    request: Seq<char>,
    tool: Seq<char>,
    version: Option<Seq<char>>,
)
    requires
        splits(split, request, (tool, version)),
    ensures
        exists|asked: String, given: (String, Option<String>)|
            {
                &&& #[trigger] call_ensures(split, (&asked,), given)
                &&& asked@ == request
                &&& given.0@ == tool
                &&& given.1 is Some <==> version is Some
                &&& version is Some ==> given.1->0@ == version->0
            },
{
    let (asked, given) = choose|asked: String, given: (String, Option<String>)| #[trigger]
        call_ensures(split, (&asked,), given) && asked@ == request && parts_view(given) == (
            tool,
            version,
        );
    assert(parts_view(given).0 == tool);
    assert(parts_view(given).1 == version);
}

/// The check sees the whole contents of the stub and the name of its command, and
/// has nothing against it exactly if it says nothing.
pub proof fn law_check_sees_the_stub<F: Fn(&String, &String) -> Option<String>>(
    check: F,
    contents: Seq<char>,
    name: Seq<char>,
    answer: Option<Seq<char>>,
)
    requires
        answers(check, contents, name, answer),
    ensures
        exists|written: String, called: String, said: Option<String>|
            {
                &&& #[trigger] call_ensures(check, (&written, &called), said)
                &&& written@ == contents
                &&& called@ == name
                &&& said is Some <==> answer is Some
                &&& answer is Some ==> said->0@ == answer->0
            },
{
    let (written, called, said) = choose|written: String, called: String, said: Option<String>|
     #[trigger]
        call_ensures(check, (&written, &called), said) && written@ == contents && called@ == name
            && text::text_view(said) == answer;
    assert(text::text_view(said) == answer);
}

} // verus!
