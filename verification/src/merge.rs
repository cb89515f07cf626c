//! Commands collected from several configuration files, each name once, in the
//! order in which the names first came.
use vstd::prelude::*;
use crate::command_spec::CommandSpec;
use crate::command_spec::CommandSpecView;
use crate::document;

verus! {

/// An insertion-ordered map of the `indexmap` crate.
#[verifier::external_type_specification]
#[verifier::external_body]
#[verifier::reject_recursive_types(K)]
#[verifier::reject_recursive_types(V)]
#[verifier::reject_recursive_types(S)]
pub struct ExIndexMap<K, V, S>(indexmap::IndexMap<K, V, S>);

/// What a map holds: its names with their commands, in its order.
pub uninterp spec fn merged_entries(map: indexmap::IndexMap<String, CommandSpec>) -> Seq<
    (Seq<char>, CommandSpecView),
>;

/// `indexmap::IndexMap::new`. The contract claims that the map holds nothing.
#[verifier::external_body]
pub(crate) fn new_merge() -> (map: indexmap::IndexMap<String, CommandSpec>)
    ensures
        merged_entries(map) == Seq::<(Seq<char>, CommandSpecView)>::empty(),
{
    indexmap::IndexMap::new()
}

/// `indexmap::IndexMap::insert`. The contract claims that a name that is there
/// keeps its place and gets the command, and that any other name is put at the
/// end.
#[verifier::external_body]
pub(crate) fn merge_command(
    map: &mut indexmap::IndexMap<String, CommandSpec>,
    name: String,
    command: CommandSpec,
)
    ensures
        merged_entries(*final(map)) == document::put_entry(
            merged_entries(*old(map)),
            name@,
            command@,
        ),
{
    map.insert(name, command);
}

/// `indexmap::IndexMap::into_values`. The contract claims that the commands
/// come out in the order of the map.
#[verifier::external_body]
pub(crate) fn merged_commands(map: indexmap::IndexMap<String, CommandSpec>) -> (commands: Vec<
    CommandSpec,
>)
    ensures
        commands@.len() == merged_entries(map).len(),
        forall|i: int|
            0 <= i < commands@.len() ==> (#[trigger] commands@[i])@ == merged_entries(map)[i].1,
{
    map.into_values().collect()
}

} // verus!
