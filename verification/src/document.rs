//! TOML values, tables, and the documents that they are written to.
use vstd::prelude::*;

verus! {

/// A TOML table of the `toml` crate, carried as it is.
#[verifier::external_type_specification]
#[verifier::external_body]
#[verifier::reject_recursive_types(K)]
#[verifier::reject_recursive_types(V)]
pub struct ExTomlMap<K, V>(toml::map::Map<K, V>);

/// A TOML value of the `toml` crate, carried as it is.
#[verifier::external_type_specification]
#[verifier::external_body]
pub struct ExTomlValue(toml::Value);

/// A TOML value that is neither a string nor a table. Only [`command_value`]
/// makes one.
#[derive(Debug)]
pub struct OtherValue {
    value: toml::Value,
}

impl View for OtherValue {
    type V = toml::Value;

    closed spec fn view(&self) -> toml::Value {
        self.value
    }
}

/// The value that a command is declared with.
#[derive(Debug)]
pub enum CommandValue {
    /// A string, which requests a tool and a version of it.
    Text(String),
    /// A table with the fields of a tool stub.
    Table(toml::Table),
    /// A value of any other TOML type.
    Other(OtherValue),
}

/// The model of a [`CommandValue`].
pub enum CommandValueView {
    Text(Seq<char>),
    Table(toml::Table),
    Other(toml::Value),
}

impl View for CommandValue {
    type V = CommandValueView;

    open spec fn view(&self) -> CommandValueView {
        match self {
            CommandValue::Text(request) => CommandValueView::Text(request@),
            CommandValue::Table(table) => CommandValueView::Table(*table),
            CommandValue::Other(other) => CommandValueView::Other(other@),
        }
    }
}

/// What a TOML value holds: a string, a table, or a value of another type.
pub uninterp spec fn value_contents(value: toml::Value) -> CommandValueView;

/// The variants of `toml::Value`, told apart. The contract claims that what
/// comes out is what the value holds, and that a value which is neither a string
/// nor a table comes out as it is.
#[verifier::external_body]
fn tell_apart(value: toml::Value) -> (found: CommandValue)
    ensures
        found@ == value_contents(value),
        found@ matches CommandValueView::Other(other) ==> other == value,
{
    match value {
        toml::Value::String(text) => CommandValue::Text(text),
        toml::Value::Table(table) => CommandValue::Table(table),
        toml::Value::Integer(_) => CommandValue::Other(OtherValue { value }),
        toml::Value::Float(_) => CommandValue::Other(OtherValue { value }),
        toml::Value::Boolean(_) => CommandValue::Other(OtherValue { value }),
        toml::Value::Datetime(_) => CommandValue::Other(OtherValue { value }),
        toml::Value::Array(_) => CommandValue::Other(OtherValue { value }),
    }
}

/// The value that a command is declared with.
pub fn command_value(value: toml::Value) -> (found: CommandValue)
    ensures
        found@ == value_contents(value),
        found@ matches CommandValueView::Other(other) ==> other == value,
{
    tell_apart(value)
}

/// What a table holds: its keys with their values, in the order of insertion.
pub uninterp spec fn table_entries(table: toml::Table) -> Seq<(Seq<char>, CommandValueView)>;

/// The document that `toml::to_string` writes for a table that holds these
/// entries, or the text of its error where it fails.
pub uninterp spec fn document_text(entries: Seq<(Seq<char>, CommandValueView)>) -> Result<
    Seq<char>,
    Seq<char>,
>;

/// The entries with `value` under `key`: in place of the value that is there,
/// or as a new entry at the end.
pub open spec fn put_entry<T>(entries: Seq<(Seq<char>, T)>, key: Seq<char>, value: T) -> Seq<
    (Seq<char>, T),
>
    decreases entries.len(),
{
    if entries.len() == 0 {
        seq![(key, value)]
    } else if entries[0].0 == key {
        entries.update(0, (key, value))
    } else {
        seq![entries[0]] + put_entry(entries.drop_first(), key, value)
    }
}

/// No two entries have the same key.
pub open spec fn keys_distinct<T>(entries: Seq<(Seq<char>, T)>) -> bool {
    forall|i: int, j: int|
        0 <= i < j < entries.len() ==> (#[trigger] entries[i]).0 != (#[trigger] entries[j]).0
}

/// A key that is not there yet is put at the end.
pub proof fn lemma_put_new_entry<T>(entries: Seq<(Seq<char>, T)>, key: Seq<char>, value: T)
    requires
        forall|i: int| 0 <= i < entries.len() ==> (#[trigger] entries[i]).0 != key,
    ensures
        put_entry(entries, key, value) == entries.push((key, value)),
    decreases entries.len(),
{
    if entries.len() > 0 {
        let rest = entries.drop_first();
        assert forall|i: int| 0 <= i < rest.len() implies (#[trigger] rest[i]).0 != key by {
            assert(rest[i] == entries[i + 1]);
        }
        lemma_put_new_entry(rest, key, value);
        assert(seq![entries[0]] + rest.push((key, value)) =~= entries.push((key, value)));
    } else {
        assert(entries.push((key, value)) =~= seq![(key, value)]);
    }
}

/// A key that is there keeps its place.
pub proof fn lemma_put_known_entry<T>(
    entries: Seq<(Seq<char>, T)>,
    at: int,
    key: Seq<char>,
    value: T,
)
    requires
        0 <= at < entries.len(),
        entries[at].0 == key,
        forall|i: int| 0 <= i < at ==> (#[trigger] entries[i]).0 != key,
    ensures
        put_entry(entries, key, value) == entries.update(at, (key, value)),
    decreases entries.len(),
{
    if at > 0 {
        let rest = entries.drop_first();
        assert forall|i: int| 0 <= i < at - 1 implies (#[trigger] rest[i]).0 != key by {
            assert(rest[i] == entries[i + 1]);
        }
        lemma_put_known_entry(rest, at - 1, key, value);
        assert(seq![entries[0]] + rest.update(at - 1, (key, value)) =~= entries.update(
            at,
            (key, value),
        ));
    }
}

/// The place of the first entry with this key, or the number of entries.
pub open spec fn first_with_key<T>(entries: Seq<(Seq<char>, T)>, key: Seq<char>) -> int
    decreases entries.len(),
{
    if entries.len() == 0 || entries[0].0 == key {
        0
    } else {
        1 + first_with_key(entries.drop_first(), key)
    }
}

/// Before the first entry with a key, no entry has it.
pub proof fn lemma_first_with_key<T>(entries: Seq<(Seq<char>, T)>, key: Seq<char>)
    ensures
        0 <= first_with_key(entries, key) <= entries.len(),
        first_with_key(entries, key) < entries.len() ==> entries[first_with_key(entries, key)].0
            == key,
        forall|i: int|
            0 <= i < first_with_key(entries, key) ==> (#[trigger] entries[i]).0 != key,
    decreases entries.len(),
{
    if entries.len() > 0 && entries[0].0 != key {
        let rest = entries.drop_first();
        lemma_first_with_key(rest, key);
        assert forall|i: int| 0 <= i < first_with_key(entries, key) implies (
        #[trigger] entries[i]).0 != key by {
            if i > 0 {
                assert(rest[i - 1] == entries[i]);
            }
        }
    }
}

/// Putting an entry keeps the keys distinct, gives the value under the key, and
/// leaves all other keys with their values.
pub proof fn law_put_entry<T>(
    entries: Seq<(Seq<char>, T)>,
    key: Seq<char>,
    value: T,
    other: Seq<char>,
)
    requires
        keys_distinct(entries),
    ensures
        keys_distinct(put_entry(entries, key, value)),
        crate::name_map::has_name(put_entry(entries, key, value), key),
        crate::name_map::lookup(put_entry(entries, key, value), key) == Some(value),
        other != key ==> crate::name_map::lookup(put_entry(entries, key, value), other)
            == crate::name_map::lookup(entries, other),
{
    let after = put_entry(entries, key, value);
    let at = first_with_key(entries, key);
    lemma_first_with_key(entries, key);
    if at < entries.len() {
        lemma_put_known_entry(entries, at, key, value);
    } else {
        lemma_put_new_entry(entries, key, value);
    }
    assert(after[at] == (key, value));
    assert(forall|i: int| 0 <= i < entries.len() && i != at ==> after[i] == entries[i]);
    assert(keys_distinct(after));
    assert(crate::name_map::has_name(after, key));
    let found = choose|i: int| 0 <= i < after.len() && (#[trigger] after[i]).0 == key;
    assert(found == at);
    if other != key {
        if crate::name_map::has_name(entries, other) {
            let i = choose|i: int| 0 <= i < entries.len() && (#[trigger] entries[i]).0 == other;
            assert(after[i].0 == other);
            let j = choose|j: int| 0 <= j < after.len() && (#[trigger] after[j]).0 == other;
            assert(i == j);
        } else if crate::name_map::has_name(after, other) {
            let j = choose|j: int| 0 <= j < after.len() && (#[trigger] after[j]).0 == other;
            assert(j != at);
            assert(entries[j].0 == other);
        }
    }
}

/// `toml::Table::new`. The contract claims that the table holds nothing.
#[verifier::external_body]
pub(crate) fn new_table() -> (table: toml::Table)
    ensures
        table_entries(table) == Seq::<(Seq<char>, CommandValueView)>::empty(),
{
    toml::Table::new()
}

/// `toml::Table::insert`, with the insertion order kept. The contract claims
/// that a key that is there keeps its place and gets the value, and that any
/// other key is put at the end.
#[verifier::external_body]
pub(crate) fn insert_value(table: &mut toml::Table, key: &str, value: &CommandValue)
    ensures
        table_entries(*final(table)) == put_entry(table_entries(*old(table)), key@, value@),
{
    let item = match value {
        CommandValue::Text(text) => toml::Value::String(text.clone()),
        CommandValue::Table(inner) => toml::Value::Table(inner.clone()),
        CommandValue::Other(other) => other.value.clone(),
    };
    table.insert(key.to_owned(), item);
}

/// `toml::to_string`, with its error as text. The contract claims that what it
/// writes, or how it fails, depends on the entries of the table alone.
#[verifier::external_body]
pub(crate) fn table_to_string(table: &toml::Table) -> (written: Result<String, String>)
    ensures
        match written {
            Ok(document) => document_text(table_entries(*table)) == Ok::<Seq<char>, Seq<char>>(
                document@,
            ),
            Err(reason) => document_text(table_entries(*table)) == Err::<Seq<char>, Seq<char>>(
                reason@,
            ),
        },
{
    toml::to_string(table).map_err(|error| error.to_string())
}

} // verus!
