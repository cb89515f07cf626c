//! A map from names to values, kept in the order of the names.
use vstd::prelude::*;
use crate::text;

verus! {

/// The entries come in strictly increasing order of their names.
pub open spec fn names_sorted<T>(entries: Seq<(Seq<char>, T)>) -> bool {
    forall|i: int, j: int|
        0 <= i < j < entries.len() ==> text::text_lt(
            (#[trigger] entries[i]).0,
            (#[trigger] entries[j]).0,
        )
}

/// Whether one of the entries has this name.
pub open spec fn has_name<T>(entries: Seq<(Seq<char>, T)>, name: Seq<char>) -> bool {
    exists|i: int| 0 <= i < entries.len() && (#[trigger] entries[i]).0 == name
}

/// The value under `name`.
pub open spec fn lookup<T>(entries: Seq<(Seq<char>, T)>, name: Seq<char>) -> Option<T> {
    if has_name(entries, name) {
        let at = choose|i: int| 0 <= i < entries.len() && (#[trigger] entries[i]).0 == name;
        Some(entries[at].1)
    } else {
        None
    }
}

/// The number of entries at the front whose names come before `name`.
pub open spec fn rank<T>(entries: Seq<(Seq<char>, T)>, name: Seq<char>) -> int
    decreases entries.len(),
{
    if entries.len() > 0 && text::text_lt(entries[0].0, name) {
        1 + rank(entries.drop_first(), name)
    } else {
        0
    }
}

/// The entries with `value` under `name`: in place of the value that is there,
/// or as a new entry at its place in the order.
pub open spec fn with_name<T>(entries: Seq<(Seq<char>, T)>, name: Seq<char>, value: T) -> Seq<
    (Seq<char>, T),
> {
    let at = rank(entries, name);
    if at < entries.len() && entries[at].0 == name {
        entries.update(at, (name, value))
    } else {
        entries.insert(at, (name, value))
    }
}

/// `rank` splits the entries into those before `name` and the rest.
pub proof fn lemma_rank<T>(entries: Seq<(Seq<char>, T)>, name: Seq<char>)
    requires
        names_sorted(entries),
    ensures
        0 <= rank(entries, name) <= entries.len(),
        forall|i: int| 0 <= i < rank(entries, name) ==> text::text_lt((#[trigger] entries[i]).0, name),
        forall|i: int|
            rank(entries, name) <= i < entries.len() ==> !text::text_lt(
                (#[trigger] entries[i]).0,
                name,
            ),
    decreases entries.len(),
{
    if entries.len() > 0 {
        let rest = entries.drop_first();
        assert(forall|i: int| 0 <= i < rest.len() ==> rest[i] == entries[i + 1]);
        assert(names_sorted(rest));
        if text::text_lt(entries[0].0, name) {
            lemma_rank(rest, name);
            assert forall|i: int| 0 <= i < rank(entries, name) implies text::text_lt(
                (#[trigger] entries[i]).0,
                name,
            ) by {
                if i > 0 {
                    assert(entries[i] == rest[i - 1]);
                }
            }
            assert forall|i: int| rank(entries, name) <= i < entries.len() implies !text::text_lt(
                (#[trigger] entries[i]).0,
                name,
            ) by {
                assert(entries[i] == rest[i - 1]);
            }
        } else {
            assert forall|i: int| 0 <= i < entries.len() implies !text::text_lt(
                (#[trigger] entries[i]).0,
                name,
            ) by {
                if i > 0 && text::text_lt(entries[i].0, name) {
                    text::lemma_text_lt_transitive(entries[0].0, entries[i].0, name);
                }
            }
        }
    }
}

/// A split of sorted entries at `name` is the one that `rank` gives.
pub proof fn lemma_rank_unique<T>(entries: Seq<(Seq<char>, T)>, name: Seq<char>, at: int)
    requires
        names_sorted(entries),
        0 <= at <= entries.len(),
        at > 0 ==> text::text_lt(entries[at - 1].0, name),
        at < entries.len() ==> !text::text_lt(entries[at].0, name),
    ensures
        rank(entries, name) == at,
{
    lemma_rank(entries, name);
}

/// In sorted entries each name has one place.
pub proof fn lemma_names_distinct<T>(entries: Seq<(Seq<char>, T)>)
    requires
        names_sorted(entries),
    ensures
        forall|i: int, j: int|
            0 <= i < entries.len() && 0 <= j < entries.len() && (#[trigger] entries[i]).0 == (
            #[trigger] entries[j]).0 ==> i == j,
{
    assert forall|i: int, j: int|
        0 <= i < entries.len() && 0 <= j < entries.len() && (#[trigger] entries[i]).0 == (
        #[trigger] entries[j]).0 implies i == j by {
        if i != j {
            text::lemma_text_lt_irreflexive(entries[i].0);
        }
    }
}

/// Looking up the name of a sorted entry gives its value.
pub proof fn lemma_lookup_at<T>(entries: Seq<(Seq<char>, T)>, i: int)
    requires
        names_sorted(entries),
        0 <= i < entries.len(),
    ensures
        has_name(entries, entries[i].0),
        lookup(entries, entries[i].0) == Some(entries[i].1),
{
    lemma_names_distinct(entries);
    let name = entries[i].0;
    assert(has_name(entries, name));
    let at = choose|j: int| 0 <= j < entries.len() && (#[trigger] entries[j]).0 == name;
    assert(entries[at].0 == entries[i].0);
}

/// A name that sorted entries hold stands at its rank.
pub proof fn lemma_rank_of_name<T>(entries: Seq<(Seq<char>, T)>, i: int)
    requires
        names_sorted(entries),
        0 <= i < entries.len(),
    ensures
        rank(entries, entries[i].0) == i,
{
    text::lemma_text_lt_irreflexive(entries[i].0);
    lemma_rank_unique(entries, entries[i].0, i);
}

/// Sorted entries without the last hold all other names, and the same values.
pub proof fn lemma_drop_last_name<T>(entries: Seq<(Seq<char>, T)>, name: Seq<char>)
    requires
        names_sorted(entries),
        entries.len() > 0,
    ensures
        names_sorted(entries.drop_last()),
        !has_name(entries.drop_last(), entries.last().0),
        has_name(entries, name) == (name == entries.last().0 || has_name(
            entries.drop_last(),
            name,
        )),
        lookup(entries, name) == (if name == entries.last().0 {
            Some(entries.last().1)
        } else {
            lookup(entries.drop_last(), name)
        }),
{
    let rest = entries.drop_last();
    let last = entries.len() - 1;
    assert forall|i: int, j: int| 0 <= i < j < rest.len() implies text::text_lt(
        (#[trigger] rest[i]).0,
        (#[trigger] rest[j]).0,
    ) by {
        assert(entries[i] == rest[i] && entries[j] == rest[j]);
    }
    lemma_names_distinct(entries);
    lemma_lookup_at(entries, last);
    if has_name(rest, entries[last].0) {
        let i = choose|i: int| 0 <= i < rest.len() && (#[trigger] rest[i]).0 == entries[last].0;
        assert(entries[i] == rest[i]);
    }
    if name != entries[last].0 {
        if has_name(entries, name) {
            let i = choose|i: int| 0 <= i < entries.len() && (#[trigger] entries[i]).0 == name;
            assert(rest[i] == entries[i]);
            lemma_lookup_at(entries, i);
            lemma_lookup_at(rest, i);
        } else if has_name(rest, name) {
            let i = choose|i: int| 0 <= i < rest.len() && (#[trigger] rest[i]).0 == name;
            assert(entries[i] == rest[i]);
        }
    }
}

/// Putting a value under a name keeps the order, gives that value under that
/// name, and leaves every other name as it was.
pub proof fn law_with_name<T>(
    entries: Seq<(Seq<char>, T)>,
    name: Seq<char>,
    value: T,
    other: Seq<char>,
)
    requires
        names_sorted(entries),
    ensures
        names_sorted(with_name(entries, name, value)),
        lookup(with_name(entries, name, value), name) == Some(value),
        other != name ==> lookup(with_name(entries, name, value), other) == lookup(entries, other),
{
    let at = rank(entries, name);
    let after = with_name(entries, name, value);
    lemma_rank(entries, name);
    if at < entries.len() && entries[at].0 == name {
        assert(names_sorted(after));
        lemma_lookup_at(after, at);
    } else {
        assert(forall|i: int| 0 <= i < at ==> after[i] == entries[i]);
        assert(after[at] == (name, value));
        assert(forall|i: int| at < i < after.len() ==> after[i] == entries[i - 1]);
        assert forall|i: int, j: int| 0 <= i < j < after.len() implies text::text_lt(
            (#[trigger] after[i]).0,
            (#[trigger] after[j]).0,
        ) by {
            if i == at {
                text::lemma_text_lt_total(entries[j - 1].0, name);
                if entries[j - 1].0 == name && j - 1 != at {
                    assert(text::text_lt(entries[at].0, entries[j - 1].0));
                }
            } else if i < at && j > at {
                assert(text::text_lt(entries[i].0, entries[j - 1].0));
            } else if i > at {
                assert(text::text_lt(entries[i - 1].0, entries[j - 1].0));
            }
        }
        lemma_lookup_at(after, at);
    }
    if other != name {
        if has_name(entries, other) {
            let i = choose|i: int| 0 <= i < entries.len() && (#[trigger] entries[i]).0 == other;
            lemma_lookup_at(entries, i);
            if at < entries.len() && entries[at].0 == name {
                assert(after[i] == entries[i]);
                lemma_lookup_at(after, i);
            } else if i < at {
                assert(after[i] == entries[i]);
                lemma_lookup_at(after, i);
            } else {
                assert(after[i + 1] == entries[i]);
                lemma_lookup_at(after, i + 1);
            }
        } else if has_name(after, other) {
            let i = choose|i: int| 0 <= i < after.len() && (#[trigger] after[i]).0 == other;
            assert(i != at);
            if at < entries.len() && entries[at].0 == name {
                assert(after[i] == entries[i]);
            } else if i < at {
                assert(after[i] == entries[i]);
            } else {
                assert(after[i] == entries[i - 1]);
            }
            assert(false);
        }
    }
}

/// Adding an entry after all others in the order appends it.
pub proof fn lemma_with_last_name<T>(
    entries: Seq<(Seq<char>, T)>,
    name: Seq<char>,
    value: T,
)
    requires
        names_sorted(entries.push((name, value))),
    ensures
        with_name(entries, name, value) == entries.push((name, value)),
{
    let after = entries.push((name, value));
    assert forall|i: int, j: int| 0 <= i < j < entries.len() implies text::text_lt(
        (#[trigger] entries[i]).0,
        (#[trigger] entries[j]).0,
    ) by {
        assert(after[i] == entries[i] && after[j] == entries[j]);
    }
    if entries.len() > 0 {
        let last = entries.len() - 1;
        assert(after[last] == entries[last]);
        assert(after[last + 1] == (name, value));
    }
    lemma_rank_unique(entries, name, entries.len() as int);
    assert(entries.insert(entries.len() as int, (name, value)) =~= after);
}

/// The views of the entries of a [`NameMap`].
pub open spec fn entry_views<V: View>(entries: Seq<(String, V)>) -> Seq<(Seq<char>, V::V)> {
    Seq::new(entries.len(), |i: int| (entries[i].0@, entries[i].1@))
}

/// A map from names to values, kept in the order of the names.
///
/// Its view is the sequence of its entries, in that order.
#[derive(Debug)]
pub struct NameMap<V: View> {
    entries: Vec<(String, V)>,
}

impl<V: View> View for NameMap<V> {
    type V = Seq<(Seq<char>, V::V)>;

    closed spec fn view(&self) -> Seq<(Seq<char>, V::V)> {
        entry_views(self.entries@)
    }
}

impl<V: View> NameMap<V> {
    #[verifier::type_invariant]
    spec fn sorted(self) -> bool {
        names_sorted(entry_views(self.entries@))
    }

    /// A map without entries.
    pub fn new() -> (map: Self)
        ensures
            map@ == Seq::<(Seq<char>, V::V)>::empty(),
    {
        let map = NameMap { entries: Vec::new() };
        assert(map@ =~= Seq::empty());
        map
    }

    /// The number of entries.
    pub fn len(&self) -> (count: usize)
        ensures
            count == self@.len(),
            names_sorted(self@),
    {
        proof {
            use_type_invariant(self);
        }
        self.entries.len()
    }

    /// The name of the entry at `index`.
    pub fn name_at(&self, index: usize) -> (name: &String)
        requires
            index < self@.len(),
        ensures
            name@ == self@[index as int].0,
    {
        &self.entries[index].0
    }

    /// The value of the entry at `index`.
    pub fn value_at(&self, index: usize) -> (value: &V)
        requires
            index < self@.len(),
        ensures
            value@ == self@[index as int].1,
    {
        &self.entries[index].1
    }

    /// The number of entries whose names come before `name`.
    fn rank_of(&self, name: &str) -> (at: usize)
        ensures
            at == rank(self@, name@),
            at <= self@.len(),
            names_sorted(self@),
    {
        proof {
            use_type_invariant(self);
        }
        let mut at: usize = 0;
        while at < self.entries.len() && text::text_less(self.entries[at].0.as_str(), name)
            invariant
                names_sorted(self@),
                self@ == entry_views(self.entries@),
                at <= self@.len(),
                at > 0 ==> text::text_lt(self@[at - 1].0, name@),
            decreases self@.len() - at,
        {
            at += 1;
        }
        proof {
            lemma_rank_unique(self@, name@, at as int);
        }
        at
    }

    /// Where `name` stands.
    pub fn position(&self, name: &str) -> (found: Option<usize>)
        ensures
            names_sorted(self@),
            match found {
                Some(at) => at < self@.len() && self@[at as int].0 == name@ && has_name(self@, name@)
                    && lookup(self@, name@) == Some(self@[at as int].1),
                None => !has_name(self@, name@) && lookup(self@, name@) is None,
            },
    {
        let at = self.rank_of(name);
        if at < self.entries.len() && text::text_eq(self.entries[at].0.as_str(), name) {
            proof {
                lemma_lookup_at(self@, at as int);
            }
            Some(at)
        } else {
            proof {
                if has_name(self@, name@) {
                    let i = choose|i: int|
                        0 <= i < self@.len() && (#[trigger] self@[i]).0 == name@;
                    lemma_rank_of_name(self@, i);
                }
            }
            None
        }
    }

    /// Whether the map has an entry under `name`.
    pub fn contains(&self, name: &str) -> (found: bool)
        ensures
            found == has_name(self@, name@),
    {
        self.position(name).is_some()
    }

    /// The value under `name`.
    pub fn get(&self, name: &str) -> (found: Option<&V>)
        ensures
            match found {
                Some(value) => lookup(self@, name@) == Some(value@),
                None => lookup(self@, name@) is None,
            },
    {
        match self.position(name) {
            Some(at) => Some(&self.entries[at].1),
            None => None,
        }
    }

    /// The map with `value` under `name`.
    pub fn insert(self, name: String, value: V) -> (map: Self)
        ensures
            map@ == with_name(self@, name@, value@),
    {
        let at = self.rank_of(name.as_str());
        let ghost before = self@;
        let ghost view = (name@, value@);
        proof {
            law_with_name(before, name@, value@, name@);
        }
        let mut entries = self.entries;
        if at < entries.len() && text::text_eq(entries[at].0.as_str(), name.as_str()) {
            entries.set(at, (name, value));
            assert(entry_views(entries@) =~= before.update(at as int, view));
        } else {
            entries.insert(at, (name, value));
            assert(entry_views(entries@) =~= before.insert(at as int, view));
        }
        NameMap { entries }
    }
}

} // verus!
