//! Sequences of keys with values, read as maps.

use vstd::prelude::*;

verus! {

/// The value that `entries` give to `key`: that of the last entry for it.
pub open spec fn lookup<V>(entries: Seq<(Seq<char>, V)>, key: Seq<char>) -> Option<V>
    decreases entries.len(),
{
    if entries.len() == 0 {
        None
    } else if entries.last().0 == key {
        Some(entries.last().1)
    } else {
        lookup(entries.drop_last(), key)
    }
}

/// The map that `entries` stand for.
pub open spec fn to_map<V>(entries: Seq<(Seq<char>, V)>) -> Map<Seq<char>, V> {
    Map::new(|key: Seq<char>| lookup(entries, key) is Some, |key: Seq<char>| lookup(entries, key)->0)
}

/// A further entry sets the value of its key.
pub proof fn lemma_push<V>(entries: Seq<(Seq<char>, V)>, key: Seq<char>, value: V)
    ensures
        to_map(entries.push((key, value))) == to_map(entries).insert(key, value),
{
    assert(entries.push((key, value)).drop_last() =~= entries);
    assert(to_map(entries.push((key, value))) =~= to_map(entries).insert(key, value));
}

/// The last entry for a key gives it its value.
pub proof fn lemma_found<V>(entries: Seq<(Seq<char>, V)>, key: Seq<char>, at: int)
    requires
        0 <= at < entries.len(),
        entries[at].0 == key,
        forall|j: int| at < j < entries.len() ==> (#[trigger] entries[j]).0 != key,
    ensures
        lookup(entries, key) == Some(entries[at].1),
    decreases entries.len(),
{
    if at < entries.len() - 1 {
        assert(entries.last() == entries[entries.len() - 1]);
        lemma_found(entries.drop_last(), key, at);
    }
}

/// A key without an entry has no value.
pub proof fn lemma_absent<V>(entries: Seq<(Seq<char>, V)>, key: Seq<char>)
    requires
        forall|j: int| 0 <= j < entries.len() ==> (#[trigger] entries[j]).0 != key,
    ensures
        lookup(entries, key) is None,
    decreases entries.len(),
{
    if entries.len() > 0 {
        assert(entries.last() == entries[entries.len() - 1]);
        lemma_absent(entries.drop_last(), key);
    }
}

proof fn lemma_update_lookup<V>(
    entries: Seq<(Seq<char>, V)>,
    at: int,
    value: V,
    other: Seq<char>,
)
    requires
        0 <= at < entries.len(),
        forall|j: int| at < j < entries.len() ==> (#[trigger] entries[j]).0 != entries[at].0,
    ensures
        lookup(entries.update(at, (entries[at].0, value)), other) == if other == entries[at].0 {
            Some(value)
        } else {
            lookup(entries, other)
        },
    decreases entries.len(),
{
    let after = entries.update(at, (entries[at].0, value));
    if at < entries.len() - 1 {
        assert(entries.last() == entries[entries.len() - 1]);
        assert(after.drop_last() =~= entries.drop_last().update(at, (entries[at].0, value)));
        lemma_update_lookup(entries.drop_last(), at, value, other);
    } else {
        assert(after.drop_last() =~= entries.drop_last());
    }
}

/// A new value in the last entry for a key is the key's new value.
pub proof fn lemma_update<V>(entries: Seq<(Seq<char>, V)>, at: int, value: V)
    requires
        0 <= at < entries.len(),
        forall|j: int| at < j < entries.len() ==> (#[trigger] entries[j]).0 != entries[at].0,
    ensures
        to_map(entries.update(at, (entries[at].0, value))) == to_map(entries).insert(
            entries[at].0,
            value,
        ),
{
    let after = entries.update(at, (entries[at].0, value));
    assert forall|other: Seq<char>| #[trigger] lookup(after, other) == if other == entries[at].0 {
        Some(value)
    } else {
        lookup(entries, other)
    } by {
        lemma_update_lookup(entries, at, value, other);
    }
    assert(to_map(after) =~= to_map(entries).insert(entries[at].0, value));
}

} // verus!
