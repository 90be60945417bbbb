//! Association lists keyed by text: the mathematical model shared by frequency
//! tables (word to count) and models (context to table).
//!
//! An association list is a sequence of `(key, value)` pairs kept in the order
//! in which the keys were first seen.

use vstd::prelude::*;

verus! {

/// Some entry of `entries` carries `key`.
pub open spec fn has_key<V>(entries: Seq<(Seq<char>, V)>, key: Seq<char>) -> bool {
    exists|i: int| 0 <= i < entries.len() && (#[trigger] entries[i]).0 == key
}

/// The position of an entry that carries `key`; meaningful when `has_key` holds,
/// and the only such position when the keys are distinct.
pub open spec fn key_index<V>(entries: Seq<(Seq<char>, V)>, key: Seq<char>) -> int {
    choose|i: int| 0 <= i < entries.len() && (#[trigger] entries[i]).0 == key
}

/// No key occurs twice.
pub open spec fn distinct_keys<V>(entries: Seq<(Seq<char>, V)>) -> bool {
    forall|i: int, j: int|
        0 <= i < j < entries.len() ==> (#[trigger] entries[i]).0 != (#[trigger] entries[j]).0
}

/// With distinct keys, an entry found at `i` is the entry that `key_index` names.
pub proof fn lemma_key_found<V>(entries: Seq<(Seq<char>, V)>, key: Seq<char>, i: int)
    requires
        distinct_keys(entries),
        0 <= i < entries.len(),
        entries[i].0 == key,
    ensures
        has_key(entries, key),
        key_index(entries, key) == i,
{
    let j = key_index(entries, key);
    assert(0 <= j < entries.len() && entries[j].0 == key);
    if j < i {
        assert(entries[j].0 != entries[i].0);
    } else if i < j {
        assert(entries[i].0 != entries[j].0);
    }
}

/// Appending an entry under a new key keeps the keys distinct and leaves the
/// position of every old key where it was.
pub proof fn lemma_push_new_key<V>(entries: Seq<(Seq<char>, V)>, key: Seq<char>, value: V)
    requires
        distinct_keys(entries),
        !has_key(entries, key),
    ensures
        distinct_keys(entries.push((key, value))),
        has_key(entries.push((key, value)), key),
        key_index(entries.push((key, value)), key) == entries.len(),
        forall|other: Seq<char>|
            other != key ==> has_key(entries.push((key, value)), other) == has_key(entries, other),
        forall|other: Seq<char>|
            has_key(entries, other) ==> #[trigger] key_index(entries.push((key, value)), other)
                == key_index(entries, other),
{
    let grown = entries.push((key, value));
    assert forall|i: int, j: int| 0 <= i < j < grown.len() implies (#[trigger] grown[i]).0 != (
    #[trigger] grown[j]).0 by {
        if j == entries.len() {
            assert(entries[i].0 != key);
        } else {
            assert(entries[i].0 != entries[j].0);
        }
    }
    assert(grown[entries.len() as int].0 == key);
    lemma_key_found(grown, key, entries.len() as int);
    assert forall|other: Seq<char>| other != key implies has_key(grown, other) == has_key(
        entries,
        other,
    ) by {
        if has_key(entries, other) {
            let i = key_index(entries, other);
            assert(grown[i].0 == other);
        }
        if has_key(grown, other) {
            let i = key_index(grown, other);
            assert(entries[i].0 == other);
        }
    }
    assert forall|other: Seq<char>| has_key(entries, other) implies #[trigger] key_index(
        grown,
        other,
    ) == key_index(entries, other) by {
        let i = key_index(entries, other);
        assert(grown[i].0 == other);
        lemma_key_found(grown, other, i);
    }
}

/// Replacing the value under a present key keeps every key where it was.
pub proof fn lemma_update_value<V>(entries: Seq<(Seq<char>, V)>, key: Seq<char>, value: V)
    requires
        distinct_keys(entries),
        has_key(entries, key),
    ensures
        distinct_keys(entries.update(key_index(entries, key), (key, value))),
        forall|other: Seq<char>|
            has_key(entries.update(key_index(entries, key), (key, value)), other) == has_key(
                entries,
                other,
            ),
        forall|other: Seq<char>|
            has_key(entries, other) ==> #[trigger] key_index(
                entries.update(key_index(entries, key), (key, value)),
                other,
            ) == key_index(entries, other),
{
    let at = key_index(entries, key);
    let changed = entries.update(at, (key, value));
    assert forall|i: int, j: int| 0 <= i < j < changed.len() implies (#[trigger] changed[i]).0 != (
    #[trigger] changed[j]).0 by {
        assert(entries[i].0 != entries[j].0);
    }
    assert forall|other: Seq<char>| has_key(changed, other) == has_key(entries, other) by {
        if has_key(entries, other) {
            let i = key_index(entries, other);
            assert(changed[i].0 == other);
        }
        if has_key(changed, other) {
            let i = key_index(changed, other);
            assert(entries[i].0 == other);
        }
    }
    assert forall|other: Seq<char>| has_key(entries, other) implies #[trigger] key_index(
        changed,
        other,
    ) == key_index(entries, other) by {
        let i = key_index(entries, other);
        assert(changed[i].0 == other);
        lemma_key_found(changed, other, i);
    }
}

} // verus!
