use vstd::prelude::*;

use crate::text::str_eq;

verus! {

/// The view of a list of `(name, value)` entries.
pub open spec fn entries_view<V>(entries: Seq<(String, V)>) -> Seq<(Seq<char>, V)> {
    entries.map_values(|e: (String, V)| (e.0@, e.1))
}

/// The names of a list of entries, in order.
pub open spec fn key_seq<V>(entries: Seq<(Seq<char>, V)>) -> Seq<Seq<char>> {
    entries.map_values(|e: (Seq<char>, V)| e.0)
}

/// Whether some entry is named `key`.
pub open spec fn has_key<V>(entries: Seq<(Seq<char>, V)>, key: Seq<char>) -> bool {
    exists|i: int| 0 <= i < entries.len() && #[trigger] entries[i].0 == key
}

/// The position of an entry named `key` (meaningful when there is one).
pub open spec fn index_of_key<V>(entries: Seq<(Seq<char>, V)>, key: Seq<char>) -> int {
    choose|i: int| 0 <= i < entries.len() && #[trigger] entries[i].0 == key
}

/// The value of the entry named `key` (meaningful when there is one).
pub open spec fn value_of_key<V>(entries: Seq<(Seq<char>, V)>, key: Seq<char>) -> V {
    entries[index_of_key(entries, key)].1
}

/// No two entries share a name.
pub open spec fn distinct_keys<V>(entries: Seq<(Seq<char>, V)>) -> bool {
    forall|i: int, j: int|
        0 <= i < entries.len() && 0 <= j < entries.len() && i != j ==> #[trigger] entries[i].0
            != #[trigger] entries[j].0
}

/// With distinct names, the entry named `key` is the one at any position that
/// holds that name.
pub proof fn lemma_index_of_key<V>(entries: Seq<(Seq<char>, V)>, key: Seq<char>, i: int)
    requires
        distinct_keys(entries),
        0 <= i < entries.len(),
        entries[i].0 == key,
    ensures
        has_key(entries, key),
        index_of_key(entries, key) == i,
        value_of_key(entries, key) == entries[i].1,
{
}

/// Removing an entry keeps the names distinct and drops exactly that name.
pub proof fn lemma_remove_entry<V>(entries: Seq<(Seq<char>, V)>, i: int)
    requires
        distinct_keys(entries),
        0 <= i < entries.len(),
    ensures
        distinct_keys(entries.remove(i)),
        !has_key(entries.remove(i), entries[i].0),
        forall|key: Seq<char>|
            key != entries[i].0 ==> (has_key(entries.remove(i), key) == has_key(entries, key)),
        forall|key: Seq<char>|
            key != entries[i].0 && has_key(entries, key) ==> value_of_key(entries.remove(i), key)
                == value_of_key(entries, key),
{
    let r = entries.remove(i);
    assert forall|a: int, b: int|
        0 <= a < r.len() && 0 <= b < r.len() && a != b implies #[trigger] r[a].0 != #[trigger] r[b].0 by {
        let a2 = if a < i { a } else { a + 1 };
        let b2 = if b < i { b } else { b + 1 };
        assert(r[a] == entries[a2]);
        assert(r[b] == entries[b2]);
    }
    assert forall|key: Seq<char>| key != entries[i].0 implies (has_key(r, key) == has_key(entries, key)) by {
        if has_key(entries, key) {
            let j = choose|j: int| 0 <= j < entries.len() && #[trigger] entries[j].0 == key;
            let j2 = if j < i { j } else { j - 1 };
            assert(r[j2] == entries[j]);
        }
        if has_key(r, key) {
            let j = choose|j: int| 0 <= j < r.len() && #[trigger] r[j].0 == key;
            let j2 = if j < i { j } else { j + 1 };
            assert(r[j] == entries[j2]);
        }
    }
    assert forall|key: Seq<char>|
        key != entries[i].0 && has_key(entries, key) implies value_of_key(r, key) == value_of_key(
        entries,
        key,
    ) by {
        let j = index_of_key(entries, key);
        let j2 = if j < i { j } else { j - 1 };
        assert(r[j2] == entries[j]);
        lemma_index_of_key(r, key, j2);
    }
    if has_key(r, entries[i].0) {
        let j = choose|j: int| 0 <= j < r.len() && #[trigger] r[j].0 == entries[i].0;
        let j2 = if j < i { j } else { j + 1 };
        assert(r[j] == entries[j2]);
    }
}

/// Appending an entry under a new name keeps the names distinct.
pub proof fn lemma_push_entry<V>(entries: Seq<(Seq<char>, V)>, key: Seq<char>, value: V)
    requires
        distinct_keys(entries),
        !has_key(entries, key),
    ensures
        distinct_keys(entries.push((key, value))),
        has_key(entries.push((key, value)), key),
        value_of_key(entries.push((key, value)), key) == value,
        forall|other: Seq<char>|
            other != key ==> (has_key(entries.push((key, value)), other) == has_key(
                entries,
                other,
            )),
        forall|other: Seq<char>|
            other != key && has_key(entries, other) ==> value_of_key(
                entries.push((key, value)),
                other,
            ) == value_of_key(entries, other),
{
    let p = entries.push((key, value));
    assert forall|a: int, b: int|
        0 <= a < p.len() && 0 <= b < p.len() && a != b implies #[trigger] p[a].0 != #[trigger] p[b].0 by {
        if a == entries.len() {
            assert(p[b] == entries[b]);
        } else if b == entries.len() {
            assert(p[a] == entries[a]);
        } else {
            assert(p[a] == entries[a]);
            assert(p[b] == entries[b]);
        }
    }
    lemma_index_of_key(p, key, entries.len() as int);
    assert forall|other: Seq<char>| other != key implies (has_key(p, other) == has_key(entries, other)) by {
        if has_key(entries, other) {
            let j = choose|j: int| 0 <= j < entries.len() && #[trigger] entries[j].0 == other;
            assert(p[j] == entries[j]);
        }
        if has_key(p, other) {
            let j = choose|j: int| 0 <= j < p.len() && #[trigger] p[j].0 == other;
            assert(p[j] == entries[j]);
        }
    }
    assert forall|other: Seq<char>|
        other != key && has_key(entries, other) implies value_of_key(p, other) == value_of_key(
        entries,
        other,
    ) by {
        let j = index_of_key(entries, other);
        assert(p[j] == entries[j]);
        lemma_index_of_key(p, other, j);
    }
}

/// Replacing the value of an existing entry keeps the names and changes only
/// that value.
pub proof fn lemma_update_entry<V>(entries: Seq<(Seq<char>, V)>, i: int, value: V)
    requires
        distinct_keys(entries),
        0 <= i < entries.len(),
    ensures
        distinct_keys(entries.update(i, (entries[i].0, value))),
        key_seq(entries.update(i, (entries[i].0, value))) == key_seq(entries),
        value_of_key(entries.update(i, (entries[i].0, value)), entries[i].0) == value,
        forall|other: Seq<char>|
            (has_key(entries.update(i, (entries[i].0, value)), other) == has_key(entries, other)),
        forall|other: Seq<char>|
            other != entries[i].0 && has_key(entries, other) ==> value_of_key(
                entries.update(i, (entries[i].0, value)),
                other,
            ) == value_of_key(entries, other),
{
    let u = entries.update(i, (entries[i].0, value));
    assert forall|a: int, b: int|
        0 <= a < u.len() && 0 <= b < u.len() && a != b implies #[trigger] u[a].0 != #[trigger] u[b].0 by {
        assert(u[a].0 == entries[a].0);
        assert(u[b].0 == entries[b].0);
    }
    assert(key_seq(u) =~= key_seq(entries));
    lemma_index_of_key(u, entries[i].0, i);
    assert forall|other: Seq<char>| (has_key(u, other) == has_key(entries, other)) by {
        if has_key(entries, other) {
            let j = choose|j: int| 0 <= j < entries.len() && #[trigger] entries[j].0 == other;
            assert(u[j].0 == entries[j].0);
        }
        if has_key(u, other) {
            let j = choose|j: int| 0 <= j < u.len() && #[trigger] u[j].0 == other;
            assert(u[j].0 == entries[j].0);
        }
    }
    assert forall|other: Seq<char>|
        other != entries[i].0 && has_key(entries, other) implies value_of_key(u, other)
        == value_of_key(entries, other) by {
        let j = index_of_key(entries, other);
        assert(u[j] == entries[j]);
        lemma_index_of_key(u, other, j);
    }
}

/// The position of the entry named `key`, if any.
pub fn find_key<V>(entries: &Vec<(String, V)>, key: &str) -> (r: Option<usize>)
    ensures
        r matches Some(i) ==> i < entries@.len() && entries_view(entries@)[i as int].0 == key@,
        r is None ==> !has_key(entries_view(entries@), key@),
{
    let mut i: usize = 0;
    while i < entries.len()
        invariant
            i <= entries@.len(),
            forall|j: int| 0 <= j < i ==> entries_view(entries@)[j].0 != key@,
        decreases entries@.len() - i,
    {
        if str_eq(entries[i].0.as_str(), key) {
            return Some(i);
        }
        i = i + 1;
    }
    None
}

} // verus!
