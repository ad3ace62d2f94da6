//! The ordered argument map of a parsed command line.
//!
//! Arguments are held in an `indexmap::IndexMap<String, String>`, which keeps its
//! entries in the order in which their keys were first inserted. Its contents are
//! modelled as a sequence of `(key, value)` pairs of character sequences.

use indexmap::IndexMap;
use vstd::prelude::*;

verus! {

#[verifier::external_type_specification]
#[verifier::external_body]
#[verifier::reject_recursive_types(K)]
#[verifier::reject_recursive_types(V)]
#[verifier::reject_recursive_types(S)]
pub struct ExIndexMap<K, V, S>(IndexMap<K, V, S>);

/// The entries of an argument map, in the map's order, each key and value by its characters.
pub uninterp spec fn map_entries(m: IndexMap<String, String>) -> Seq<(Seq<char>, Seq<char>)>;

/// No key occurs twice among the entries.
pub open spec fn keys_distinct(entries: Seq<(Seq<char>, Seq<char>)>) -> bool {
    forall|i: int, j: int|
        0 <= i < entries.len() && 0 <= j < entries.len() && i != j ==> #[trigger] entries[i].0
            != #[trigger] entries[j].0
}

/// Some entry has the key `key`.
pub open spec fn has_key(entries: Seq<(Seq<char>, Seq<char>)>, key: Seq<char>) -> bool {
    exists|i: int| 0 <= i < entries.len() && #[trigger] entries[i].0 == key
}

/// The position of the entry with key `key`, where there is one.
pub open spec fn key_position(entries: Seq<(Seq<char>, Seq<char>)>, key: Seq<char>) -> int {
    choose|i: int| 0 <= i < entries.len() && #[trigger] entries[i].0 == key
}

/// The entries after inserting `key` with `value`: an existing key keeps its place and
/// takes the new value; a new key goes last.
pub open spec fn insert_entry(
    entries: Seq<(Seq<char>, Seq<char>)>,
    key: Seq<char>,
    value: Seq<char>,
) -> Seq<(Seq<char>, Seq<char>)> {
    if has_key(entries, key) {
        entries.update(key_position(entries, key), (key, value))
    } else {
        entries.push((key, value))
    }
}

/// The value that `key` maps to among the entries, if any.
pub open spec fn lookup(entries: Seq<(Seq<char>, Seq<char>)>, key: Seq<char>) -> Option<Seq<char>> {
    if has_key(entries, key) {
        Some(entries[key_position(entries, key)].1)
    } else {
        None
    }
}

/// The keys of the entries, in order.
pub open spec fn keys_of(entries: Seq<(Seq<char>, Seq<char>)>) -> Seq<Seq<char>> {
    entries.map_values(|e: (Seq<char>, Seq<char>)| e.0)
}

/// The entries after inserting each pair in turn.
pub open spec fn insert_all(
    entries: Seq<(Seq<char>, Seq<char>)>,
    pairs: Seq<(Seq<char>, Seq<char>)>,
) -> Seq<(Seq<char>, Seq<char>)>
    decreases pairs.len(),
{
    if pairs.len() == 0 {
        entries
    } else {
        insert_entry(insert_all(entries, pairs.drop_last()), pairs.last().0, pairs.last().1)
    }
}

/// Each key once, in the order of its first occurrence.
pub open spec fn first_occurrences(keys: Seq<Seq<char>>) -> Seq<Seq<char>>
    decreases keys.len(),
{
    if keys.len() == 0 {
        Seq::empty()
    } else {
        let r = first_occurrences(keys.drop_last());
        if r.contains(keys.last()) {
            r
        } else {
            r.push(keys.last())
        }
    }
}

/// The value of the last pair whose key is `key`, if any.
pub open spec fn latest_value(pairs: Seq<(Seq<char>, Seq<char>)>, key: Seq<char>) -> Option<Seq<char>>
    decreases pairs.len(),
{
    if pairs.len() == 0 {
        None
    } else if pairs.last().0 == key {
        Some(pairs.last().1)
    } else {
        latest_value(pairs.drop_last(), key)
    }
}

/// Among entries with distinct keys, the entry at `i` is the one with its key.
pub proof fn lemma_key_position(entries: Seq<(Seq<char>, Seq<char>)>, i: int)
    requires
        keys_distinct(entries),
        0 <= i < entries.len(),
    ensures
        has_key(entries, entries[i].0),
        key_position(entries, entries[i].0) == i,
{
    let k = entries[i].0;
    assert(has_key(entries, k));
    let j = key_position(entries, k);
    if j != i {
        assert(entries[j].0 != entries[i].0);
    }
}

/// Inserting into entries with distinct keys keeps the keys distinct; an existing key
/// keeps its place and a new one goes last; the key then maps to the new value and
/// every other key to what it mapped to.
pub proof fn lemma_insert_entry(entries: Seq<(Seq<char>, Seq<char>)>, key: Seq<char>, value: Seq<char>)
    requires
        keys_distinct(entries),
    ensures
        keys_distinct(insert_entry(entries, key, value)),
        keys_of(insert_entry(entries, key, value)) == (if has_key(entries, key) {
            keys_of(entries)
        } else {
            keys_of(entries).push(key)
        }),
        forall|k: Seq<char>|
            #[trigger] lookup(insert_entry(entries, key, value), k) == (if k == key {
                Some(value)
            } else {
                lookup(entries, k)
            }),
{
    let r = insert_entry(entries, key, value);
    if has_key(entries, key) {
        let p = key_position(entries, key);
        assert(r.len() == entries.len());
        assert forall|i: int| 0 <= i < r.len() implies #[trigger] r[i].0 == entries[i].0 by {}
        assert(keys_of(r) =~= keys_of(entries));
    } else {
        assert forall|i: int| 0 <= i < entries.len() implies #[trigger] r[i] == entries[i] by {}
        assert(r[entries.len() as int] == (key, value));
        assert forall|i: int, j: int| 0 <= i < r.len() && 0 <= j < r.len() && i != j implies #[trigger] r[i].0 != #[trigger] r[j].0 by {
            if i == entries.len() {
                assert(entries[j].0 != key);
            } else if j == entries.len() {
                assert(entries[i].0 != key);
            }
        }
        assert(keys_of(r) =~= keys_of(entries).push(key));
    }
    assert forall|k: Seq<char>| #[trigger] lookup(r, k) == (if k == key { Some(value) } else { lookup(entries, k) }) by {
        if has_key(r, k) {
            let i = key_position(r, k);
            lemma_key_position(r, i);
            if k != key {
                assert(r[i] == entries[i]);
                lemma_key_position(entries, i);
            }
        } else {
            if has_key(entries, k) {
                let i = key_position(entries, k);
                assert(r[i].0 == entries[i].0);
            }
            if k == key {
                if has_key(entries, key) {
                    assert(r[key_position(entries, key)].0 == key);
                } else {
                    assert(r[entries.len() as int].0 == key);
                }
            }
        }
    }
}

/// Inserting `a` and then `b` is inserting `a + b`.
pub proof fn lemma_insert_all_append(
    entries: Seq<(Seq<char>, Seq<char>)>,
    a: Seq<(Seq<char>, Seq<char>)>,
    b: Seq<(Seq<char>, Seq<char>)>,
)
    ensures
        insert_all(insert_all(entries, a), b) == insert_all(entries, a + b),
    decreases b.len(),
{
    if b.len() == 0 {
        assert(a + b =~= a);
    } else {
        lemma_insert_all_append(entries, a, b.drop_last());
        assert((a + b).drop_last() =~= a + b.drop_last());
        assert((a + b).last() == b.last());
    }
}

/// A map built by inserting pairs in turn holds each key once, in the order in which it
/// was first inserted, with the value inserted last for it.
pub proof fn lemma_insert_all_from_empty(pairs: Seq<(Seq<char>, Seq<char>)>)
    ensures
        keys_distinct(insert_all(Seq::empty(), pairs)),
        keys_of(insert_all(Seq::empty(), pairs)) == first_occurrences(keys_of(pairs)),
        forall|k: Seq<char>| #[trigger] lookup(insert_all(Seq::empty(), pairs), k) == latest_value(pairs, k),
    decreases pairs.len(),
{
    let e = Seq::<(Seq<char>, Seq<char>)>::empty();
    if pairs.len() == 0 {
        assert(keys_of(pairs) =~= Seq::<Seq<char>>::empty());
        assert(keys_of(e) =~= Seq::<Seq<char>>::empty());
        assert forall|k: Seq<char>| #[trigger] lookup(e, k) == latest_value(pairs, k) by {}
    } else {
        let before = pairs.drop_last();
        lemma_insert_all_from_empty(before);
        let m = insert_all(e, before);
        let (key, value) = pairs.last();
        lemma_insert_entry(m, key, value);
        assert(keys_of(pairs).drop_last() =~= keys_of(before));
        assert(keys_of(pairs).last() == key);
        let r = first_occurrences(keys_of(before));
        if has_key(m, key) {
            let i = key_position(m, key);
            assert(keys_of(m)[i] == key);
            assert(r.contains(key));
        } else {
            if r.contains(key) {
                let i = choose|i: int| 0 <= i < r.len() && r[i] == key;
                assert(keys_of(m)[i] == m[i].0);
                assert(has_key(m, key));
            }
        }
    }
}

/// Calls `IndexMap::new`. Claimed: the new map has no entries.
#[verifier::external_body]
pub(crate) fn map_new() -> (m: IndexMap<String, String>)
    ensures
        map_entries(m) == Seq::<(Seq<char>, Seq<char>)>::empty(),
{
    IndexMap::new()
}

/// Calls `IndexMap::insert`. Claimed, as the method's documentation states, of a map
/// whose keys are distinct: where a key equal to `key` exists, it keeps its place, its
/// value becomes `value` and the old value is returned; otherwise the pair goes last and
/// `None` is returned. Two `String` keys are equal exactly when their characters are.
#[verifier::external_body]
pub(crate) fn map_insert(m: &mut IndexMap<String, String>, key: String, value: String) -> (old_value: Option<String>)
    requires
        keys_distinct(map_entries(*old(m))),
    ensures
        map_entries(*final(m)) == insert_entry(map_entries(*old(m)), key@, value@),
        match old_value {
            Some(v) => lookup(map_entries(*old(m)), key@) == Some(v@),
            None => !has_key(map_entries(*old(m)), key@),
        },
{
    m.insert(key, value)
}

/// Calls `IndexMap::len`. Claimed: the number of entries.
#[verifier::external_body]
pub(crate) fn map_len(m: &IndexMap<String, String>) -> (n: usize)
    ensures
        n == map_entries(*m).len(),
{
    m.len()
}

/// Calls `IndexMap::get_index`. Claimed: the entry at position `index` in the map's
/// order, or `None` past the end.
#[verifier::external_body]
pub(crate) fn map_get_index(m: &IndexMap<String, String>, index: usize) -> (entry: Option<(&String, &String)>)
    ensures
        index < map_entries(*m).len() ==> entry is Some,
        index < map_entries(*m).len() ==> entry.unwrap().0@ == map_entries(*m)[index as int].0,
        index < map_entries(*m).len() ==> entry.unwrap().1@ == map_entries(*m)[index as int].1,
        index >= map_entries(*m).len() ==> entry is None,
{
    m.get_index(index)
}

} // verus!
