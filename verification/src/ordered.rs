//! The insertion-ordered map that backs a store.
//!
//! The map is `indexmap::IndexMap`. Nothing in this module is proved: each
//! function below calls one method of the map and states, over the sequence
//! of entries that the map holds, what that method documents.

use indexmap::IndexMap;
use vstd::prelude::*;

use crate::storage::Entry;
use crate::text::first_index;

verus! {

/// `indexmap::IndexMap`, taken as it is: nothing is known of a map but what
/// the functions of this module say.
#[verifier::external_type_specification]
#[verifier::external_body]
#[verifier::reject_recursive_types(K)]
#[verifier::reject_recursive_types(V)]
#[verifier::reject_recursive_types(S)]
pub struct ExIndexMap<K, V, S>(IndexMap<K, V, S>);

/// The entries of a map in their order, each as its key, its text and its
/// completion flag.
pub uninterp spec fn entries_of(map: IndexMap<String, Entry>) -> Seq<(Seq<char>, Seq<char>, bool)>;

/// Whether `entries` holds `key` at index `i`.
pub open spec fn holds_slot(entries: Seq<(Seq<char>, Seq<char>, bool)>, key: Seq<char>) -> spec_fn(
    int,
) -> bool {
    |i: int| 0 <= i < entries.len() && entries[i].0 == key
}

/// The index of the first entry of `entries` whose key is `key`.
pub open spec fn slot_index(entries: Seq<(Seq<char>, Seq<char>, bool)>, key: Seq<char>) -> Option<int> {
    first_index(0, entries.len() as int, holds_slot(entries, key))
}

/// `entries` after `key` is set to an entry: a key that is present keeps its
/// place and gets the new entry, a new key goes to the end.
pub open spec fn upsert(
    entries: Seq<(Seq<char>, Seq<char>, bool)>,
    key: Seq<char>,
    data: Seq<char>,
    complete: bool,
) -> Seq<(Seq<char>, Seq<char>, bool)> {
    match slot_index(entries, key) {
        Some(i) => entries.update(i, (key, data, complete)),
        None => entries.push((key, data, complete)),
    }
}

/// `entries` without the entry of `key`; the entries behind it move up.
pub open spec fn without(entries: Seq<(Seq<char>, Seq<char>, bool)>, key: Seq<char>) -> Seq<
    (Seq<char>, Seq<char>, bool),
> {
    match slot_index(entries, key) {
        Some(i) => entries.remove(i),
        None => entries,
    }
}

/// Whether `entry` is what `entries` holds for `key`.
pub open spec fn is_entry_of(
    entry: Option<Entry>,
    entries: Seq<(Seq<char>, Seq<char>, bool)>,
    key: Seq<char>,
) -> bool {
    match slot_index(entries, key) {
        Some(i) => entry matches Some(e) && e.data@ == entries[i].1 && e.complete == entries[i].2,
        None => entry is None,
    }
}

/// `IndexMap::new`: a map without entries.
#[verifier::external_body]
pub(crate) fn map_new() -> (map: IndexMap<String, Entry>)
    ensures
        entries_of(map) == Seq::<(Seq<char>, Seq<char>, bool)>::empty(),
{
    IndexMap::new()
}

/// `IndexMap::len`: the number of entries.
#[verifier::external_body]
pub(crate) fn map_len(map: &IndexMap<String, Entry>) -> (n: usize)
    ensures
        n == entries_of(*map).len(),
{
    map.len()
}

/// `IndexMap::clear`: removes every entry.
#[verifier::external_body]
pub(crate) fn map_clear(map: &mut IndexMap<String, Entry>)
    ensures
        entries_of(*final(map)) == Seq::<(Seq<char>, Seq<char>, bool)>::empty(),
{
    map.clear()
}

/// `IndexMap::insert`: a key that is present keeps its place in the order and
/// gets the new value, and the old value is returned; a new key is put last,
/// and nothing is returned.
#[verifier::external_body]
pub(crate) fn map_insert(map: &mut IndexMap<String, Entry>, key: String, value: Entry) -> (previous:
    Option<Entry>)
    ensures
        entries_of(*final(map)) == upsert(entries_of(*old(map)), key@, value.data@, value.complete),
        is_entry_of(previous, entries_of(*old(map)), key@),
{
    map.insert(key, value)
}

/// `IndexMap::shift_remove`: removes the entry of `key` and returns its
/// value, the entries behind it moving up in their order; without such an
/// entry the map stays as it is and nothing is returned.
#[verifier::external_body]
pub(crate) fn map_shift_remove(map: &mut IndexMap<String, Entry>, key: &str) -> (removed: Option<Entry>)
    ensures
        entries_of(*final(map)) == without(entries_of(*old(map)), key@),
        is_entry_of(removed, entries_of(*old(map)), key@),
{
    map.shift_remove(key)
}

/// `IndexMap::get`: the value stored for `key`, if there is one.
#[verifier::external_body]
pub(crate) fn map_get<'a>(map: &'a IndexMap<String, Entry>, key: &str) -> (found: Option<&'a Entry>)
    ensures
        match slot_index(entries_of(*map), key@) {
            Some(i) => found matches Some(e) && e.data@ == entries_of(*map)[i].1 && e.complete
                == entries_of(*map)[i].2,
            None => found is None,
        },
{
    map.get(key)
}

/// `IndexMap::get_index`: the key and the value at place `index` of the
/// order, for `index` below the number of entries.
#[verifier::external_body]
pub(crate) fn map_get_index<'a>(map: &'a IndexMap<String, Entry>, index: usize) -> (found: Option<
    (&'a String, &'a Entry),
>)
    ensures
        match found {
            Some((key, entry)) => index < entries_of(*map).len() && (
                key@,
                entry.data@,
                entry.complete,
            ) == entries_of(*map)[index as int],
            None => index >= entries_of(*map).len(),
        },
{
    map.get_index(index)
}

} // verus!
