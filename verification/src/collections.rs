//! Trusted declarations for the `indexmap` ordered maps that the lowering
//! logic keeps its name sets, register scopes and sparse index tables in.
//! Every contract below restates what `indexmap` documents: an `IndexMap`
//! holds each key at most once, in insertion order; `insert` of a new key
//! appends it, `insert` of a present key keeps its place and replaces the
//! value; `shift_remove` removes a key and shifts the later entries down.
use vstd::prelude::*;

use indexmap::IndexMap;

use crate::builder::FunctionSignature;

verus! {

#[verifier::external_type_specification]
#[verifier::external_body]
#[verifier::reject_recursive_types(K)]
#[verifier::reject_recursive_types(V)]
#[verifier::reject_recursive_types(S)]
pub struct ExIndexMap<K, V, S>(IndexMap<K, V, S>);

/// The keys of a name set, in insertion order.
pub uninterp spec fn name_set_keys(m: IndexMap<String, ()>) -> Seq<Seq<char>>;

/// The entries of a name-to-number map, in insertion order.
pub uninterp spec fn number_map_entries(m: IndexMap<String, u64>) -> Seq<(Seq<char>, u64)>;

/// The entries of an index-tuple-to-position map, in insertion order.
pub uninterp spec fn position_map_entries(m: IndexMap<Vec<usize>, usize>) -> Seq<(Seq<usize>, usize)>;

pub open spec fn entry_keys<K, V>(entries: Seq<(K, V)>) -> Seq<K> {
    entries.map_values(|e: (K, V)| e.0)
}

/// `IndexMap::new`: an empty name set.
#[verifier::external_body]
pub fn name_set_new() -> (m: IndexMap<String, ()>)
    ensures
        name_set_keys(m) == Seq::<Seq<char>>::empty(),
{
    IndexMap::new()
}

/// `IndexMap::len` of a name set.
#[verifier::external_body]
pub fn name_set_len(m: &IndexMap<String, ()>) -> (n: usize)
    ensures
        n == name_set_keys(*m).len(),
{
    m.len()
}

/// `IndexMap::get_index_of` on a name set: the position of `key`.
#[verifier::external_body]
pub fn name_set_index_of(m: &IndexMap<String, ()>, key: &str) -> (r: Option<usize>)
    ensures
        match r {
            Some(i) => i < name_set_keys(*m).len() && name_set_keys(*m)[i as int] == key@,
            None => !name_set_keys(*m).contains(key@),
        },
{
    m.get_index_of(key)
}

/// `IndexMap::get_index` on a name set: the key at position `i`.
#[verifier::external_body]
pub fn name_set_key_at(m: &IndexMap<String, ()>, i: usize) -> (r: Option<&String>)
    ensures
        match r {
            Some(k) => i < name_set_keys(*m).len() && k@ == name_set_keys(*m)[i as int],
            None => i >= name_set_keys(*m).len(),
        },
{
    m.get_index(i).map(|(k, _)| k)
}

/// `IndexMap::insert` on a name set: a new key is appended, a present key
/// keeps its place. Returns whether the key was new.
#[verifier::external_body]
pub fn name_set_insert(m: &mut IndexMap<String, ()>, key: String) -> (added: bool)
    ensures
        added == !name_set_keys(*old(m)).contains(key@),
        added ==> name_set_keys(*final(m)) == name_set_keys(*old(m)).push(key@),
        !added ==> name_set_keys(*final(m)) == name_set_keys(*old(m)),
{
    m.insert(key, ()).is_none()
}

/// `IndexMap::try_reserve` on a name set: whether the allocator granted
/// room for `additional` more keys. The keys never change; whether the
/// room is granted depends on the allocator and is not stated.
#[verifier::external_body]
pub fn name_set_try_reserve(m: &mut IndexMap<String, ()>, additional: usize) -> (granted: bool)
    ensures
        name_set_keys(*final(m)) == name_set_keys(*old(m)),
{
    m.try_reserve(additional).is_ok()
}

/// `IndexMap::shift_remove` on a name set: the key leaves, later keys move
/// down one place. Returns whether the key was present.
#[verifier::external_body]
pub fn name_set_shift_remove(m: &mut IndexMap<String, ()>, key: &str) -> (removed: bool)
    ensures
        removed == name_set_keys(*old(m)).contains(key@),
        removed ==> exists|i: int|
            0 <= i < name_set_keys(*old(m)).len() && name_set_keys(*old(m))[i] == key@
                && name_set_keys(*final(m)) == name_set_keys(*old(m)).remove(i),
        !removed ==> name_set_keys(*final(m)) == name_set_keys(*old(m)),
{
    m.shift_remove(key).is_some()
}

/// `IndexMap::new`: an empty name-to-number map.
#[verifier::external_body]
pub fn number_map_new() -> (m: IndexMap<String, u64>)
    ensures
        number_map_entries(m) == Seq::<(Seq<char>, u64)>::empty(),
{
    IndexMap::new()
}

/// `IndexMap::get_index_of` on a name-to-number map.
#[verifier::external_body]
pub fn number_map_index_of(m: &IndexMap<String, u64>, key: &str) -> (r: Option<usize>)
    ensures
        match r {
            Some(i) => i < number_map_entries(*m).len() && number_map_entries(*m)[i as int].0
                == key@,
            None => !entry_keys(number_map_entries(*m)).contains(key@),
        },
{
    m.get_index_of(key)
}

/// `IndexMap::get_index` on a name-to-number map.
#[verifier::external_body]
pub fn number_map_entry_at(m: &IndexMap<String, u64>, i: usize) -> (r: Option<(&String, u64)>)
    ensures
        match r {
            Some((k, v)) => i < number_map_entries(*m).len() && (k@, v) == number_map_entries(
                *m,
            )[i as int],
            None => i >= number_map_entries(*m).len(),
        },
{
    m.get_index(i).map(|(k, v)| (k, *v))
}

/// `IndexMap::len` of a name-to-number map.
#[verifier::external_body]
pub fn number_map_len(m: &IndexMap<String, u64>) -> (n: usize)
    ensures
        n == number_map_entries(*m).len(),
{
    m.len()
}

/// `IndexMap::insert` on a name-to-number map: a new key is appended, a
/// present key keeps its place and takes the new value.
#[verifier::external_body]
pub fn number_map_insert(m: &mut IndexMap<String, u64>, key: String, value: u64)
    ensures
        match entry_keys(number_map_entries(*old(m))).index_of_first(key@) {
            Some(i) => number_map_entries(*final(m)) == number_map_entries(*old(m)).update(
                i,
                (key@, value),
            ),
            None => number_map_entries(*final(m)) == number_map_entries(*old(m)).push(
                (key@, value),
            ),
        },
{
    m.insert(key, value);
}

/// `IndexMap::shift_remove` on a name-to-number map.
#[verifier::external_body]
pub fn number_map_shift_remove(m: &mut IndexMap<String, u64>, key: &str) -> (r: Option<u64>)
    ensures
        match entry_keys(number_map_entries(*old(m))).index_of_first(key@) {
            Some(i) => r == Some(number_map_entries(*old(m))[i].1) && number_map_entries(*final(m))
                == number_map_entries(*old(m)).remove(i),
            None => r is None && number_map_entries(*final(m)) == number_map_entries(*old(m)),
        },
{
    m.shift_remove(key)
}

/// `IndexMap::with_capacity`: an empty index-tuple-to-position map.
#[verifier::external_body]
pub fn position_map_with_capacity(n: usize) -> (m: IndexMap<Vec<usize>, usize>)
    ensures
        position_map_entries(m) == Seq::<(Seq<usize>, usize)>::empty(),
{
    IndexMap::with_capacity(n)
}

/// `IndexMap::get` on an index-tuple-to-position map.
#[verifier::external_body]
pub fn position_map_get(m: &IndexMap<Vec<usize>, usize>, key: &[usize]) -> (r: Option<usize>)
    ensures
        match entry_keys(position_map_entries(*m)).index_of_first(key@) {
            Some(i) => r == Some(position_map_entries(*m)[i].1),
            None => r is None,
        },
{
    m.get(key).copied()
}

/// `IndexMap::entry(key).or_insert(value)`: a new key is appended with
/// `value`, a present key keeps its entry.
#[verifier::external_body]
pub fn position_map_or_insert(m: &mut IndexMap<Vec<usize>, usize>, key: Vec<usize>, value: usize)
    ensures
        entry_keys(position_map_entries(*old(m))).contains(key@) ==> position_map_entries(
            *final(m),
        ) == position_map_entries(*old(m)),
        !entry_keys(position_map_entries(*old(m))).contains(key@) ==> position_map_entries(
            *final(m),
        ) == position_map_entries(*old(m)).push((key@, value)),
{
    m.entry(key).or_insert(value);
}


/// The keys of a set of name identifiers, in insertion order.
pub uninterp spec fn id_set_keys(m: IndexMap<u64, ()>) -> Seq<u64>;

/// `IndexMap::new`: an empty identifier set.
#[verifier::external_body]
pub fn id_set_new() -> (m: IndexMap<u64, ()>)
    ensures
        id_set_keys(m) == Seq::<u64>::empty(),
{
    IndexMap::new()
}

/// `IndexMap::insert_full` on an identifier set: the position of `key`,
/// appended when new, and whether it was new.
#[verifier::external_body]
pub fn id_set_insert_full(m: &mut IndexMap<u64, ()>, key: u64) -> (r: (usize, bool))
    ensures
        match id_set_keys(*old(m)).index_of_first(key) {
            Some(i) => r == (i as usize, false) && id_set_keys(*final(m)) == id_set_keys(*old(m)),
            None => r == (id_set_keys(*old(m)).len() as usize, true) && id_set_keys(*final(m))
                == id_set_keys(*old(m)).push(key),
        },
{
    let (index, previous) = m.insert_full(key, ());
    (index, previous.is_none())
}

/// `IndexMap::contains_key` on an identifier set.
#[verifier::external_body]
pub fn id_set_contains(m: &IndexMap<u64, ()>, key: u64) -> (b: bool)
    ensures
        b == id_set_keys(*m).contains(key),
{
    m.contains_key(&key)
}


/// The entries of a function table, in insertion order.
pub uninterp spec fn function_table_entries(m: IndexMap<String, FunctionSignature>) -> Seq<
    (Seq<char>, FunctionSignature),
>;

/// `IndexMap::new`: an empty function table.
#[verifier::external_body]
pub fn function_table_new() -> (m: IndexMap<String, FunctionSignature>)
    ensures
        function_table_entries(m) == Seq::<(Seq<char>, FunctionSignature)>::empty(),
{
    IndexMap::new()
}

/// `IndexMap::insert` on a function table: a new name is appended, a
/// present name keeps its place and takes the new signature.
#[verifier::external_body]
pub fn function_table_insert(m: &mut IndexMap<String, FunctionSignature>, key: String, value: FunctionSignature)
    ensures
        match entry_keys(function_table_entries(*old(m))).index_of_first(key@) {
            Some(i) => function_table_entries(*final(m)) == function_table_entries(*old(m)).update(
                i,
                (key@, value),
            ),
            None => function_table_entries(*final(m)) == function_table_entries(*old(m)).push(
                (key@, value),
            ),
        },
{
    m.insert(key, value);
}

/// `IndexMap::get_index_of` on a function table.
#[verifier::external_body]
pub fn function_table_index_of(m: &IndexMap<String, FunctionSignature>, key: &str) -> (r: Option<usize>)
    ensures
        match r {
            Some(i) => i < function_table_entries(*m).len() && function_table_entries(*m)[i as int].0
                == key@,
            None => !entry_keys(function_table_entries(*m)).contains(key@),
        },
{
    m.get_index_of(key)
}

/// `IndexMap::get_index` on a function table: the signature at position `i`.
#[verifier::external_body]
pub fn function_table_value_at(m: &IndexMap<String, FunctionSignature>, i: usize) -> (r: Option<&FunctionSignature>)
    ensures
        match r {
            Some(f) => i < function_table_entries(*m).len() && *f == function_table_entries(*m)[i as int].1,
            None => i >= function_table_entries(*m).len(),
        },
{
    m.get_index(i).map(|(_, f)| f)
}

} // verus!
