//! The concurrent maps behind the index, with what their operations do.
//!
//! Each map is a `dashmap::DashMap`. What a map holds is named by a spec
//! function of the map, and every operation the index performs on a map is
//! a small function here whose contract says how it changes those contents.

use vstd::prelude::*;
use dashmap::DashMap;
use crate::index::{ModuleInfo, Symbol};

verus! {

#[verifier::external_type_specification]
#[verifier::external_body]
#[verifier::reject_recursive_types(K)]
#[verifier::reject_recursive_types(V)]
#[verifier::reject_recursive_types(S)]
pub struct ExDashMap<K, V, S>(DashMap<K, V, S>);

/// The views of a list of strings.
pub open spec fn string_views(v: Seq<String>) -> Seq<Seq<char>> {
    v.map_values(|s: String| s@)
}

// ---------------------------------------------------------------------------
// name or package -> symbols

/// What a map from names to symbol lists holds, keyed by the name's characters.
pub uninterp spec fn symbol_lists(m: DashMap<String, Vec<Symbol>>) -> Map<Seq<char>, Seq<Symbol>>;

/// `DashMap::with_capacity`: the new map holds nothing.
#[verifier::external_body]
pub(crate) fn new_symbol_lists(capacity: usize) -> (lists: DashMap<String, Vec<Symbol>>)
    ensures
        symbol_lists(lists) =~= Map::empty(),
{
    DashMap::with_capacity(capacity)
}

/// `DashMap::get`: the list stored under `key`, copied out, if there is one.
#[verifier::external_body]
pub(crate) fn symbol_lists_get(lists: &DashMap<String, Vec<Symbol>>, key: &str) -> (found: Option<Vec<Symbol>>)
    ensures
        found.is_some() == symbol_lists(*lists).contains_key(key@),
        found.is_some() ==> found.unwrap()@ == symbol_lists(*lists)[key@],
{
    match lists.get(key) {
        Some(entry) => Some(entry.value().clone()),
        None => None,
    }
}

/// `DashMap::insert`: stores `value` under `key`, replacing what was there.
#[verifier::external_body]
pub(crate) fn symbol_lists_insert(lists: &mut DashMap<String, Vec<Symbol>>, key: String, value: Vec<Symbol>)
    ensures
        symbol_lists(*final(lists)) == symbol_lists(*old(lists)).insert(key@, value@),
{
    lists.insert(key, value);
}

/// `DashMap::remove`: takes the list stored under `key` out of the map.
#[verifier::external_body]
pub(crate) fn symbol_lists_remove(lists: &mut DashMap<String, Vec<Symbol>>, key: &str) -> (removed: Option<Vec<Symbol>>)
    ensures
        symbol_lists(*final(lists)) == symbol_lists(*old(lists)).remove(key@),
        removed.is_some() == symbol_lists(*old(lists)).contains_key(key@),
        removed.is_some() ==> removed.unwrap()@ == symbol_lists(*old(lists))[key@],
{
    match lists.remove(key) {
        Some((_, value)) => Some(value),
        None => None,
    }
}

/// `DashMap::len`: the number of keys.
#[verifier::external_body]
pub(crate) fn symbol_lists_len(lists: &DashMap<String, Vec<Symbol>>) -> (count: usize)
    ensures
        count == symbol_lists(*lists).dom().len(),
{
    lists.len()
}

/// `DashMap::is_empty`: whether there is no key.
#[verifier::external_body]
pub(crate) fn symbol_lists_is_empty(lists: &DashMap<String, Vec<Symbol>>) -> (empty: bool)
    ensures
        empty == (symbol_lists(*lists).dom().len() == 0),
{
    lists.is_empty()
}

/// `DashMap::iter`, keeping the keys: every key once, in the map's own order.
#[verifier::external_body]
pub(crate) fn symbol_lists_keys(lists: &DashMap<String, Vec<Symbol>>) -> (keys: Vec<String>)
    ensures
        string_views(keys@).no_duplicates(),
        string_views(keys@).to_set() == symbol_lists(*lists).dom(),
{
    lists.iter().map(|entry| entry.key().clone()).collect()
}

// ---------------------------------------------------------------------------
// first character -> names

/// What a map from a first character to names holds.
pub uninterp spec fn prefix_lists(m: DashMap<char, Vec<String>>) -> Map<char, Seq<Seq<char>>>;

/// `DashMap::new`: the new map holds nothing.
#[verifier::external_body]
pub(crate) fn new_prefix_lists() -> (lists: DashMap<char, Vec<String>>)
    ensures
        prefix_lists(lists) =~= Map::empty(),
{
    DashMap::new()
}

/// `DashMap::get`: the names stored under `key`, copied out, if there are any.
#[verifier::external_body]
pub(crate) fn prefix_lists_get(lists: &DashMap<char, Vec<String>>, key: char) -> (found: Option<Vec<String>>)
    ensures
        found.is_some() == prefix_lists(*lists).contains_key(key),
        found.is_some() ==> string_views(found.unwrap()@) == prefix_lists(*lists)[key],
{
    match lists.get(&key) {
        Some(entry) => Some(entry.value().clone()),
        None => None,
    }
}

/// `DashMap::insert`: stores `value` under `key`, replacing what was there.
#[verifier::external_body]
pub(crate) fn prefix_lists_insert(lists: &mut DashMap<char, Vec<String>>, key: char, value: Vec<String>)
    ensures
        prefix_lists(*final(lists)) == prefix_lists(*old(lists)).insert(key, string_views(value@)),
{
    lists.insert(key, value);
}

/// `DashMap::remove`: takes the names stored under `key` out of the map.
#[verifier::external_body]
pub(crate) fn prefix_lists_remove(lists: &mut DashMap<char, Vec<String>>, key: char) -> (removed: Option<Vec<String>>)
    ensures
        prefix_lists(*final(lists)) == prefix_lists(*old(lists)).remove(key),
        removed.is_some() == prefix_lists(*old(lists)).contains_key(key),
        removed.is_some() ==> string_views(removed.unwrap()@) == prefix_lists(*old(lists))[key],
{
    match lists.remove(&key) {
        Some((_, value)) => Some(value),
        None => None,
    }
}

// ---------------------------------------------------------------------------
// module path -> module record

/// What a map from module paths to module records holds.
pub uninterp spec fn module_records(m: DashMap<String, ModuleInfo>) -> Map<Seq<char>, ModuleInfo>;

/// `DashMap::new`: the new map holds nothing.
#[verifier::external_body]
pub(crate) fn new_module_records() -> (records: DashMap<String, ModuleInfo>)
    ensures
        module_records(records) =~= Map::empty(),
{
    DashMap::new()
}

/// `DashMap::insert`: stores `value` under `key`, replacing what was there.
#[verifier::external_body]
pub(crate) fn module_records_insert(records: &mut DashMap<String, ModuleInfo>, key: String, value: ModuleInfo)
    ensures
        module_records(*final(records)) == module_records(*old(records)).insert(key@, value),
{
    records.insert(key, value);
}

/// `DashMap::remove`: drops the record stored under `key`.
#[verifier::external_body]
pub(crate) fn module_records_remove(records: &mut DashMap<String, ModuleInfo>, key: &str)
    ensures
        module_records(*final(records)) == module_records(*old(records)).remove(key@),
{
    records.remove(key);
}

/// `DashMap::len`: the number of keys.
#[verifier::external_body]
pub(crate) fn module_records_len(records: &DashMap<String, ModuleInfo>) -> (count: usize)
    ensures
        count == module_records(*records).dom().len(),
{
    records.len()
}

/// `DashMap::iter`, keeping the records: every entry once, in the map's own order.
#[verifier::external_body]
pub(crate) fn module_records_entries(records: &DashMap<String, ModuleInfo>) -> (entries: Vec<(String, ModuleInfo)>)
    ensures
        entries@.map_values(|e: (String, ModuleInfo)| e.0@).no_duplicates(),
        entries@.map_values(|e: (String, ModuleInfo)| e.0@).to_set() == module_records(*records).dom(),
        forall|i: int| 0 <= i < entries@.len() ==> module_records(*records)[#[trigger] entries@[i].0@] == entries@[i].1,
{
    records.iter().map(|entry| (entry.key().clone(), entry.value().clone())).collect()
}

} // verus!
