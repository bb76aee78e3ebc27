//! Concurrent hash tables of the `dashmap` crate, and what each of their
//! operations does to the entries they hold.

use dashmap::DashMap;
use vstd::prelude::*;

verus! {

/// `dashmap::DashMap`: a sharded concurrent hash table.
#[verifier::external_type_specification]
#[verifier::external_body]
#[verifier::reject_recursive_types(K)]
#[verifier::reject_recursive_types(V)]
#[verifier::reject_recursive_types(S)]
pub struct ExDashMap<K, V, S>(DashMap<K, V, S>);

/// The entries of a table keyed by stream id.
pub uninterp spec fn lanes_by_id(table: DashMap<u32, usize>) -> Map<u32, usize>;

/// The entries of a table keyed by bytes.
pub uninterp spec fn entries(table: DashMap<Vec<u8>, u64>) -> Map<Seq<u8>, u64>;

/// No entry keyed by stream id.
pub open spec fn no_lanes() -> Map<u32, usize> {
    Map::empty()
}

/// No entry keyed by bytes.
pub open spec fn no_entries() -> Map<Seq<u8>, u64> {
    Map::empty()
}

/// `DashMap::new`, keyed by stream id: no entry.
#[verifier::external_body]
pub(crate) fn new_lanes() -> (table: DashMap<u32, usize>)
    ensures
        lanes_by_id(table) == no_lanes(),
{
    DashMap::new()
}

/// `DashMap::get` by stream id: a copy of the value, if the key is there.
#[verifier::external_body]
pub(crate) fn get_lane(table: &DashMap<u32, usize>, id: u32) -> (lane: Option<usize>)
    ensures
        lane == (if lanes_by_id(*table).contains_key(id) {
            Some(lanes_by_id(*table)[id])
        } else {
            None
        }),
{
    table.get(&id).map(|entry| *entry)
}

/// `DashMap::insert` by stream id: the key now has this value, whatever it had.
#[verifier::external_body]
pub(crate) fn insert_lane(table: &mut DashMap<u32, usize>, id: u32, lane: usize)
    ensures
        lanes_by_id(*final(table)) == lanes_by_id(*old(table)).insert(id, lane),
{
    table.insert(id, lane);
}

/// `DashMap::remove` by stream id: the entry leaves, if it was there.
#[verifier::external_body]
pub(crate) fn remove_lane(table: &mut DashMap<u32, usize>, id: u32)
    ensures
        lanes_by_id(*final(table)) == lanes_by_id(*old(table)).remove(id),
{
    table.remove(&id);
}

/// `DashMap::len`, keyed by stream id: the number of entries.
#[verifier::external_body]
pub(crate) fn count_lanes(table: &DashMap<u32, usize>) -> (n: usize)
    ensures
        n == lanes_by_id(*table).len(),
{
    table.len()
}

/// `DashMap::clear`, keyed by stream id: no entry stays.
#[verifier::external_body]
pub(crate) fn clear_lanes(table: &mut DashMap<u32, usize>)
    ensures
        lanes_by_id(*final(table)) == no_lanes(),
{
    table.clear()
}

/// `DashMap::new`, keyed by bytes: no entry.
#[verifier::external_body]
pub(crate) fn new_table() -> (table: DashMap<Vec<u8>, u64>)
    ensures
        entries(table) == no_entries(),
{
    DashMap::new()
}

/// `DashMap::get` by bytes: a copy of the value, if the key is there. Two byte
/// strings are one key exactly when they hold the same bytes.
#[verifier::external_body]
pub(crate) fn get(table: &DashMap<Vec<u8>, u64>, key: &[u8]) -> (value: Option<u64>)
    ensures
        value == (if entries(*table).contains_key(key@) {
            Some(entries(*table)[key@])
        } else {
            None
        }),
{
    table.get(key).map(|entry| *entry)
}

/// `DashMap::insert` by bytes: the key now has this value; the value it had
/// before comes back.
#[verifier::external_body]
pub(crate) fn insert(table: &mut DashMap<Vec<u8>, u64>, key: &[u8], value: u64) -> (before: Option<
    u64,
>)
    ensures
        entries(*final(table)) == entries(*old(table)).insert(key@, value),
        before == (if entries(*old(table)).contains_key(key@) {
            Some(entries(*old(table))[key@])
        } else {
            None
        }),
{
    table.insert(key.to_vec(), value)
}

/// `DashMap::remove` by bytes: the entry leaves, if it was there.
#[verifier::external_body]
pub(crate) fn remove(table: &mut DashMap<Vec<u8>, u64>, key: &[u8])
    ensures
        entries(*final(table)) == entries(*old(table)).remove(key@),
{
    table.remove(key);
}

} // verus!
