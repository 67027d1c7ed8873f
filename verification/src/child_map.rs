//! Which nodes a pair of choices leads to.

use dashmap::DashMap;
use foldhash::fast::RandomState;
use std::collections::HashMap;
use vstd::prelude::*;

verus! {

/// The number under which the children of a node are filed, for a pair of choices.
pub open spec fn spec_child_key(node: u32, s1_index: u8, s2_index: u8) -> int {
    node * 0x1_0000 + s1_index * 0x100 + s2_index
}

/// The number under which the children of a node are filed, for a pair of choices.
pub fn child_key(node: u32, s1_index: u8, s2_index: u8) -> (r: u64)
    ensures
        r == spec_child_key(node, s1_index, s2_index),
{
    node as u64 * 0x1_0000 + s1_index as u64 * 0x100 + s2_index as u64
}

/// No two pairs of choices share a number, and no two nodes do.
pub proof fn child_keys_differ(a: (u32, u8, u8), b: (u32, u8, u8))
    ensures
        spec_child_key(a.0, a.1, a.2) == spec_child_key(b.0, b.1, b.2) ==> a == b,
{
}

/// A map from the numbers of [`child_key`] to slices of nodes, each given by its first handle and
/// its length.
pub trait ChildMap {
    /// What is filed under each number.
    spec fn entries(&self) -> Map<u64, (u32, u32)>;

    /// A number that is in use keeps what is filed under it.
    spec fn keeps_first() -> bool;

    /// What is filed under a number.
    fn find(&self, key: u64) -> (r: Option<(u32, u32)>)
        ensures
            r == (if self.entries().contains_key(key) {
                Some(self.entries()[key])
            } else {
                None
            }),
    ;

    /// Files a slice, and returns the slice that is then filed under the number.
    fn file(&mut self, key: u64, slice: (u32, u32)) -> (r: (u32, u32))
        ensures
            Self::keeps_first() && old(self).entries().contains_key(key) ==> {
                &&& r == old(self).entries()[key]
                &&& final(self).entries() == old(self).entries()
            },
            !(Self::keeps_first() && old(self).entries().contains_key(key)) ==> {
                &&& r == slice
                &&& final(self).entries() == old(self).entries().insert(key, slice)
            },
    ;
}

/// `foldhash::fast::RandomState`, the hasher of both maps. Nothing is known of its seed.
#[verifier::external_type_specification]
#[verifier::external_body]
pub struct ExRandomState(RandomState);

/// `dashmap::DashMap`, a map that threads can share.
#[verifier::external_type_specification]
#[verifier::external_body]
#[verifier::reject_recursive_types(K)]
#[verifier::reject_recursive_types(V)]
#[verifier::reject_recursive_types(S)]
pub struct ExDashMap<K, V, S>(DashMap<K, V, S>);

/// What a `DashMap` holds, while nothing else has access to it.
pub uninterp spec fn dash_entries(map: DashMap<u64, (u32, u32), RandomState>) -> Map<
    u64,
    (u32, u32),
>;

/// Calls `foldhash::HashMapExt::new`: a map that holds nothing.
#[verifier::external_body]
fn hash_new() -> (r: HashMap<u64, (u32, u32), RandomState>)
    ensures
        r@.dom().is_empty(),
{
    foldhash::HashMapExt::new()
}

/// Calls `HashMap::get` on a map with the hasher of `foldhash`, which gives equal integers equal
/// hashes: the value under a key, if there is one.
#[verifier::external_body]
fn hash_get(map: &HashMap<u64, (u32, u32), RandomState>, key: u64) -> (r: Option<(u32, u32)>)
    ensures
        r == (if map@.contains_key(key) { Some(map@[key]) } else { None }),
{
    map.get(&key).copied()
}

/// Calls `HashMap::insert` on a map with the hasher of `foldhash`, which gives equal integers
/// equal hashes: the value is then the only one under its key, and no other key is touched.
#[verifier::external_body]
fn hash_insert(map: &mut HashMap<u64, (u32, u32), RandomState>, key: u64, value: (u32, u32))
    ensures
        final(map)@ == old(map)@.insert(key, value),
{
    map.insert(key, value);
}

/// Calls `DashMap::with_capacity_and_hasher` with a hasher of `foldhash`: a map that holds
/// nothing.
#[verifier::external_body]
fn dash_new(capacity: usize) -> (r: DashMap<u64, (u32, u32), RandomState>)
    requires
        capacity <= 0x1_0000,
    ensures
        dash_entries(r).dom().is_empty(),
{
    DashMap::with_capacity_and_hasher(capacity, RandomState::default())
}

/// Calls `DashMap::get`, and copies the value out of the guard: the value under a key, if there
/// is one. Guards live no longer than a call, so the shard is not locked.
#[verifier::external_body]
fn dash_get(map: &DashMap<u64, (u32, u32), RandomState>, key: u64) -> (r: Option<(u32, u32)>)
    ensures
        r == (if dash_entries(*map).contains_key(key) {
            Some(dash_entries(*map)[key])
        } else {
            None
        }),
{
    map.get(&key).map(|guard| *guard.value())
}

/// Calls `DashMap::entry` and `Entry::or_insert`, and copies the value out of the guard: a key
/// that is in use keeps its value, any other gets this one; no other key is touched, and the
/// value that is then under the key is returned.
#[verifier::external_body]
fn dash_or_insert(
    map: &mut DashMap<u64, (u32, u32), RandomState>,
    key: u64,
    value: (u32, u32),
) -> (r: (u32, u32))
    ensures
        dash_entries(*final(map)) == (if dash_entries(*old(map)).contains_key(key) {
            dash_entries(*old(map))
        } else {
            dash_entries(*old(map)).insert(key, value)
        }),
        r == dash_entries(*final(map))[key],
{
    *map.entry(key).or_insert(value).value()
}

/// The map of a search that runs alone: what is filed last stays.
pub struct LocalChildMap {
    map: HashMap<u64, (u32, u32), RandomState>,
}

impl LocalChildMap {
    /// A map that holds nothing.
    pub fn new() -> (r: Self)
        ensures
            r.entries().dom().is_empty(),
    {
        LocalChildMap { map: hash_new() }
    }
}

impl ChildMap for LocalChildMap {
    closed spec fn entries(&self) -> Map<u64, (u32, u32)> {
        self.map@
    }

    open spec fn keeps_first() -> bool {
        false
    }

    fn find(&self, key: u64) -> (r: Option<(u32, u32)>) {
        hash_get(&self.map, key)
    }

    fn file(&mut self, key: u64, slice: (u32, u32)) -> (r: (u32, u32)) {
        hash_insert(&mut self.map, key, slice);
        slice
    }
}

/// The map of a search that several workers share: what is filed first stays.
pub struct SharedChildMap {
    map: DashMap<u64, (u32, u32), RandomState>,
}

impl SharedChildMap {
    /// A map that holds nothing, with room for `capacity` numbers.
    pub fn new(capacity: usize) -> (r: Self)
        requires
            capacity <= 0x1_0000,
        ensures
            r.entries().dom().is_empty(),
    {
        SharedChildMap { map: dash_new(capacity) }
    }
}

impl ChildMap for SharedChildMap {
    closed spec fn entries(&self) -> Map<u64, (u32, u32)> {
        dash_entries(self.map)
    }

    open spec fn keeps_first() -> bool {
        true
    }

    fn find(&self, key: u64) -> (r: Option<(u32, u32)>) {
        dash_get(&self.map, key)
    }

    fn file(&mut self, key: u64, slice: (u32, u32)) -> (r: (u32, u32)) {
        dash_or_insert(&mut self.map, key, slice)
    }
}

} // verus!
