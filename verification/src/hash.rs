//! The hash collections of the tile map, kept in `bevy_utils`' hash set and hash map.
//!
//! Bevy's collections are hashbrown tables with an aHash state. The verifier does not look
//! inside them: what they hold is named by `coord_set_contents`, `coord_map_contents`,
//! `handle_set_contents` and `tile_kind_map_contents`, and the functions below state, without
//! proof, what each table operation does to it. Keys are plain integers: triples
//! `(x, y, layer)` and asset handles.

use crate::tile_map::TileKind;
use bevy_utils::{HashMap, HashSet};
use vstd::prelude::*;

verus! {

/// A set of integer triples in a `bevy_utils::HashSet`.
#[verifier::external_body]
pub struct CoordSet {
    inner: HashSet<(u32, u32, u32)>,
}

/// A map from integer triples to record numbers in a `bevy_utils::HashMap`.
#[verifier::external_body]
pub struct CoordMap {
    inner: HashMap<(u32, u32, u32), usize>,
}

/// A set of asset handles in a `bevy_utils::HashSet`.
#[verifier::external_body]
pub struct HandleSet {
    inner: HashSet<u64>,
}

/// The handles that a `HandleSet` holds.
pub uninterp spec fn handle_set_contents(s: HandleSet) -> Set<u64>;

/// A map from integer triples to tile kinds in a `bevy_utils::HashMap`.
#[verifier::external_body]
pub struct TileKindMap {
    inner: HashMap<(u32, u32, u32), TileKind>,
}

/// The entries that a `TileKindMap` holds.
pub uninterp spec fn tile_kind_map_contents(m: TileKindMap) -> Map<(u32, u32, u32), TileKind>;

/// The triples that a `CoordSet` holds.
pub uninterp spec fn coord_set_contents(s: CoordSet) -> Set<(u32, u32, u32)>;

/// The entries that a `CoordMap` holds.
pub uninterp spec fn coord_map_contents(m: CoordMap) -> Map<(u32, u32, u32), usize>;

/// `HashSet::default`: a new table holds nothing.
#[verifier::external_body]
pub(crate) fn coord_set_new() -> (s: CoordSet)
    ensures
        coord_set_contents(s) == Set::<(u32, u32, u32)>::empty(),
{
    CoordSet { inner: HashSet::default() }
}

/// `HashSet::insert`: the key is in the set afterwards and nothing else changes; the result
/// tells whether the key was absent before.
#[verifier::external_body]
pub(crate) fn coord_set_insert(s: &mut CoordSet, key: (u32, u32, u32)) -> (fresh: bool)
    ensures
        coord_set_contents(*final(s)) == coord_set_contents(*old(s)).insert(key),
        fresh == !coord_set_contents(*old(s)).contains(key),
{
    s.inner.insert(key)
}

/// `HashSet::contains`: membership of the key.
#[verifier::external_body]
pub(crate) fn coord_set_contains(s: &CoordSet, key: (u32, u32, u32)) -> (found: bool)
    ensures
        found == coord_set_contents(*s).contains(key),
{
    s.inner.contains(&key)
}

/// `HashSet::is_empty`: whether the set holds no key.
#[verifier::external_body]
pub(crate) fn coord_set_is_empty(s: &CoordSet) -> (empty: bool)
    ensures
        empty == (coord_set_contents(*s) == Set::<(u32, u32, u32)>::empty()),
{
    s.inner.is_empty()
}

/// `HashSet::drain`, collected: the set is left empty, and every key it held comes out exactly
/// once, in an order that the table chooses.
#[verifier::external_body]
pub(crate) fn coord_set_drain(s: &mut CoordSet) -> (keys: Vec<(u32, u32, u32)>)
    ensures
        coord_set_contents(*final(s)) == Set::<(u32, u32, u32)>::empty(),
        keys@.no_duplicates(),
        forall|k: (u32, u32, u32)| keys@.contains(k) <==> coord_set_contents(*old(s)).contains(k),
{
    s.inner.drain().collect()
}

/// `HashMap::default`: a new table holds nothing.
#[verifier::external_body]
pub(crate) fn coord_map_new() -> (m: CoordMap)
    ensures
        coord_map_contents(m).dom() == Set::<(u32, u32, u32)>::empty(),
{
    CoordMap { inner: HashMap::default() }
}

/// `HashMap::get`, copied out: the value stored under the key, if there is one.
#[verifier::external_body]
pub(crate) fn coord_map_get(m: &CoordMap, key: (u32, u32, u32)) -> (value: Option<usize>)
    ensures
        value == (if coord_map_contents(*m).contains_key(key) {
            Some(coord_map_contents(*m)[key])
        } else {
            None
        }),
{
    m.inner.get(&key).copied()
}

/// `HashMap::insert`: the key maps to the value afterwards and no other entry changes; the
/// result is the value that the key had before.
#[verifier::external_body]
pub(crate) fn coord_map_insert(m: &mut CoordMap, key: (u32, u32, u32), value: usize) -> (previous: Option<usize>)
    ensures
        coord_map_contents(*final(m)) == coord_map_contents(*old(m)).insert(key, value),
        previous == (if coord_map_contents(*old(m)).contains_key(key) {
            Some(coord_map_contents(*old(m))[key])
        } else {
            None
        }),
{
    m.inner.insert(key, value)
}

/// `HashSet::default`: a new table holds nothing.
#[verifier::external_body]
pub(crate) fn handle_set_new() -> (s: HandleSet)
    ensures
        handle_set_contents(s) == Set::<u64>::empty(),
{
    HandleSet { inner: HashSet::default() }
}

/// `HashSet::insert`: the handle is in the set afterwards and nothing else changes; the result
/// tells whether the handle was absent before.
#[verifier::external_body]
pub(crate) fn handle_set_insert(s: &mut HandleSet, handle: u64) -> (fresh: bool)
    ensures
        handle_set_contents(*final(s)) == handle_set_contents(*old(s)).insert(handle),
        fresh == !handle_set_contents(*old(s)).contains(handle),
{
    s.inner.insert(handle)
}

/// `HashSet::contains`: membership of the handle.
#[verifier::external_body]
pub(crate) fn handle_set_contains(s: &HandleSet, handle: u64) -> (found: bool)
    ensures
        found == handle_set_contents(*s).contains(handle),
{
    s.inner.contains(&handle)
}

impl HandleSet {
    /// The handles in the set.
    pub open spec fn view(&self) -> Set<u64> {
        handle_set_contents(*self)
    }

    /// The empty set.
    pub fn new() -> (s: HandleSet)
        ensures
            s@ == Set::<u64>::empty(),
    {
        handle_set_new()
    }

    /// Adds a handle; tells whether it was absent before.
    pub fn insert(&mut self, handle: u64) -> (fresh: bool)
        ensures
            final(self)@ == old(self)@.insert(handle),
            fresh == !old(self)@.contains(handle),
    {
        handle_set_insert(self, handle)
    }

    pub fn contains(&self, handle: u64) -> (found: bool)
        ensures
            found == self@.contains(handle),
    {
        handle_set_contains(self, handle)
    }
}

/// `HashMap::default`: a new table holds nothing.
#[verifier::external_body]
pub(crate) fn tile_kind_map_new() -> (m: TileKindMap)
    ensures
        tile_kind_map_contents(m).dom() == Set::<(u32, u32, u32)>::empty(),
{
    TileKindMap { inner: HashMap::default() }
}

/// `HashMap::insert`: the key maps to the kind afterwards and no other entry changes; the
/// result is the kind that the key had before.
#[verifier::external_body]
pub(crate) fn tile_kind_map_insert(m: &mut TileKindMap, key: (u32, u32, u32), kind: TileKind) -> (previous: Option<TileKind>)
    ensures
        tile_kind_map_contents(*final(m)) == tile_kind_map_contents(*old(m)).insert(key, kind),
        previous == (if tile_kind_map_contents(*old(m)).contains_key(key) {
            Some(tile_kind_map_contents(*old(m))[key])
        } else {
            None
        }),
{
    m.inner.insert(key, kind)
}

/// `HashMap::iter`, copied out: every entry of the map exactly once, in an order that the
/// table chooses.
#[verifier::external_body]
pub(crate) fn tile_kind_map_entries(m: &TileKindMap) -> (entries: Vec<((u32, u32, u32), TileKind)>)
    ensures
        forall|i: int, j: int|
            0 <= i < j < entries@.len() ==> entries@[i].0 != entries@[j].0,
        forall|i: int|
            0 <= i < entries@.len() ==> tile_kind_map_contents(*m).contains_key(
                (#[trigger] entries@[i]).0,
            ) && tile_kind_map_contents(*m)[entries@[i].0] == entries@[i].1,
        forall|key: (u32, u32, u32)|
            tile_kind_map_contents(*m).contains_key(key) ==> exists|i: int|
                0 <= i < entries@.len() && (#[trigger] entries@[i]).0 == key,
{
    m.inner.iter().map(|(key, kind)| (*key, *kind)).collect()
}

/// `HashMap::eq`: two maps are equal where they hold the same kinds under the same keys.
#[verifier::external_body]
pub(crate) fn tile_kind_map_eq(a: &TileKindMap, b: &TileKindMap) -> (equal: bool)
    ensures
        equal == (tile_kind_map_contents(*a) == tile_kind_map_contents(*b)),
{
    a.inner == b.inner
}

impl TileKindMap {
    /// The entries of the map.
    pub open spec fn view(&self) -> Map<(u32, u32, u32), TileKind> {
        tile_kind_map_contents(*self)
    }

    /// The empty map.
    pub fn new() -> (m: TileKindMap)
        ensures
            m@.dom() == Set::<(u32, u32, u32)>::empty(),
    {
        tile_kind_map_new()
    }

    /// Sets the kind under a key; returns the kind that the key had before.
    pub fn insert(&mut self, key: (u32, u32, u32), kind: TileKind) -> (previous: Option<TileKind>)
        ensures
            final(self)@ == old(self)@.insert(key, kind),
            previous == (if old(self)@.contains_key(key) {
                Some(old(self)@[key])
            } else {
                None
            }),
    {
        tile_kind_map_insert(self, key, kind)
    }
}

} // verus!
