//! The hash map and the hash set that the node stores are built on.
//!
//! Field elements enter them by their two halves.

use vstd::prelude::*;

verus! {

/// A `hashbrown::HashMap` from the halves of field elements to positions.
#[verifier::external_body]
#[derive(Debug)]
pub struct PositionMap {
    inner: hashbrown::HashMap<(u128, u128), usize>,
}

/// What a [`PositionMap`] holds.
pub uninterp spec fn position_map_contents(map: PositionMap) -> Map<(u128, u128), usize>;

impl View for PositionMap {
    type V = Map<(u128, u128), usize>;

    open spec fn view(&self) -> Map<(u128, u128), usize> {
        position_map_contents(*self)
    }
}

impl PositionMap {
    /// Calls `hashbrown::HashMap::new`, which gives a map without entries.
    #[verifier::external_body]
    pub(crate) fn new() -> (r: PositionMap)
        ensures
            position_map_contents(r) =~= Map::empty(),
    {
        PositionMap { inner: hashbrown::HashMap::new() }
    }

    /// Calls `hashbrown::HashMap::get`, which gives the value held under the key, if there is
    /// one.
    #[verifier::external_body]
    pub(crate) fn get(&self, key: (u128, u128)) -> (r: Option<usize>)
        ensures
            r is Some <==> position_map_contents(*self).contains_key(key),
            r matches Some(position) ==> position == position_map_contents(*self)[key],
    {
        self.inner.get(&key).copied()
    }

    /// Calls `hashbrown::HashMap::insert`, which puts the value under the key, in place of any
    /// value held there before.
    #[verifier::external_body]
    pub(crate) fn insert(&mut self, key: (u128, u128), position: usize)
        ensures
            position_map_contents(*final(self)) == position_map_contents(*old(self)).insert(
                key,
                position,
            ),
    {
        self.inner.insert(key, position);
    }
}

/// A `hashbrown::HashSet` of the halves of field elements.
#[verifier::external_body]
pub struct FeltSet {
    inner: hashbrown::HashSet<(u128, u128)>,
}

/// What a [`FeltSet`] holds.
pub uninterp spec fn felt_set_contents(set: FeltSet) -> Set<(u128, u128)>;

impl View for FeltSet {
    type V = Set<(u128, u128)>;

    open spec fn view(&self) -> Set<(u128, u128)> {
        felt_set_contents(*self)
    }
}

impl FeltSet {
    /// Calls `hashbrown::HashSet::new`, which gives a set without items.
    #[verifier::external_body]
    pub(crate) fn new() -> (r: FeltSet)
        ensures
            felt_set_contents(r) =~= Set::empty(),
    {
        FeltSet { inner: hashbrown::HashSet::new() }
    }

    /// Calls `hashbrown::HashSet::contains`, which tells whether the item is in the set.
    #[verifier::external_body]
    pub(crate) fn contains(&self, key: (u128, u128)) -> (r: bool)
        ensures
            r == felt_set_contents(*self).contains(key),
    {
        self.inner.contains(&key)
    }

    /// Calls `hashbrown::HashSet::insert`, which adds the item to the set.
    #[verifier::external_body]
    pub(crate) fn insert(&mut self, key: (u128, u128))
        ensures
            felt_set_contents(*final(self)) == felt_set_contents(*old(self)).insert(key),
    {
        self.inner.insert(key);
    }
}

} // verus!
