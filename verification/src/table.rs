//! Hashed name tables.
//!
//! The index and the resolver keep their bookkeeping in `hashbrown`'s hash
//! map and hash set, keyed by byte strings. The two types here hold those
//! collections behind contracts over a mathematical `Map` and `Set` view;
//! the contracts state what `hashbrown` documents of `new`, `insert`, `get`,
//! `contains_key` and `contains`, with keys compared by value.

use vstd::prelude::*;

verus! {

/// A map from byte-string names to file indices, backed by
/// `hashbrown::HashMap`.
#[verifier::external_body]
pub struct NameMap {
    inner: hashbrown::HashMap<Vec<u8>, usize>,
}

/// What a [`NameMap`] holds: each present name mapped to its value.
pub uninterp spec fn name_map_view(m: NameMap) -> Map<Seq<u8>, usize>;

/// The map with no names.
pub open spec fn empty_name_map() -> Map<Seq<u8>, usize> {
    Map::empty()
}

/// The set with no names.
pub open spec fn empty_name_set() -> Set<Seq<u8>> {
    Set::empty()
}

impl NameMap {
    /// Relies on `hashbrown::HashMap::new`: the new map is empty.
    #[verifier::external_body]
    pub fn new() -> (r: NameMap)
        ensures
            name_map_view(r) == empty_name_map(),
    {
        NameMap { inner: hashbrown::HashMap::new() }
    }

    /// Relies on `hashbrown::HashMap::insert`: after the call the key holds
    /// the given value and every other key is as before.
    #[verifier::external_body]
    pub fn insert(&mut self, k: Vec<u8>, v: usize)
        ensures
            name_map_view(*final(self)) == name_map_view(*old(self)).insert(k@, v),
    {
        self.inner.insert(k, v);
    }

    /// Relies on `hashbrown::HashMap::contains_key`, with keys compared by
    /// value.
    #[verifier::external_body]
    pub fn contains_key(&self, k: &Vec<u8>) -> (r: bool)
        ensures
            r == name_map_view(*self).contains_key(k@),
    {
        self.inner.contains_key(k)
    }

    /// Relies on `hashbrown::HashMap::get`: the value the key was inserted
    /// with, or `None` for an absent key.
    #[verifier::external_body]
    pub fn get(&self, k: &Vec<u8>) -> (r: Option<usize>)
        ensures
            match r {
                Some(v) => name_map_view(*self).contains_key(k@) && name_map_view(*self)[k@]
                    == v,
                None => !name_map_view(*self).contains_key(k@),
            },
    {
        self.inner.get(k).copied()
    }
}

/// A set of byte-string names, backed by `hashbrown::HashSet`.
#[verifier::external_body]
pub struct NameSet {
    inner: hashbrown::HashSet<Vec<u8>>,
}

/// What a [`NameSet`] holds.
pub uninterp spec fn name_set_view(s: NameSet) -> Set<Seq<u8>>;

impl NameSet {
    /// Relies on `hashbrown::HashSet::new`: the new set is empty.
    #[verifier::external_body]
    pub fn new() -> (r: NameSet)
        ensures
            name_set_view(r) == empty_name_set(),
    {
        NameSet { inner: hashbrown::HashSet::new() }
    }

    /// Relies on `hashbrown::HashSet::insert`: the value is in the set after
    /// the call, nothing else changes, and the result says whether it was
    /// newly added.
    #[verifier::external_body]
    pub fn insert(&mut self, k: Vec<u8>) -> (r: bool)
        ensures
            name_set_view(*final(self)) == name_set_view(*old(self)).insert(k@),
            r == !name_set_view(*old(self)).contains(k@),
    {
        self.inner.insert(k)
    }

    /// Relies on `hashbrown::HashSet::contains`, with values compared by
    /// value.
    #[verifier::external_body]
    pub fn contains(&self, k: &Vec<u8>) -> (r: bool)
        ensures
            r == name_set_view(*self).contains(k@),
    {
        self.inner.contains(k)
    }
}

} // verus!
