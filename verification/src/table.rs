//! The key index of one store shard: a hash table from key to slot position,
//! kept behind a small trusted boundary around an outside hash map.
use vstd::prelude::*;

verus! {

/// A hash table mapping each stored key to the position of its entry in the
/// shard's slot vector. The table itself is outside code; everything proved
/// about the shard rests on the contracts of the five methods below.
#[verifier::external_body]
pub struct KeyTable {
    map: hashbrown::HashMap<u64, usize>,
}

/// What the table holds: a finite map from key to slot position.
pub uninterp spec fn key_table_entries(t: KeyTable) -> Map<u64, usize>;

impl KeyTable {
    pub open spec fn view(&self) -> Map<u64, usize> {
        key_table_entries(*self)
    }

    /// Relies on hashbrown::HashMap::with_capacity: a fresh map, holding
    /// nothing, with room preallocated for `capacity` keys.
    #[verifier::external_body]
    pub fn with_capacity(capacity: usize) -> (r: KeyTable)
        ensures
            key_table_entries(r).dom() == Set::<u64>::empty(),
    {
        KeyTable { map: hashbrown::HashMap::with_capacity(capacity) }
    }

    /// Relies on hashbrown::HashMap::get: the value filed under `k`, if any.
    #[verifier::external_body]
    pub fn get(&self, k: u64) -> (r: Option<usize>)
        ensures
            r == if key_table_entries(*self).contains_key(k) {
                Some(key_table_entries(*self)[k])
            } else {
                Option::<usize>::None
            },
    {
        self.map.get(&k).copied()
    }

    /// Relies on hashbrown::HashMap::insert: files `slot` under `k`,
    /// returning what was filed there before.
    #[verifier::external_body]
    pub fn insert(&mut self, k: u64, slot: usize) -> (r: Option<usize>)
        ensures
            key_table_entries(*final(self)) == key_table_entries(*old(self)).insert(k, slot),
            r == if key_table_entries(*old(self)).contains_key(k) {
                Some(key_table_entries(*old(self))[k])
            } else {
                Option::<usize>::None
            },
    {
        self.map.insert(k, slot)
    }

    /// Relies on hashbrown::HashMap::remove: unfiles `k`, returning what was
    /// filed under it.
    #[verifier::external_body]
    pub fn remove(&mut self, k: u64) -> (r: Option<usize>)
        ensures
            key_table_entries(*final(self)) == key_table_entries(*old(self)).remove(k),
            r == if key_table_entries(*old(self)).contains_key(k) {
                Some(key_table_entries(*old(self))[k])
            } else {
                Option::<usize>::None
            },
    {
        self.map.remove(&k)
    }
}

} // verus!
