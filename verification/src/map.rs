//! Ready-made value types: a plain key-value pair, a pair with a deadline,
//! and a pair with an expired flag, plus a map-style front over the sharded
//! store for callers who think in keys and values rather than in values that
//! carry their keys.
use vstd::prelude::*;

use crate::expire::{Expire, ExpireAt};
use crate::layer::Shard;
use crate::shard::Pointer;
use crate::sync::SyncCache;
use crate::time::{Clock, Instant};
use crate::Value;

verus! {

/// A key paired with a payload.
#[derive(Debug, Clone, Copy)]
pub struct MapEntry<V> {
    pub key: u64,
    pub value: V,
}

impl<V> MapEntry<V> {
    pub fn new(key: u64, value: V) -> (r: MapEntry<V>)
        ensures
            r.key == key,
            r.value == value,
    {
        MapEntry { key, value }
    }
}

impl<V> Value for MapEntry<V> {
    open spec fn spec_key(&self) -> u64 {
        self.key
    }

    fn key(&self) -> u64 {
        self.key
    }
}

impl<V: Default> Default for MapEntry<V> {
    /// The entry under key zero holding the payload's default.
    fn default() -> (r: MapEntry<V>)
        ensures
            r.key == 0,
    {
        MapEntry { key: 0, value: V::default() }
    }
}

/// A key and payload with an expiry deadline.
#[derive(Debug, Clone, Copy)]
pub struct ExpiringEntry<V> {
    pub key: u64,
    pub expire_at: Instant,
    pub value: V,
}

impl<V> ExpiringEntry<V> {
    pub fn new(key: u64, expire_at: Instant, value: V) -> (r: ExpiringEntry<V>)
        ensures
            r.key == key,
            r.expire_at == expire_at,
            r.value == value,
    {
        ExpiringEntry { key, expire_at, value }
    }
}

impl<V> Value for ExpiringEntry<V> {
    open spec fn spec_key(&self) -> u64 {
        self.key
    }

    fn key(&self) -> u64 {
        self.key
    }
}

impl<V> ExpireAt for ExpiringEntry<V> {
    open spec fn spec_expire_at(&self) -> Instant {
        self.expire_at
    }

    fn expire_at(&self) -> Instant {
        self.expire_at
    }
}

/// A key and payload that knows whether it is expired.
#[derive(Debug, Clone, Copy)]
pub struct FlaggedEntry<V> {
    pub key: u64,
    pub expired: bool,
    pub value: V,
}

impl<V> Value for FlaggedEntry<V> {
    open spec fn spec_key(&self) -> u64 {
        self.key
    }

    fn key(&self) -> u64 {
        self.key
    }
}

impl<V> Expire for FlaggedEntry<V> {
    open spec fn spec_is_expired(&self) -> bool {
        self.expired
    }

    fn is_expired(&self) -> bool {
        self.expired
    }
}

/// A handle to a stored map entry, dereferencing to the payload by method.
#[derive(Debug, Clone)]
pub struct MapPointer<P> {
    pub pointer: P,
}

/// The underlying pointer of an optional map handle, for specifications.
pub open spec fn spec_unwrap<P>(r: Option<MapPointer<P>>) -> Option<P> {
    match r {
        Some(mp) => Some(mp.pointer),
        None => None,
    }
}

impl<V, Lv> MapPointer<Pointer<MapEntry<V>, Lv>> {
    /// The stored payload.
    pub fn value(&self) -> (r: &V)
        ensures
            *r == self.pointer.spec_value().value,
    {
        &self.pointer.value().value
    }
}

/// A map-shaped front over the sharded store: callers hand in a key and a
/// payload, and read payloads back.
pub struct MapCache<V, L: Shard<MapEntry<V>>, C: Clock> {
    cache: SyncCache<MapEntry<V>, L, C>,
}

impl<V, L: Shard<MapEntry<V>>, C: Clock> MapCache<V, L, C> {
    pub closed spec fn spec_cache(&self) -> SyncCache<MapEntry<V>, L, C> {
        self.cache
    }

    pub fn new(cache: SyncCache<MapEntry<V>, L, C>) -> (r: MapCache<V, L, C>)
        ensures
            r.spec_cache() == cache,
    {
        MapCache { cache }
    }

    /// The payload stored under `key`, if the store retains one.
    pub fn get(&mut self, key: u64) -> (r: Option<MapPointer<Pointer<MapEntry<V>, L::Value>>>)
        requires
            old(self).spec_cache().inv(),
        ensures
            final(self).spec_cache().inv(),
            exists|now: Instant|
                #[trigger] SyncCache::spec_get_post(
                    old(self).spec_cache(),
                    final(self).spec_cache(),
                    key,
                    now,
                    spec_unwrap(r),
                ),
    {
        let found = self.cache.get(key);
        let ghost found_snapshot = found;
        let r = match found {
            Some(pointer) => Some(MapPointer { pointer }),
            None => None,
        };
        proof {
            let now = choose|now: Instant|
                #[trigger] SyncCache::spec_get_post(
                    old(self).spec_cache(),
                    self.spec_cache(),
                    key,
                    now,
                    found_snapshot,
                );
            assert(spec_unwrap(r) == found_snapshot);
        }
        r
    }

    /// Stores `value` under `key`.
    pub fn insert(&mut self, key: u64, value: V) -> (r: MapPointer<
        Pointer<MapEntry<V>, L::Value>,
    >)
        requires
            old(self).spec_cache().inv(),
            old(self).spec_cache().contents().dom().len() < 0xFFFF_FFFF,
        ensures
            final(self).spec_cache().inv(),
            r.pointer.spec_value().key == key,
            r.pointer.spec_value().value == value,
            final(self).spec_cache().contents().contains_key(key),
            final(self).spec_cache().contents()[key] == (
                r.pointer.spec_id(),
                MapEntry { key, value },
            ),
            exists|now: Instant|
                #[trigger] SyncCache::spec_insert_post(
                    old(self).spec_cache(),
                    final(self).spec_cache(),
                    MapEntry { key, value },
                    now,
                    r.pointer,
                ),
    {
        let entry = MapEntry { key, value };
        let ghost entry_snapshot = entry;
        let pointer = self.cache.insert(entry);
        proof {
            let now = choose|now: Instant|
                #[trigger] SyncCache::spec_insert_post(
                    old(self).spec_cache(),
                    self.spec_cache(),
                    entry_snapshot,
                    now,
                    pointer,
                );
        }
        MapPointer { pointer }
    }
}

} // verus!
