//! The fluent builder: compose layers left to right, then build a store
//! around the composition.
use vstd::prelude::*;

use crate::expire::{Expire, ExpireAt, ExpireAtLayer, ExpireLayer};
use crate::layer::{AndThen, Layer, LayerNone, Shard};
use crate::local::{LocalCache, LocalCacheBuilder};
use crate::sync::{SyncCache, SyncCacheBuilder};
use crate::time::DefaultClock;
use crate::Value;

verus! {

/// A cache under construction: the layer tower so far. Start from
/// [`BuildCache::new`], chain concerns, then build a sharded or local store.
#[derive(Debug, Clone, Copy)]
pub struct BuildCache<L> {
    pub layer: L,
}

impl BuildCache<LayerNone> {
    /// An empty tower.
    pub fn new() -> (r: BuildCache<LayerNone>)
        ensures
            r.layer == LayerNone,
    {
        BuildCache { layer: LayerNone }
    }
}

impl<L> BuildCache<L> {
    /// Chains `next` after the tower so far.
    pub fn layer<M>(self, next: M) -> (r: BuildCache<AndThen<L, M>>)
        ensures
            r.layer == (AndThen { first: self.layer, second: next }),
    {
        BuildCache { layer: AndThen { first: self.layer, second: next } }
    }

    /// Chains expiry by the value's own say-so.
    pub fn expire(self) -> (r: BuildCache<AndThen<L, ExpireLayer>>)
        ensures
            r.layer == (AndThen { first: self.layer, second: ExpireLayer }),
    {
        self.layer(ExpireLayer)
    }

    /// Chains expiry by the value's deadline.
    pub fn expire_at(self) -> (r: BuildCache<AndThen<L, ExpireAtLayer>>)
        ensures
            r.layer == (AndThen { first: self.layer, second: ExpireAtLayer }),
    {
        self.layer(ExpireAtLayer)
    }

    /// Chains an eviction policy.
    pub fn evict<E>(self, eviction: E) -> (r: BuildCache<AndThen<L, E>>)
        ensures
            r.layer == (AndThen { first: self.layer, second: eviction }),
    {
        self.layer(eviction)
    }

    /// Builds a sharded store with the default shard count and capacity.
    pub fn build_sync<T: Value>(self) -> (r: SyncCache<T, <L as Layer<T>>::Shard, DefaultClock>) where
        L: Layer<T>,
        ensures
            r.inv(),
            r.contents() == Map::<u64, (u64, T)>::empty(),
    {
        SyncCacheBuilder::new().build_with_layer(self.layer)
    }

    /// Builds a local store with the default capacity.
    pub fn build_local<T: Value>(self) -> (r: LocalCache<T, <L as Layer<T>>::Shard, DefaultClock>) where
        L: Layer<T>,
        ensures
            r.inv(),
            r.contents() == Map::<u64, (u64, T)>::empty(),
    {
        LocalCacheBuilder::new().build_with_layer(self.layer)
    }
}

} // verus!
