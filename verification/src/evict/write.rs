//! Least-recently-written eviction: the write-order policy under the name
//! that emphasises what orders it — writes, never reads.
use vstd::prelude::*;

use crate::layer::Layer;
use super::lri::{self, EvictLeastRecentlyInserted};

verus! {

/// Write-order eviction: evicts the entry written longest ago; reads leave
/// the order alone, so lookups need no guard at all.
#[derive(Debug, Clone, Copy, Default)]
pub struct EvictLeastRecentlyWritten;

impl<T> Layer<T> for EvictLeastRecentlyWritten {
    type Shard = lri::Shard;

    fn new_shard(&self, capacity: usize) -> (s: lri::Shard) {
        let inner = EvictLeastRecentlyInserted;
        Layer::<T>::new_shard(&inner, capacity)
    }
}

} // verus!
