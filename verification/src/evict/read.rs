//! Least-recently-read eviction: the touch-order policy under the name that
//! emphasises what orders it — point reads, while scans stay neutral.
use vstd::prelude::*;

use crate::layer::Layer;
use super::touch::{self, EvictLeastRecentlyTouched};

verus! {

/// Read-order eviction: evicts the entry read longest ago. Each point read
/// relinks the order under the exclusive guard; scans do not count as reads.
#[derive(Debug, Clone, Copy, Default)]
pub struct EvictLeastRecentlyRead;

impl<T> Layer<T> for EvictLeastRecentlyRead {
    type Shard = touch::Shard;

    fn new_shard(&self, capacity: usize) -> (s: touch::Shard) {
        let inner = EvictLeastRecentlyTouched;
        Layer::<T>::new_shard(&inner, capacity)
    }
}

} // verus!
