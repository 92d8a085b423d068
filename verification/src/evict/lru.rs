//! Least-recently-used eviction: the touch-order policy under its common
//! name, and its approximate variants that trade exact ordering for cheap
//! reads by touching the order at most once per window.
use vstd::prelude::*;

use crate::layer::Layer;
use crate::time::Duration;
use super::approx::{ApproximateShard, EvictApproximate};
use super::touch;

verus! {

/// Touch-order eviction: the classic policy, evicting the entry read
/// longest ago. Every read relinks the order, so the read path asks for an
/// exclusive guard; wrap it in [`ApproxLeastRecentlyUsedEviction`] to cheapen
/// reads.
#[derive(Debug, Clone, Copy, Default)]
pub struct EvictLeastRecentlyUsed;

impl<T> Layer<T> for EvictLeastRecentlyUsed {
    type Shard = touch::Shard;

    fn new_shard(&self, capacity: usize) -> (s: touch::Shard) {
        let inner = touch::EvictLeastRecentlyTouched;
        Layer::<T>::new_shard(&inner, capacity)
    }
}

/// Touch-order eviction with a touch window: reads within `soft_window` of
/// the last counted touch are absorbed without taking the exclusive guard.
/// The `hard_window` names the staleness past which a contended front-end
/// forces the touch through rather than merely attempting it; in this store
/// every attempted touch past the soft window succeeds, so the hard window
/// is kept as configuration for such a front-end.
#[derive(Debug, Clone, Copy)]
pub struct ApproxLeastRecentlyUsedEviction {
    pub soft_window: Duration,
    pub hard_window: Duration,
}

impl ApproxLeastRecentlyUsedEviction {
    /// A window of `soft_window`, with the hard window at twice that.
    pub fn new(soft_window: Duration) -> (r: ApproxLeastRecentlyUsedEviction)
        requires
            soft_window.nanos * 2 <= u64::MAX,
        ensures
            r.soft_window == soft_window,
            r.hard_window.nanos == soft_window.nanos * 2,
    {
        Self::with_hard_window(soft_window, Duration { nanos: soft_window.nanos * 2 })
    }

    pub fn with_hard_window(soft_window: Duration, hard_window: Duration) -> (r:
        ApproxLeastRecentlyUsedEviction)
        ensures
            r.soft_window == soft_window,
            r.hard_window == hard_window,
    {
        ApproxLeastRecentlyUsedEviction { soft_window, hard_window }
    }
}

impl<T> Layer<T> for ApproxLeastRecentlyUsedEviction {
    type Shard = ApproximateShard<touch::Shard>;

    fn new_shard(&self, capacity: usize) -> (s: ApproximateShard<touch::Shard>) {
        let wrapped = EvictApproximate::with_window(EvictLeastRecentlyUsed, self.soft_window);
        Layer::<T>::new_shard(&wrapped, capacity)
    }
}

} // verus!
