//! Approximate touch tracking: wraps an eviction layer and forwards at most
//! one touch per key per window. Each key carries a last-touched stamp; a
//! read inside the window leaves the inner layer completely alone, so hot
//! keys cost almost nothing on the read path.
use vstd::prelude::*;

use std::collections::HashMap;

use crate::layer::{Layer, ReadLock, ReadResult, Shard};
use crate::time::{Duration, Instant};

verus! {

/// An eviction layer wrapped with a touch window.
#[derive(Debug, Clone, Copy)]
pub struct EvictApproximate<E> {
    pub inner: E,
    pub window: Duration,
}

impl<E> EvictApproximate<E> {
    pub fn with_window(eviction: E, window: Duration) -> (r: EvictApproximate<E>)
        ensures
            r.inner == eviction,
            r.window == window,
    {
        EvictApproximate { inner: eviction, window }
    }
}

/// One shard of the wrapped policy: the inner shard plus the per-key
/// last-touched stamps.
pub struct ApproximateShard<S> {
    inner: S,
    window: Duration,
    last: HashMap<u64, u64>,
}

impl<S> ApproximateShard<S> {
    /// The inner policy's shard state.
    pub closed spec fn spec_inner(&self) -> S {
        self.inner
    }

    pub closed spec fn spec_window(&self) -> Duration {
        self.window
    }

    /// The last instant a touch was forwarded for `k` (or the key written).
    pub closed spec fn last_touch(&self, k: u64) -> u64 {
        self.last@[k]
    }

    /// Whether a read at `now` falls inside the window for `k`: such a read
    /// is absorbed without touching the inner layer.
    pub open spec fn absorbed(&self, k: u64, now: Instant) -> bool {
        now.nanos < self.last_touch(k) + self.spec_window().nanos
    }
}

impl<T, E: Layer<T>> Layer<T> for EvictApproximate<E> {
    type Shard = ApproximateShard<E::Shard>;

    fn new_shard(&self, capacity: usize) -> (s: Self::Shard) {
        let s = ApproximateShard {
            inner: self.inner.new_shard(capacity),
            window: self.window,
            last: HashMap::new(),
        };
        s
    }
}

impl<T, S: Shard<T>> Shard<T> for ApproximateShard<S> {
    type Value = S::Value;

    closed spec fn inv(&self) -> bool {
        self.inner.inv()
    }

    open spec fn key_set(&self) -> Set<u64> {
        self.spec_inner().key_set()
    }

    open spec fn tracks() -> bool {
        S::tracks()
    }

    open spec fn victims_exact() -> bool {
        S::victims_exact()
    }

    open spec fn spec_victims(&self, now: Instant) -> Seq<u64> {
        self.spec_inner().spec_victims(now)
    }

    closed spec fn valid_value(&self, k: u64, v: S::Value) -> bool {
        self.inner.valid_value(k, v) && self.last@.contains_key(k)
    }

    /// A read inside the window is absorbed: retained without consulting the
    /// inner layer. Outside the window the inner layer decides.
    open spec fn read_decision(&self, k: u64, v: S::Value, t: T, now: Instant) -> ReadResult {
        if self.absorbed(k, now) {
            ReadResult::Retain
        } else {
            self.spec_inner().read_decision(k, v, t, now)
        }
    }

    open spec fn iter_decision(&self, k: u64, v: S::Value, t: T, now: Instant) -> ReadResult {
        self.spec_inner().iter_decision(k, v, t, now)
    }

    /// The whole point: a shared guard suffices on the read path, because
    /// most reads never reach the inner layer.
    open spec fn spec_read_lock() -> ReadLock {
        ReadLock::Ref
    }

    open spec fn spec_iter_read_lock() -> ReadLock {
        S::spec_iter_read_lock()
    }

    open spec fn at_capacity(&self) -> bool {
        self.spec_inner().at_capacity()
    }

    /// Victim naming passes straight through to the inner policy; the
    /// stamps and the window stay as they were.
    open spec fn victims_rel(pre: Self, post: Self, now: Instant, r: Seq<u64>) -> bool {
        &&& S::victims_rel(pre.spec_inner(), post.spec_inner(), now, r)
        &&& post.spec_window() == pre.spec_window()
        &&& (forall|k2: u64| #[trigger] post.last_touch(k2) == pre.last_touch(k2))
    }

    /// The write stamps the key with the write instant and admits it to the
    /// inner policy.
    open spec fn write_rel(pre: Self, post: Self, k: u64, t: T, now: Instant, v: S::Value) -> bool {
        &&& S::write_rel(pre.spec_inner(), post.spec_inner(), k, t, now, v)
        &&& post.spec_window() == pre.spec_window()
        &&& post.last_touch(k) == now.nanos
        &&& (forall|k2: u64| k2 != k ==> #[trigger] post.last_touch(k2) == pre.last_touch(k2))
    }

    open spec fn remove_rel(pre: Self, post: Self, k: u64, v: S::Value) -> bool {
        &&& S::remove_rel(pre.spec_inner(), post.spec_inner(), k, v)
        &&& post.spec_window() == pre.spec_window()
        &&& (forall|k2: u64| k2 != k ==> #[trigger] post.last_touch(k2) == pre.last_touch(k2))
    }

    /// An absorbed read changes nothing at all; a read past the window
    /// restamps the key and forwards exactly one touch to the inner policy.
    open spec fn read_rel(pre: Self, post: Self, k: u64, v: S::Value, t: T, now: Instant) -> bool {
        &&& (pre.absorbed(k, now) ==> post == pre)
        &&& (!pre.absorbed(k, now) ==> S::read_rel(pre.spec_inner(), post.spec_inner(), k, v, t, now)
            && post.spec_window() == pre.spec_window() && post.last_touch(k) == now.nanos && (
        forall|k2: u64| k2 != k ==> #[trigger] post.last_touch(k2) == pre.last_touch(k2)))
    }

    fn read_lock() -> ReadLock {
        ReadLock::Ref
    }

    fn iter_read_lock() -> (r: ReadLock) {
        S::iter_read_lock()
    }

    proof fn lemma_key_set_finite(&self) {
        self.inner.lemma_key_set_finite();
    }

    proof fn lemma_untracked_empty(&self) {
        self.inner.lemma_untracked_empty();
    }

    fn victims(&mut self, now: Instant) -> (r: Vec<u64>) {
        self.inner.victims(now)
    }

    fn write(&mut self, k: u64, t: &T, now: Instant) -> (v: S::Value)
        ensures
            // Refinement: the write stamps the key with the write instant.
            final(self).last_touch(k) == now.nanos,
            final(self).spec_window() == old(self).spec_window(),
    {
        self.last.insert(k, now.nanos);
        let v = self.inner.write(k, t, now);
        v
    }

    fn remove(&mut self, k: u64, v: &S::Value)
        ensures
            final(self).spec_window() == old(self).spec_window(),
    {
        self.last.remove(&k);
        self.inner.remove(k, v);
    }

    /// Forwards the touch to the inner layer only when the window has
    /// elapsed since the last forwarded touch; a read inside the window
    /// changes nothing at all.
    fn read_mut(&mut self, k: u64, v: &S::Value, t: &T, now: Instant) -> (r: ReadResult)
        ensures
            // Refinement, the window guarantee: an absorbed read leaves the
            // whole shard untouched.
            old(self).absorbed(k, now) ==> *final(self) == *old(self),
            // A forwarded touch restamps the key.
            !old(self).absorbed(k, now) ==> final(self).last_touch(k) == now.nanos,
            final(self).spec_window() == old(self).spec_window(),
    {
        let last = match self.last.get(&k) {
            Some(stamp) => *stamp,
            None => {
                proof {
                    assert(false);
                }
                0
            },
        };
        let since = Instant { nanos: now.nanos }.saturating_duration_since(
            Instant { nanos: last },
        );
        if now.nanos >= last && since.is_at_least(self.window) {
            proof {
                assert(!old(self).absorbed(k, now));
            }
            self.last.insert(k, now.nanos);
            self.inner.read_mut(k, v, t, now)
        } else {
            proof {
                if now.nanos >= last {
                    assert(now.nanos - last < self.window.nanos);
                    assert(old(self).absorbed(k, now));
                } else {
                    assert(old(self).absorbed(k, now));
                }
            }
            ReadResult::Retain
        }
    }

    fn iter_read_mut(&mut self, k: u64, v: &S::Value, t: &T, now: Instant) -> (r: ReadResult)
        ensures
            final(self).spec_window() == old(self).spec_window(),
    {
        self.inner.iter_read_mut(k, v, t, now)
    }
}

} // verus!
