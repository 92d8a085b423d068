//! Random eviction: a bag of keys and a seeded generator per shard; when the
//! shard is full, a uniformly drawn victim leaves. Nothing is promised about
//! which key the draw picks, only that it is one of the stored keys.
use vstd::prelude::*;

use rand::RngExt;
use rand::SeedableRng;

use crate::layer::{Layer, ReadLock, ReadResult};
use crate::time::Instant;
use super::bag::{Bag, Key};

verus! {

/// The generator a shard draws its victims from: outside code, opaque here.
#[verifier::external_type_specification]
#[verifier::external_body]
pub struct ExSmallRng(rand::rngs::SmallRng);

/// Relies on rand::rngs::SmallRng::seed_from_u64 (the SeedableRng trait):
/// a fresh, deterministically seeded generator.
#[verifier::external_body]
fn seeded_rng(seed: u64) -> rand::rngs::SmallRng {
    rand::rngs::SmallRng::seed_from_u64(seed)
}

/// Relies on rand::RngExt::random_range over `0..n`: the sample lies in the
/// range, which is non-empty by the precondition.
#[verifier::external_body]
fn sample_index(rng: &mut rand::rngs::SmallRng, n: usize) -> (r: usize)
    requires
        n > 0,
    ensures
        r < n,
{
    rng.random_range(core::ops::Range { start: 0usize, end: n })
}

/// The random eviction layer; each shard seeds its own generator.
#[derive(Debug, Clone, Copy)]
pub struct EvictRandom {
    pub seed: u64,
}

impl EvictRandom {
    pub fn with_seed(seed: u64) -> (r: EvictRandom)
        ensures
            r.seed == seed,
    {
        EvictRandom { seed }
    }
}

/// One shard of the policy: the stored keys in a bag, and the generator.
pub struct RandomShard {
    bag: Bag<u64>,
    rng: rand::rngs::SmallRng,
}

impl RandomShard {
    /// The stored keys, in bag slot order.
    pub closed spec fn keys(&self) -> Seq<u64> {
        Seq::new(self.bag@.len(), |i: int| self.bag@[i].1)
    }

    pub closed spec fn spec_capacity(&self) -> usize {
        self.bag.spec_capacity()
    }
}

impl<T> Layer<T> for EvictRandom {
    type Shard = RandomShard;

    fn new_shard(&self, capacity: usize) -> (s: RandomShard) {
        let s = RandomShard { bag: Bag::with_capacity(capacity), rng: seeded_rng(self.seed) };
        proof {
            assert(s.keys().to_set() =~= Set::<u64>::empty());
        }
        s
    }
}

impl<T> crate::layer::Shard<T> for RandomShard {
    type Value = Key;

    closed spec fn inv(&self) -> bool {
        &&& self.bag.inv()
        &&& forall|i: int| 0 <= i < self.bag@.len() ==> (#[trigger] self.bag@[i]).0 == self.bag@[i].1
    }

    open spec fn key_set(&self) -> Set<u64> {
        self.keys().to_set()
    }

    open spec fn tracks() -> bool {
        true
    }

    /// The victim is drawn at random: no function of the state names it.
    open spec fn victims_exact() -> bool {
        false
    }

    open spec fn spec_victims(&self, now: Instant) -> Seq<u64> {
        Seq::empty()
    }

    closed spec fn valid_value(&self, k: u64, v: Key) -> bool {
        exists|i: int| 0 <= i < self.bag@.len() && self.bag@[i] == (v.0, k)
    }

    open spec fn read_decision(&self, k: u64, v: Key, t: T, now: Instant) -> ReadResult {
        ReadResult::Retain
    }

    open spec fn iter_decision(&self, k: u64, v: Key, t: T, now: Instant) -> ReadResult {
        ReadResult::Retain
    }

    open spec fn spec_read_lock() -> ReadLock {
        ReadLock::Free
    }

    open spec fn spec_iter_read_lock() -> ReadLock {
        ReadLock::Free
    }

    open spec fn at_capacity(&self) -> bool {
        self.keys().len() >= self.spec_capacity()
    }

    /// The draw consumes generator state but moves no key; once the shard
    /// is full, exactly one stored key is named.
    open spec fn victims_rel(pre: Self, post: Self, now: Instant, r: Seq<u64>) -> bool {
        &&& post.keys() == pre.keys()
        &&& post.spec_capacity() == pre.spec_capacity()
        &&& r.len() <= 1
        &&& (pre.keys().len() >= pre.spec_capacity() ==> r.len() == 1)
    }

    open spec fn write_rel(pre: Self, post: Self, k: u64, t: T, now: Instant, v: Key) -> bool {
        post.keys() == pre.keys().push(k) && post.spec_capacity() == pre.spec_capacity()
    }

    open spec fn remove_rel(pre: Self, post: Self, k: u64, v: Key) -> bool {
        &&& post.spec_capacity() == pre.spec_capacity()
        &&& post.keys() == pre.keys().update(pre.keys().index_of(k), pre.keys().last()).drop_last()
    }

    open spec fn read_rel(pre: Self, post: Self, k: u64, v: Key, t: T, now: Instant) -> bool {
        post == pre
    }

    fn read_lock() -> ReadLock {
        ReadLock::Free
    }

    fn iter_read_lock() -> ReadLock {
        ReadLock::Free
    }

    proof fn lemma_key_set_finite(&self) {
        self.keys().lemma_cardinality_of_set();
    }

    proof fn lemma_untracked_empty(&self) {
    }

    /// A uniformly drawn stored key, once the shard is full.
    fn victims(&mut self, now: Instant) -> (r: Vec<u64>) {
        proof {
            self.bag.lemma_capacity_positive();
        }
        let mut out: Vec<u64> = Vec::new();
        if self.bag.len() >= self.bag.capacity() && self.bag.len() > 0 {
            let slot = sample_index(&mut self.rng, self.bag.len());
            let picked = self.bag.get_at(slot);
            out.push(picked.1);
            proof {
                assert(self.keys()[slot as int] == old(self).bag@[slot as int].1);
                assert(self.keys().contains(self.keys()[slot as int]));
            }
        }
        proof {
            assert(self.keys() =~= old(self).keys());
        }
        out
    }

    fn write(&mut self, k: u64, t: &T, now: Instant) -> (v: Key) {
        let h = Key(k);
        proof {
            let pre = *self;
            assert(!pre.bag.handles().contains(k)) by {
                if pre.bag.handles().contains(k) {
                    let i = choose|i: int|
                        0 <= i < pre.bag.handles().len() && pre.bag.handles()[i] == k;
                    assert(pre.bag@[i].0 == k);
                    assert(pre.keys()[i] == k);
                    assert(pre.keys().to_set().contains(k));
                }
            }
        }
        self.bag.insert_with_key(h, k);
        proof {
            let pre = *old(self);
            let ks0 = pre.keys();
            let ks1 = self.keys();
            assert(ks1 =~= ks0.push(k));
            assert(ks1.to_set() =~= ks0.to_set().insert(k)) by {
                assert forall|x: u64| ks1.to_set().contains(x) implies ks0.to_set().insert(
                    k,
                ).contains(x) by {
                    let i = choose|i: int| 0 <= i < ks1.len() && ks1[i] == x;
                    if i < ks0.len() {
                        assert(ks0[i] == x);
                    }
                }
                assert forall|x: u64| ks0.to_set().insert(k).contains(x) implies ks1.to_set()
                    .contains(x) by {
                    if x == k {
                        assert(ks1[ks1.len() - 1] == k);
                    } else {
                        let i = choose|i: int| 0 <= i < ks0.len() && ks0[i] == x;
                        assert(ks1[i] == x);
                    }
                }
            }
            assert(self.bag@[self.bag@.len() - 1] == (h.0, k));
            assert forall|k2: u64, v2: Key|
                k2 != k && crate::layer::Shard::<T>::valid_value(old(self), k2, v2)
                implies crate::layer::Shard::<T>::valid_value(self, k2, v2) by {
                let i = choose|i: int|
                    0 <= i < old(self).bag@.len() && old(self).bag@[i] == (v2.0, k2);
                assert(self.bag@[i] == (v2.0, k2));
            }
        }
        h
    }

    fn remove(&mut self, k: u64, v: &Key) {
        let ghost pre = *self;
        let ghost handles = pre.bag.handles();
        proof {
            let i = choose|i: int| 0 <= i < pre.bag@.len() && pre.bag@[i] == (v.0, k);
            assert(handles[i] == v.0);
            assert(handles.contains(v.0));
        }
        let removed = self.bag.remove_by_key(*v);
        proof {
            let i = choose|i: int| 0 <= i < pre.bag@.len() && pre.bag@[i] == (v.0, k);
            pre.bag.lemma_handles_distinct();
            assert(pre.keys() =~= handles);
            assert(pre.keys().no_duplicates());
            let p = handles.index_of(v.0);
            assert(handles[p] == v.0);
            assert(p == i);
            assert(pre.bag@[p] == (v.0, k));
            let ks0 = pre.keys();
            let ks1 = self.keys();
            // The removal swaps the last key into the freed slot.
            assert(ks1 =~= ks0.update(p, ks0.last()).drop_last());
            assert(ks0[p] == k);
            // Tracked keys shrink by exactly `k`.
            assert(ks1.to_set() =~= ks0.to_set().remove(k)) by {
                assert forall|x: u64| ks1.to_set().contains(x) implies ks0.to_set().remove(
                    k,
                ).contains(x) by {
                    let q = choose|q: int| 0 <= q < ks1.len() && ks1[q] == x;
                    if q == p {
                        assert(ks0[ks0.len() - 1] == x);
                        assert(ks0.len() - 1 != p || x == k);
                        if ks0.len() - 1 == p {
                            assert(false);
                        }
                        assert(x != k);
                    } else {
                        assert(ks0[q] == x);
                        assert(q != p);
                    }
                }
                assert forall|x: u64| ks0.to_set().remove(k).contains(x) implies ks1.to_set()
                    .contains(x) by {
                    let q = choose|q: int| 0 <= q < ks0.len() && ks0[q] == x;
                    assert(q != p);
                    if q == ks0.len() - 1 {
                        assert(p < ks0.len() - 1);
                        assert(ks1[p] == x);
                    } else {
                        assert(ks1[q] == x);
                    }
                }
            }
            assert forall|k2: u64, v2: Key|
                k2 != k && crate::layer::Shard::<T>::valid_value(old(self), k2, v2)
                implies crate::layer::Shard::<T>::valid_value(self, k2, v2) by {
                let q = choose|q: int|
                    0 <= q < old(self).bag@.len() && old(self).bag@[q] == (v2.0, k2);
                assert(q != p);
                if q == pre.bag@.len() - 1 {
                    assert(self.bag@[p] == (v2.0, k2));
                } else {
                    assert(self.bag@[q] == (v2.0, k2));
                }
            }
        }
    }

    fn read_mut(&mut self, k: u64, v: &Key, t: &T, now: Instant) -> (r: ReadResult)
        ensures
            *final(self) == *old(self),
    {
        ReadResult::Retain
    }

    fn iter_read_mut(&mut self, k: u64, v: &Key, t: &T, now: Instant) -> (r: ReadResult)
        ensures
            *final(self) == *old(self),
    {
        ReadResult::Retain
    }
}

/// How a least-of-n policy ranks eviction candidates: a per-element state
/// stamped at the write, and an ordering on it. The ranking is a heuristic;
/// nothing downstream depends on which way a comparison goes.
pub trait LeastOfNStrategy<T> {
    /// Per-element comparison state.
    type Value;

    /// The state stamped when `target` is written at `now`.
    fn new_value(&self, target: &T, now: Instant) -> Self::Value;

    /// Whether `left` is the better victim of the two.
    fn compare(&self, left: &Self::Value, right: &Self::Value) -> bool;
}

/// Rank by write instant: the element written longest ago is the better
/// victim.
#[derive(Debug, Clone, Copy, Default)]
pub struct LeastRecentlyWritten;

impl<T> LeastOfNStrategy<T> for LeastRecentlyWritten {
    type Value = Instant;

    fn new_value(&self, target: &T, now: Instant) -> Instant {
        now
    }

    fn compare(&self, left: &Instant, right: &Instant) -> bool {
        left.nanos <= right.nanos
    }
}

/// Sample-and-compare eviction: when the shard is full, a handful of
/// uniformly drawn candidates compete and the strategy's least leaves.
#[derive(Debug, Clone, Copy)]
pub struct EvictLeastOfN<S> {
    pub strategy: S,
    pub samples: usize,
    pub seed: u64,
}

impl<S> EvictLeastOfN<S> {
    pub fn new(samples: usize, strategy: S, seed: u64) -> (r: EvictLeastOfN<S>)
        ensures
            r.samples == samples,
            r.strategy == strategy,
            r.seed == seed,
    {
        EvictLeastOfN { samples, strategy, seed }
    }
}

/// One shard: each stored key with its comparison state, and the generator
/// the samples are drawn from.
pub struct LeastOfNShard<S, V> {
    bag: Bag<V>,
    strategy: S,
    samples: usize,
    rng: rand::rngs::SmallRng,
}

impl<S, V> LeastOfNShard<S, V> {
    /// The stored keys, in bag slot order.
    pub closed spec fn keys(&self) -> Seq<u64> {
        self.bag.handles()
    }

    pub closed spec fn spec_capacity(&self) -> usize {
        self.bag.spec_capacity()
    }
}

impl<T, V, S: LeastOfNStrategy<T, Value = V> + Copy> Layer<T> for EvictLeastOfN<S> {
    type Shard = LeastOfNShard<S, V>;

    fn new_shard(&self, capacity: usize) -> (s: LeastOfNShard<S, V>) {
        let samples = if self.samples >= 1 {
            self.samples
        } else {
            1
        };
        let s = LeastOfNShard {
            bag: Bag::with_capacity(capacity),
            strategy: self.strategy,
            samples,
            rng: seeded_rng(self.seed),
        };
        proof {
            assert(s.keys().to_set() =~= Set::<u64>::empty());
        }
        s
    }
}

impl<T, V, S: LeastOfNStrategy<T, Value = V>> crate::layer::Shard<T> for LeastOfNShard<S, V> {
    type Value = ();

    closed spec fn inv(&self) -> bool {
        self.bag.inv()
    }

    open spec fn key_set(&self) -> Set<u64> {
        self.keys().to_set()
    }

    open spec fn tracks() -> bool {
        true
    }

    /// The victim comes out of a random sample: not a function of the state.
    open spec fn victims_exact() -> bool {
        false
    }

    open spec fn spec_victims(&self, now: Instant) -> Seq<u64> {
        Seq::empty()
    }

    closed spec fn valid_value(&self, k: u64, v: ()) -> bool {
        self.bag.handles().contains(k)
    }

    open spec fn read_decision(&self, k: u64, v: (), t: T, now: Instant) -> ReadResult {
        ReadResult::Retain
    }

    open spec fn iter_decision(&self, k: u64, v: (), t: T, now: Instant) -> ReadResult {
        ReadResult::Retain
    }

    open spec fn spec_read_lock() -> ReadLock {
        ReadLock::Free
    }

    open spec fn spec_iter_read_lock() -> ReadLock {
        ReadLock::Free
    }

    open spec fn at_capacity(&self) -> bool {
        self.keys().len() >= self.spec_capacity()
    }

    /// The sampling consumes generator state but moves no key; once the
    /// shard is full, exactly one stored key is named. Which of the sample
    /// wins rests on the strategy's uncontracted ordering, so no more is
    /// promised of the choice.
    open spec fn victims_rel(pre: Self, post: Self, now: Instant, r: Seq<u64>) -> bool {
        &&& post.keys() == pre.keys()
        &&& post.spec_capacity() == pre.spec_capacity()
        &&& r.len() <= 1
        &&& (pre.keys().len() >= pre.spec_capacity() ==> r.len() == 1)
    }

    open spec fn write_rel(pre: Self, post: Self, k: u64, t: T, now: Instant, v: ()) -> bool {
        post.keys() == pre.keys().push(k) && post.spec_capacity() == pre.spec_capacity()
    }

    open spec fn remove_rel(pre: Self, post: Self, k: u64, v: ()) -> bool {
        &&& post.spec_capacity() == pre.spec_capacity()
        &&& post.keys() == pre.keys().update(pre.keys().index_of(k), pre.keys().last()).drop_last()
    }

    open spec fn read_rel(pre: Self, post: Self, k: u64, v: (), t: T, now: Instant) -> bool {
        post == pre
    }

    fn read_lock() -> ReadLock {
        ReadLock::Free
    }

    fn iter_read_lock() -> ReadLock {
        ReadLock::Free
    }

    proof fn lemma_key_set_finite(&self) {
        self.keys().lemma_cardinality_of_set();
    }

    proof fn lemma_untracked_empty(&self) {
    }

    /// Draws up to `samples` candidates and names the strategy's least of
    /// them, once the shard is full.
    fn victims(&mut self, now: Instant) -> (r: Vec<u64>) {
        proof {
            self.bag.lemma_capacity_positive();
        }
        let mut out: Vec<u64> = Vec::new();
        if self.bag.len() >= self.bag.capacity() && self.bag.len() > 0 {
            let mut best = sample_index(&mut self.rng, self.bag.len());
            let mut drawn: usize = 1;
            while drawn < self.samples
                invariant
                    self.bag == old(self).bag,
                    self.bag.inv(),
                    self.bag@.len() > 0,
                    best < self.bag@.len(),
                decreases self.samples - drawn,
            {
                let candidate = sample_index(&mut self.rng, self.bag.len());
                let better = {
                    let left = self.bag.get_at(candidate);
                    let right = self.bag.get_at(best);
                    self.strategy.compare(&left.1, &right.1)
                };
                if better {
                    best = candidate;
                }
                drawn = drawn + 1;
            }
            let picked = self.bag.get_at(best);
            out.push(picked.0);
            proof {
                assert(self.keys()[best as int] == self.bag@[best as int].0);
                assert(self.keys().contains(self.keys()[best as int]));
            }
        }
        proof {
            assert(self.keys() =~= old(self).keys());
        }
        out
    }

    fn write(&mut self, k: u64, t: &T, now: Instant) -> (v: ()) {
        proof {
            assert(!self.bag.handles().contains(k)) by {
                if self.bag.handles().contains(k) {
                    assert(self.keys().to_set().contains(k));
                }
            }
        }
        let stamp = self.strategy.new_value(t, now);
        self.bag.insert_with_key(Key(k), stamp);
        proof {
            let pre = *old(self);
            let ks0 = pre.keys();
            let ks1 = self.keys();
            assert(ks1 =~= ks0.push(k));
            assert(ks1.to_set() =~= ks0.to_set().insert(k)) by {
                assert forall|x: u64| ks1.to_set().contains(x) implies ks0.to_set().insert(
                    k,
                ).contains(x) by {
                    let i = choose|i: int| 0 <= i < ks1.len() && ks1[i] == x;
                    if i < ks0.len() {
                        assert(ks0[i] == x);
                    }
                }
                assert forall|x: u64| ks0.to_set().insert(k).contains(x) implies ks1.to_set()
                    .contains(x) by {
                    if x == k {
                        assert(ks1[ks1.len() - 1] == k);
                    } else {
                        let i = choose|i: int| 0 <= i < ks0.len() && ks0[i] == x;
                        assert(ks1[i] == x);
                    }
                }
            }
            assert(self.bag@[self.bag@.len() - 1].0 == k);
            assert forall|k2: u64, v2: ()|
                k2 != k && crate::layer::Shard::<T>::valid_value(old(self), k2, v2)
                implies crate::layer::Shard::<T>::valid_value(self, k2, v2) by {
                let i = choose|i: int| 0 <= i < ks0.len() && ks0[i] == k2;
                assert(ks1[i] == k2);
            }
        }
        ()
    }

    fn remove(&mut self, k: u64, v: &()) {
        let ghost pre = *self;
        proof {
            pre.bag.lemma_handles_distinct();
        }
        let removed = self.bag.remove_by_key(Key(k));
        proof {
            let handles = pre.bag.handles();
            assert(handles.contains(k));
            let p = handles.index_of(k);
            assert(handles[p] == k);
            let ks1 = self.keys();
            assert(ks1 =~= handles.update(p, handles.last()).drop_last());
            assert(ks1.to_set() =~= handles.to_set().remove(k)) by {
                assert forall|x: u64| ks1.to_set().contains(x) implies handles.to_set().remove(
                    k,
                ).contains(x) by {
                    let q = choose|q: int| 0 <= q < ks1.len() && ks1[q] == x;
                    if q == p {
                        assert(handles[handles.len() - 1] == x);
                        if handles.len() - 1 == p {
                            assert(false);
                        }
                        assert(x != k);
                    } else {
                        assert(handles[q] == x);
                        assert(q != p);
                    }
                }
                assert forall|x: u64| handles.to_set().remove(k).contains(x) implies ks1.to_set()
                    .contains(x) by {
                    let q = choose|q: int| 0 <= q < handles.len() && handles[q] == x;
                    assert(q != p);
                    if q == handles.len() - 1 {
                        assert(p < handles.len() - 1);
                        assert(ks1[p] == x);
                    } else {
                        assert(ks1[q] == x);
                    }
                }
            }
            assert forall|k2: u64, v2: ()|
                k2 != k && crate::layer::Shard::<T>::valid_value(old(self), k2, v2)
                implies crate::layer::Shard::<T>::valid_value(self, k2, v2) by {
                assert(pre.bag.handles().to_set().contains(k2));
                assert(ks1.to_set().contains(k2));
            }
        }
    }

    fn read_mut(&mut self, k: u64, v: &(), t: &T, now: Instant) -> (r: ReadResult)
        ensures
            *final(self) == *old(self),
    {
        ReadResult::Retain
    }

    fn iter_read_mut(&mut self, k: u64, v: &(), t: &T, now: Instant) -> (r: ReadResult)
        ensures
            *final(self) == *old(self),
    {
        ReadResult::Retain
    }
}

} // verus!
