//! The local store: the same data model as the sharded store, in a single
//! shard with no routing, for single-threaded use.
use vstd::prelude::*;

use crate::layer::{Layer, ReadResult, Shard};
use crate::shard::{spec_layer_insert, Pointer, StoreShard};
use crate::time::{Clock, DefaultClock, Instant};
use crate::{Entry, Value};

verus! {

/// A builder for the local store: just a capacity.
#[derive(Debug, Clone, Copy)]
pub struct LocalCacheBuilder {
    pub capacity: usize,
}

impl LocalCacheBuilder {
    pub fn new() -> (r: LocalCacheBuilder)
        ensures
            1 <= r.capacity <= u32::MAX,
    {
        LocalCacheBuilder { capacity: 16 }
    }

    pub fn capacity(self, capacity: usize) -> (r: LocalCacheBuilder)
        requires
            1 <= capacity <= u32::MAX,
        ensures
            r.capacity == capacity,
    {
        LocalCacheBuilder { capacity }
    }

    /// Builds the store around one shard of `layer` state, reading time from
    /// `clock`.
    pub fn build_with_layer_and_clock<T: Value, La: Layer<T>, C: Clock>(
        self,
        layer: La,
        clock: C,
    ) -> (r: LocalCache<T, La::Shard, C>)
        requires
            1 <= self.capacity <= u32::MAX,
        ensures
            r.inv(),
            r.contents() == Map::<u64, (u64, T)>::empty(),
    {
        let shard_layer = layer.new_shard(self.capacity);
        LocalCache { shard: StoreShard::new(self.capacity, shard_layer), clock }
    }

    /// Builds the store on the process clock.
    pub fn build_with_layer<T: Value, La: Layer<T>>(self, layer: La) -> (r: LocalCache<
        T,
        La::Shard,
        DefaultClock,
    >)
        requires
            1 <= self.capacity <= u32::MAX,
        ensures
            r.inv(),
            r.contents() == Map::<u64, (u64, T)>::empty(),
    {
        self.build_with_layer_and_clock(layer, DefaultClock)
    }
}

/// The single-shard store: one key index, one slot vector, one layer shard.
pub struct LocalCache<T: Value, L: Shard<T>, C: Clock> {
    shard: StoreShard<T, L>,
    clock: C,
}

impl<T: Value, L: Shard<T>, C: Clock> LocalCache<T, L, C> {
    pub closed spec fn spec_shard(&self) -> StoreShard<T, L> {
        self.shard
    }

    /// What the store holds.
    pub open spec fn contents(&self) -> Map<u64, (u64, T)> {
        self.spec_shard().contents()
    }

    pub open spec fn pointer_of(&self, k: u64) -> Pointer<T, L::Value> {
        self.spec_shard().pointer_of(k)
    }

    pub open spec fn read_decision_of(&self, k: u64, now: Instant) -> ReadResult {
        self.spec_shard().read_decision_of(k, now)
    }

    pub open spec fn inv(&self) -> bool {
        self.spec_shard().inv()
    }

    /// How the contents change under a read of `k` at `now`: a miss changes
    /// nothing; a retained hit hands out the stored pointer; a dead hit is
    /// dropped. The layer sees the probe as `spec_probe_layer` says.
    pub open spec fn spec_get_post(
        pre: Self,
        post: Self,
        k: u64,
        now: Instant,
        r: Option<Pointer<T, L::Value>>,
    ) -> bool {
        &&& (!pre.contents().contains_key(k) ==> r is None && post.contents() == pre.contents())
        &&& (pre.contents().contains_key(k) && pre.read_decision_of(k, now) == ReadResult::Retain
            ==> r == Some(pre.pointer_of(k)) && post.contents() == pre.contents()
                && post.pointer_of(k) == pre.pointer_of(k))
        &&& (pre.contents().contains_key(k) && pre.read_decision_of(k, now) == ReadResult::Remove
            ==> r is None && post.contents() == pre.contents().remove(k))
        &&& StoreShard::spec_probe_layer(pre.spec_shard(), post.spec_shard().spec_layer(), k, now)
    }

    /// How the contents change under an insert at `now`.
    pub open spec fn spec_insert_post(
        pre: Self,
        post: Self,
        value: T,
        now: Instant,
        r: Pointer<T, L::Value>,
    ) -> bool {
        &&& r.spec_value() == value
        &&& post.contents().contains_key(value.spec_key())
        &&& post.contents()[value.spec_key()] == (r.spec_id(), value)
        &&& post.pointer_of(value.spec_key()) == r
        &&& exists|evs: Seq<u64>|
            {
                &&& evs.no_duplicates()
                &&& (forall|i: int|
                    0 <= i < evs.len() ==> pre.contents().contains_key(#[trigger] evs[i]) && evs[i]
                        != value.spec_key())
                &&& post.contents() == pre.contents().remove_keys(evs.to_set()).insert(
                    value.spec_key(),
                    (r.spec_id(), value),
                )
            }
        &&& (!pre.contents().contains_key(value.spec_key()) && L::victims_exact()
            ==> post.contents() == pre.contents().remove_keys(
            pre.spec_shard().spec_layer().spec_victims(now).to_set(),
        ).insert(value.spec_key(), (r.spec_id(), value)))
        &&& (!pre.contents().contains_key(value.spec_key()) ==> spec_layer_insert::<T, L>(
            pre.spec_shard().spec_layer(),
            post.spec_shard().spec_layer(),
            value.spec_key(),
            value,
            now,
            r.spec_layer(),
        ))
    }

    /// How the contents change under a removal at `now`.
    pub open spec fn spec_remove_post(
        pre: Self,
        post: Self,
        k: u64,
        now: Instant,
        r: Option<Pointer<T, L::Value>>,
    ) -> bool {
        &&& (!pre.contents().contains_key(k) ==> r is None && post.contents() == pre.contents())
        &&& (pre.contents().contains_key(k) && pre.read_decision_of(k, now) == ReadResult::Retain
            ==> r == Some(pre.pointer_of(k)) && post.contents() == pre.contents().remove(k))
        &&& (pre.contents().contains_key(k) && pre.read_decision_of(k, now) == ReadResult::Remove
            ==> r is None && post.contents() == pre.contents().remove(k))
    }

    /// How the contents change under an or-insert at `now`.
    pub open spec fn spec_or_insert_post(
        pre: Self,
        post: Self,
        value: T,
        now: Instant,
        r: Pointer<T, L::Value>,
    ) -> bool {
        &&& (pre.contents().contains_key(value.spec_key()) && pre.read_decision_of(
            value.spec_key(),
            now,
        ) == ReadResult::Retain ==> r == pre.pointer_of(value.spec_key()) && post.contents()
            == pre.contents() && post.pointer_of(value.spec_key()) == pre.pointer_of(
            value.spec_key(),
        ))
        &&& (!(pre.contents().contains_key(value.spec_key()) && pre.read_decision_of(
            value.spec_key(),
            now,
        ) == ReadResult::Retain) ==> r.spec_value() == value && post.contents().contains_key(
            value.spec_key(),
        ) && post.contents()[value.spec_key()] == (r.spec_id(), value) && post.pointer_of(
            value.spec_key(),
        ) == r)
        &&& (!(pre.contents().contains_key(value.spec_key()) && pre.read_decision_of(
            value.spec_key(),
            now,
        ) == ReadResult::Retain) ==> exists|evs: Seq<u64>|
            {
                &&& evs.no_duplicates()
                &&& (forall|i: int|
                    0 <= i < evs.len() ==> pre.contents().contains_key(#[trigger] evs[i]) && evs[i]
                        != value.spec_key())
                &&& post.contents() == pre.contents().remove_keys(evs.to_set()).insert(
                    value.spec_key(),
                    (r.spec_id(), value),
                )
            })
        &&& StoreShard::spec_probe_then_install(
            pre.spec_shard(),
            post.spec_shard().spec_layer(),
            value.spec_key(),
            now,
        )
    }

    /// The number of keys stored.
    pub fn len(&self) -> (r: usize)
        requires
            self.inv(),
        ensures
            r == self.contents().dom().len(),
    {
        self.shard.len()
    }

    /// Looks `k` up without telling the layer: no touch, no expiry check.
    pub fn peek(&self, k: u64) -> (r: Option<Pointer<T, L::Value>>)
        requires
            self.inv(),
        ensures
            !self.contents().contains_key(k) ==> r is None,
            self.contents().contains_key(k) ==> r == Some(self.pointer_of(k)),
    {
        self.shard.peek(k)
    }

    /// Looks `k` up at the given instant; the layer observes the read.
    pub fn get_at(&mut self, k: u64, now: Instant) -> (r: Option<Pointer<T, L::Value>>)
        requires
            old(self).inv(),
        ensures
            final(self).inv(),
            Self::spec_get_post(*old(self), *final(self), k, now, r),
    {
        self.shard.get_at(k, now)
    }

    /// Looks `k` up at the clock's current instant.
    pub fn get(&mut self, k: u64) -> (r: Option<Pointer<T, L::Value>>)
        requires
            old(self).inv(),
        ensures
            final(self).inv(),
            exists|now: Instant| #[trigger] Self::spec_get_post(*old(self), *final(self), k, now, r),
    {
        let now = self.clock.now();
        let r = self.shard.get_at(k, now);
        proof {
            assert(Self::spec_get_post(*old(self), *self, k, now, r));
        }
        r
    }

    /// Inserts `value` at the given instant; an entry already stored under
    /// the key is replaced, and the policy's victims are evicted.
    pub fn insert_at(&mut self, value: T, now: Instant) -> (r: Pointer<T, L::Value>)
        requires
            old(self).inv(),
            old(self).contents().dom().len() < 0xFFFF_FFFF,
        ensures
            final(self).inv(),
            Self::spec_insert_post(*old(self), *final(self), value, now, r),
    {
        self.shard.insert_at(value, now)
    }

    /// Inserts `value` at the clock's current instant.
    pub fn insert(&mut self, value: T) -> (r: Pointer<T, L::Value>)
        requires
            old(self).inv(),
            old(self).contents().dom().len() < 0xFFFF_FFFF,
        ensures
            final(self).inv(),
            exists|now: Instant|
                #[trigger] Self::spec_insert_post(*old(self), *final(self), value, now, r),
    {
        let now = self.clock.now();
        let r = self.shard.insert_at(value, now);
        proof {
            assert(Self::spec_insert_post(*old(self), *self, value, now, r));
        }
        r
    }

    /// Probes for `k` at the given instant: the probe counts as a touch and
    /// drops a dead entry, like a `get`.
    pub fn entry_at(&mut self, k: u64, now: Instant) -> (r: Entry<Pointer<T, L::Value>>)
        requires
            old(self).inv(),
        ensures
            final(self).inv(),
            Self::spec_get_post(*old(self), *final(self), k, now, r.spec_option()),
    {
        self.shard.entry_at(k, now)
    }

    /// Probes for `k` at the clock's current instant.
    pub fn entry(&mut self, k: u64) -> (r: Entry<Pointer<T, L::Value>>)
        requires
            old(self).inv(),
        ensures
            final(self).inv(),
            exists|now: Instant|
                #[trigger] Self::spec_get_post(*old(self), *final(self), k, now, r.spec_option()),
    {
        let now = self.clock.now();
        let r = self.shard.entry_at(k, now);
        proof {
            assert(Self::spec_get_post(*old(self), *self, k, now, r.spec_option()));
        }
        r
    }

    /// Returns the stored pointer or inserts `value`, at the given instant.
    pub fn or_insert_at(&mut self, value: T, now: Instant) -> (r: Pointer<T, L::Value>)
        requires
            old(self).inv(),
            old(self).contents().dom().len() < 0xFFFF_FFFF,
        ensures
            final(self).inv(),
            Self::spec_or_insert_post(*old(self), *final(self), value, now, r),
    {
        self.shard.or_insert_at(value, now)
    }

    /// Returns the stored pointer or inserts `value`, at the clock's current
    /// instant.
    pub fn or_insert(&mut self, value: T) -> (r: Pointer<T, L::Value>)
        requires
            old(self).inv(),
            old(self).contents().dom().len() < 0xFFFF_FFFF,
        ensures
            final(self).inv(),
            exists|now: Instant|
                #[trigger] Self::spec_or_insert_post(*old(self), *final(self), value, now, r),
    {
        let now = self.clock.now();
        let r = self.shard.or_insert_at(value, now);
        proof {
            assert(Self::spec_or_insert_post(*old(self), *self, value, now, r));
        }
        r
    }

    /// Removes the entry under `k` at the given instant. The lookup counts
    /// as a touch: a dead entry is dropped but reported as a miss.
    pub fn remove_at(&mut self, k: u64, now: Instant) -> (r: Option<Pointer<T, L::Value>>)
        requires
            old(self).inv(),
        ensures
            final(self).inv(),
            Self::spec_remove_post(*old(self), *final(self), k, now, r),
    {
        self.shard.remove_at(k, now)
    }

    /// Removes the entry under `k` at the clock's current instant.
    pub fn remove(&mut self, k: u64) -> (r: Option<Pointer<T, L::Value>>)
        requires
            old(self).inv(),
        ensures
            final(self).inv(),
            exists|now: Instant|
                #[trigger] Self::spec_remove_post(*old(self), *final(self), k, now, r),
    {
        let now = self.clock.now();
        let r = self.shard.remove_at(k, now);
        proof {
            assert(Self::spec_remove_post(*old(self), *self, k, now, r));
        }
        r
    }

    /// Visits every entry at the given instant, letting the layer drop the
    /// dead ones, and hands back one pointer per surviving entry, with no
    /// key repeated.
    pub fn iter_at(&mut self, now: Instant) -> (r: Vec<Pointer<T, L::Value>>)
        requires
            old(self).inv(),
        ensures
            final(self).inv(),
            r@.len() == final(self).contents().dom().len(),
            forall|j: int|
                0 <= j < r@.len() ==> final(self).contents().contains_key(
                    (#[trigger] r@[j]).spec_value().spec_key(),
                ) && r@[j] == final(self).pointer_of(r@[j].spec_value().spec_key()),
            forall|k: u64|
                #[trigger] final(self).contents().contains_key(k) ==> old(
                    self,
                ).contents().contains_key(k) && final(self).contents()[k] == old(
                    self,
                ).contents()[k],
            forall|k: u64|
                #[trigger] final(self).contents().contains_key(k) ==> exists|j: int|
                    0 <= j < r@.len() && r@[j] == final(self).pointer_of(k),
            forall|a: int, b: int|
                0 <= a < r@.len() && 0 <= b < r@.len() && a != b ==> (
                #[trigger] r@[a]).spec_value().spec_key() != (
                #[trigger] r@[b]).spec_value().spec_key(),
    {
        self.shard.iter_at(now)
    }

    /// Visits every entry at the clock's current instant.
    pub fn iter(&mut self) -> (r: Vec<Pointer<T, L::Value>>)
        requires
            old(self).inv(),
        ensures
            final(self).inv(),
            r@.len() == final(self).contents().dom().len(),
            forall|j: int|
                0 <= j < r@.len() ==> final(self).contents().contains_key(
                    (#[trigger] r@[j]).spec_value().spec_key(),
                ) && r@[j] == final(self).pointer_of(r@[j].spec_value().spec_key()),
            forall|k: u64|
                #[trigger] final(self).contents().contains_key(k) ==> old(
                    self,
                ).contents().contains_key(k) && final(self).contents()[k] == old(
                    self,
                ).contents()[k],
            forall|k: u64|
                #[trigger] final(self).contents().contains_key(k) ==> exists|j: int|
                    0 <= j < r@.len() && r@[j] == final(self).pointer_of(k),
    {
        let now = self.clock.now();
        let r = self.shard.iter_at(now);
        r
    }
}

} // verus!
