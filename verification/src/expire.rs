//! Expiration layers. Each one declares `Remove` for an entry whose deadline
//! has passed; the store then drops the entry lazily, on the read or scan
//! that noticed it.
use vstd::prelude::*;

use std::collections::HashMap;

use crate::layer::{Layer, ReadLock, ReadResult};
use crate::time::{Duration, Instant};

verus! {

/// Values that know by themselves whether they are expired.
pub trait Expire {
    spec fn spec_is_expired(&self) -> bool;

    fn is_expired(&self) -> (r: bool)
        ensures
            r == self.spec_is_expired(),
    ;
}

/// Values that carry their expiry deadline.
pub trait ExpireAt {
    spec fn spec_expire_at(&self) -> Instant;

    fn expire_at(&self) -> (r: Instant)
        ensures
            r == self.spec_expire_at(),
    ;
}

/// Drops entries whose value reports itself expired.
#[derive(Debug, Clone, Copy, Default)]
pub struct ExpireLayer;

impl<T: Expire> Layer<T> for ExpireLayer {
    type Shard = ExpireLayer;

    fn new_shard(&self, capacity: usize) -> (s: ExpireLayer) {
        ExpireLayer
    }
}

impl<T: Expire> crate::layer::Shard<T> for ExpireLayer {
    type Value = ();

    open spec fn inv(&self) -> bool {
        true
    }

    open spec fn key_set(&self) -> Set<u64> {
        Set::empty()
    }

    open spec fn tracks() -> bool {
        false
    }

    open spec fn victims_exact() -> bool {
        true
    }

    open spec fn spec_victims(&self, now: Instant) -> Seq<u64> {
        Seq::empty()
    }

    open spec fn valid_value(&self, k: u64, v: ()) -> bool {
        true
    }

    open spec fn read_decision(&self, k: u64, v: (), t: T, now: Instant) -> ReadResult {
        if t.spec_is_expired() {
            ReadResult::Remove
        } else {
            ReadResult::Retain
        }
    }

    open spec fn iter_decision(&self, k: u64, v: (), t: T, now: Instant) -> ReadResult {
        if t.spec_is_expired() {
            ReadResult::Remove
        } else {
            ReadResult::Retain
        }
    }

    open spec fn spec_read_lock() -> ReadLock {
        ReadLock::Ref
    }

    open spec fn spec_iter_read_lock() -> ReadLock {
        ReadLock::Ref
    }

    open spec fn at_capacity(&self) -> bool {
        false
    }

    open spec fn victims_rel(pre: Self, post: Self, now: Instant, r: Seq<u64>) -> bool {
        post == pre && r == Seq::<u64>::empty()
    }

    open spec fn write_rel(pre: Self, post: Self, k: u64, t: T, now: Instant, v: ()) -> bool {
        post == pre
    }

    open spec fn remove_rel(pre: Self, post: Self, k: u64, v: ()) -> bool {
        post == pre
    }

    open spec fn read_rel(pre: Self, post: Self, k: u64, v: (), t: T, now: Instant) -> bool {
        post == pre
    }

    fn read_lock() -> ReadLock {
        ReadLock::Ref
    }

    fn iter_read_lock() -> ReadLock {
        ReadLock::Ref
    }

    proof fn lemma_key_set_finite(&self) {
    }

    proof fn lemma_untracked_empty(&self) {
    }

    fn victims(&mut self, now: Instant) -> (r: Vec<u64>) {
        let r: Vec<u64> = Vec::new();
        proof {
            assert(r@ =~= Seq::<u64>::empty());
        }
        r
    }

    fn write(&mut self, k: u64, t: &T, now: Instant) -> (v: ()) {
        ()
    }

    fn remove(&mut self, k: u64, v: &()) {
    }

    fn read_mut(&mut self, k: u64, v: &(), t: &T, now: Instant) -> (r: ReadResult) {
        if t.is_expired() {
            ReadResult::Remove
        } else {
            ReadResult::Retain
        }
    }

    fn iter_read_mut(&mut self, k: u64, v: &(), t: &T, now: Instant) -> (r: ReadResult) {
        if t.is_expired() {
            ReadResult::Remove
        } else {
            ReadResult::Retain
        }
    }
}

/// Drops entries whose deadline, read off the value, has been reached.
#[derive(Debug, Clone, Copy, Default)]
pub struct ExpireAtLayer;

impl ExpireAtLayer {
    pub fn new() -> (r: ExpireAtLayer)
        ensures
            r == ExpireAtLayer,
    {
        ExpireAtLayer
    }
}

impl<T: ExpireAt> Layer<T> for ExpireAtLayer {
    type Shard = ExpireAtLayer;

    fn new_shard(&self, capacity: usize) -> (s: ExpireAtLayer) {
        ExpireAtLayer
    }
}

impl<T: ExpireAt> crate::layer::Shard<T> for ExpireAtLayer {
    type Value = ();

    open spec fn inv(&self) -> bool {
        true
    }

    open spec fn key_set(&self) -> Set<u64> {
        Set::empty()
    }

    open spec fn tracks() -> bool {
        false
    }

    open spec fn victims_exact() -> bool {
        true
    }

    open spec fn spec_victims(&self, now: Instant) -> Seq<u64> {
        Seq::empty()
    }

    open spec fn valid_value(&self, k: u64, v: ()) -> bool {
        true
    }

    /// Expired exactly when the value's deadline is at or before `now`.
    open spec fn read_decision(&self, k: u64, v: (), t: T, now: Instant) -> ReadResult {
        if t.spec_expire_at().nanos <= now.nanos {
            ReadResult::Remove
        } else {
            ReadResult::Retain
        }
    }

    open spec fn iter_decision(&self, k: u64, v: (), t: T, now: Instant) -> ReadResult {
        if t.spec_expire_at().nanos <= now.nanos {
            ReadResult::Remove
        } else {
            ReadResult::Retain
        }
    }

    open spec fn spec_read_lock() -> ReadLock {
        ReadLock::Ref
    }

    open spec fn spec_iter_read_lock() -> ReadLock {
        ReadLock::Ref
    }

    open spec fn at_capacity(&self) -> bool {
        false
    }

    open spec fn victims_rel(pre: Self, post: Self, now: Instant, r: Seq<u64>) -> bool {
        post == pre && r == Seq::<u64>::empty()
    }

    open spec fn write_rel(pre: Self, post: Self, k: u64, t: T, now: Instant, v: ()) -> bool {
        post == pre
    }

    open spec fn remove_rel(pre: Self, post: Self, k: u64, v: ()) -> bool {
        post == pre
    }

    open spec fn read_rel(pre: Self, post: Self, k: u64, v: (), t: T, now: Instant) -> bool {
        post == pre
    }

    fn read_lock() -> ReadLock {
        ReadLock::Ref
    }

    fn iter_read_lock() -> ReadLock {
        ReadLock::Ref
    }

    proof fn lemma_key_set_finite(&self) {
    }

    proof fn lemma_untracked_empty(&self) {
    }

    fn victims(&mut self, now: Instant) -> (r: Vec<u64>) {
        let r: Vec<u64> = Vec::new();
        proof {
            assert(r@ =~= Seq::<u64>::empty());
        }
        r
    }

    fn write(&mut self, k: u64, t: &T, now: Instant) -> (v: ()) {
        ()
    }

    fn remove(&mut self, k: u64, v: &()) {
    }

    fn read_mut(&mut self, k: u64, v: &(), t: &T, now: Instant) -> (r: ReadResult) {
        let deadline = t.expire_at();
        if deadline.nanos <= now.nanos {
            ReadResult::Remove
        } else {
            ReadResult::Retain
        }
    }

    fn iter_read_mut(&mut self, k: u64, v: &(), t: &T, now: Instant) -> (r: ReadResult) {
        let deadline = t.expire_at();
        if deadline.nanos <= now.nanos {
            ReadResult::Remove
        } else {
            ReadResult::Retain
        }
    }
}

/// Sliding write expiry: each entry's deadline is fixed when it is written,
/// `ttl` past the write instant, and carried in the entry itself.
#[derive(Debug, Clone, Copy)]
pub struct ExpireAfterWriteLayer {
    pub ttl: Duration,
}

impl ExpireAfterWriteLayer {
    pub fn new(ttl: Duration) -> (r: ExpireAfterWriteLayer)
        ensures
            r.ttl == ttl,
    {
        ExpireAfterWriteLayer { ttl }
    }
}

impl<T> Layer<T> for ExpireAfterWriteLayer {
    type Shard = ExpireAfterWriteLayer;

    fn new_shard(&self, capacity: usize) -> (s: ExpireAfterWriteLayer) {
        ExpireAfterWriteLayer { ttl: self.ttl }
    }
}

impl<T> crate::layer::Shard<T> for ExpireAfterWriteLayer {
    type Value = Instant;

    open spec fn inv(&self) -> bool {
        true
    }

    open spec fn key_set(&self) -> Set<u64> {
        Set::empty()
    }

    open spec fn tracks() -> bool {
        false
    }

    open spec fn victims_exact() -> bool {
        true
    }

    open spec fn spec_victims(&self, now: Instant) -> Seq<u64> {
        Seq::empty()
    }

    open spec fn valid_value(&self, k: u64, v: Instant) -> bool {
        true
    }

    /// Expired exactly when the deadline stamped at write time has passed.
    open spec fn read_decision(&self, k: u64, v: Instant, t: T, now: Instant) -> ReadResult {
        if v.nanos <= now.nanos {
            ReadResult::Remove
        } else {
            ReadResult::Retain
        }
    }

    open spec fn iter_decision(&self, k: u64, v: Instant, t: T, now: Instant) -> ReadResult {
        if v.nanos <= now.nanos {
            ReadResult::Remove
        } else {
            ReadResult::Retain
        }
    }

    open spec fn spec_read_lock() -> ReadLock {
        ReadLock::Ref
    }

    open spec fn spec_iter_read_lock() -> ReadLock {
        ReadLock::Ref
    }

    open spec fn at_capacity(&self) -> bool {
        false
    }

    open spec fn victims_rel(pre: Self, post: Self, now: Instant, r: Seq<u64>) -> bool {
        post == pre && r == Seq::<u64>::empty()
    }

    /// The deadline stamped at the write is the write instant plus the ttl.
    open spec fn write_rel(pre: Self, post: Self, k: u64, t: T, now: Instant, v: Instant) -> bool {
        post == pre && v.nanos == if now.nanos + pre.ttl.nanos <= u64::MAX {
            (now.nanos + pre.ttl.nanos) as u64
        } else {
            u64::MAX
        }
    }

    open spec fn remove_rel(pre: Self, post: Self, k: u64, v: Instant) -> bool {
        post == pre
    }

    open spec fn read_rel(pre: Self, post: Self, k: u64, v: Instant, t: T, now: Instant) -> bool {
        post == pre
    }

    fn read_lock() -> ReadLock {
        ReadLock::Ref
    }

    fn iter_read_lock() -> ReadLock {
        ReadLock::Ref
    }

    proof fn lemma_key_set_finite(&self) {
    }

    proof fn lemma_untracked_empty(&self) {
    }

    fn victims(&mut self, now: Instant) -> (r: Vec<u64>) {
        let r: Vec<u64> = Vec::new();
        proof {
            assert(r@ =~= Seq::<u64>::empty());
        }
        r
    }

    fn write(&mut self, k: u64, t: &T, now: Instant) -> (v: Instant)
        ensures
            // Refinement: the deadline is the write instant plus the ttl.
            v.nanos == if now.nanos + old(self).ttl.nanos <= u64::MAX {
                (now.nanos + old(self).ttl.nanos) as u64
            } else {
                u64::MAX
            },
    {
        now.saturating_add(self.ttl)
    }

    fn remove(&mut self, k: u64, v: &Instant) {
    }

    fn read_mut(&mut self, k: u64, v: &Instant, t: &T, now: Instant) -> (r: ReadResult) {
        if v.nanos <= now.nanos {
            ReadResult::Remove
        } else {
            ReadResult::Retain
        }
    }

    fn iter_read_mut(&mut self, k: u64, v: &Instant, t: &T, now: Instant) -> (r: ReadResult) {
        if v.nanos <= now.nanos {
            ReadResult::Remove
        } else {
            ReadResult::Retain
        }
    }
}

/// Sliding read expiry: each entry's deadline is pushed out to `ttl` past
/// every read; an entry expires when it has not been read (or written) for
/// `ttl`. The deadlines live in the shard, keyed by the entry's key.
#[derive(Debug, Clone, Copy)]
pub struct ExpireAfterReadLayer {
    pub ttl: Duration,
}

impl ExpireAfterReadLayer {
    pub fn new(ttl: Duration) -> (r: ExpireAfterReadLayer)
        ensures
            r.ttl == ttl,
    {
        ExpireAfterReadLayer { ttl }
    }
}

/// One shard of the sliding read expiry: the per-key deadlines.
pub struct ExpireAfterReadShard {
    ttl: Duration,
    deadlines: HashMap<u64, u64>,
}

impl ExpireAfterReadShard {
    /// The deadline currently on file for `k`.
    pub closed spec fn deadline_of(&self, k: u64) -> u64 {
        self.deadlines@[k]
    }

    pub closed spec fn spec_ttl(&self) -> Duration {
        self.ttl
    }
}

impl<T> Layer<T> for ExpireAfterReadLayer {
    type Shard = ExpireAfterReadShard;

    fn new_shard(&self, capacity: usize) -> (s: ExpireAfterReadShard) {
        ExpireAfterReadShard { ttl: self.ttl, deadlines: HashMap::new() }
    }
}

impl<T> crate::layer::Shard<T> for ExpireAfterReadShard {
    type Value = ();

    open spec fn inv(&self) -> bool {
        true
    }

    open spec fn key_set(&self) -> Set<u64> {
        Set::empty()
    }

    open spec fn tracks() -> bool {
        false
    }

    open spec fn victims_exact() -> bool {
        true
    }

    open spec fn spec_victims(&self, now: Instant) -> Seq<u64> {
        Seq::empty()
    }

    closed spec fn valid_value(&self, k: u64, v: ()) -> bool {
        self.deadlines@.contains_key(k)
    }

    /// Expired exactly when the deadline on file has passed; the read that
    /// notices also renews the deadline it is about to discard.
    open spec fn read_decision(&self, k: u64, v: (), t: T, now: Instant) -> ReadResult {
        if self.deadline_of(k) <= now.nanos {
            ReadResult::Remove
        } else {
            ReadResult::Retain
        }
    }

    open spec fn iter_decision(&self, k: u64, v: (), t: T, now: Instant) -> ReadResult {
        if self.deadline_of(k) <= now.nanos {
            ReadResult::Remove
        } else {
            ReadResult::Retain
        }
    }

    open spec fn spec_read_lock() -> ReadLock {
        ReadLock::Ref
    }

    open spec fn spec_iter_read_lock() -> ReadLock {
        ReadLock::Ref
    }

    open spec fn at_capacity(&self) -> bool {
        false
    }

    open spec fn victims_rel(pre: Self, post: Self, now: Instant, r: Seq<u64>) -> bool {
        post == pre && r == Seq::<u64>::empty()
    }

    /// The write files a fresh deadline, the write instant plus the ttl,
    /// and touches no other key's deadline.
    open spec fn write_rel(pre: Self, post: Self, k: u64, t: T, now: Instant, v: ()) -> bool {
        &&& post.spec_ttl() == pre.spec_ttl()
        &&& post.deadline_of(k) == if now.nanos + pre.spec_ttl().nanos <= u64::MAX {
            (now.nanos + pre.spec_ttl().nanos) as u64
        } else {
            u64::MAX
        }
        &&& forall|k2: u64| k2 != k ==> #[trigger] post.deadline_of(k2) == pre.deadline_of(k2)
    }

    open spec fn remove_rel(pre: Self, post: Self, k: u64, v: ()) -> bool {
        &&& post.spec_ttl() == pre.spec_ttl()
        &&& forall|k2: u64| k2 != k ==> #[trigger] post.deadline_of(k2) == pre.deadline_of(k2)
    }

    /// Each read renews the key's deadline to the read instant plus the
    /// ttl; the verdict reports on the deadline the read found.
    open spec fn read_rel(pre: Self, post: Self, k: u64, v: (), t: T, now: Instant) -> bool {
        &&& post.spec_ttl() == pre.spec_ttl()
        &&& post.deadline_of(k) == if now.nanos + pre.spec_ttl().nanos <= u64::MAX {
            (now.nanos + pre.spec_ttl().nanos) as u64
        } else {
            u64::MAX
        }
        &&& forall|k2: u64| k2 != k ==> #[trigger] post.deadline_of(k2) == pre.deadline_of(k2)
    }

    fn read_lock() -> ReadLock {
        ReadLock::Ref
    }

    fn iter_read_lock() -> ReadLock {
        ReadLock::Ref
    }

    proof fn lemma_key_set_finite(&self) {
    }

    proof fn lemma_untracked_empty(&self) {
    }

    fn victims(&mut self, now: Instant) -> (r: Vec<u64>) {
        let r: Vec<u64> = Vec::new();
        proof {
            assert(r@ =~= Seq::<u64>::empty());
        }
        r
    }

    fn write(&mut self, k: u64, t: &T, now: Instant) -> (v: ())
        ensures
            // Refinement: the fresh deadline is the write instant plus ttl.
            final(self).deadline_of(k) == if now.nanos + old(self).spec_ttl().nanos <= u64::MAX {
                (now.nanos + old(self).spec_ttl().nanos) as u64
            } else {
                u64::MAX
            },
            final(self).spec_ttl() == old(self).spec_ttl(),
    {
        let deadline = now.saturating_add(self.ttl);
        self.deadlines.insert(k, deadline.nanos);
        ()
    }

    fn remove(&mut self, k: u64, v: &()) {
        self.deadlines.remove(&k);
    }

    fn read_mut(&mut self, k: u64, v: &(), t: &T, now: Instant) -> (r: ReadResult)
        ensures
            // Refinement: the read renews the deadline.
            final(self).deadline_of(k) == if now.nanos + old(self).spec_ttl().nanos <= u64::MAX {
                (now.nanos + old(self).spec_ttl().nanos) as u64
            } else {
                u64::MAX
            },
            final(self).spec_ttl() == old(self).spec_ttl(),
    {
        let previous = match self.deadlines.get(&k) {
            Some(d) => *d,
            None => {
                proof {
                    assert(false);
                }
                0
            },
        };
        let renewed = now.saturating_add(self.ttl);
        self.deadlines.insert(k, renewed.nanos);
        if previous <= now.nanos {
            ReadResult::Remove
        } else {
            ReadResult::Retain
        }
    }

    fn iter_read_mut(&mut self, k: u64, v: &(), t: &T, now: Instant) -> (r: ReadResult)
        ensures
            final(self).deadline_of(k) == if now.nanos + old(self).spec_ttl().nanos <= u64::MAX {
                (now.nanos + old(self).spec_ttl().nanos) as u64
            } else {
                u64::MAX
            },
            final(self).spec_ttl() == old(self).spec_ttl(),
    {
        let previous = match self.deadlines.get(&k) {
            Some(d) => *d,
            None => {
                proof {
                    assert(false);
                }
                0
            },
        };
        let renewed = now.saturating_add(self.ttl);
        self.deadlines.insert(k, renewed.nanos);
        if previous <= now.nanos {
            ReadResult::Remove
        } else {
            ReadResult::Retain
        }
    }
}

} // verus!
