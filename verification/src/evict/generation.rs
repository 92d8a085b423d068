//! Promotion predicates for generational caching: the rule that decides,
//! touch by touch, when an entry has proven itself hot enough to move from
//! the short-term queue to the long-term one.
use vstd::prelude::*;

use std::collections::HashMap;

use crate::layer::{Layer, ReadLock, ReadResult};
use crate::time::{Duration, Instant};
use super::index::Key;
use super::list::List;

verus! {

/// A promotion rule: fresh per-entry state at the write, stepped on every
/// touch until it fires.
pub trait Promote {
    /// Per-entry promotion state.
    type Value;

    /// The state a fresh entry starts with, at write instant `now`.
    spec fn spec_initial(&self, now: Instant) -> Self::Value;

    /// One touch at `now`: the state afterwards, and whether it fired.
    spec fn spec_step(&self, v: Self::Value, now: Instant) -> (Self::Value, bool);

    fn new_value(&self, now: Instant) -> (r: Self::Value)
        ensures
            r == self.spec_initial(now),
    ;

    /// Steps the state for one touch; true means promote now.
    fn try_touch_promote(&self, v: &mut Self::Value, now: Instant) -> (r: bool)
        ensures
            *final(v) == self.spec_step(*old(v), now).0,
            r == self.spec_step(*old(v), now).1,
    ;
}

/// Promote after a fixed number of touches: the entry carries a countdown,
/// and the touch that takes it to zero fires.
#[derive(Debug, Clone, Copy)]
pub struct PromoteAfterTouchCount {
    pub required_touches: u32,
}

impl PromoteAfterTouchCount {
    pub fn new(required_touches: u32) -> (r: PromoteAfterTouchCount)
        ensures
            r.required_touches == required_touches,
    {
        PromoteAfterTouchCount { required_touches }
    }
}

impl Promote for PromoteAfterTouchCount {
    type Value = u32;

    open spec fn spec_initial(&self, now: Instant) -> u32 {
        self.required_touches
    }

    open spec fn spec_step(&self, v: u32, now: Instant) -> (u32, bool) {
        if v <= 1 {
            (0u32, true)
        } else {
            ((v - 1) as u32, false)
        }
    }

    fn new_value(&self, now: Instant) -> u32 {
        self.required_touches
    }

    fn try_touch_promote(&self, v: &mut u32, now: Instant) -> (r: bool) {
        if *v <= 1 {
            *v = 0;
            true
        } else {
            *v = *v - 1;
            false
        }
    }
}

/// Promote once the entry has been around for a while: the entry carries
/// the deadline stamped at its write, and the first touch at or past it
/// fires.
#[derive(Debug, Clone, Copy)]
pub struct PromoteTouchedAfterDuration {
    pub duration: Duration,
}

impl PromoteTouchedAfterDuration {
    pub fn new(duration: Duration) -> (r: PromoteTouchedAfterDuration)
        ensures
            r.duration == duration,
    {
        PromoteTouchedAfterDuration { duration }
    }
}

impl Promote for PromoteTouchedAfterDuration {
    type Value = Instant;

    open spec fn spec_initial(&self, now: Instant) -> Instant {
        Instant {
            nanos: if now.nanos + self.duration.nanos <= u64::MAX {
                (now.nanos + self.duration.nanos) as u64
            } else {
                u64::MAX
            },
        }
    }

    open spec fn spec_step(&self, v: Instant, now: Instant) -> (Instant, bool) {
        (v, v.nanos <= now.nanos)
    }

    fn new_value(&self, now: Instant) -> Instant {
        now.saturating_add(self.duration)
    }

    fn try_touch_promote(&self, v: &mut Instant, now: Instant) -> (r: bool) {
        v.nanos <= now.nanos
    }
}

/// The generational layer: new entries land in a short-term queue; once the
/// promotion rule fires for an entry, it migrates to the long-term queue and
/// no longer competes with the churn of fresh insertions. Victims come from
/// whichever queue is over its share.
#[derive(Debug, Clone, Copy)]
pub struct EvictGenerational<P> {
    pub promo: P,
}

impl<P> EvictGenerational<P> {
    pub fn new(promo: P) -> (r: EvictGenerational<P>)
        ensures
            r.promo == promo,
    {
        EvictGenerational { promo }
    }
}

/// What the shard knows of one entry: which queue holds it, under which
/// list key, and how far its promotion state has come.
#[derive(Debug, Clone, Copy)]
pub struct GenEntry<V> {
    pub g0: bool,
    pub slot: Key,
    pub promo: V,
}

/// One shard: the two queues and the per-key entry records.
pub struct Queue<P: Promote> {
    q0: List<u64>,
    q1: List<u64>,
    state: HashMap<u64, GenEntry<P::Value>>,
    promo: P,
}

impl<P: Promote> Queue<P> {
    /// The short-term queue's keys, oldest first.
    pub closed spec fn g0_order(&self) -> Seq<u64> {
        self.q0.values()
    }

    /// The long-term queue's keys, least recently promoted first.
    pub closed spec fn g1_order(&self) -> Seq<u64> {
        self.q1.values()
    }

    pub closed spec fn spec_g0_capacity(&self) -> usize {
        self.q0.spec_capacity()
    }

    pub closed spec fn spec_g1_capacity(&self) -> usize {
        self.q1.spec_capacity()
    }

    /// Whether `k` currently sits in the short-term queue.
    pub open spec fn in_g0(&self, k: u64) -> bool {
        self.g0_order().contains(k)
    }

    /// The configured promotion rule.
    pub closed spec fn spec_promo(&self) -> P {
        self.promo
    }

    /// The promotion state on file for `k`.
    pub closed spec fn promo_of(&self, k: u64) -> P::Value {
        self.state@[k].promo
    }
}

impl<T, P: Promote> Layer<T> for EvictGenerational<P> where P: Copy, P::Value: Copy {
    type Shard = Queue<P>;

    fn new_shard(&self, capacity: usize) -> (s: Queue<P>) {
        let g0_capacity = capacity / 4 + 1;
        let s = Queue {
            q0: List::with_capacity(g0_capacity),
            q1: List::with_capacity(capacity),
            state: HashMap::new(),
            promo: self.promo,
        };
        proof {
            assert(s.g0_order().to_set().union(s.g1_order().to_set()) =~= Set::<u64>::empty());
        }
        s
    }
}

impl<T, P: Promote> crate::layer::Shard<T> for Queue<P> where P::Value: Copy {
    type Value = ();

    closed spec fn inv(&self) -> bool {
        &&& self.q0.wf()
        &&& self.q1.wf()
        &&& self.g0_order().no_duplicates()
        &&& self.g1_order().no_duplicates()
        &&& (forall|k: u64| self.g0_order().contains(k) ==> !self.g1_order().contains(k))
        &&& (forall|i: int|
            0 <= i < self.q0@.len() ==> self.state@.contains_key((#[trigger] self.q0@[i]).1)
                && self.state@[self.q0@[i].1].g0 && self.state@[self.q0@[i].1].slot
                == self.q0@[i].0)
        &&& (forall|i: int|
            0 <= i < self.q1@.len() ==> self.state@.contains_key((#[trigger] self.q1@[i]).1)
                && !self.state@[self.q1@[i].1].g0 && self.state@[self.q1@[i].1].slot
                == self.q1@[i].0)
        &&& (forall|k: u64|
            #[trigger] self.state@.contains_key(k) ==> (self.state@[k].g0 ==> exists|i: int|
                0 <= i < self.q0@.len() && self.q0@[i] == (self.state@[k].slot, k)) && (
            !self.state@[k].g0 ==> exists|i: int|
                0 <= i < self.q1@.len() && self.q1@[i] == (self.state@[k].slot, k)))
    }

    open spec fn key_set(&self) -> Set<u64> {
        self.g0_order().to_set().union(self.g1_order().to_set())
    }

    open spec fn tracks() -> bool {
        true
    }

    open spec fn victims_exact() -> bool {
        true
    }

    /// The head of whichever queue is over its share, the short-term one
    /// first.
    open spec fn spec_victims(&self, now: Instant) -> Seq<u64> {
        if self.g0_order().len() >= self.spec_g0_capacity() {
            seq![self.g0_order()[0]]
        } else if self.g1_order().len() >= self.spec_g1_capacity() {
            seq![self.g1_order()[0]]
        } else {
            Seq::empty()
        }
    }

    closed spec fn valid_value(&self, k: u64, v: ()) -> bool {
        self.state@.contains_key(k)
    }

    open spec fn read_decision(&self, k: u64, v: (), t: T, now: Instant) -> ReadResult {
        ReadResult::Retain
    }

    open spec fn iter_decision(&self, k: u64, v: (), t: T, now: Instant) -> ReadResult {
        ReadResult::Retain
    }

    open spec fn spec_read_lock() -> ReadLock {
        ReadLock::Mut
    }

    open spec fn spec_iter_read_lock() -> ReadLock {
        ReadLock::Free
    }

    open spec fn at_capacity(&self) -> bool {
        self.g0_order().len() >= self.spec_g0_capacity() || self.g1_order().len()
            >= self.spec_g1_capacity()
    }

    /// Naming victims changes nothing; the victim is the head of whichever
    /// queue is over its share.
    open spec fn victims_rel(pre: Self, post: Self, now: Instant, r: Seq<u64>) -> bool {
        post == pre && r == if pre.g0_order().len() >= pre.spec_g0_capacity() {
            seq![pre.g0_order()[0]]
        } else if pre.g1_order().len() >= pre.spec_g1_capacity() {
            seq![pre.g1_order()[0]]
        } else {
            Seq::<u64>::empty()
        }
    }

    /// A fresh key joins the tail of the short-term queue with the rule's
    /// initial promotion state.
    open spec fn write_rel(pre: Self, post: Self, k: u64, t: T, now: Instant, v: ()) -> bool {
        &&& post.g0_order() == pre.g0_order().push(k)
        &&& post.g1_order() == pre.g1_order()
        &&& post.spec_g0_capacity() == pre.spec_g0_capacity()
        &&& post.spec_g1_capacity() == pre.spec_g1_capacity()
        &&& post.spec_promo() == pre.spec_promo()
        &&& post.promo_of(k) == pre.spec_promo().spec_initial(now)
    }

    /// The key leaves whichever queue held it.
    open spec fn remove_rel(pre: Self, post: Self, k: u64, v: ()) -> bool {
        &&& post.spec_g0_capacity() == pre.spec_g0_capacity()
        &&& post.spec_g1_capacity() == pre.spec_g1_capacity()
        &&& post.spec_promo() == pre.spec_promo()
        &&& (pre.in_g0(k) ==> post.g0_order() == pre.g0_order().remove(pre.g0_order().index_of(k))
            && post.g1_order() == pre.g1_order())
        &&& (!pre.in_g0(k) ==> post.g1_order() == pre.g1_order().remove(pre.g1_order().index_of(k))
            && post.g0_order() == pre.g0_order())
    }

    /// The promotion statement: a short-term touch steps the rule; the
    /// touch that fires it (with room in the long-term queue) migrates the
    /// key to the long-term tail, exactly once; any other short-term touch
    /// only restamps; long-term entries are left completely alone.
    open spec fn read_rel(pre: Self, post: Self, k: u64, v: (), t: T, now: Instant) -> bool {
        let stepped = pre.spec_promo().spec_step(pre.promo_of(k), now);
        &&& post.spec_promo() == pre.spec_promo()
        &&& post.spec_g0_capacity() == pre.spec_g0_capacity()
        &&& post.spec_g1_capacity() == pre.spec_g1_capacity()
        &&& (pre.in_g0(k) && stepped.1 && pre.g1_order().len() < 0xFFFF_FFFF ==> post.g0_order()
            == pre.g0_order().remove(pre.g0_order().index_of(k)) && post.g1_order()
            == pre.g1_order().push(k) && post.promo_of(k) == stepped.0 && !post.in_g0(k))
        &&& (pre.in_g0(k) && !(stepped.1 && pre.g1_order().len() < 0xFFFF_FFFF) ==> post.g0_order()
            == pre.g0_order() && post.g1_order() == pre.g1_order() && post.promo_of(k) == stepped.0
            && post.in_g0(k))
        &&& (!pre.in_g0(k) ==> post == pre)
    }

    fn read_lock() -> ReadLock {
        ReadLock::Mut
    }

    fn iter_read_lock() -> ReadLock {
        ReadLock::Free
    }

    proof fn lemma_key_set_finite(&self) {
        self.g0_order().lemma_cardinality_of_set();
        self.g1_order().lemma_cardinality_of_set();
    }

    proof fn lemma_untracked_empty(&self) {
    }

    fn victims(&mut self, now: Instant) -> (r: Vec<u64>) {
        proof {
            self.q0.lemma_bounds();
            self.q1.lemma_bounds();
        }
        let mut out: Vec<u64> = Vec::new();
        if self.q0.len() >= self.q0.capacity() {
            match self.q0.peek_head() {
                Some(k) => {
                    out.push(*k);
                    proof {
                        assert(self.g0_order()[0] == *k);
                        assert(self.g0_order().contains(*k));
                    }
                },
                None => {
                    proof {
                        assert(false);
                    }
                },
            }
        } else if self.q1.len() >= self.q1.capacity() {
            match self.q1.peek_head() {
                Some(k) => {
                    out.push(*k);
                    proof {
                        assert(self.g1_order()[0] == *k);
                        assert(self.g1_order().contains(*k));
                    }
                },
                None => {
                    proof {
                        assert(false);
                    }
                },
            }
        }
        proof {
            if self.g0_order().len() >= self.spec_g0_capacity() {
                assert(out@ =~= seq![self.g0_order()[0]]);
            } else if self.g1_order().len() >= self.spec_g1_capacity() {
                assert(out@ =~= seq![self.g1_order()[0]]);
            } else {
                assert(out@ =~= Seq::<u64>::empty());
            }
        }
        out
    }

    fn write(&mut self, k: u64, t: &T, now: Instant) -> (v: ())
        ensures
            // Refinement: the key joins the tail of the short-term queue.
            final(self).g0_order() == old(self).g0_order().push(k),
            final(self).g1_order() == old(self).g1_order(),
    {
        proof {
            self.q0.lemma_bounds();
            assert(!self.g0_order().contains(k)) by {
                if self.g0_order().contains(k) {
                    assert(crate::layer::Shard::<T>::key_set(self).contains(k));
                }
            }
            // The queue has room: its keys are a subset of the tracked set,
            // which the caller keeps under the index limit.
            self.g0_order().unique_seq_to_set();
            crate::layer::Shard::<T>::lemma_key_set_finite(self);
            vstd::set_lib::lemma_len_subset(
                self.g0_order().to_set(),
                crate::layer::Shard::<T>::key_set(self),
            );
        }
        let slot = self.q0.push_tail_with_key(k);
        let pv = self.promo.new_value(now);
        self.state.insert(k, GenEntry { g0: true, slot, promo: pv });
        proof {
            let pre = *old(self);
            let ord0 = pre.g0_order();
            let ord1 = self.g0_order();
            assert(ord1 =~= ord0.push(k));
            lemma_push_distinct(ord0, k);
            lemma_push_to_set(ord0, k);
            assert(crate::layer::Shard::<T>::key_set(self) =~= crate::layer::Shard::<T>::key_set(
                &pre,
            ).insert(k));
            assert(self.q0@[self.q0@.len() - 1] == (slot, k));
            // Entries other than the fresh one keep their records and their
            // places.
            assert forall|i: int| 0 <= i < self.q0@.len() implies self.state@.contains_key(
                (#[trigger] self.q0@[i]).1,
            ) && self.state@[self.q0@[i].1].g0 && self.state@[self.q0@[i].1].slot
                == self.q0@[i].0 by {
                if i < pre.q0@.len() {
                    assert(self.q0@[i] == pre.q0@[i]);
                    assert(pre.q0@[i].1 != k) by {
                        assert(pre.g0_order()[i] == pre.q0@[i].1);
                        if pre.q0@[i].1 == k {
                            assert(pre.g0_order().contains(k));
                        }
                    }
                }
            }
            assert forall|i: int| 0 <= i < self.q1@.len() implies self.state@.contains_key(
                (#[trigger] self.q1@[i]).1,
            ) && !self.state@[self.q1@[i].1].g0 && self.state@[self.q1@[i].1].slot
                == self.q1@[i].0 by {
                assert(self.q1@[i] == pre.q1@[i]);
                assert(pre.q1@[i].1 != k) by {
                    assert(pre.g1_order()[i] == pre.q1@[i].1);
                    if pre.q1@[i].1 == k {
                        assert(crate::layer::Shard::<T>::key_set(&pre).contains(k));
                    }
                }
            }
            assert forall|k2: u64| #[trigger] self.state@.contains_key(k2) implies (
            self.state@[k2].g0 ==> exists|i: int|
                0 <= i < self.q0@.len() && self.q0@[i] == (self.state@[k2].slot, k2)) && (
            !self.state@[k2].g0 ==> exists|i: int|
                0 <= i < self.q1@.len() && self.q1@[i] == (self.state@[k2].slot, k2)) by {
                if k2 == k {
                    assert(self.q0@[self.q0@.len() - 1] == (self.state@[k2].slot, k2));
                } else {
                    assert(pre.state@.contains_key(k2));
                    if pre.state@[k2].g0 {
                        let i = choose|i: int|
                            0 <= i < pre.q0@.len() && pre.q0@[i] == (pre.state@[k2].slot, k2);
                        assert(self.q0@[i] == (self.state@[k2].slot, k2));
                    } else {
                        let i = choose|i: int|
                            0 <= i < pre.q1@.len() && pre.q1@[i] == (pre.state@[k2].slot, k2);
                        assert(self.q1@[i] == (self.state@[k2].slot, k2));
                    }
                }
            }
        }
        ()
    }

    fn remove(&mut self, k: u64, v: &()) {
        let ghost pre = *self;
        let e = match self.state.get(&k) {
            Some(e) => *e,
            None => {
                proof {
                    assert(false);
                }
                return ;
            },
        };
        if e.g0 {
            let ghost p = pre.q0.keys().index_of(e.slot);
            proof {
                let i = choose|i: int|
                    0 <= i < pre.q0@.len() && pre.q0@[i] == (pre.state@[k].slot, k);
                assert(pre.q0.keys()[i] == e.slot);
                assert(pre.q0.keys().contains(e.slot));
                pre.q0.lemma_keys_distinct();
                assert(pre.q0.keys()[p] == e.slot);
                assert(p == i);
            }
            let removed = self.q0.remove(e.slot);
            self.state.remove(&k);
            proof {
                gen_restore_after_remove::<T, P>(pre, *self, k, p);
                assert(pre.g0_order()[p] == k);
                assert(pre.in_g0(k));
                assert(pre.g0_order().index_of(k) == p) by {
                    let q = pre.g0_order().index_of(k);
                    assert(pre.g0_order()[q] == k);
                }
                assert(self.g0_order() =~= pre.g0_order().remove(p));
            }
        } else {
            let ghost p = pre.q1.keys().index_of(e.slot);
            proof {
                let i = choose|i: int|
                    0 <= i < pre.q1@.len() && pre.q1@[i] == (pre.state@[k].slot, k);
                assert(pre.q1.keys()[i] == e.slot);
                assert(pre.q1.keys().contains(e.slot));
                pre.q1.lemma_keys_distinct();
                assert(pre.q1.keys()[p] == e.slot);
                assert(p == i);
            }
            let removed = self.q1.remove(e.slot);
            self.state.remove(&k);
            proof {
                gen_restore_after_remove::<T, P>(pre, *self, k, p);
                assert(pre.g1_order()[p] == k);
                assert(!pre.in_g0(k)) by {
                    if pre.g0_order().contains(k) {
                        assert(!pre.g1_order().contains(k));
                        assert(pre.g1_order().contains(k));
                    }
                }
                assert(pre.g1_order().index_of(k) == p) by {
                    let q = pre.g1_order().index_of(k);
                    assert(pre.g1_order().contains(k));
                    assert(pre.g1_order()[q] == k);
                }
                assert(self.g1_order() =~= pre.g1_order().remove(p));
            }
        }
    }

    /// A touch: in the short-term queue the promotion rule steps, and the
    /// touch that fires it migrates the key to the long-term queue's tail.
    /// Long-term entries need nothing.
    fn read_mut(&mut self, k: u64, v: &(), t: &T, now: Instant) -> (r: ReadResult) {
        let ghost pre = *self;
        let e = match self.state.get(&k) {
            Some(e) => *e,
            None => {
                proof {
                    assert(false);
                }
                return ReadResult::Retain;
            },
        };
        if e.g0 {
            proof {
                assert(pre.in_g0(k)) by {
                    let i = choose|i: int|
                        0 <= i < pre.q0@.len() && pre.q0@[i] == (pre.state@[k].slot, k);
                    assert(pre.g0_order()[i] == k);
                }
            }
            let mut pv = e.promo;
            let fire = self.promo.try_touch_promote(&mut pv, now);
            if fire && self.q1.len() < 0xFFFF_FFFFusize {
                let ghost p = pre.q0.keys().index_of(e.slot);
                proof {
                    let i = choose|i: int|
                        0 <= i < pre.q0@.len() && pre.q0@[i] == (pre.state@[k].slot, k);
                    assert(pre.q0.keys()[i] == e.slot);
                    assert(pre.q0.keys().contains(e.slot));
                    pre.q0.lemma_keys_distinct();
                    assert(pre.q0.keys()[p] == e.slot);
                    assert(p == i);
                    self.q1.lemma_bounds();
                    assert(!pre.g1_order().contains(k)) by {
                        assert(pre.g0_order()[p] == k);
                        assert(pre.g0_order().contains(k));
                    }
                }
                let removed = self.q0.remove(e.slot);
                let ghost mid = *self;
                let new_slot = self.q1.push_tail_with_key(k);
                self.state.insert(k, GenEntry { g0: false, slot: new_slot, promo: pv });
                proof {
                    gen_restore_after_promote::<T, P>(pre, *self, k, p, new_slot, pv);
                    assert(pre.g0_order()[p] == k);
                    assert(pre.g0_order().index_of(k) == p) by {
                        let q = pre.g0_order().index_of(k);
                        assert(pre.g0_order()[q] == k);
                    }
                    assert(self.g0_order() =~= pre.g0_order().remove(p));
                    assert(self.g1_order() =~= pre.g1_order().push(k));
                    assert(!self.in_g0(k)) by {
                        lemma_remove_to_set(pre.g0_order(), p);
                        if self.g0_order().contains(k) {
                            assert(self.g0_order().to_set().contains(k));
                        }
                    }
                }
            } else {
                self.state.insert(k, GenEntry { g0: true, slot: e.slot, promo: pv });
                proof {
                    gen_restore_after_restamp::<T, P>(pre, *self, k, e.slot, pv);
                    assert(self.g0_order() =~= pre.g0_order());
                    assert(self.g1_order() =~= pre.g1_order());
                    assert(self.in_g0(k));
                }
            }
        } else {
            proof {
                assert(!pre.in_g0(k)) by {
                    if pre.g0_order().contains(k) {
                        let i = choose|i: int|
                            0 <= i < pre.q0@.len() && pre.q0@[i].1 == k;
                        assert(pre.state@[k].g0);
                    }
                }
            }
        }
        ReadResult::Retain
    }

    fn iter_read_mut(&mut self, k: u64, v: &(), t: &T, now: Instant) -> (r: ReadResult)
        ensures
            *final(self) == *old(self),
    {
        ReadResult::Retain
    }
}

/// Appending a fresh element keeps a sequence duplicate-free.
proof fn lemma_push_distinct(s: Seq<u64>, k: u64)
    requires
        s.no_duplicates(),
        !s.contains(k),
    ensures
        s.push(k).no_duplicates(),
{
    let s1 = s.push(k);
    assert forall|a: int, b: int|
        0 <= a < s1.len() && 0 <= b < s1.len() && a != b implies s1[a] != s1[b] by {
        if a < s1.len() - 1 && b < s1.len() - 1 {
            assert(s[a] == s1[a] && s[b] == s1[b]);
        } else if a == s1.len() - 1 {
            assert(s1[b] == s[b]);
            assert(s.contains(s[b]));
        } else {
            assert(s1[a] == s[a]);
            assert(s.contains(s[a]));
        }
    }
}

/// Appending adds exactly the appended element to the tracked set.
proof fn lemma_push_to_set(s: Seq<u64>, k: u64)
    ensures
        s.push(k).to_set() == s.to_set().insert(k),
{
    let s1 = s.push(k);
    assert forall|x: u64| s1.to_set().contains(x) implies s.to_set().insert(k).contains(x) by {
        let i = choose|i: int| 0 <= i < s1.len() && s1[i] == x;
        if i < s.len() {
            assert(s[i] == x);
        }
    }
    assert forall|x: u64| s.to_set().insert(k).contains(x) implies s1.to_set().contains(x) by {
        if x == k {
            assert(s1[s1.len() - 1] == k);
        } else {
            let i = choose|i: int| 0 <= i < s.len() && s[i] == x;
            assert(s1[i] == x);
        }
    }
    assert(s1.to_set() =~= s.to_set().insert(k));
}

/// Dropping position `p` from a duplicate-free sequence takes exactly its
/// element out of the tracked set.
proof fn lemma_remove_to_set(s: Seq<u64>, p: int)
    requires
        s.no_duplicates(),
        0 <= p < s.len(),
    ensures
        s.remove(p).to_set() == s.to_set().remove(s[p]),
        s.remove(p).no_duplicates(),
{
    let rem = s.remove(p);
    assert forall|x: u64| rem.to_set().contains(x) implies s.to_set().remove(s[p]).contains(x) by {
        let i = choose|i: int| 0 <= i < rem.len() && rem[i] == x;
        if i < p {
            assert(s[i] == x);
        } else {
            assert(s[i + 1] == x);
        }
    }
    assert forall|x: u64| s.to_set().remove(s[p]).contains(x) implies rem.to_set().contains(x) by {
        let i = choose|i: int| 0 <= i < s.len() && s[i] == x;
        assert(i != p);
        if i < p {
            assert(rem[i] == x);
        } else {
            assert(rem[i - 1] == x);
        }
    }
    assert(rem.to_set() =~= s.to_set().remove(s[p]));
}

/// Restores the shard invariant after `k`'s record and its queue node left
/// together: position `p` of the queue that held it was dropped, nothing
/// else moved.
proof fn gen_restore_after_remove<T, P: Promote>(pre: Queue<P>, post: Queue<P>, k: u64, p: int) where
    P::Value: Copy,

    requires
        crate::layer::Shard::<T>::inv(&pre),
        pre.state@.contains_key(k),
        post.state@ == pre.state@.remove(k),
        post.promo == pre.promo,
        post.q0.wf(),
        post.q1.wf(),
        pre.state@[k].g0 ==> 0 <= p < pre.q0@.len() && pre.q0@[p] == (pre.state@[k].slot, k)
            && post.q0@ == pre.q0@.remove(p) && post.q1 == pre.q1,
        !pre.state@[k].g0 ==> 0 <= p < pre.q1@.len() && pre.q1@[p] == (pre.state@[k].slot, k)
            && post.q1@ == pre.q1@.remove(p) && post.q0 == pre.q0,
    ensures
        crate::layer::Shard::<T>::inv(&post),
        crate::layer::Shard::<T>::key_set(&post) == crate::layer::Shard::<T>::key_set(
            &pre,
        ).remove(k),
{
    let was_g0 = pre.state@[k].g0;
    if was_g0 {
        assert(post.g0_order() =~= pre.g0_order().remove(p));
        assert(pre.g0_order()[p] == k);
        lemma_remove_to_set(pre.g0_order(), p);
        assert(!pre.g1_order().contains(k)) by {
            assert(pre.g0_order().contains(k));
        }
        assert(crate::layer::Shard::<T>::key_set(&post) =~= crate::layer::Shard::<T>::key_set(
            &pre,
        ).remove(k)) by {
            assert(post.g1_order().to_set() =~= pre.g1_order().to_set());
        }
        assert forall|k2: u64| post.g0_order().contains(k2) implies !post.g1_order().contains(
            k2,
        ) by {
            assert(post.g0_order().to_set().contains(k2));
            assert(pre.g0_order().contains(k2));
            assert(post.g1_order() =~= pre.g1_order());
        }
        assert forall|i: int| 0 <= i < post.q0@.len() implies post.state@.contains_key(
            (#[trigger] post.q0@[i]).1,
        ) && post.state@[post.q0@[i].1].g0 && post.state@[post.q0@[i].1].slot
            == post.q0@[i].0 by {
            let j = if i < p {
                i
            } else {
                i + 1
            };
            assert(post.q0@[i] == pre.q0@[j]);
            assert(pre.g0_order()[j] == pre.q0@[j].1);
            assert(pre.g0_order()[p] == k);
            assert(pre.q0@[j].1 != k);
        }
        assert forall|i: int| 0 <= i < post.q1@.len() implies post.state@.contains_key(
            (#[trigger] post.q1@[i]).1,
        ) && !post.state@[post.q1@[i].1].g0 && post.state@[post.q1@[i].1].slot
            == post.q1@[i].0 by {
            assert(post.q1@[i] == pre.q1@[i]);
            assert(pre.g1_order()[i] == pre.q1@[i].1);
            assert(pre.q1@[i].1 != k);
        }
        assert forall|k2: u64| #[trigger] post.state@.contains_key(k2) implies (post.state@[k2].g0
            ==> exists|i: int|
            0 <= i < post.q0@.len() && post.q0@[i] == (post.state@[k2].slot, k2)) && (
        !post.state@[k2].g0 ==> exists|i: int|
            0 <= i < post.q1@.len() && post.q1@[i] == (post.state@[k2].slot, k2)) by {
            assert(pre.state@.contains_key(k2) && k2 != k);
            if pre.state@[k2].g0 {
                let i = choose|i: int|
                    0 <= i < pre.q0@.len() && pre.q0@[i] == (pre.state@[k2].slot, k2);
                assert(i != p);
                if i < p {
                    assert(post.q0@[i] == (post.state@[k2].slot, k2));
                } else {
                    assert(post.q0@[i - 1] == (post.state@[k2].slot, k2));
                }
            } else {
                let i = choose|i: int|
                    0 <= i < pre.q1@.len() && pre.q1@[i] == (pre.state@[k2].slot, k2);
                assert(post.q1@[i] == (post.state@[k2].slot, k2));
            }
        }
    } else {
        assert(post.g1_order() =~= pre.g1_order().remove(p));
        assert(pre.g1_order()[p] == k);
        lemma_remove_to_set(pre.g1_order(), p);
        assert(!pre.g0_order().contains(k)) by {
            if pre.g0_order().contains(k) {
                assert(!pre.g1_order().contains(k));
                assert(pre.g1_order()[p] == k);
                assert(pre.g1_order().contains(k));
            }
        }
        assert(crate::layer::Shard::<T>::key_set(&post) =~= crate::layer::Shard::<T>::key_set(
            &pre,
        ).remove(k)) by {
            assert(post.g0_order().to_set() =~= pre.g0_order().to_set());
        }
        assert forall|k2: u64| post.g0_order().contains(k2) implies !post.g1_order().contains(
            k2,
        ) by {
            assert(pre.g0_order().contains(k2));
            if post.g1_order().contains(k2) {
                assert(post.g1_order().to_set().contains(k2));
                assert(pre.g1_order().contains(k2));
            }
        }
        assert forall|i: int| 0 <= i < post.q0@.len() implies post.state@.contains_key(
            (#[trigger] post.q0@[i]).1,
        ) && post.state@[post.q0@[i].1].g0 && post.state@[post.q0@[i].1].slot
            == post.q0@[i].0 by {
            assert(post.q0@[i] == pre.q0@[i]);
            assert(pre.g0_order()[i] == pre.q0@[i].1);
            assert(pre.q0@[i].1 != k);
        }
        assert forall|i: int| 0 <= i < post.q1@.len() implies post.state@.contains_key(
            (#[trigger] post.q1@[i]).1,
        ) && !post.state@[post.q1@[i].1].g0 && post.state@[post.q1@[i].1].slot
            == post.q1@[i].0 by {
            let j = if i < p {
                i
            } else {
                i + 1
            };
            assert(post.q1@[i] == pre.q1@[j]);
            assert(pre.g1_order()[j] == pre.q1@[j].1);
            assert(pre.g1_order()[p] == k);
            assert(pre.q1@[j].1 != k);
        }
        assert forall|k2: u64| #[trigger] post.state@.contains_key(k2) implies (post.state@[k2].g0
            ==> exists|i: int|
            0 <= i < post.q0@.len() && post.q0@[i] == (post.state@[k2].slot, k2)) && (
        !post.state@[k2].g0 ==> exists|i: int|
            0 <= i < post.q1@.len() && post.q1@[i] == (post.state@[k2].slot, k2)) by {
            assert(pre.state@.contains_key(k2) && k2 != k);
            if pre.state@[k2].g0 {
                let i = choose|i: int|
                    0 <= i < pre.q0@.len() && pre.q0@[i] == (pre.state@[k2].slot, k2);
                assert(post.q0@[i] == (post.state@[k2].slot, k2));
            } else {
                let i = choose|i: int|
                    0 <= i < pre.q1@.len() && pre.q1@[i] == (pre.state@[k2].slot, k2);
                assert(i != p);
                if i < p {
                    assert(post.q1@[i] == (post.state@[k2].slot, k2));
                } else {
                    assert(post.q1@[i - 1] == (post.state@[k2].slot, k2));
                }
            }
        }
    }
}

/// Restores the shard invariant after `k` migrated: its short-term node at
/// position `p` was dropped, a long-term node was pushed under `new_slot`,
/// and its record now points there.
proof fn gen_restore_after_promote<T, P: Promote>(
    pre: Queue<P>,
    post: Queue<P>,
    k: u64,
    p: int,
    new_slot: Key,
    pv: P::Value,
) where P::Value: Copy,
    requires
        crate::layer::Shard::<T>::inv(&pre),
        pre.state@.contains_key(k),
        pre.state@[k].g0,
        0 <= p < pre.q0@.len(),
        pre.q0@[p] == (pre.state@[k].slot, k),
        post.q0.wf(),
        post.q1.wf(),
        post.q0@ == pre.q0@.remove(p),
        post.q1@ == pre.q1@.push((new_slot, k)),
        !pre.q1.keys().contains(new_slot),
        post.state@ == pre.state@.insert(k, GenEntry { g0: false, slot: new_slot, promo: pv }),
        post.promo == pre.promo,
    ensures
        crate::layer::Shard::<T>::inv(&post),
        crate::layer::Shard::<T>::key_set(&post) == crate::layer::Shard::<T>::key_set(&pre),
{
    assert(post.g0_order() =~= pre.g0_order().remove(p));
    assert(post.g1_order() =~= pre.g1_order().push(k));
    assert(pre.g0_order()[p] == k);
    lemma_remove_to_set(pre.g0_order(), p);
    assert(!pre.g1_order().contains(k)) by {
        assert(pre.g0_order().contains(k));
    }
    lemma_push_distinct(pre.g1_order(), k);
    lemma_push_to_set(pre.g1_order(), k);
    assert(crate::layer::Shard::<T>::key_set(&post) =~= crate::layer::Shard::<T>::key_set(
        &pre,
    )) by {
        assert(pre.g0_order().to_set().contains(k));
    }
    assert forall|k2: u64| post.g0_order().contains(k2) implies !post.g1_order().contains(k2) by {
        assert(post.g0_order().to_set().contains(k2));
        assert(pre.g0_order().contains(k2) && k2 != k);
        assert(!pre.g1_order().contains(k2));
        if post.g1_order().contains(k2) {
            assert(post.g1_order().to_set().contains(k2));
        }
    }
    assert forall|i: int| 0 <= i < post.q0@.len() implies post.state@.contains_key(
        (#[trigger] post.q0@[i]).1,
    ) && post.state@[post.q0@[i].1].g0 && post.state@[post.q0@[i].1].slot == post.q0@[i].0 by {
        let j = if i < p {
            i
        } else {
            i + 1
        };
        assert(post.q0@[i] == pre.q0@[j]);
        assert(pre.g0_order()[j] == pre.q0@[j].1);
        assert(pre.g0_order()[p] == k);
        assert(pre.q0@[j].1 != k);
    }
    assert forall|i: int| 0 <= i < post.q1@.len() implies post.state@.contains_key(
        (#[trigger] post.q1@[i]).1,
    ) && !post.state@[post.q1@[i].1].g0 && post.state@[post.q1@[i].1].slot == post.q1@[i].0 by {
        if i < pre.q1@.len() {
            assert(post.q1@[i] == pre.q1@[i]);
            assert(pre.g1_order()[i] == pre.q1@[i].1);
            assert(pre.q1@[i].1 != k);
        } else {
            assert(post.q1@[i] == (new_slot, k));
        }
    }
    assert forall|k2: u64| #[trigger] post.state@.contains_key(k2) implies (post.state@[k2].g0
        ==> exists|i: int|
        0 <= i < post.q0@.len() && post.q0@[i] == (post.state@[k2].slot, k2)) && (
    !post.state@[k2].g0 ==> exists|i: int|
        0 <= i < post.q1@.len() && post.q1@[i] == (post.state@[k2].slot, k2)) by {
        if k2 == k {
            assert(post.q1@[post.q1@.len() - 1] == (post.state@[k2].slot, k2));
        } else {
            assert(pre.state@.contains_key(k2));
            if pre.state@[k2].g0 {
                let i = choose|i: int|
                    0 <= i < pre.q0@.len() && pre.q0@[i] == (pre.state@[k2].slot, k2);
                assert(i != p);
                if i < p {
                    assert(post.q0@[i] == (post.state@[k2].slot, k2));
                } else {
                    assert(post.q0@[i - 1] == (post.state@[k2].slot, k2));
                }
            } else {
                let i = choose|i: int|
                    0 <= i < pre.q1@.len() && pre.q1@[i] == (pre.state@[k2].slot, k2);
                assert(post.q1@[i] == (post.state@[k2].slot, k2));
            }
        }
    }
}

/// Restores the shard invariant after a touch that only restamped `k`'s
/// promotion state: queues untouched, record same but for the stamp.
proof fn gen_restore_after_restamp<T, P: Promote>(
    pre: Queue<P>,
    post: Queue<P>,
    k: u64,
    slot: Key,
    pv: P::Value,
) where P::Value: Copy,
    requires
        crate::layer::Shard::<T>::inv(&pre),
        pre.state@.contains_key(k),
        pre.state@[k].g0,
        pre.state@[k].slot == slot,
        post.q0 == pre.q0,
        post.q1 == pre.q1,
        post.state@ == pre.state@.insert(k, GenEntry { g0: true, slot, promo: pv }),
        post.promo == pre.promo,
    ensures
        crate::layer::Shard::<T>::inv(&post),
        crate::layer::Shard::<T>::key_set(&post) == crate::layer::Shard::<T>::key_set(&pre),
{
    assert forall|k2: u64| #[trigger] post.state@.contains_key(k2) implies (post.state@[k2].g0
        ==> exists|i: int|
        0 <= i < post.q0@.len() && post.q0@[i] == (post.state@[k2].slot, k2)) && (
    !post.state@[k2].g0 ==> exists|i: int|
        0 <= i < post.q1@.len() && post.q1@[i] == (post.state@[k2].slot, k2)) by {
        assert(pre.state@.contains_key(k2));
        if post.state@[k2].g0 {
            let i = choose|i: int|
                0 <= i < pre.q0@.len() && pre.q0@[i] == (pre.state@[k2].slot, k2);
            assert(post.q0@[i] == (post.state@[k2].slot, k2));
        } else {
            let i = choose|i: int|
                0 <= i < pre.q1@.len() && pre.q1@[i] == (pre.state@[k2].slot, k2);
            assert(post.q1@[i] == (post.state@[k2].slot, k2));
        }
    }
}

} // verus!
