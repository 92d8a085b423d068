//! The layer protocol: the composable contract between a store and the
//! orthogonal concerns layered onto it (eviction, expiration).
//!
//! A [`Layer`] is a factory that produces one [`Shard`] of side state per
//! store shard. The store calls the shard on every write, read, removal and
//! scan, under the store shard's exclusive borrow, handing it the instant the
//! operation runs at. The shard tracks a set of keys (empty for stateless
//! layers such as expiration), names victims to evict before an insert, and
//! decides on each read whether the entry is retained or removed.
use vstd::prelude::*;

use crate::time::Instant;

verus! {

/// The strength of lock an operation needs for the layer's read hook: none,
/// a shared guard, or an exclusive guard. A sharded front-end uses it to pick
/// the cheapest locking mode; the layer contracts themselves are stated over
/// the exclusive borrow that every mode eventually provides.
#[derive(Debug, Clone, Copy, PartialEq, Eq, Structural)]
pub enum ReadLock {
    Free,
    Ref,
    Mut,
}

impl ReadLock {
    /// The join of two lock requirements, under Free < Ref < Mut.
    pub open spec fn spec_or(self, other: ReadLock) -> ReadLock {
        if self is Mut || other is Mut {
            ReadLock::Mut
        } else if self is Ref || other is Ref {
            ReadLock::Ref
        } else {
            ReadLock::Free
        }
    }

    pub fn or(self, other: ReadLock) -> (r: ReadLock)
        ensures
            r == self.spec_or(other),
    {
        match (self, other) {
            (ReadLock::Mut, _) => ReadLock::Mut,
            (_, ReadLock::Mut) => ReadLock::Mut,
            (ReadLock::Ref, _) => ReadLock::Ref,
            (_, ReadLock::Ref) => ReadLock::Ref,
            _ => ReadLock::Free,
        }
    }
}

/// A layer's verdict on an entry it is shown during a read or a scan.
#[derive(Debug, Clone, Copy, PartialEq, Eq, Structural)]
pub enum ReadResult {
    Retain,
    Remove,
}

impl ReadResult {
    /// The join of two verdicts: any `Remove` wins.
    pub open spec fn spec_or(self, other: ReadResult) -> ReadResult {
        if self is Remove || other is Remove {
            ReadResult::Remove
        } else {
            ReadResult::Retain
        }
    }

    pub fn or(self, other: ReadResult) -> (r: ReadResult)
        ensures
            r == self.spec_or(other),
    {
        match (self, other) {
            (ReadResult::Remove, _) => ReadResult::Remove,
            (_, ReadResult::Remove) => ReadResult::Remove,
            _ => ReadResult::Retain,
        }
    }
}

/// One shard of a layer's side state.
///
/// `key_set()` is the set of keys the shard tracks; a layer that selects
/// victims tracks every stored key (`tracks()`), a stateless layer tracks
/// none. `valid_value(k, v)` says that `v`, the per-element state handed out
/// by `write`, is still coherent with the shard; the store keeps it inside
/// the element's pointer and passes it back on every later call.
pub trait Shard<T>: Sized {
    /// Per-element state, created by `write` and carried in the pointer.
    type Value;

    spec fn inv(&self) -> bool;

    /// The keys this shard tracks for victim selection.
    spec fn key_set(&self) -> Set<u64>;

    /// Whether `key_set()` mirrors the full set of stored keys.
    spec fn tracks() -> bool;

    /// Whether `victims` is a deterministic function of the shard state and
    /// the instant, given by `spec_victims`. False for randomized policies.
    spec fn victims_exact() -> bool;

    /// The victims a deterministic policy names; meaningful only when
    /// `victims_exact()`.
    spec fn spec_victims(&self, now: Instant) -> Seq<u64>;

    /// Whether `v` is coherent per-element state for key `k`.
    spec fn valid_value(&self, k: u64, v: Self::Value) -> bool;

    /// The verdict `read_mut` returns, as a function of the shard state, the
    /// entry and the instant.
    spec fn read_decision(&self, k: u64, v: Self::Value, t: T, now: Instant) -> ReadResult;

    /// The verdict `iter_read_mut` returns.
    spec fn iter_decision(&self, k: u64, v: Self::Value, t: T, now: Instant) -> ReadResult;

    spec fn spec_read_lock() -> ReadLock;

    spec fn spec_iter_read_lock() -> ReadLock;

    /// Whether admitting one more key would first need an eviction. False
    /// for layers that never select victims (expiration) and for policies
    /// that deliberately grow (the deadline-draining queue).
    spec fn at_capacity(&self) -> bool;

    /// Exactly what `victims` does and returns: the policy's own statement,
    /// relating the shard before and after the call to the named victims.
    spec fn victims_rel(pre: Self, post: Self, now: Instant, r: Seq<u64>) -> bool;

    /// Exactly what `write` does: how admitting `k` changes the shard and
    /// what per-element state comes back.
    spec fn write_rel(pre: Self, post: Self, k: u64, t: T, now: Instant, v: Self::Value) -> bool;

    /// Exactly what `remove` does to the shard.
    spec fn remove_rel(pre: Self, post: Self, k: u64, v: Self::Value) -> bool;

    /// Exactly what one observed read (a touch) does to the shard.
    spec fn read_rel(pre: Self, post: Self, k: u64, v: Self::Value, t: T, now: Instant) -> bool;

    /// The lock strength a point read needs.
    fn read_lock() -> (r: ReadLock)
        ensures
            r == Self::spec_read_lock(),
    ;

    /// The lock strength a scan needs.
    fn iter_read_lock() -> (r: ReadLock)
        ensures
            r == Self::spec_iter_read_lock(),
    ;

    /// The tracked key set is finite (it sits inside a finite store).
    proof fn lemma_key_set_finite(&self)
        requires
            self.inv(),
        ensures
            self.key_set().finite(),
    ;

    /// A shard that does not track membership tracks nothing at all.
    proof fn lemma_untracked_empty(&self)
        requires
            self.inv(),
        ensures
            !Self::tracks() ==> self.key_set() == Set::<u64>::empty(),
    ;

    /// The keys to evict so one more element fits: the policy's victims,
    /// plus whatever the policy drains opportunistically (such as an expired
    /// prefix). The store removes each from itself and from the layer before
    /// it writes the new element. Naming victims may spend internal state (a
    /// randomized policy draws from its generator) but changes no tracking.
    fn victims(&mut self, now: Instant) -> (r: Vec<u64>)
        requires
            old(self).inv(),
        ensures
            final(self).inv(),
            final(self).key_set() == old(self).key_set(),
            forall|k2: u64, v2: Self::Value|
                old(self).valid_value(k2, v2) ==> final(self).valid_value(k2, v2),
            forall|k2: u64, v2: Self::Value, t: T, n2: Instant|
                final(self).read_decision(k2, v2, t, n2) == old(self).read_decision(k2, v2, t, n2)
                    && final(self).iter_decision(k2, v2, t, n2) == old(self).iter_decision(
                    k2,
                    v2,
                    t,
                    n2,
                ),
            r@.no_duplicates(),
            forall|i: int| 0 <= i < r@.len() ==> old(self).key_set().contains(#[trigger] r@[i]),
            Self::victims_exact() ==> r@ == old(self).spec_victims(now),
            old(self).at_capacity() ==> r@.len() >= 1,
            Self::victims_rel(*old(self), *final(self), now, r@),
    ;

    /// Admits key `k` with target value `t`: the layer records the key (if
    /// it tracks) and hands back the element's side state.
    fn write(&mut self, k: u64, t: &T, now: Instant) -> (v: Self::Value)
        requires
            old(self).inv(),
            !old(self).key_set().contains(k),
            old(self).key_set().len() < 0xFFFF_FFFF,
        ensures
            final(self).inv(),
            final(self).key_set() == if Self::tracks() {
                old(self).key_set().insert(k)
            } else {
                old(self).key_set()
            },
            final(self).valid_value(k, v),
            forall|k2: u64, v2: Self::Value|
                k2 != k && old(self).valid_value(k2, v2) ==> final(self).valid_value(k2, v2),
            Self::write_rel(*old(self), *final(self), k, *t, now, v),
    ;

    /// Forgets key `k`; `v` is the state `write` handed out for it.
    fn remove(&mut self, k: u64, v: &Self::Value)
        requires
            old(self).inv(),
            old(self).valid_value(k, *v),
            Self::tracks() ==> old(self).key_set().contains(k),
        ensures
            final(self).inv(),
            final(self).key_set() == old(self).key_set().remove(k),
            forall|k2: u64, v2: Self::Value|
                k2 != k && old(self).valid_value(k2, v2) ==> final(self).valid_value(k2, v2),
            Self::remove_rel(*old(self), *final(self), k, *v),
    ;

    /// Observes a read of key `k` as a touch. A result of `Remove` asks the
    /// store to drop the entry. The shard may reorder or restamp its
    /// internal state, but it tracks the same keys afterwards.
    fn read_mut(&mut self, k: u64, v: &Self::Value, t: &T, now: Instant) -> (r: ReadResult)
        requires
            old(self).inv(),
            old(self).valid_value(k, *v),
            Self::tracks() ==> old(self).key_set().contains(k),
        ensures
            final(self).inv(),
            r == old(self).read_decision(k, *v, *t, now),
            final(self).key_set() == old(self).key_set(),
            forall|k2: u64, v2: Self::Value|
                old(self).valid_value(k2, v2) ==> final(self).valid_value(k2, v2),
            Self::read_rel(*old(self), *final(self), k, *v, *t, now),
    ;

    /// Observes a scan visiting key `k`. Unlike a point read this never
    /// counts as a touch against the eviction order.
    fn iter_read_mut(&mut self, k: u64, v: &Self::Value, t: &T, now: Instant) -> (r: ReadResult)
        requires
            old(self).inv(),
            old(self).valid_value(k, *v),
            Self::tracks() ==> old(self).key_set().contains(k),
        ensures
            final(self).inv(),
            r == old(self).iter_decision(k, *v, *t, now),
            final(self).key_set() == old(self).key_set(),
            forall|k2: u64, v2: Self::Value|
                old(self).valid_value(k2, v2) ==> final(self).valid_value(k2, v2),
    ;
}

/// A factory for layer shards: the configuration half of a layer, handed to
/// a store builder, which asks it for one shard per store shard.
pub trait Layer<T>: Sized {
    type Shard: Shard<T>;

    /// A fresh shard sized for `capacity` elements: well-formed, tracking
    /// nothing yet.
    fn new_shard(&self, capacity: usize) -> (s: Self::Shard)
        requires
            1 <= capacity <= u32::MAX,
        ensures
            s.inv(),
            s.key_set() == Set::<u64>::empty(),
    ;
}

/// Chains two layers; the pair acts as one layer whose element state is the
/// pair of the parts' states.
pub fn and_then<A, B>(first: A, second: B) -> (r: AndThen<A, B>)
    ensures
        r == (AndThen { first, second }),
{
    AndThen { first, second }
}

/// The empty layer: no side state, no verdicts.
#[derive(Debug, Clone, Copy, Default)]
pub struct LayerNone;

impl<T> Layer<T> for LayerNone {
    type Shard = LayerNone;

    fn new_shard(&self, capacity: usize) -> (s: LayerNone) {
        LayerNone
    }
}

impl<T> Shard<T> for LayerNone {
    type Value = ();

    open spec fn inv(&self) -> bool {
        true
    }

    open spec fn key_set(&self) -> Set<u64> {
        Set::empty()
    }

    open spec fn tracks() -> bool {
        false
    }

    open spec fn victims_exact() -> bool {
        true
    }

    open spec fn spec_victims(&self, now: Instant) -> Seq<u64> {
        Seq::empty()
    }

    open spec fn valid_value(&self, k: u64, v: ()) -> bool {
        true
    }

    open spec fn read_decision(&self, k: u64, v: (), t: T, now: Instant) -> ReadResult {
        ReadResult::Retain
    }

    open spec fn iter_decision(&self, k: u64, v: (), t: T, now: Instant) -> ReadResult {
        ReadResult::Retain
    }

    open spec fn spec_read_lock() -> ReadLock {
        ReadLock::Free
    }

    open spec fn spec_iter_read_lock() -> ReadLock {
        ReadLock::Free
    }

    open spec fn at_capacity(&self) -> bool {
        false
    }

    open spec fn victims_rel(pre: Self, post: Self, now: Instant, r: Seq<u64>) -> bool {
        post == pre && r == Seq::<u64>::empty()
    }

    open spec fn write_rel(pre: Self, post: Self, k: u64, t: T, now: Instant, v: ()) -> bool {
        post == pre
    }

    open spec fn remove_rel(pre: Self, post: Self, k: u64, v: ()) -> bool {
        post == pre
    }

    open spec fn read_rel(pre: Self, post: Self, k: u64, v: (), t: T, now: Instant) -> bool {
        post == pre
    }

    fn read_lock() -> ReadLock {
        ReadLock::Free
    }

    fn iter_read_lock() -> ReadLock {
        ReadLock::Free
    }

    proof fn lemma_key_set_finite(&self) {
    }

    proof fn lemma_untracked_empty(&self) {
    }

    fn victims(&mut self, now: Instant) -> (r: Vec<u64>) {
        let r: Vec<u64> = Vec::new();
        proof {
            assert(r@ =~= Seq::<u64>::empty());
        }
        r
    }

    fn write(&mut self, k: u64, t: &T, now: Instant) -> (v: ()) {
        ()
    }

    fn remove(&mut self, k: u64, v: &()) {
    }

    fn read_mut(&mut self, k: u64, v: &(), t: &T, now: Instant) -> (r: ReadResult) {
        ReadResult::Retain
    }

    fn iter_read_mut(&mut self, k: u64, v: &(), t: &T, now: Instant) -> (r: ReadResult) {
        ReadResult::Retain
    }
}

/// Two layers chained: the composed element state is the pair of the parts'
/// states, the tracked keys are the union, and any `Remove` verdict wins.
pub struct AndThen<A, B> {
    pub first: A,
    pub second: B,
}

impl<A, B> AndThen<A, B> {
    pub fn new(a: A, b: B) -> (r: AndThen<A, B>)
        ensures
            r == (AndThen { first: a, second: b }),
    {
        AndThen { first: a, second: b }
    }
}

/// The shard of a chained layer.
pub struct AndThenShard<A, B> {
    pub first: A,
    pub second: B,
}

impl<T, A: Layer<T>, B: Layer<T>> Layer<T> for AndThen<A, B> {
    type Shard = AndThenShard<A::Shard, B::Shard>;

    fn new_shard(&self, capacity: usize) -> (s: Self::Shard) {
        let s = AndThenShard {
            first: self.first.new_shard(capacity),
            second: self.second.new_shard(capacity),
        };
        proof {
            assert(s.key_set() =~= Set::<u64>::empty());
        }
        s
    }
}

impl<T, A: Shard<T>, B: Shard<T>> Shard<T> for AndThenShard<A, B> {
    type Value = (A::Value, B::Value);

    /// The parts agree on what they track: a part that mirrors the store's
    /// keys holds at least everything the other part holds, so two mirroring
    /// parts hold the same set, and a stateless part holds a subset.
    open spec fn inv(&self) -> bool {
        &&& self.first.inv()
        &&& self.second.inv()
        &&& (A::tracks() == B::tracks()) ==> self.first.key_set() == self.second.key_set()
        &&& !A::tracks() ==> self.first.key_set().subset_of(self.second.key_set())
        &&& !B::tracks() ==> self.second.key_set().subset_of(self.first.key_set())
    }

    open spec fn key_set(&self) -> Set<u64> {
        self.first.key_set().union(self.second.key_set())
    }

    open spec fn tracks() -> bool {
        A::tracks() || B::tracks()
    }

    open spec fn victims_exact() -> bool {
        A::victims_exact() && B::victims_exact() && !(A::tracks() && B::tracks())
    }

    open spec fn spec_victims(&self, now: Instant) -> Seq<u64> {
        self.first.spec_victims(now) + self.second.spec_victims(now)
    }

    open spec fn valid_value(&self, k: u64, v: (A::Value, B::Value)) -> bool {
        self.first.valid_value(k, v.0) && self.second.valid_value(k, v.1)
    }

    open spec fn read_decision(&self, k: u64, v: (A::Value, B::Value), t: T, now: Instant) -> ReadResult {
        self.first.read_decision(k, v.0, t, now).spec_or(self.second.read_decision(k, v.1, t, now))
    }

    open spec fn iter_decision(&self, k: u64, v: (A::Value, B::Value), t: T, now: Instant) -> ReadResult {
        self.first.iter_decision(k, v.0, t, now).spec_or(self.second.iter_decision(k, v.1, t, now))
    }

    open spec fn spec_read_lock() -> ReadLock {
        A::spec_read_lock().spec_or(B::spec_read_lock())
    }

    open spec fn spec_iter_read_lock() -> ReadLock {
        A::spec_iter_read_lock().spec_or(B::spec_iter_read_lock())
    }

    open spec fn at_capacity(&self) -> bool {
        self.first.at_capacity() || self.second.at_capacity()
    }

    /// The parts name victims independently; the chained result lists the
    /// first part's in order and holds exactly the union of both parts'.
    open spec fn victims_rel(pre: Self, post: Self, now: Instant, r: Seq<u64>) -> bool {
        exists|ra: Seq<u64>, rb: Seq<u64>|
            {
                &&& #[trigger] A::victims_rel(pre.first, post.first, now, ra)
                &&& #[trigger] B::victims_rel(pre.second, post.second, now, rb)
                &&& ra.is_prefix_of(r)
                &&& r.to_set() == ra.to_set().union(rb.to_set())
            }
    }

    open spec fn write_rel(pre: Self, post: Self, k: u64, t: T, now: Instant, v: (A::Value, B::Value)) -> bool {
        A::write_rel(pre.first, post.first, k, t, now, v.0) && B::write_rel(
            pre.second,
            post.second,
            k,
            t,
            now,
            v.1,
        )
    }

    open spec fn remove_rel(pre: Self, post: Self, k: u64, v: (A::Value, B::Value)) -> bool {
        A::remove_rel(pre.first, post.first, k, v.0) && B::remove_rel(
            pre.second,
            post.second,
            k,
            v.1,
        )
    }

    open spec fn read_rel(pre: Self, post: Self, k: u64, v: (A::Value, B::Value), t: T, now: Instant) -> bool {
        A::read_rel(pre.first, post.first, k, v.0, t, now) && B::read_rel(
            pre.second,
            post.second,
            k,
            v.1,
            t,
            now,
        )
    }

    fn read_lock() -> (r: ReadLock) {
        A::read_lock().or(B::read_lock())
    }

    fn iter_read_lock() -> (r: ReadLock) {
        A::iter_read_lock().or(B::iter_read_lock())
    }

    proof fn lemma_key_set_finite(&self) {
        self.first.lemma_key_set_finite();
        self.second.lemma_key_set_finite();
    }

    proof fn lemma_untracked_empty(&self) {
        self.first.lemma_untracked_empty();
        self.second.lemma_untracked_empty();
        if !Self::tracks() {
            assert(self.key_set() =~= Set::<u64>::empty());
        }
    }

    /// Concatenates the parts' victims, dropping keys the first part already
    /// named. At most one part selects victims in a sensible composition, so
    /// in the deterministic case nothing is dropped.
    fn victims(&mut self, now: Instant) -> (r: Vec<u64>) {
        let mut out = self.first.victims(now);
        let more = self.second.victims(now);
        let ghost first_victims = out@;
        let ghost mid_first = self.first;
        let ghost mid_second = self.second;
        proof {
            if A::victims_exact() && B::victims_exact() && !(A::tracks() && B::tracks()) {
                if !A::tracks() {
                    self.first.lemma_untracked_empty();
                    assert(first_victims.len() == 0) by {
                        if first_victims.len() > 0 {
                            assert(self.first.key_set().contains(first_victims[0]));
                        }
                    }
                }
                if !B::tracks() {
                    self.second.lemma_untracked_empty();
                    assert(more@.len() == 0) by {
                        if more@.len() > 0 {
                            assert(self.second.key_set().contains(more@[0]));
                        }
                    }
                }
            }
        }
        let mut j: usize = 0;
        while j < more.len()
            invariant
                self.first.inv(),
                self.second.inv(),
                out@.no_duplicates(),
                more@.no_duplicates(),
                forall|i: int|
                    0 <= i < out@.len() ==> self.first.key_set().contains(#[trigger] out@[i])
                        || self.second.key_set().contains(#[trigger] out@[i]),
                forall|i: int|
                    0 <= i < more@.len() ==> self.second.key_set().contains(#[trigger] more@[i]),
                j <= more@.len(),
                Self::victims_exact() ==> out@ == first_victims + more@.subrange(0, j as int),
                Self::victims_exact() && !A::tracks() ==> first_victims.len() == 0,
                Self::victims_exact() && A::tracks() ==> more@.len() == 0,
                self.first == mid_first,
                self.second == mid_second,
                out@.len() >= first_victims.len(),
                forall|q: int| 0 <= q < first_victims.len() ==> out@[q] == first_victims[q],
                out@.to_set() == first_victims.to_set().union(
                    more@.subrange(0, j as int).to_set(),
                ),
            decreases more@.len() - j,
        {
            let candidate = more[j];
            let mut seen = false;
            let mut i: usize = 0;
            let ghost pre_out = out@;
            while i < out.len()
                invariant
                    i <= out@.len(),
                    out@ == pre_out,
                    seen == exists|q: int| 0 <= q < i && out@[q] == candidate,
                decreases out@.len() - i,
            {
                if out[i] == candidate {
                    proof {
                        assert(out@[i as int] == candidate);
                    }
                    seen = true;
                }
                i = i + 1;
            }
            proof {
                assert(seen == pre_out.contains(candidate));
                if Self::victims_exact() {
                    // Nothing is ever dropped: the first part's victims are
                    // empty (or the second part's are, and this loop never
                    // runs), and the second part's own victims are distinct.
                    if A::tracks() {
                        assert(false);
                    } else if seen {
                        let q = choose|q: int| 0 <= q < pre_out.len() && pre_out[q] == candidate;
                        assert(pre_out == first_victims + more@.subrange(0, j as int));
                        assert(first_victims.len() == 0);
                        assert(more@.subrange(0, j as int)[q] == candidate);
                        assert(more@[q] == more@[j as int]);
                        assert(false);
                    }
                }
            }
            if !seen {
                out.push(candidate);
                proof {
                    assert forall|a: int, b: int|
                        0 <= a < out@.len() && 0 <= b < out@.len() && a != b implies out@[a]
                        != out@[b] by {
                        if a < out@.len() - 1 && b < out@.len() - 1 {
                            assert(pre_out[a] == out@[a] && pre_out[b] == out@[b]);
                        } else if a == out@.len() - 1 {
                            assert(out@[b] == pre_out[b]);
                            assert(!pre_out.contains(candidate));
                        } else {
                            assert(out@[a] == pre_out[a]);
                            assert(!pre_out.contains(candidate));
                        }
                    }
                }
            }
            proof {
                if Self::victims_exact() {
                    assert(out@ =~= first_victims + more@.subrange(0, j + 1));
                }
                // The union bookkeeping: the candidate now sits in `out`
                // either way, and nothing else changed.
                assert(more@.subrange(0, j + 1) =~= more@.subrange(0, j as int).push(
                    more@[j as int],
                ));
                assert(more@.subrange(0, j + 1).to_set() =~= more@.subrange(
                    0,
                    j as int,
                ).to_set().insert(candidate)) by {
                    let a_ = more@.subrange(0, j as int);
                    let b_ = more@.subrange(0, j + 1);
                    assert forall|x: u64| b_.to_set().contains(x) implies a_.to_set().insert(
                        candidate,
                    ).contains(x) by {
                        let q = choose|q: int| 0 <= q < b_.len() && b_[q] == x;
                        if q < j {
                            assert(a_[q] == x);
                        }
                    }
                    assert forall|x: u64| a_.to_set().insert(candidate).contains(
                        x,
                    ) implies b_.to_set().contains(x) by {
                        if x == candidate {
                            assert(b_[j as int] == x);
                        } else {
                            let q = choose|q: int| 0 <= q < a_.len() && a_[q] == x;
                            assert(b_[q] == x);
                        }
                    }
                }
                if seen {
                    assert(out@.to_set() =~= first_victims.to_set().union(
                        more@.subrange(0, j + 1).to_set(),
                    )) by {
                        assert(out@.contains(candidate));
                        assert(out@.to_set().contains(candidate));
                    }
                } else {
                    assert(out@ =~= pre_out.push(candidate));
                    assert(out@.to_set() =~= pre_out.to_set().insert(candidate)) by {
                        assert forall|x: u64| out@.to_set().contains(x) implies pre_out.to_set()
                            .insert(candidate).contains(x) by {
                            let q = choose|q: int| 0 <= q < out@.len() && out@[q] == x;
                            if q < pre_out.len() {
                                assert(pre_out[q] == x);
                            }
                        }
                        assert forall|x: u64| pre_out.to_set().insert(candidate).contains(
                            x,
                        ) implies out@.to_set().contains(x) by {
                            if x == candidate {
                                assert(out@[out@.len() - 1] == x);
                            } else {
                                let q = choose|q: int| 0 <= q < pre_out.len() && pre_out[q] == x;
                                assert(out@[q] == x);
                            }
                        }
                    }
                    assert(out@.to_set() =~= first_victims.to_set().union(
                        more@.subrange(0, j + 1).to_set(),
                    ));
                }
            }
            j = j + 1;
        }
        proof {
            if Self::victims_exact() {
                assert(more@.subrange(0, more@.len() as int) =~= more@);
                assert(out@ == first_victims + more@);
            }
            // The composed relation: the first part's victims prefix the
            // result, and the result holds exactly both parts' victims.
            assert(more@.subrange(0, more@.len() as int) =~= more@);
            assert(first_victims.is_prefix_of(out@)) by {
                assert(out@.subrange(0, first_victims.len() as int) =~= first_victims);
            }
            assert(Self::victims_rel(*old(self), *self, now, out@)) by {
                assert(A::victims_rel(old(self).first, self.first, now, first_victims));
                assert(B::victims_rel(old(self).second, self.second, now, more@));
            }
            // A full part forces a victim into the result.
            if old(self).at_capacity() {
                if old(self).first.at_capacity() {
                    assert(first_victims.len() >= 1);
                } else {
                    assert(more@.len() >= 1);
                    assert(more@.to_set().contains(more@[0]));
                    assert(out@.to_set().contains(more@[0]));
                    assert(out@.contains(more@[0]));
                }
            }
            assert forall|i: int| 0 <= i < out@.len() implies self.key_set().contains(
                #[trigger] out@[i],
            ) by {}
        }
        out
    }

    fn write(&mut self, k: u64, t: &T, now: Instant) -> (v: (A::Value, B::Value)) {
        proof {
            self.first.lemma_key_set_finite();
            self.second.lemma_key_set_finite();
            vstd::set_lib::lemma_len_subset(self.first.key_set(), self.key_set());
            vstd::set_lib::lemma_len_subset(self.second.key_set(), self.key_set());
        }
        let va = self.first.write(k, t, now);
        let vb = self.second.write(k, t, now);
        proof {
            assert(self.key_set() =~= if Self::tracks() {
                old(self).key_set().insert(k)
            } else {
                old(self).key_set()
            });
        }
        (va, vb)
    }

    fn remove(&mut self, k: u64, v: &(A::Value, B::Value)) {
        self.first.remove(k, &v.0);
        self.second.remove(k, &v.1);
        proof {
            assert(self.key_set() =~= old(self).key_set().remove(k));
        }
    }

    fn read_mut(&mut self, k: u64, v: &(A::Value, B::Value), t: &T, now: Instant) -> (r:
        ReadResult) {
        let ra = self.first.read_mut(k, &v.0, t, now);
        let rb = self.second.read_mut(k, &v.1, t, now);
        ra.or(rb)
    }

    fn iter_read_mut(&mut self, k: u64, v: &(A::Value, B::Value), t: &T, now: Instant) -> (r:
        ReadResult) {
        let ra = self.first.iter_read_mut(k, &v.0, t, now);
        let rb = self.second.iter_read_mut(k, &v.1, t, now);
        ra.or(rb)
    }
}

} // verus!
