//! Least-recently-touched eviction: a touch-order list of keys. Every point
//! read moves the key to the tail, so the victim is the key read longest
//! ago; scans leave the order alone. Because a read relinks the list, this
//! layer asks for an exclusive guard on the read path.
use vstd::prelude::*;

use crate::layer::{Layer, ReadLock, ReadResult};
use crate::time::Instant;
use super::index::Key;
use super::list::List;

verus! {

/// The least-recently-touched eviction layer.
#[derive(Debug, Clone, Copy, Default)]
pub struct EvictLeastRecentlyTouched;

/// One shard of the policy: the keys in touch order, coldest first.
pub struct Shard {
    list: List<u64>,
}

impl Shard {
    /// The stored keys, next victim first.
    pub closed spec fn order(&self) -> Seq<u64> {
        self.list.values()
    }

    pub closed spec fn spec_capacity(&self) -> usize {
        self.list.spec_capacity()
    }

    /// A coherent shard's order lists each key once, and the shard always
    /// has at least one slot of capacity.
    pub proof fn lemma_order_distinct<T>(&self)
        requires
            crate::layer::Shard::<T>::inv(self),
        ensures
            self.order().no_duplicates(),
            1 <= self.spec_capacity(),
    {
        self.list.lemma_bounds();
    }

    /// The pair `(v, k)` sits exactly where `k` sits in the order.
    proof fn lemma_value_position(&self, k: u64, v: Key)
        requires
            self.list.wf(),
            self.order().no_duplicates(),
            exists|i: int| 0 <= i < self.list@.len() && self.list@[i] == (v, k),
        ensures
            self.list.keys().contains(v),
            0 <= self.list.keys().index_of(v) < self.list@.len(),
            self.list@[self.list.keys().index_of(v)] == (v, k),
            self.order().index_of(k) == self.list.keys().index_of(v),
            self.order().contains(k),
    {
        let i = choose|i: int| 0 <= i < self.list@.len() && self.list@[i] == (v, k);
        assert(self.list.keys()[i] == v);
        assert(self.list.keys().contains(v));
        self.list.lemma_keys_distinct();
        let p = self.list.keys().index_of(v);
        assert(self.list.keys()[p] == v);
        assert(p == i);
        assert(self.order()[i] == k);
        assert(self.order().contains(k));
        let q = self.order().index_of(k);
        assert(self.order()[q] == k);
        assert(q == i);
    }
}

impl<T> Layer<T> for EvictLeastRecentlyTouched {
    type Shard = Shard;

    fn new_shard(&self, capacity: usize) -> (s: Shard) {
        let s = Shard { list: List::with_capacity(capacity) };
        proof {
            assert(s.order().to_set() =~= Set::<u64>::empty());
        }
        s
    }
}

impl<T> crate::layer::Shard<T> for Shard {
    type Value = Key;

    closed spec fn inv(&self) -> bool {
        &&& self.list.wf()
        &&& self.order().no_duplicates()
    }

    open spec fn key_set(&self) -> Set<u64> {
        self.order().to_set()
    }

    open spec fn tracks() -> bool {
        true
    }

    open spec fn victims_exact() -> bool {
        true
    }

    /// The coldest key, once the shard is full.
    open spec fn spec_victims(&self, now: Instant) -> Seq<u64> {
        if self.order().len() >= self.spec_capacity() {
            seq![self.order()[0]]
        } else {
            Seq::empty()
        }
    }

    closed spec fn valid_value(&self, k: u64, v: Key) -> bool {
        exists|i: int| 0 <= i < self.list@.len() && self.list@[i] == (v, k)
    }

    open spec fn read_decision(&self, k: u64, v: Key, t: T, now: Instant) -> ReadResult {
        ReadResult::Retain
    }

    open spec fn iter_decision(&self, k: u64, v: Key, t: T, now: Instant) -> ReadResult {
        ReadResult::Retain
    }

    open spec fn spec_read_lock() -> ReadLock {
        ReadLock::Mut
    }

    open spec fn spec_iter_read_lock() -> ReadLock {
        ReadLock::Free
    }

    open spec fn at_capacity(&self) -> bool {
        self.order().len() >= self.spec_capacity()
    }

    /// Naming victims changes nothing; the victim is the coldest key, named
    /// exactly when the shard is full.
    open spec fn victims_rel(pre: Self, post: Self, now: Instant, r: Seq<u64>) -> bool {
        post == pre && r == if pre.order().len() >= pre.spec_capacity() {
            seq![pre.order()[0]]
        } else {
            Seq::<u64>::empty()
        }
    }

    /// The key joins the tail of the touch order.
    open spec fn write_rel(pre: Self, post: Self, k: u64, t: T, now: Instant, v: Key) -> bool {
        post.order() == pre.order().push(k) && post.spec_capacity() == pre.spec_capacity()
    }

    open spec fn remove_rel(pre: Self, post: Self, k: u64, v: Key) -> bool {
        post.order() == pre.order().remove(pre.order().index_of(k)) && post.spec_capacity()
            == pre.spec_capacity()
    }

    /// A touch moves the key to the tail of the order.
    open spec fn read_rel(pre: Self, post: Self, k: u64, v: Key, t: T, now: Instant) -> bool {
        post.order() == pre.order().remove(pre.order().index_of(k)).push(k) && post.spec_capacity()
            == pre.spec_capacity()
    }

    fn read_lock() -> ReadLock {
        ReadLock::Mut
    }

    fn iter_read_lock() -> ReadLock {
        ReadLock::Free
    }

    proof fn lemma_key_set_finite(&self) {
        self.order().lemma_cardinality_of_set();
    }

    proof fn lemma_untracked_empty(&self) {
    }

    fn victims(&mut self, now: Instant) -> (r: Vec<u64>) {
        proof {
            self.list.lemma_bounds();
        }
        let mut out: Vec<u64> = Vec::new();
        if self.list.len() >= self.list.capacity() {
            match self.list.peek_head() {
                Some(k) => {
                    out.push(*k);
                },
                None => {
                    proof {
                        assert(false);
                    }
                },
            }
        }
        proof {
            if self.order().len() >= self.spec_capacity() {
                assert(out@ =~= seq![self.order()[0]]);
                assert(self.order().to_set().contains(self.order()[0]));
            } else {
                assert(out@ =~= Seq::<u64>::empty());
            }
        }
        out
    }

    fn write(&mut self, k: u64, t: &T, now: Instant) -> (v: Key)
        ensures
            // Policy refinement: the key joins the tail of the order.
            final(self).order() == old(self).order().push(k),
            final(self).spec_capacity() == old(self).spec_capacity(),
    {
        proof {
            old(self).order().unique_seq_to_set();
        }
        let key = self.list.push_tail_with_key(k);
        proof {
            let ord0 = old(self).order();
            let ord1 = self.order();
            assert(ord1 =~= ord0.push(k));
            assert(!ord0.contains(k)) by {
                if ord0.contains(k) {
                    assert(ord0.to_set().contains(k));
                }
            }
            assert forall|a: int, b: int|
                0 <= a < ord1.len() && 0 <= b < ord1.len() && a != b implies ord1[a] != ord1[b] by {
                if a < ord1.len() - 1 && b < ord1.len() - 1 {
                    assert(ord0[a] == ord1[a] && ord0[b] == ord1[b]);
                } else if a == ord1.len() - 1 {
                    assert(ord1[b] == ord0[b]);
                    assert(ord0.contains(ord0[b]));
                } else {
                    assert(ord1[a] == ord0[a]);
                    assert(ord0.contains(ord0[a]));
                }
            }
            assert(ord1.to_set() =~= ord0.to_set().insert(k)) by {
                assert forall|x: u64| ord1.to_set().contains(x) implies ord0.to_set().insert(
                    k,
                ).contains(x) by {
                    let i = choose|i: int| 0 <= i < ord1.len() && ord1[i] == x;
                    if i < ord0.len() {
                        assert(ord0[i] == x);
                    }
                }
                assert forall|x: u64| ord0.to_set().insert(k).contains(x) implies ord1.to_set()
                    .contains(x) by {
                    if x == k {
                        assert(ord1[ord1.len() - 1] == k);
                    } else {
                        let i = choose|i: int| 0 <= i < ord0.len() && ord0[i] == x;
                        assert(ord1[i] == x);
                    }
                }
            }
            assert(self.list@[self.list@.len() - 1] == (key, k));
            assert forall|k2: u64, v2: Key|
                k2 != k && crate::layer::Shard::<T>::valid_value(old(self), k2, v2)
                implies crate::layer::Shard::<T>::valid_value(self, k2, v2) by {
                let i = choose|i: int|
                    0 <= i < old(self).list@.len() && old(self).list@[i] == (v2, k2);
                assert(self.list@[i] == (v2, k2));
            }
        }
        key
    }

    fn remove(&mut self, k: u64, v: &Key)
        ensures
            final(self).order() == old(self).order().remove(old(self).order().index_of(k)),
            final(self).spec_capacity() == old(self).spec_capacity(),
    {
        proof {
            old(self).lemma_value_position(k, *v);
        }
        let ghost p = old(self).list.keys().index_of(*v);
        let removed = self.list.remove(*v);
        proof {
            let ord0 = old(self).order();
            let ord1 = self.order();
            assert(removed == Some(k));
            assert(ord1 =~= ord0.remove(p));
            lemma_order_remove_to_set(ord0, p);
            assert(ord0[p] == k);
            assert(ord0.index_of(k) == p) by {
                let q = ord0.index_of(k);
                assert(ord0.contains(k));
                assert(ord0[q] == k);
            }
            assert forall|k2: u64, v2: Key|
                k2 != k && crate::layer::Shard::<T>::valid_value(old(self), k2, v2)
                implies crate::layer::Shard::<T>::valid_value(self, k2, v2) by {
                let i = choose|i: int|
                    0 <= i < old(self).list@.len() && old(self).list@[i] == (v2, k2);
                assert(i != p);
                if i < p {
                    assert(self.list@[i] == (v2, k2));
                } else {
                    assert(self.list@[i - 1] == (v2, k2));
                }
            }
        }
    }

    /// A touch: the key moves to the tail and is retained.
    fn read_mut(&mut self, k: u64, v: &Key, t: &T, now: Instant) -> (r: ReadResult)
        ensures
            final(self).order() == old(self).order().remove(old(self).order().index_of(k)).push(k),
            final(self).spec_capacity() == old(self).spec_capacity(),
    {
        proof {
            old(self).lemma_value_position(k, *v);
        }
        let ghost p = old(self).list.keys().index_of(*v);
        self.list.move_to_tail(*v);
        proof {
            let ord0 = old(self).order();
            let ord1 = self.order();
            assert(old(self).list@[p] == (*v, k));
            assert(ord1 =~= ord0.remove(p).push(k));
            assert(ord0.index_of(k) == p) by {
                let q = ord0.index_of(k);
                assert(ord0.contains(k));
                assert(ord0[q] == k);
            }
            // The order stays duplicate-free and tracks the same keys.
            lemma_order_remove_to_set(ord0, p);
            let mid = ord0.remove(p);
            assert(!mid.contains(k)) by {
                if mid.contains(k) {
                    assert(mid.to_set().contains(k));
                    assert(ord0.to_set().remove(ord0[p]).contains(k));
                }
            }
            assert forall|a: int, b: int|
                0 <= a < ord1.len() && 0 <= b < ord1.len() && a != b implies ord1[a] != ord1[b] by {
                if a < ord1.len() - 1 && b < ord1.len() - 1 {
                    assert(mid[a] == ord1[a] && mid[b] == ord1[b]);
                } else if a == ord1.len() - 1 {
                    assert(ord1[b] == mid[b]);
                    assert(mid.contains(mid[b]));
                } else {
                    assert(ord1[a] == mid[a]);
                    assert(mid.contains(mid[a]));
                }
            }
            assert(ord1.to_set() =~= ord0.to_set()) by {
                assert forall|x: u64| ord1.to_set().contains(x) implies ord0.to_set().contains(
                    x,
                ) by {
                    let i = choose|i: int| 0 <= i < ord1.len() && ord1[i] == x;
                    if i < ord1.len() - 1 {
                        assert(mid[i] == x);
                        assert(mid.to_set().contains(x));
                    } else {
                        assert(x == k);
                        assert(ord0[p] == k);
                    }
                }
                assert forall|x: u64| ord0.to_set().contains(x) implies ord1.to_set().contains(
                    x,
                ) by {
                    if x == k {
                        assert(ord1[ord1.len() - 1] == k);
                    } else {
                        assert(ord0.to_set().remove(ord0[p]).contains(x));
                        assert(mid.to_set().contains(x));
                        let i = choose|i: int| 0 <= i < mid.len() && mid[i] == x;
                        assert(ord1[i] == x);
                    }
                }
            }
            // Every pair survives the move, the touched one at the tail.
            assert forall|k2: u64, v2: Key|
                crate::layer::Shard::<T>::valid_value(old(self), k2, v2)
                implies crate::layer::Shard::<T>::valid_value(self, k2, v2) by {
                let i = choose|i: int|
                    0 <= i < old(self).list@.len() && old(self).list@[i] == (v2, k2);
                if i == p {
                    assert(self.list@[self.list@.len() - 1] == (v2, k2));
                } else if i < p {
                    assert(self.list@[i] == (v2, k2));
                } else {
                    assert(self.list@[i - 1] == (v2, k2));
                }
            }
        }
        ReadResult::Retain
    }

    fn iter_read_mut(&mut self, k: u64, v: &Key, t: &T, now: Instant) -> (r: ReadResult)
        ensures
            *final(self) == *old(self),
    {
        ReadResult::Retain
    }
}

/// Removing position `p` from a duplicate-free order takes exactly
/// `order[p]` out of the tracked key set.
proof fn lemma_order_remove_to_set(ord: Seq<u64>, p: int)
    requires
        ord.no_duplicates(),
        0 <= p < ord.len(),
    ensures
        ord.remove(p).to_set() == ord.to_set().remove(ord[p]),
        ord.remove(p).no_duplicates(),
{
    let rem = ord.remove(p);
    assert forall|x: u64| rem.to_set().contains(x) implies ord.to_set().remove(ord[p]).contains(
        x,
    ) by {
        let i = choose|i: int| 0 <= i < rem.len() && rem[i] == x;
        if i < p {
            assert(ord[i] == x);
        } else {
            assert(ord[i + 1] == x);
        }
    }
    assert forall|x: u64| ord.to_set().remove(ord[p]).contains(x) implies rem.to_set().contains(
        x,
    ) by {
        let i = choose|i: int| 0 <= i < ord.len() && ord[i] == x;
        assert(i != p);
        if i < p {
            assert(rem[i] == x);
        } else {
            assert(rem[i - 1] == x);
        }
    }
    assert(rem.to_set() =~= ord.to_set().remove(ord[p]));
}

} // verus!
