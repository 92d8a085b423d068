//! An unordered bag with O(1) insert, remove-by-key and remove-at-position:
//! a dense vector with swap-remove, plus an index from each element's key to
//! its current slot, so an element can be removed again after others were
//! moved around it.
use vstd::prelude::*;

use std::collections::HashMap;

verus! {

/// The key an element is filed under, chosen by the caller and unique among
/// the elements present.
#[derive(Debug, Clone, Copy, PartialEq, Eq, Structural)]
pub struct Key(pub u64);

/// The bag: elements in a dense vector, each filed under its key.
pub struct Bag<T> {
    values: Vec<(u64, T)>,
    index: HashMap<u64, usize>,
    capacity: usize,
}

impl<T> Bag<T> {
    /// The elements with their keys, in slot order.
    pub closed spec fn view(&self) -> Seq<(u64, T)> {
        self.values@
    }

    /// The keys, in slot order.
    pub open spec fn handles(&self) -> Seq<u64> {
        Seq::new(self@.len(), |i: int| self@[i].0)
    }

    pub closed spec fn spec_capacity(&self) -> usize {
        self.capacity
    }

    /// Coherence: keys are distinct and the index maps each to its
    /// element's current slot.
    pub closed spec fn inv(&self) -> bool {
        &&& forall|i: int|
            0 <= i < self.values@.len() ==> self.index@.contains_key(
                (#[trigger] self.values@[i]).0,
            ) && self.index@[self.values@[i].0] == i
        &&& forall|h: u64|
            self.index@.contains_key(h) ==> 0 <= #[trigger] self.index@[h] < self.values@.len()
                && self.values@[self.index@[h] as int].0 == h
        &&& 1 <= self.capacity
    }

    /// A bag always has at least one slot of capacity.
    pub proof fn lemma_capacity_positive(&self)
        requires
            self.inv(),
        ensures
            self.spec_capacity() >= 1,
    {
    }

    /// No two elements share a key.
    pub proof fn lemma_handles_distinct(&self)
        requires
            self.inv(),
        ensures
            self.handles().no_duplicates(),
    {
        assert forall|a: int, b: int|
            0 <= a < self.handles().len() && 0 <= b < self.handles().len() && a
                != b implies self.handles()[a] != self.handles()[b] by {
            if self.values@[a].0 == self.values@[b].0 {
                assert(self.index@[self.values@[a].0] == a);
                assert(self.index@[self.values@[b].0] == b);
            }
        }
    }

    pub fn with_capacity(capacity: usize) -> (r: Bag<T>)
        requires
            1 <= capacity,
        ensures
            r.inv(),
            r@ == Seq::<(u64, T)>::empty(),
            r.spec_capacity() == capacity,
    {
        Bag { values: Vec::new(), index: HashMap::new(), capacity }
    }

    pub fn len(&self) -> (r: usize)
        ensures
            r == self@.len(),
    {
        self.values.len()
    }

    pub fn capacity(&self) -> (r: usize)
        ensures
            r == self.spec_capacity(),
    {
        self.capacity
    }

    /// Files `value` under the fresh key `h`.
    pub fn insert_with_key(&mut self, h: Key, value: T)
        requires
            old(self).inv(),
            !old(self).handles().contains(h.0),
        ensures
            final(self).inv(),
            final(self)@ == old(self)@.push((h.0, value)),
            final(self).spec_capacity() == old(self).spec_capacity(),
    {
        let ghost pre = *self;
        let slot = self.values.len();
        self.values.push((h.0, value));
        self.index.insert(h.0, slot);
        proof {
            assert forall|i: int| 0 <= i < self.values@.len() implies self.index@.contains_key(
                (#[trigger] self.values@[i]).0,
            ) && self.index@[self.values@[i].0] == i by {
                if i < pre.values@.len() {
                    assert(self.values@[i] == pre.values@[i]);
                    if pre.values@[i].0 == h.0 {
                        assert(pre.handles()[i] == h.0);
                        assert(false);
                    }
                }
            }
        }
    }

    /// Takes the element filed under `h` out; the last element is moved
    /// into the freed slot. A key not on file changes nothing.
    pub fn remove_by_key(&mut self, h: Key) -> (r: Option<T>)
        requires
            old(self).inv(),
        ensures
            final(self).inv(),
            final(self).spec_capacity() == old(self).spec_capacity(),
            !old(self).handles().contains(h.0) ==> r is None && final(self)@ == old(self)@,
            old(self).handles().contains(h.0) ==> ({
                let p = old(self).handles().index_of(h.0);
                &&& r == Some(old(self)@[p].1)
                &&& final(self)@ == old(self)@.update(p, old(self)@.last()).drop_last()
            }),
    {
        let ghost handles = old(self).handles();
        let slot = match self.index.remove(&h.0) {
            Some(slot) => slot,
            None => {
                proof {
                    assert forall|q: int| 0 <= q < handles.len() implies handles[q] != h.0 by {
                        assert(old(self).values@[q].0 == handles[q]);
                    }
                }
                return None;
            },
        };
        proof {
            assert(old(self).values@[slot as int].0 == h.0);
            assert(handles[slot as int] == h.0);
            assert(handles.contains(h.0));
            old(self).lemma_handles_distinct();
            let p = handles.index_of(h.0);
            assert(handles[p] == h.0);
            assert(p == slot);
        }
        let removed = self.values.swap_remove(slot);
        if slot < self.values.len() {
            let moved = self.values[slot].0;
            self.index.insert(moved, slot);
        }
        proof {
            let pre = *old(self);
            assert forall|i: int| 0 <= i < self.values@.len() implies self.index@.contains_key(
                (#[trigger] self.values@[i]).0,
            ) && self.index@[self.values@[i].0] == i by {
                if i != slot {
                    assert(self.values@[i] == pre.values@[i]);
                    if self.values@[i].0 == h.0 {
                        assert(pre.index@[h.0] == i);
                        assert(false);
                    }
                    if slot < self.values@.len() && self.values@[i].0 == self.values@[slot as int].0 {
                        assert(pre.index@[pre.values@[i].0] == i);
                        assert(pre.values@[pre.values@.len() - 1].0 == self.values@[slot as int].0);
                        assert(pre.index@[pre.values@[pre.values@.len() - 1].0] == pre.values@.len()
                            - 1);
                        assert(i == pre.values@.len() - 1);
                        assert(false);
                    }
                } else {
                    assert(self.values@[slot as int] == pre.values@[pre.values@.len() - 1]);
                }
            }
            assert forall|h2: u64| self.index@.contains_key(h2) implies 0 <= #[trigger] self.index@[h2]
                < self.values@.len() && self.values@[self.index@[h2] as int].0 == h2 by {
                if slot < self.values@.len() && h2 == self.values@[slot as int].0 {
                } else {
                    assert(pre.index@.contains_key(h2) && h2 != h.0);
                    assert(pre.index@[h2] == self.index@[h2]);
                    if self.index@[h2] == pre.values@.len() - 1 {
                        assert(pre.values@[pre.values@.len() - 1].0 == h2);
                        if (slot as int) < pre.values@.len() - 1 {
                            assert(slot < self.values@.len());
                            assert(self.values@[slot as int].0 == h2);
                            assert(false);
                        } else {
                            assert(h2 == h.0);
                            assert(false);
                        }
                    }
                    assert(self.values@[self.index@[h2] as int] == pre.values@[pre.index@[h2] as int]);
                }
            }
        }
        Some(removed.1)
    }

    /// A borrow of the element at `slot`.
    pub fn get_at(&self, slot: usize) -> (r: &(u64, T))
        requires
            slot < self@.len(),
        ensures
            *r == self@[slot as int],
    {
        &self.values[slot]
    }

    /// The element filed under `h`, if any.
    pub fn get(&self, h: Key) -> (r: Option<&T>)
        requires
            self.inv(),
        ensures
            !self.handles().contains(h.0) ==> r is None,
            self.handles().contains(h.0) ==> (r matches Some(v) && *v == self@[self.handles(
            ).index_of(h.0)].1),
    {
        match self.index.get(&h.0) {
            Some(slot) => {
                proof {
                    assert(self.values@[*slot as int].0 == h.0);
                    assert(self.handles()[*slot as int] == h.0);
                    self.lemma_handles_distinct();
                    let p = self.handles().index_of(h.0);
                    assert(self.handles()[p] == h.0);
                    assert(p == *slot);
                }
                Some(&self.values[*slot].1)
            },
            None => {
                proof {
                    assert forall|q: int| 0 <= q < self.handles().len() implies self.handles()[q]
                        != h.0 by {
                        assert(self.values@[q].0 == self.handles()[q]);
                    }
                }
                None
            },
        }
    }

    /// Removes the element at `slot` (as a random pick would), handing it
    /// back with its key; the last element moves into the freed slot.
    pub fn pop(&mut self, slot: usize) -> (r: (u64, T))
        requires
            old(self).inv(),
            slot < old(self)@.len(),
        ensures
            final(self).inv(),
            final(self).spec_capacity() == old(self).spec_capacity(),
            r == old(self)@[slot as int],
            final(self)@ == old(self)@.update(slot as int, old(self)@.last()).drop_last(),
    {
        let h = self.values[slot].0;
        proof {
            assert(old(self).handles()[slot as int] == h);
            assert(old(self).handles().contains(h));
            old(self).lemma_handles_distinct();
            let p = old(self).handles().index_of(h);
            assert(old(self).handles()[p] == h);
            assert(p == slot);
        }
        let value = match self.remove_by_key(Key(h)) {
            Some(value) => value,
            None => {
                proof {
                    assert(false);
                }
                return (h, self.values.pop().unwrap().1);
            },
        };
        (h, value)
    }
}

} // verus!
