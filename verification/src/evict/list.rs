//! A doubly-linked list over a slab of generational slots: the ordered queue
//! behind the insertion- and touch-order eviction policies. Supports O(1)
//! push at the tail, pop at the head, remove by key, and move-to-tail by key.
//! A key with a stale generation is rejected, never resolved to a new
//! occupant of the same slot. Vacant slots form a LIFO free list chained
//! through the slots themselves.
use vstd::prelude::*;

use super::index::{Generation, Index, Key};

verus! {

enum NodeState<T> {
    Occupied { value: T, prev: Option<Index>, next: Option<Index> },
    Vacant { next_free: Option<Key> },
}

struct Node<T> {
    state: NodeState<T>,
    gen: Generation,
}

/// The list. Its view is the sequence of `(key, value)` pairs from head
/// (next to be popped) to tail (most recently pushed).
pub struct List<T> {
    nodes: Vec<Node<T>>,
    len: usize,
    head: Option<Index>,
    tail: Option<Index>,
    next_free: Option<Key>,
    capacity: usize,
    order: Ghost<Seq<int>>,
    free: Ghost<Seq<int>>,
}

impl<T> List<T> {
    /// Well-formedness: the occupied slots are exactly those threaded on the
    /// ghost `order` sequence, linked to their neighbours in it, and the
    /// vacant slots are exactly those chained on the ghost `free` sequence.
    pub closed spec fn wf(&self) -> bool {
        let n = self.nodes@;
        let ord = self.order@;
        let fr = self.free@;
        &&& n.len() <= u32::MAX
        &&& ord.len() + fr.len() == n.len()
        &&& self.len == ord.len()
        &&& 1 <= self.capacity <= u32::MAX
        &&& ord.no_duplicates()
        &&& fr.no_duplicates()
        &&& (forall|i: int| 0 <= i < ord.len() ==> 0 <= #[trigger] ord[i] < n.len())
        &&& (forall|i: int|
            0 <= i < ord.len() ==> ((#[trigger] n[ord[i]].state) matches NodeState::Occupied {
                prev,
                next,
                ..
            } && prev == (if i == 0 {
                Option::<Index>::None
            } else {
                Some(Index(ord[i - 1] as u32))
            }) && next == (if i == ord.len() - 1 {
                Option::<Index>::None
            } else {
                Some(Index(ord[i + 1] as u32))
            })))
        &&& self.head == (if ord.len() == 0 {
            Option::<Index>::None
        } else {
            Some(Index(ord[0] as u32))
        })
        &&& self.tail == (if ord.len() == 0 {
            Option::<Index>::None
        } else {
            Some(Index(ord[ord.len() - 1] as u32))
        })
        &&& (forall|j: int| 0 <= j < fr.len() ==> 0 <= #[trigger] fr[j] < n.len())
        &&& (forall|j: int|
            0 <= j < fr.len() ==> ((#[trigger] n[fr[j]].state) matches NodeState::Vacant {
                next_free,
            } && next_free == (if j == fr.len() - 1 {
                Option::<Key>::None
            } else {
                Some(Key { index: Index(fr[j + 1] as u32), gen: n[fr[j + 1]].gen })
            })))
        &&& self.next_free == (if fr.len() == 0 {
            Option::<Key>::None
        } else {
            Some(Key { index: Index(fr[0] as u32), gen: n[fr[0]].gen })
        })
        &&& (forall|s: int|
            0 <= s < n.len() ==> (ord.contains(s) <==> (#[trigger] n[s].state) is Occupied))
        &&& (forall|s: int|
            0 <= s < n.len() ==> (fr.contains(s) <==> (#[trigger] n[s].state) is Vacant))
        &&& (forall|s: int| 0 <= s < n.len() ==> (#[trigger] n[s].gen).valid())
    }

    /// The elements from head to tail, each with the key it was handed.
    pub closed spec fn view(&self) -> Seq<(Key, T)> {
        Seq::new(
            self.order@.len(),
            |i: int|
                (
                    Key {
                        index: Index(self.order@[i] as u32),
                        gen: self.nodes@[self.order@[i]].gen,
                    },
                    self.nodes@[self.order@[i]].state->Occupied_value,
                ),
        )
    }

    /// The keys from head to tail.
    pub open spec fn keys(&self) -> Seq<Key> {
        Seq::new(self@.len(), |i: int| self@[i].0)
    }

    /// The values from head to tail.
    pub open spec fn values(&self) -> Seq<T> {
        Seq::new(self@.len(), |i: int| self@[i].1)
    }

    pub closed spec fn spec_capacity(&self) -> usize {
        self.capacity
    }

    /// Bounds that hold of every well-formed list.
    pub proof fn lemma_bounds(&self)
        requires
            self.wf(),
        ensures
            1 <= self.spec_capacity() <= u32::MAX,
            self@.len() <= u32::MAX,
    {
    }

    /// No two current keys are equal: they differ at least in slot index.
    pub proof fn lemma_keys_distinct(&self)
        requires
            self.wf(),
        ensures
            self.keys().no_duplicates(),
            self.keys().len() == self@.len(),
    {
        assert forall|i: int, j: int|
            0 <= i < self.keys().len() && 0 <= j < self.keys().len() && i != j implies self.keys()[i]
            != self.keys()[j] by {
            assert(self.order@[i] != self.order@[j]);
        }
    }

    pub fn with_capacity(capacity: usize) -> (r: List<T>)
        requires
            1 <= capacity <= u32::MAX,
        ensures
            r.wf(),
            r@ == Seq::<(Key, T)>::empty(),
            r.spec_capacity() == capacity,
    {
        let r = List {
            nodes: Vec::with_capacity(capacity),
            len: 0,
            head: None,
            tail: None,
            next_free: None,
            capacity,
            order: Ghost(Seq::empty()),
            free: Ghost(Seq::empty()),
        };
        proof {
            assert(r@ =~= Seq::<(Key, T)>::empty());
        }
        r
    }

    pub fn len(&self) -> (r: usize)
        requires
            self.wf(),
        ensures
            r == self@.len(),
    {
        self.len
    }

    pub fn capacity(&self) -> (r: usize)
        ensures
            r == self.spec_capacity(),
    {
        self.capacity
    }

    /// Pushes `value` at the tail and returns the key it can later be
    /// removed or touched by. The key is fresh: no current element holds it.
    pub fn push_tail_with_key(&mut self, value: T) -> (k: Key)
        requires
            old(self).wf(),
            old(self)@.len() < u32::MAX,
        ensures
            final(self).wf(),
            final(self)@ == old(self)@.push((k, value)),
            !old(self).keys().contains(k),
            final(self).spec_capacity() == old(self).spec_capacity(),
    {
        let ghost pre = *old(self);
        let old_tail = self.tail;
        let key: Key = match self.next_free {
            None => {
                // The free list is empty, so every slot is occupied: grow.
                proof {
                    assert(self.free@.len() == 0);
                }
                let index = Index::from_usize(self.nodes.len());
                let gen = Generation::initial();
                let key = Key { index, gen };
                self.nodes.push(
                    Node {
                        state: NodeState::Occupied { value, prev: old_tail, next: None },
                        gen,
                    },
                );
                proof {
                    self.order@ = self.order@.push(index.0 as int);
                }
                key
            },
            Some(key) => {
                // Reuse the head of the free list; the slot keeps the
                // generation it was stamped with when it was vacated.
                proof {
                    assert(self.free@.len() > 0);
                    assert(self.nodes@[self.free@[0]].state is Vacant);
                    assert(key.index.0 == self.free@[0]);
                }
                let i = key.index.into_usize();
                let taken_next_free = match &self.nodes[i].state {
                    NodeState::Vacant { next_free } => *next_free,
                    NodeState::Occupied { .. } => None,
                };
                self.next_free = taken_next_free;
                self.nodes[i] = Node {
                    state: NodeState::Occupied { value, prev: old_tail, next: None },
                    gen: key.gen,
                };
                proof {
                    self.order@ = self.order@.push(i as int);
                    self.free@ = self.free@.drop_first();
                }
                key
            },
        };
        match old_tail {
            Some(t) => {
                let ti = t.into_usize();
                proof {
                    assert(pre.order@.len() > 0);
                    assert(ti == pre.order@[pre.order@.len() - 1]);
                    assert(self.nodes@[ti as int].state is Occupied);
                }
                let tail_node = &mut self.nodes[ti];
                match &mut tail_node.state {
                    NodeState::Occupied { next, .. } => {
                        *next = Some(key.index);
                    },
                    NodeState::Vacant { .. } => {
                        proof {
                            assert(false);
                        }
                    },
                }
            },
            None => {
                self.head = Some(key.index);
            },
        }
        self.tail = Some(key.index);
        self.len = self.len + 1;
        proof {
            let ord0 = pre.order@;
            let ord1 = self.order@;
            let ki = key.index.0 as int;
            // The new slot was not occupied before, so it is not in the old
            // order and the handed-out key is fresh.
            assert(!ord0.contains(ki));
            assert forall|q: int| 0 <= q < pre.keys().len() implies pre.keys()[q] != key by {
                assert(ord0[q] != ki);
            }
            assert forall|s: int| 0 <= s < self.nodes@.len() implies (ord1.contains(s) <==> (
            #[trigger] self.nodes@[s].state) is Occupied) by {
                assert(ord1[ord1.len() - 1] == ki);
                if s != ki {
                    assert(ord1.contains(s) <==> ord0.contains(s)) by {
                        if ord0.contains(s) {
                            let q = choose|q: int| 0 <= q < ord0.len() && ord0[q] == s;
                            assert(ord1[q] == s);
                        }
                        if ord1.contains(s) {
                            let q = choose|q: int| 0 <= q < ord1.len() && ord1[q] == s;
                            assert(q < ord0.len() && ord0[q] == s);
                        }
                    }
                }
            }
            assert forall|s: int| 0 <= s < self.nodes@.len() implies (self.free@.contains(s) <==> (
            #[trigger] self.nodes@[s].state) is Vacant) by {
                if pre.free@.len() > 0 {
                    assert(pre.free@[0] == ki);
                    if self.free@.contains(s) {
                        let q = choose|q: int| 0 <= q < self.free@.len() && self.free@[q] == s;
                        assert(pre.free@[q + 1] == s);
                        assert(s != ki);
                    }
                    if s != ki && pre.free@.contains(s) {
                        let q = choose|q: int| 0 <= q < pre.free@.len() && pre.free@[q] == s;
                        assert(q != 0);
                        assert(self.free@[q - 1] == s);
                    }
                }
            }
            assert(final(self)@ =~= pre@.push((key, value)));
            assert(final(self).wf());
        }
        key
    }

    /// `node` with its next link replaced.
    spec fn with_next(node: Node<T>, next: Option<Index>) -> Node<T> {
        Node {
            state: NodeState::Occupied {
                value: node.state->Occupied_value,
                prev: node.state->Occupied_prev,
                next,
            },
            gen: node.gen,
        }
    }

    /// `node` with its prev link replaced.
    spec fn with_prev(node: Node<T>, prev: Option<Index>) -> Node<T> {
        Node {
            state: NodeState::Occupied {
                value: node.state->Occupied_value,
                prev,
                next: node.state->Occupied_next,
            },
            gen: node.gen,
        }
    }

    /// Links the two neighbours of a detached element to each other, fixing
    /// head and tail when the element was at an end.
    fn prune_link(&mut self, prev: Option<Index>, next: Option<Index>)
        requires
            (prev matches Some(p) ==> p.0 < old(self).nodes@.len() && old(self).nodes@[p.0 as int].state
                is Occupied),
            (next matches Some(q) ==> q.0 < old(self).nodes@.len() && old(self).nodes@[q.0 as int].state
                is Occupied),
            !(prev matches Some(p) && next matches Some(q) && p == q),
        ensures
            final(self).nodes@.len() == old(self).nodes@.len(),
            final(self).len == old(self).len,
            final(self).capacity == old(self).capacity,
            final(self).next_free == old(self).next_free,
            final(self).order == old(self).order,
            final(self).free == old(self).free,
            final(self).head == (if prev is None {
                next
            } else {
                old(self).head
            }),
            final(self).tail == (if next is None {
                prev
            } else {
                old(self).tail
            }),
            (forall|j: int|
                0 <= j < old(self).nodes@.len() && (prev matches Some(p) ==> j != p.0) && (
                next matches Some(q) ==> j != q.0) ==> final(self).nodes@[j] == old(
                    self,
                ).nodes@[j]),
            (prev matches Some(p) ==> final(self).nodes@[p.0 as int] == Self::with_next(
                old(self).nodes@[p.0 as int],
                next,
            )),
            (next matches Some(q) ==> final(self).nodes@[q.0 as int] == Self::with_prev(
                old(self).nodes@[q.0 as int],
                prev,
            )),
    {
        match prev {
            Some(p) => {
                let pi = p.into_usize();
                let prev_node = &mut self.nodes[pi];
                match &mut prev_node.state {
                    NodeState::Occupied { next: prev_next, .. } => {
                        *prev_next = next;
                    },
                    NodeState::Vacant { .. } => {
                        proof {
                            assert(false);
                        }
                    },
                }
            },
            None => {
                self.head = next;
            },
        }
        match next {
            Some(q) => {
                let qi = q.into_usize();
                let next_node = &mut self.nodes[qi];
                match &mut next_node.state {
                    NodeState::Occupied { prev: next_prev, .. } => {
                        *next_prev = prev;
                    },
                    NodeState::Vacant { .. } => {
                        proof {
                            assert(false);
                        }
                    },
                }
            },
            None => {
                self.tail = prev;
            },
        }
    }

    /// Removes the element `key` refers to. Returns `None`, changing
    /// nothing, when the key is stale: its slot was vacated (and possibly
    /// reused) since it was handed out, or it never came from this list.
    #[verifier::rlimit(100)]
    #[verifier::spinoff_prover]
    pub fn remove(&mut self, key: Key) -> (r: Option<T>)
        requires
            old(self).wf(),
        ensures
            final(self).wf(),
            final(self).spec_capacity() == old(self).spec_capacity(),
            !old(self).keys().contains(key) ==> r is None && final(self)@ == old(self)@,
            old(self).keys().contains(key) ==> ({
                let p = old(self).keys().index_of(key);
                &&& r == Some(old(self)@[p].1)
                &&& final(self)@ == old(self)@.remove(p)
            }),
    {
        let ghost pre = *old(self);
        let i = key.index.into_usize();
        if i >= self.nodes.len() {
            proof {
                assert forall|q: int| 0 <= q < pre.keys().len() implies pre.keys()[q] != key by {
                    assert(0 <= pre.order@[q] < pre.nodes@.len());
                }
            }
            return None;
        }
        let gen_matches = self.nodes[i].gen.0 == key.gen.0;
        let occupied = matches!(self.nodes[i].state, NodeState::Occupied { .. });
        if !gen_matches || !occupied {
            proof {
                assert forall|q: int| 0 <= q < pre.keys().len() implies pre.keys()[q] != key by {
                    if pre.order@[q] == i as int {
                        assert(pre.nodes@[i as int].state is Occupied);
                        assert(pre.keys()[q].gen == pre.nodes@[i as int].gen);
                    }
                }
            }
            return None;
        }
        proof {
            assert(pre.order@.contains(i as int));
            let p = choose|p: int| 0 <= p < pre.order@.len() && pre.order@[p] == i as int;
            assert(pre.keys()[p] == key);
            assert(pre.keys().contains(key));
        }
        let ghost p = choose|p: int| 0 <= p < pre.order@.len() && pre.order@[p] == i as int;
        // Vacate the slot: stamp it with the next generation and push it on
        // the free list.
        let mut taken = NodeState::Vacant { next_free: self.next_free };
        let node = &mut self.nodes[i];
        core::mem::swap(&mut node.state, &mut taken);
        node.gen.increment_mut();
        let new_gen = node.gen;
        self.next_free = Some(Key { index: key.index, gen: new_gen });
        match taken {
            NodeState::Occupied { value, prev, next } => {
                proof {
                    // The neighbours recorded in the node are the order
                    // neighbours, and they are distinct from each other.
                    if p > 0 && p < pre.order@.len() - 1 {
                        assert(pre.order@[p - 1] != pre.order@[p + 1]);
                    }
                }
                self.prune_link(prev, next);
                self.len = self.len - 1;
                proof {
                    self.order@ = pre.order@.remove(p);
                    self.free@ = seq![i as int].add(pre.free@);
                }
                proof {
                    let ord0 = pre.order@;
                    let ord1 = self.order@;
                    let fr0 = pre.free@;
                    let fr1 = self.free@;
                    assert(!fr0.contains(i as int));
                    assert(ord1 =~= ord0.subrange(0, p).add(
                        ord0.subrange(p + 1, ord0.len() as int),
                    ));
                    // Order membership: exactly the old occupied slots minus i.
                    assert forall|s: int| 0 <= s < self.nodes@.len() implies (ord1.contains(s) <==> (
                    #[trigger] self.nodes@[s].state) is Occupied) by {
                        if s == i as int {
                            if ord1.contains(s) {
                                let q = choose|q: int| 0 <= q < ord1.len() && ord1[q] == s;
                                if q < p {
                                    assert(ord0[q] == s);
                                } else {
                                    assert(ord0[q + 1] == s);
                                }
                                assert(false);
                            }
                        } else {
                            if ord0.contains(s) {
                                let q = choose|q: int| 0 <= q < ord0.len() && ord0[q] == s;
                                assert(q != p);
                                if q < p {
                                    assert(ord1[q] == s);
                                } else {
                                    assert(ord1[q - 1] == s);
                                }
                            }
                            if ord1.contains(s) {
                                let q = choose|q: int| 0 <= q < ord1.len() && ord1[q] == s;
                                if q < p {
                                    assert(ord0[q] == s);
                                } else {
                                    assert(ord0[q + 1] == s);
                                }
                            }
                        }
                    }
                    assert forall|s: int| 0 <= s < self.nodes@.len() implies (fr1.contains(s) <==> (
                    #[trigger] self.nodes@[s].state) is Vacant) by {
                        assert(fr1[0] == i as int);
                        if s != i as int {
                            if fr0.contains(s) {
                                let q = choose|q: int| 0 <= q < fr0.len() && fr0[q] == s;
                                assert(fr1[q + 1] == s);
                            }
                            if fr1.contains(s) {
                                let q = choose|q: int| 0 <= q < fr1.len() && fr1[q] == s;
                                assert(q != 0);
                                assert(fr0[q - 1] == s);
                            }
                        }
                    }
                    // Linking of the remaining order elements.
                    assert forall|q: int| 0 <= q < ord1.len() implies ((
                    #[trigger] self.nodes@[ord1[q]].state) matches NodeState::Occupied {
                        prev: qprev,
                        next: qnext,
                        ..
                    } && qprev == (if q == 0 {
                        Option::<Index>::None
                    } else {
                        Some(Index(ord1[q - 1] as u32))
                    }) && qnext == (if q == ord1.len() - 1 {
                        Option::<Index>::None
                    } else {
                        Some(Index(ord1[q + 1] as u32))
                    })) by {
                        if q < p - 1 {
                            assert(ord1[q] == ord0[q]);
                        } else if q == p - 1 {
                            assert(ord1[q] == ord0[q]);
                            if q < ord1.len() - 1 {
                                assert(ord1[q + 1] == ord0[q + 2]);
                            }
                        } else if q == p {
                            assert(ord1[q] == ord0[q + 1]);
                            if q > 0 {
                                assert(ord1[q - 1] == ord0[q - 1]);
                            }
                            if q < ord1.len() - 1 {
                                assert(ord1[q + 1] == ord0[q + 2]);
                            }
                        } else {
                            assert(ord1[q] == ord0[q + 1]);
                            assert(ord1[q - 1] == ord0[q]);
                            if q < ord1.len() - 1 {
                                assert(ord1[q + 1] == ord0[q + 2]);
                            }
                        }
                    }
                    assert(pre.keys().index_of(key) == p) by {
                        assert(pre.keys()[p] == key);
                        pre.lemma_keys_distinct();
                        let p2 = pre.keys().index_of(key);
                        assert(pre.keys()[p2] == key);
                    }
                    assert(final(self)@ =~= pre@.remove(p));
                    assert(final(self).wf());
                }
                Some(value)
            },
            NodeState::Vacant { .. } => {
                proof {
                    assert(false);
                }
                None
            },
        }
    }

    /// Removes and returns the head element, if any.
    pub fn pop_head(&mut self) -> (r: Option<T>)
        requires
            old(self).wf(),
        ensures
            final(self).wf(),
            final(self).spec_capacity() == old(self).spec_capacity(),
            old(self)@.len() == 0 ==> r is None && final(self)@ == old(self)@,
            old(self)@.len() > 0 ==> r == Some(old(self)@[0].1) && final(self)@ == old(
                self,
            )@.drop_first(),
    {
        let ghost pre = *old(self);
        match self.head {
            None => None,
            Some(h) => {
                let hi = h.into_usize();
                proof {
                    assert(pre.order@[0] == hi as int);
                }
                let gen = self.nodes[hi].gen;
                let key = Key { index: h, gen };
                proof {
                    assert(pre.keys()[0] == key);
                    assert(pre.keys().contains(key));
                    pre.lemma_keys_distinct();
                    let p = pre.keys().index_of(key);
                    assert(pre.keys()[p] == key);
                    assert(p == 0);
                    assert(pre@.remove(0) =~= pre@.drop_first());
                }
                self.remove(key)
            },
        }
    }

    /// Moves the element `key` refers to to the tail, so it becomes the last
    /// eviction candidate. A stale key is ignored.
    #[verifier::rlimit(100)]
    #[verifier::spinoff_prover]
    pub fn move_to_tail(&mut self, key: Key)
        requires
            old(self).wf(),
        ensures
            final(self).wf(),
            final(self).spec_capacity() == old(self).spec_capacity(),
            !old(self).keys().contains(key) ==> final(self)@ == old(self)@,
            old(self).keys().contains(key) ==> ({
                let p = old(self).keys().index_of(key);
                final(self)@ == old(self)@.remove(p).push(old(self)@[p])
            }),
    {
        let ghost pre = *old(self);
        let i = key.index.into_usize();
        if i >= self.nodes.len() {
            proof {
                assert forall|q: int| 0 <= q < pre.keys().len() implies pre.keys()[q] != key by {
                    assert(0 <= pre.order@[q] < pre.nodes@.len());
                }
            }
            return ;
        }
        let gen_matches = self.nodes[i].gen.0 == key.gen.0;
        let occupied = matches!(self.nodes[i].state, NodeState::Occupied { .. });
        if !gen_matches || !occupied {
            proof {
                assert forall|q: int| 0 <= q < pre.keys().len() implies pre.keys()[q] != key by {
                    if pre.order@[q] == i as int {
                        assert(pre.nodes@[i as int].state is Occupied);
                        assert(pre.keys()[q].gen == pre.nodes@[i as int].gen);
                    }
                }
            }
            return ;
        }
        proof {
            assert(pre.order@.contains(i as int));
        }
        let ghost p = choose|p: int| 0 <= p < pre.order@.len() && pre.order@[p] == i as int;
        proof {
            assert(pre.keys()[p] == key);
            assert(pre.keys().contains(key));
            pre.lemma_keys_distinct();
            let p2 = pre.keys().index_of(key);
            assert(pre.keys()[p2] == key);
            assert(p2 == p);
        }
        let is_tail = match self.tail {
            Some(t) => t.0 == key.index.0,
            None => false,
        };
        if is_tail {
            proof {
                assert(p == pre.order@.len() - 1);
                assert(pre@.remove(p).push(pre@[p]) =~= pre@);
            }
            return ;
        }
        let ghost ord0 = pre.order@;
        proof {
            assert(p < ord0.len() - 1);
        }
        let old_tail = match self.tail {
            Some(t) => t,
            None => {
                proof {
                    assert(false);
                }
                key.index
            },
        };
        // Detach the element from its neighbours.
        let (node_prev, node_next) = match &self.nodes[i].state {
            NodeState::Occupied { prev, next, .. } => (*prev, *next),
            NodeState::Vacant { .. } => (None, None),
        };
        proof {
            if p > 0 && p < ord0.len() - 1 {
                assert(ord0[p - 1] != ord0[p + 1]);
            }
        }
        self.prune_link(node_prev, node_next);
        // Re-attach it behind the old tail.
        let node = &mut self.nodes[i];
        match &mut node.state {
            NodeState::Occupied { prev, next, .. } => {
                *prev = Some(old_tail);
                *next = None;
            },
            NodeState::Vacant { .. } => {
                proof {
                    assert(false);
                }
            },
        }
        let ti = old_tail.into_usize();
        proof {
            assert(ord0[ord0.len() - 1] == ti as int);
            assert(ti as int != i as int);
            assert(self.nodes@[ti as int].state is Occupied);
        }
        let tail_node = &mut self.nodes[ti];
        match &mut tail_node.state {
            NodeState::Occupied { next, .. } => {
                *next = Some(key.index);
            },
            NodeState::Vacant { .. } => {
                proof {
                    assert(false);
                }
            },
        }
        self.tail = Some(key.index);
        proof {
            self.order@ = ord0.remove(p).push(i as int);
        }
        proof {
            let ord1 = self.order@;
            assert(ord1.len() == ord0.len());
            assert(ord1[ord1.len() - 1] == i as int);
            // Membership is unchanged.
            assert forall|s: int| 0 <= s < self.nodes@.len() implies (ord1.contains(s) <==> (
            #[trigger] self.nodes@[s].state) is Occupied) by {
                if s == i as int {
                    assert(ord1[ord1.len() - 1] == s);
                } else {
                    if ord0.contains(s) {
                        let q = choose|q: int| 0 <= q < ord0.len() && ord0[q] == s;
                        assert(q != p);
                        if q < p {
                            assert(ord1[q] == s);
                        } else {
                            assert(ord1[q - 1] == s);
                        }
                    }
                    if ord1.contains(s) {
                        let q = choose|q: int| 0 <= q < ord1.len() && ord1[q] == s;
                        assert(q < ord1.len() - 1);
                        if q < p {
                            assert(ord0[q] == s);
                        } else {
                            assert(ord0[q + 1] == s);
                        }
                    }
                }
            }
            assert forall|s: int| 0 <= s < self.nodes@.len() implies (self.free@.contains(s) <==> (
            #[trigger] self.nodes@[s].state) is Vacant) by {}
            // Linking along the new order.
            assert forall|q: int| 0 <= q < ord1.len() implies ((
            #[trigger] self.nodes@[ord1[q]].state) matches NodeState::Occupied {
                prev: qprev,
                next: qnext,
                ..
            } && qprev == (if q == 0 {
                Option::<Index>::None
            } else {
                Some(Index(ord1[q - 1] as u32))
            }) && qnext == (if q == ord1.len() - 1 {
                Option::<Index>::None
            } else {
                Some(Index(ord1[q + 1] as u32))
            })) by {
                if q == ord1.len() - 1 {
                    assert(ord1[q] == i as int);
                    assert(ord1[q - 1] == ord0[ord0.len() - 1]);
                } else if q == ord1.len() - 2 {
                    assert(ord1[q] == ord0[q + 1]);
                } else if q < p - 1 {
                    assert(ord1[q] == ord0[q]);
                } else if q == p - 1 {
                    assert(ord1[q] == ord0[q]);
                    assert(ord1[q + 1] == ord0[q + 2]);
                } else if q == p {
                    assert(ord1[q] == ord0[q + 1]);
                    if q > 0 {
                        assert(ord1[q - 1] == ord0[q - 1]);
                    }
                    assert(ord1[q + 1] == ord0[q + 2]);
                } else {
                    assert(ord1[q] == ord0[q + 1]);
                    assert(ord1[q - 1] == ord0[q]);
                    assert(ord1[q + 1] == ord0[q + 2]);
                }
            }
            assert(final(self)@ =~= pre@.remove(p).push(pre@[p]));
            assert(final(self).wf());
        }
    }

    /// The value the key refers to, or `None` for a stale key.
    pub fn get(&self, key: Key) -> (r: Option<&T>)
        requires
            self.wf(),
        ensures
            !self.keys().contains(key) ==> r is None,
            self.keys().contains(key) ==> (r matches Some(v) && *v == self@[self.keys().index_of(
                key,
            )].1),
    {
        let i = key.index.into_usize();
        if i >= self.nodes.len() {
            proof {
                assert forall|q: int| 0 <= q < self.keys().len() implies self.keys()[q] != key by {
                    assert(0 <= self.order@[q] < self.nodes@.len());
                }
            }
            return None;
        }
        let gen_matches = self.nodes[i].gen.0 == key.gen.0;
        match &self.nodes[i].state {
            NodeState::Occupied { value, .. } if gen_matches => {
                proof {
                    assert(self.order@.contains(i as int));
                    let p = choose|p: int| 0 <= p < self.order@.len() && self.order@[p] == i as int;
                    assert(self.keys()[p] == key);
                    self.lemma_keys_distinct();
                    let p2 = self.keys().index_of(key);
                    assert(self.keys()[p2] == key);
                    assert(p2 == p);
                }
                Some(value)
            },
            _ => {
                proof {
                    assert forall|q: int| 0 <= q < self.keys().len() implies self.keys()[q]
                        != key by {
                        if self.order@[q] == i as int {
                            assert(self.nodes@[i as int].state is Occupied);
                            assert(self.keys()[q].gen == self.nodes@[i as int].gen);
                        }
                    }
                }
                None
            },
        }
    }

    /// The head element's value, if any: the next eviction candidate.
    pub fn peek_head(&self) -> (r: Option<&T>)
        requires
            self.wf(),
        ensures
            self@.len() == 0 ==> r is None,
            self@.len() > 0 ==> (r matches Some(v) && *v == self@[0].1),
    {
        match self.head {
            None => None,
            Some(h) => {
                let hi = h.into_usize();
                proof {
                    assert(self.order@[0] == hi as int);
                }
                match &self.nodes[hi].state {
                    NodeState::Occupied { value, .. } => Some(value),
                    NodeState::Vacant { .. } => {
                        proof {
                            assert(false);
                        }
                        None
                    },
                }
            },
        }
    }

    /// Pushes at the tail; when the list is at its configured capacity, pops
    /// the head first and returns it alongside the new element's key.
    pub fn push_tail_with_key_and_pop_if_full(&mut self, value: T) -> (r: (Key, Option<T>))
        requires
            old(self).wf(),
            old(self)@.len() <= old(self).spec_capacity(),
        ensures
            final(self).wf(),
            final(self).spec_capacity() == old(self).spec_capacity(),
            final(self)@.len() <= final(self).spec_capacity(),
            old(self)@.len() == old(self).spec_capacity() ==> r.1 == Some(old(self)@[0].1)
                && final(self)@ == old(self)@.drop_first().push((r.0, value)),
            old(self)@.len() < old(self).spec_capacity() ==> r.1 is None && final(self)@ == old(
                self,
            )@.push((r.0, value)),
    {
        let removed = if self.len == self.capacity {
            self.pop_head()
        } else {
            None
        };
        let key = self.push_tail_with_key(value);
        (key, removed)
    }

    /// Empties the list, returning the values from head to tail.
    pub fn drain(&mut self) -> (r: Vec<T>)
        requires
            old(self).wf(),
        ensures
            final(self).wf(),
            final(self)@.len() == 0,
            final(self).spec_capacity() == old(self).spec_capacity(),
            r@ == old(self).values(),
    {
        self.drain_all()
    }

    /// The values of the first `count` elements, head first, read without
    /// disturbing the list.
    pub fn prefix(&self, count: usize) -> (r: Vec<T>) where T: Copy,
        requires
            self.wf(),
        ensures
            r@.len() == if count <= self@.len() {
                count as int
            } else {
                self@.len() as int
            },
            forall|i: int| 0 <= i < r@.len() ==> r@[i] == self@[i].1,
    {
        let n = if count <= self.len {
            count
        } else {
            self.len
        };
        let mut out: Vec<T> = Vec::new();
        let mut cur = self.head;
        while out.len() < n
            invariant
                self.wf(),
                n <= self@.len(),
                out@.len() <= n,
                forall|i: int| 0 <= i < out@.len() ==> out@[i] == self@[i].1,
                cur == if out@.len() < self@.len() {
                    Some(Index(self.order@[out@.len() as int] as u32))
                } else {
                    Option::<Index>::None
                },
            decreases n - out@.len(),
        {
            let ix = match cur {
                Some(ix) => ix,
                None => {
                    proof {
                        assert(false);
                    }
                    Index(0)
                },
            };
            let i = ix.into_usize();
            proof {
                assert(self.order@[out@.len() as int] == i as int);
                assert(self.nodes@[i as int].state is Occupied);
            }
            match &self.nodes[i].state {
                NodeState::Occupied { value, next, .. } => {
                    out.push(*value);
                    cur = *next;
                },
                NodeState::Vacant { .. } => {
                    proof {
                        assert(false);
                    }
                },
            }
        }
        out
    }

    /// Empties the list, returning the values from head to tail.
    fn drain_all(&mut self) -> (r: Vec<T>)
        requires
            old(self).wf(),
        ensures
            final(self).wf(),
            final(self)@.len() == 0,
            final(self).spec_capacity() == old(self).spec_capacity(),
            r@ == old(self).values(),
    {
        let ghost pre = *old(self);
        let mut out: Vec<T> = Vec::new();
        while self.len() > 0
            invariant
                self.wf(),
                self.spec_capacity() == pre.spec_capacity(),
                out@.len() + self@.len() == pre@.len(),
                self@ =~= pre@.subrange(out@.len() as int, pre@.len() as int),
                forall|q: int| 0 <= q < out@.len() ==> out@[q] == pre@[q].1,
            decreases self@.len(),
        {
            match self.pop_head() {
                Some(v) => {
                    out.push(v);
                },
                None => {
                    proof {
                        assert(false);
                    }
                },
            }
        }
        proof {
            assert(out@ =~= pre.values());
        }
        out
    }
}

} // verus!
