//! One store shard: a key index, a slot vector of shared pointers, and the
//! composed layer's shard state, kept coherent under a single exclusive
//! borrow. The sharded and the local store are both built out of these.
use vstd::prelude::*;

use std::rc::Rc;

use crate::Value;
use crate::layer::{ReadResult, Shard};
use crate::table::KeyTable;
use crate::time::Instant;

verus! {

struct PointerInner<T, Lv> {
    id: u64,
    value: T,
    layer: Lv,
}

/// A shared, cheaply-cloneable handle to one cache entry: the user's value
/// together with the layer's per-element state and an identity stamp. Clones
/// hand out the same entry; the entry itself is immutable.
pub struct Pointer<T, Lv> {
    rc: Rc<PointerInner<T, Lv>>,
}

/// Relies on Rc::clone: the clone is a handle to the same allocation, so it
/// carries the same value.
#[verifier::external_body]
fn rc_clone<T>(rc: &Rc<T>) -> (r: Rc<T>)
    ensures
        r == *rc,
{
    Rc::clone(rc)
}

impl<T, Lv> Pointer<T, Lv> {
    /// The identity stamp: fixed when the entry was inserted, shared by all
    /// clones of the handle.
    pub closed spec fn spec_id(&self) -> u64 {
        self.rc.id
    }

    /// The user's value.
    pub closed spec fn spec_value(&self) -> T {
        self.rc.value
    }

    /// The layer's per-element state.
    pub closed spec fn spec_layer(&self) -> Lv {
        self.rc.layer
    }

    fn new(id: u64, value: T, layer: Lv) -> (r: Pointer<T, Lv>)
        ensures
            r.spec_id() == id,
            r.spec_value() == value,
            r.spec_layer() == layer,
    {
        Pointer { rc: Rc::new(PointerInner { id, value, layer }) }
    }

    pub fn id(&self) -> (r: u64)
        ensures
            r == self.spec_id(),
    {
        self.rc.id
    }

    /// A borrow of the entry's value.
    pub fn value(&self) -> (r: &T)
        ensures
            *r == self.spec_value(),
    {
        &self.rc.value
    }

    fn layer_value(&self) -> (r: &Lv)
        ensures
            *r == self.spec_layer(),
    {
        &self.rc.layer
    }
}

impl<T, Lv> Clone for Pointer<T, Lv> {
    fn clone(&self) -> (r: Self)
        ensures
            r == *self,
    {
        Pointer { rc: rc_clone(&self.rc) }
    }
}

/// The layer states threaded through removing `keys` one after another,
/// front first, each removal obeying the layer's own removal statement.
pub open spec fn spec_removed_all<T: Value, L: Shard<T>>(pre: L, post: L, keys: Seq<u64>) -> bool
    decreases keys.len(),
{
    if keys.len() == 0 {
        post == pre
    } else {
        exists|mid: L, v: L::Value|
            #[trigger] L::remove_rel(pre, mid, keys.first(), v) && spec_removed_all(
                mid,
                post,
                keys.drop_first(),
            )
    }
}

/// The layer evolution of one install: the policy names its victims, each is
/// removed, and the key is written, all by the layer's own statements.
pub open spec fn spec_layer_insert<T: Value, L: Shard<T>>(
    pre: L,
    post: L,
    k: u64,
    t: T,
    now: Instant,
    lv: L::Value,
) -> bool {
    exists|m0: L, m1: L, vs: Seq<u64>|
        {
            &&& #[trigger] L::victims_rel(pre, m0, now, vs)
            &&& #[trigger] spec_removed_all(m0, m1, vs)
            &&& L::write_rel(m1, post, k, t, now, lv)
        }
}

/// Extends a removal chain by one more removal at its end.
proof fn lemma_removed_all_extend<T: Value, L: Shard<T>>(
    pre: L,
    mid: L,
    post: L,
    keys: Seq<u64>,
    k: u64,
    v: L::Value,
)
    requires
        spec_removed_all::<T, L>(pre, mid, keys),
        L::remove_rel(mid, post, k, v),
    ensures
        spec_removed_all::<T, L>(pre, post, keys.push(k)),
    decreases keys.len(),
{
    if keys.len() == 0 {
        assert(mid == pre);
        assert(keys.push(k).first() == k);
        assert(keys.push(k).drop_first() =~= Seq::<u64>::empty());
        assert(spec_removed_all::<T, L>(post, post, keys.push(k).drop_first()));
        assert(L::remove_rel(pre, post, keys.push(k).first(), v));
    } else {
        let (m, v0): (L, L::Value) = choose|m: L, v0: L::Value|
            #[trigger] L::remove_rel(pre, m, keys.first(), v0) && spec_removed_all::<T, L>(
                m,
                mid,
                keys.drop_first(),
            );
        lemma_removed_all_extend::<T, L>(m, mid, post, keys.drop_first(), k, v);
        assert(keys.push(k).drop_first() =~= keys.drop_first().push(k));
        assert(keys.push(k).first() == keys.first());
        assert(L::remove_rel(pre, m, keys.push(k).first(), v0) && spec_removed_all::<T, L>(
            m,
            post,
            keys.push(k).drop_first(),
        ));
    }
}

/// One shard of a store: the keys it holds, each filed in the key index and
/// resolved through the slot vector, plus the layer's shard state.
pub struct StoreShard<T: Value, L: Shard<T>> {
    table: KeyTable,
    slots: Vec<Pointer<T, L::Value>>,
    layer: L,
    next_id: u64,
}

impl<T: Value, L: Shard<T>> StoreShard<T, L> {
    /// The layer's shard state.
    pub closed spec fn spec_layer(&self) -> L {
        self.layer
    }

    /// The pointer stored for `k`.
    pub closed spec fn pointer_of(&self, k: u64) -> Pointer<T, L::Value> {
        self.slots@[self.table@[k] as int]
    }

    /// What the shard holds: each key mapped to the identity stamp and value
    /// of its entry.
    pub closed spec fn contents(&self) -> Map<u64, (u64, T)> {
        Map::new(
            |k: u64| self.table@.contains_key(k),
            |k: u64| (self.pointer_of(k).spec_id(), self.pointer_of(k).spec_value()),
        )
    }

    /// The layer's verdict a point read of `k` would get right now.
    pub open spec fn read_decision_of(&self, k: u64, now: Instant) -> ReadResult {
        self.spec_layer().read_decision(
            k,
            self.pointer_of(k).spec_layer(),
            self.pointer_of(k).spec_value(),
            now,
        )
    }

    /// The layer's verdict a scan visiting `k` would get right now.
    pub open spec fn iter_decision_of(&self, k: u64, now: Instant) -> ReadResult {
        self.spec_layer().iter_decision(
            k,
            self.pointer_of(k).spec_layer(),
            self.pointer_of(k).spec_value(),
            now,
        )
    }

    /// How the layer's shard state changes under a point probe of `k`: not
    /// at all on a miss; by the layer's own read statement on a live hit;
    /// and by a read followed by a removal when the read reports the entry
    /// dead.
    pub open spec fn spec_probe_layer(pre: Self, post_layer: L, k: u64, now: Instant) -> bool {
        &&& (!pre.contents().contains_key(k) ==> post_layer == pre.spec_layer())
        &&& (pre.contents().contains_key(k) && pre.read_decision_of(k, now) == ReadResult::Retain
            ==> L::read_rel(
            pre.spec_layer(),
            post_layer,
            k,
            pre.pointer_of(k).spec_layer(),
            pre.pointer_of(k).spec_value(),
            now,
        ))
        &&& (pre.contents().contains_key(k) && pre.read_decision_of(k, now) == ReadResult::Remove
            ==> exists|mid: L|
            #[trigger] L::read_rel(
                pre.spec_layer(),
                mid,
                k,
                pre.pointer_of(k).spec_layer(),
                pre.pointer_of(k).spec_value(),
                now,
            ) && L::remove_rel(mid, post_layer, k, pre.pointer_of(k).spec_layer()))
    }

    /// How the layer's shard state changes under an operation that probes
    /// `k` and then acts on what it found: the probe per
    /// [`Self::spec_probe_layer`], then nothing, one removal, one install,
    /// or a removal followed by one install.
    pub open spec fn spec_probe_then_install(pre: Self, post_layer: L, k: u64, now: Instant) -> bool {
        exists|mid: L|
            {
                &&& #[trigger] Self::spec_probe_layer(pre, mid, k, now)
                &&& {
                    ||| post_layer == mid
                    ||| exists|tnew: T, lvn: L::Value|
                        #[trigger] spec_layer_insert::<T, L>(mid, post_layer, k, tnew, now, lvn)
                    ||| exists|mid1: L|
                        #[trigger] L::remove_rel(
                            mid,
                            mid1,
                            k,
                            pre.pointer_of(k).spec_layer(),
                        ) && (post_layer == mid1 || exists|tnew: T, lvn: L::Value|
                            #[trigger] spec_layer_insert::<T, L>(
                                mid1,
                                post_layer,
                                k,
                                tnew,
                                now,
                                lvn,
                            ))
                }
            }
    }

    /// Coherence: the key index and the slot vector are inverse to each
    /// other; the layer tracks exactly the stored keys (when it tracks at
    /// all) and holds coherent per-element state for every entry.
    pub closed spec fn inv(&self) -> bool {
        &&& self.layer.inv()
        &&& forall|k: u64|
            self.table@.contains_key(k) ==> 0 <= #[trigger] self.table@[k] < self.slots@.len()
                && self.slots@[self.table@[k] as int].spec_value().spec_key() == k
        &&& forall|i: int|
            0 <= i < self.slots@.len() ==> self.table@.contains_key(
                (#[trigger] self.slots@[i]).spec_value().spec_key(),
            ) && self.table@[self.slots@[i].spec_value().spec_key()] == i
        &&& L::tracks() ==> self.layer.key_set() == self.table@.dom()
        &&& self.layer.key_set().subset_of(self.table@.dom())
        &&& forall|i: int|
            0 <= i < self.slots@.len() ==> self.layer.valid_value(
                (#[trigger] self.slots@[i]).spec_value().spec_key(),
                self.slots@[i].spec_layer(),
            )
    }

    /// A fresh shard around a fresh layer shard.
    pub fn new(capacity: usize, layer: L) -> (r: StoreShard<T, L>)
        requires
            layer.inv(),
            layer.key_set() == Set::<u64>::empty(),
        ensures
            r.inv(),
            r.contents() == Map::<u64, (u64, T)>::empty(),
            r.spec_layer() == layer,
    {
        let r = StoreShard { table: KeyTable::with_capacity(capacity), slots: Vec::new(), layer, next_id: 0 };
        proof {
            assert(r.contents() =~= Map::<u64, (u64, T)>::empty());
            assert(r.layer.key_set() =~= r.table@.dom());
        }
        r
    }

    /// The number of keys stored: the slot vector is dense, one slot per key.
    pub fn len(&self) -> (r: usize)
        requires
            self.inv(),
        ensures
            r == self.contents().dom().len(),
    {
        proof {
            self.lemma_len();
        }
        self.slots.len()
    }

    /// What the contents map files under a key is exactly the identity and
    /// value of the stored pointer.
    pub proof fn lemma_contents_pointer(&self, k: u64)
        requires
            self.contents().contains_key(k),
        ensures
            self.contents()[k] == (self.pointer_of(k).spec_id(), self.pointer_of(k).spec_value()),
    {
    }

    /// A coherent shard holds a coherent layer shard.
    pub proof fn lemma_layer_inv(&self)
        requires
            self.inv(),
        ensures
            self.spec_layer().inv(),
    {
    }

    /// The shard's key set is finite.
    pub proof fn lemma_contents_finite(&self)
        requires
            self.inv(),
        ensures
            self.contents().dom().finite(),
    {
        self.lemma_len();
    }

    /// The slot count equals the number of distinct stored keys.
    proof fn lemma_len(&self)
        requires
            self.inv(),
        ensures
            self.contents().dom().len() == self.slots@.len(),
            self.contents().dom().finite(),
    {
        let keys = Seq::new(self.slots@.len(), |i: int| self.slots@[i].spec_value().spec_key());
        assert(keys.no_duplicates()) by {
            assert forall|i: int, j: int|
                0 <= i < keys.len() && 0 <= j < keys.len() && i != j implies keys[i] != keys[j] by {
                if keys[i] == keys[j] {
                    assert(self.table@[keys[i]] == i);
                    assert(self.table@[keys[j]] == j);
                }
            }
        }
        keys.unique_seq_to_set();
        assert(self.contents().dom() =~= keys.to_set()) by {
            assert forall|k: u64| self.contents().dom().contains(k) implies keys.to_set().contains(
                k,
            ) by {
                let i = self.table@[k];
                assert(keys[i as int] == k);
            }
            assert forall|k: u64| keys.to_set().contains(k) implies self.contents().dom().contains(
                k,
            ) by {
                let i = choose|i: int| 0 <= i < keys.len() && keys[i] == k;
                assert(self.table@.contains_key(keys[i]));
            }
        }
    }

    /// Unfiles `k`: drops it from the index, the slot vector and the layer.
    /// The slot is filled by moving the last entry into it.
    fn remove_entry(&mut self, k: u64) -> (r: Pointer<T, L::Value>)
        requires
            old(self).inv(),
            old(self).contents().contains_key(k),
        ensures
            final(self).inv(),
            final(self).contents() == old(self).contents().remove(k),
            r == old(self).pointer_of(k),
            final(self).spec_layer().key_set() == old(self).spec_layer().key_set().remove(k),
            final(self).next_id == old(self).next_id,
            L::remove_rel(
                old(self).spec_layer(),
                final(self).spec_layer(),
                k,
                old(self).pointer_of(k).spec_layer(),
            ),
            // The freed slot is filled by the last entry; earlier slots stay.
            final(self).slots@ == old(self).slots@.update(
                old(self).table@[k] as int,
                old(self).slots@.last(),
            ).drop_last(),
    {
        let i = match self.table.remove(k) {
            Some(i) => i,
            None => {
                proof {
                    assert(false);
                }
                0
            },
        };
        let removed = self.slots.swap_remove(i);
        // Re-file the entry that swap_remove moved into slot i, if any.
        if i < self.slots.len() {
            let moved_key = self.slots[i].value().key();
            self.table.insert(moved_key, i);
        }
        proof {
            let pre = *old(self);
            if i < self.slots@.len() {
                let moved_key = self.slots@[i as int].spec_value().spec_key();
                assert(self.slots@[i as int] == pre.slots@[pre.slots@.len() - 1]);
                assert(moved_key != k) by {
                    assert(pre.table@[moved_key] == pre.slots@.len() - 1);
                }
            }
            assert(self.table@.dom() =~= pre.table@.dom().remove(k));
        }
        self.layer.remove(k, removed.layer_value());
        proof {
            let pre = *old(self);
            // Index/slot coherence in the new arrangement.
            assert forall|k2: u64| self.table@.contains_key(k2) implies 0 <= #[trigger] self.table@[k2]
                < self.slots@.len() && self.slots@[self.table@[k2] as int].spec_value().spec_key()
                == k2 by {
                if i < self.slots@.len() && k2 == self.slots@[i as int].spec_value().spec_key() {
                } else {
                    assert(pre.table@.contains_key(k2) && pre.table@[k2] != i);
                    assert(pre.table@[k2] != pre.slots@.len() - 1 || (i as int)
                        == pre.slots@.len() - 1) by {
                        if pre.table@[k2] == pre.slots@.len() - 1 && (i as int) < pre.slots@.len()
                            - 1 {
                            assert(k2 == pre.slots@[pre.slots@.len() - 1].spec_value().spec_key());
                        }
                    }
                }
            }
            assert(self.contents() =~= pre.contents().remove(k));
        }
        removed
    }

    /// Looks `k` up without telling the layer: no touch, no expiry check.
    /// For a layer whose read path asks for no guard at all, this is what a
    /// `get` amounts to; a concurrent front-end may serve it under a shared
    /// lock.
    pub fn peek(&self, k: u64) -> (r: Option<Pointer<T, L::Value>>)
        requires
            self.inv(),
        ensures
            !self.contents().contains_key(k) ==> r is None,
            self.contents().contains_key(k) ==> r == Some(self.pointer_of(k)),
    {
        match self.table.get(k) {
            Some(i) => Some(self.slots[i].clone()),
            None => None,
        }
    }

    /// Looks `k` up and lets the layer observe the read. `Retain` hands back
    /// a clone of the stored pointer; `Remove` (an expired entry) drops the
    /// entry and reports a miss. The layer sees a miss not at all.
    pub fn get_at(&mut self, k: u64, now: Instant) -> (r: Option<Pointer<T, L::Value>>)
        requires
            old(self).inv(),
        ensures
            final(self).inv(),
            !old(self).contents().contains_key(k) ==> r is None
                && final(self).contents() == old(self).contents(),
            old(self).contents().contains_key(k) && old(self).read_decision_of(k, now)
                == ReadResult::Retain ==> r == Some(old(self).pointer_of(k))
                && final(self).contents() == old(self).contents() && final(self).pointer_of(k)
                == old(self).pointer_of(k),
            old(self).contents().contains_key(k) && old(self).read_decision_of(k, now)
                == ReadResult::Remove ==> r is None
                && final(self).contents() == old(self).contents().remove(k),
            Self::spec_probe_layer(*old(self), final(self).spec_layer(), k, now),
    {
        let slot = self.table.get(k);
        match slot {
            None => {
                proof {
                    assert(self.contents() =~= old(self).contents());
                }
                None
            },
            Some(i) => {
                let pointer = self.slots[i].clone();
                let verdict = self.layer.read_mut(k, pointer.layer_value(), pointer.value(), now);
                proof {
                    assert(self.contents() =~= old(self).contents());
                }
                match verdict {
                    ReadResult::Retain => Some(pointer),
                    ReadResult::Remove => {
                        let ghost mid_layer = self.spec_layer();
                        let removed = self.remove_entry(k);
                        proof {
                            assert(L::read_rel(
                                old(self).spec_layer(),
                                mid_layer,
                                k,
                                old(self).pointer_of(k).spec_layer(),
                                old(self).pointer_of(k).spec_value(),
                                now,
                            ));
                        }
                        None
                    },
                }
            },
        }
    }

    /// Evicts the keys the layer names so one more element fits, returning
    /// (in ghost) which keys left.
    fn evict_victims(&mut self, now: Instant) -> (r: Ghost<Seq<u64>>)
        requires
            old(self).inv(),
        ensures
            final(self).inv(),
            r@.no_duplicates(),
            forall|i: int|
                0 <= i < r@.len() ==> old(self).contents().contains_key(#[trigger] r@[i]),
            final(self).contents() == old(self).contents().remove_keys(r@.to_set()),
            L::victims_exact() ==> r@ == old(self).spec_layer().spec_victims(now),
            exists|m0: L|
                #[trigger] L::victims_rel(old(self).spec_layer(), m0, now, r@)
                    && spec_removed_all::<T, L>(m0, final(self).spec_layer(), r@),
    {
        let victims = self.layer.victims(now);
        let ghost named_layer = self.spec_layer();
        let ghost all = victims@;
        let mut j: usize = 0;
        while j < victims.len()
            invariant
                self.inv(),
                j <= all.len(),
                victims@ == all,
                all.no_duplicates(),
                forall|i: int|
                    0 <= i < all.len() ==> old(self).contents().contains_key(#[trigger] all[i]),
                forall|i: int|
                    j <= i < all.len() ==> self.contents().contains_key(#[trigger] all[i]),
                self.contents() == old(self).contents().remove_keys(
                    all.subrange(0, j as int).to_set(),
                ),
                L::victims_rel(old(self).spec_layer(), named_layer, now, all),
                spec_removed_all::<T, L>(named_layer, self.spec_layer(), all.subrange(0, j as int)),
            decreases all.len() - j,
        {
            let k = victims[j];
            proof {
                assert(self.contents().contains_key(k));
            }
            let ghost chain_pre = self.spec_layer();
            let ghost chain_lv = self.pointer_of(k).spec_layer();
            let removed = self.remove_entry(k);
            proof {
                lemma_removed_all_extend::<T, L>(
                    named_layer,
                    chain_pre,
                    self.spec_layer(),
                    all.subrange(0, j as int),
                    k,
                    chain_lv,
                );
                assert(all.subrange(0, j as int).push(all[j as int]) =~= all.subrange(0, j + 1));
                assert(all.subrange(0, j + 1) =~= all.subrange(0, j as int).push(all[j as int]));
                assert(all.subrange(0, j + 1).to_set() =~= all.subrange(0, j as int).to_set().insert(
                    all[j as int],
                )) by {
                    let pre = all.subrange(0, j as int);
                    let post = all.subrange(0, j + 1);
                    assert forall|x: u64| post.to_set().contains(x) implies pre.to_set().insert(
                        all[j as int],
                    ).contains(x) by {
                        let q = choose|q: int| 0 <= q < post.len() && post[q] == x;
                        if q < j {
                            assert(pre[q] == x);
                        }
                    }
                    assert forall|x: u64| pre.to_set().insert(all[j as int]).contains(
                        x,
                    ) implies post.to_set().contains(x) by {
                        if x == all[j as int] {
                            assert(post[j as int] == x);
                        } else {
                            let q = choose|q: int| 0 <= q < pre.len() && pre[q] == x;
                            assert(post[q] == x);
                        }
                    }
                }
                assert(self.contents() =~= old(self).contents().remove_keys(
                    all.subrange(0, j + 1).to_set(),
                ));
                assert forall|i: int| j + 1 <= i < all.len() implies self.contents().contains_key(
                    #[trigger] all[i],
                ) by {
                    assert(all[i] != all[j as int]);
                }
            }
            j = j + 1;
        }
        proof {
            assert(all.subrange(0, all.len() as int) =~= all);
        }
        Ghost(all)
    }

    /// Files a fresh entry for `value` under its key: stamps an identity,
    /// hands the layer the key, and indexes the new slot. The key must not
    /// be present (any old entry was removed beforehand).
    fn install(&mut self, value: T, now: Instant) -> (r: Pointer<T, L::Value>)
        requires
            old(self).inv(),
            !old(self).contents().contains_key(value.spec_key()),
            old(self).contents().dom().len() < 0xFFFF_FFFF,
        ensures
            final(self).inv(),
            r.spec_value() == value,
            final(self).pointer_of(value.spec_key()) == r,
            final(self).contents() == old(self).contents().insert(
                value.spec_key(),
                (r.spec_id(), value),
            ),
            L::write_rel(
                old(self).spec_layer(),
                final(self).spec_layer(),
                value.spec_key(),
                value,
                now,
                r.spec_layer(),
            ),
    {
        proof {
            self.lemma_len();
            self.layer.lemma_key_set_finite();
            assert(self.table@.dom() =~= self.contents().dom());
            vstd::set_lib::lemma_len_subset(self.layer.key_set(), self.table@.dom());
        }
        let k = value.key();
        let lv = self.layer.write(k, &value, now);
        let id = self.next_id;
        self.next_id = id.wrapping_add(1);
        let pointer = Pointer::new(id, value, lv);
        let slot = self.slots.len();
        self.slots.push(pointer.clone());
        self.table.insert(k, slot);
        proof {
            let pre = *old(self);
            assert forall|k2: u64| self.table@.contains_key(k2) implies 0 <= #[trigger] self.table@[k2]
                < self.slots@.len() && self.slots@[self.table@[k2] as int].spec_value().spec_key()
                == k2 by {
                if k2 != k {
                    assert(pre.table@.contains_key(k2));
                    assert(self.slots@[pre.table@[k2] as int] == pre.slots@[pre.table@[k2] as int]);
                }
            }
            assert(self.table@.dom() =~= pre.table@.dom().insert(k));
            assert(self.contents() =~= pre.contents().insert(k, (id, pointer.spec_value())));
            assert(self.inv());
        }
        pointer
    }

    /// Inserts `value` under its key. An entry already there is replaced
    /// (after the layer observed the lookup as a touch); whatever victims the
    /// policy then names are evicted. Returns the pointer to the new entry.
    pub fn insert_at(&mut self, value: T, now: Instant) -> (r: Pointer<T, L::Value>)
        requires
            old(self).inv(),
            old(self).contents().dom().len() < 0xFFFF_FFFF,
        ensures
            final(self).inv(),
            r.spec_value() == value,
            final(self).pointer_of(value.spec_key()) == r,
            final(self).contents().contains_key(value.spec_key()),
            final(self).contents()[value.spec_key()] == (r.spec_id(), value),
            // Everything else either stayed exactly as it was or was evicted.
            exists|evs: Seq<u64>|
                {
                    &&& evs.no_duplicates()
                    &&& (forall|i: int|
                        0 <= i < evs.len() ==> old(self).contents().contains_key(#[trigger] evs[i])
                            && evs[i] != value.spec_key())
                    &&& final(self).contents() == old(self).contents().remove_keys(
                        evs.to_set(),
                    ).insert(value.spec_key(), (r.spec_id(), value))
                },
            // On a miss, a deterministic policy names its victims exactly,
            // and each victim was a stored key.
            !old(self).contents().contains_key(value.spec_key()) && L::victims_exact()
                ==> final(self).contents() == old(self).contents().remove_keys(
                old(self).spec_layer().spec_victims(now).to_set(),
            ).insert(value.spec_key(), (r.spec_id(), value)),
            !old(self).contents().contains_key(value.spec_key()) && L::victims_exact()
                ==> forall|q: int|
                0 <= q < old(self).spec_layer().spec_victims(now).len()
                    ==> old(self).contents().contains_key(
                    #[trigger] old(self).spec_layer().spec_victims(now)[q],
                ),
            // The layer's own evolution: on a miss one install; on a hit the
            // probe-as-touch, the removal of the old entry, then one install.
            !old(self).contents().contains_key(value.spec_key()) ==> spec_layer_insert::<T, L>(
                old(self).spec_layer(),
                final(self).spec_layer(),
                value.spec_key(),
                value,
                now,
                r.spec_layer(),
            ),
            old(self).contents().contains_key(value.spec_key()) ==> exists|mid0: L, mid1: L|
                {
                    &&& #[trigger] L::read_rel(
                        old(self).spec_layer(),
                        mid0,
                        value.spec_key(),
                        old(self).pointer_of(value.spec_key()).spec_layer(),
                        old(self).pointer_of(value.spec_key()).spec_value(),
                        now,
                    )
                    &&& #[trigger] L::remove_rel(
                        mid0,
                        mid1,
                        value.spec_key(),
                        old(self).pointer_of(value.spec_key()).spec_layer(),
                    )
                    &&& spec_layer_insert::<T, L>(
                        mid1,
                        final(self).spec_layer(),
                        value.spec_key(),
                        value,
                        now,
                        r.spec_layer(),
                    )
                },
    {
        let ghost pre = *old(self);
        let k = value.key();
        let ghost probe_layer: L = pre.spec_layer();
        match self.table.get(k) {
            Some(i) => {
                let pointer = self.slots[i].clone();
                let verdict = self.layer.read_mut(k, pointer.layer_value(), pointer.value(), now);
                proof {
                    assert(self.contents() =~= pre.contents());
                    probe_layer = self.spec_layer();
                    assert(L::read_rel(
                        pre.spec_layer(),
                        probe_layer,
                        k,
                        pre.pointer_of(k).spec_layer(),
                        pre.pointer_of(k).spec_value(),
                        now,
                    ));
                }
                let removed = self.remove_entry(k);
            },
            None => {},
        }
        let ghost after_probe = self.spec_layer();
        let ghost mid = *self;
        let evicted = self.evict_victims(now);
        proof {
            self.lemma_len();
            mid.lemma_len();
            pre.lemma_len();
            vstd::set_lib::lemma_len_subset(self.contents().dom(), mid.contents().dom());
            vstd::set_lib::lemma_len_subset(mid.contents().dom(), pre.contents().dom());
        }
        let evicted_now = evicted;
        let ghost before_install = self.spec_layer();
        let r = self.install(value, now);
        proof {
            assert(spec_layer_insert::<T, L>(
                after_probe,
                self.spec_layer(),
                value.spec_key(),
                value,
                now,
                r.spec_layer(),
            )) by {
                let m0 = choose|m0: L|
                    #[trigger] L::victims_rel(after_probe, m0, now, evicted_now@)
                        && spec_removed_all::<T, L>(m0, before_install, evicted_now@);
                assert(L::victims_rel(after_probe, m0, now, evicted_now@) && spec_removed_all::<
                    T,
                    L,
                >(m0, before_install, evicted_now@) && L::write_rel(
                    before_install,
                    self.spec_layer(),
                    value.spec_key(),
                    value,
                    now,
                    r.spec_layer(),
                ));
            }
            let k_ = value.spec_key();
            let evs = if pre.contents().contains_key(k_) {
                evicted_now@.push(k_)
            } else {
                evicted_now@
            };
            if pre.contents().contains_key(k_) {
                // The replaced key counts among the removed ones.
                assert(!evicted_now@.contains(k_)) by {
                    if evicted_now@.contains(k_) {
                        let q = choose|q: int|
                            0 <= q < evicted_now@.len() && evicted_now@[q] == k_;
                        assert(mid.contents().contains_key(k_));
                    }
                }
                assert(evs.no_duplicates()) by {
                    assert(evs.drop_last() =~= evicted_now@);
                    assert(evs.last() == k_);
                    assert forall|a: int, b: int|
                        0 <= a < evs.len() && 0 <= b < evs.len() && a != b implies evs[a]
                        != evs[b] by {
                        if a < evs.len() - 1 && b < evs.len() - 1 {
                            assert(evicted_now@[a] == evs[a] && evicted_now@[b] == evs[b]);
                        } else if a == evs.len() - 1 {
                            assert(evs[b] == evicted_now@[b]);
                            assert(evicted_now@.contains(evicted_now@[b]));
                        } else {
                            assert(evs[a] == evicted_now@[a]);
                            assert(evicted_now@.contains(evicted_now@[a]));
                        }
                    }
                }
                assert forall|i: int| 0 <= i < evs.len() implies pre.contents().contains_key(
                    #[trigger] evs[i],
                ) by {
                    if i < evs.len() - 1 {
                        assert(mid.contents().contains_key(evicted_now@[i]));
                        assert(mid.contents() == pre.contents().remove(k_));
                    }
                }
                assert(evs.to_set() =~= evicted_now@.to_set().insert(k_)) by {
                    assert forall|x: u64| evs.to_set().contains(x) implies evicted_now@.to_set()
                        .insert(k_).contains(x) by {
                        let q = choose|q: int| 0 <= q < evs.len() && evs[q] == x;
                        if q < evs.len() - 1 {
                            assert(evicted_now@[q] == x);
                        }
                    }
                    assert forall|x: u64| evicted_now@.to_set().insert(k_).contains(
                        x,
                    ) implies evs.to_set().contains(x) by {
                        if x == k_ {
                            assert(evs[evs.len() - 1] == x);
                        } else {
                            let q = choose|q: int|
                                0 <= q < evicted_now@.len() && evicted_now@[q] == x;
                            assert(evs[q] == x);
                        }
                    }
                }
                assert(self.contents() =~= pre.contents().remove_keys(evs.to_set()).insert(
                    k_,
                    (r.spec_id(), value),
                ));
                assert(exists|evs2: Seq<u64>|
                    {
                        &&& evs2.no_duplicates()
                        &&& (forall|i: int|
                            0 <= i < evs2.len() ==> pre.contents().contains_key(#[trigger] evs2[i])
                                && evs2[i] != k_)
                        &&& self.contents() == pre.contents().remove_keys(evs2.to_set()).insert(
                            k_,
                            (r.spec_id(), value),
                        )
                    }) by {
                    // The witness includes the replaced key itself only when
                    // its entry was really distinct from the new one, which
                    // insert already accounts for; drop it from the witness.
                    let evs3 = evicted_now@;
                    assert(pre.contents().remove_keys(evs3.to_set()).insert(k_, (r.spec_id(), value))
                        =~= pre.contents().remove_keys(evs.to_set()).insert(
                        k_,
                        (r.spec_id(), value),
                    ));
                    assert forall|i: int| 0 <= i < evs3.len() implies pre.contents().contains_key(
                        #[trigger] evs3[i],
                    ) && evs3[i] != k_ by {
                        assert(mid.contents().contains_key(evs3[i]));
                        assert(mid.contents() == pre.contents().remove(k_));
                    }
                }
            } else {
                assert(mid.contents() == pre.contents());
                assert(!evicted_now@.contains(k_)) by {
                    if evicted_now@.contains(k_) {
                        let q = choose|q: int|
                            0 <= q < evicted_now@.len() && evicted_now@[q] == k_;
                        assert(self.contents().contains_key(k_) || true);
                        assert(mid.contents().contains_key(k_));
                        assert(pre.contents().contains_key(k_));
                    }
                }
                assert forall|i: int| 0 <= i < evicted_now@.len() implies pre.contents()
                    .contains_key(#[trigger] evicted_now@[i]) && evicted_now@[i] != k_ by {}
            }
        }
        r
    }

    /// Probes for `k`, counting the probe as a touch and dropping the entry
    /// if the layer reports it dead, exactly like `get_at`; the result wraps
    /// `get_at`'s in an [`Entry`].
    pub fn entry_at(&mut self, k: u64, now: Instant) -> (r: crate::Entry<Pointer<T, L::Value>>)
        requires
            old(self).inv(),
        ensures
            final(self).inv(),
            !old(self).contents().contains_key(k) ==> r is Vacant && final(self).contents() == old(
                self,
            ).contents(),
            old(self).contents().contains_key(k) && old(self).read_decision_of(k, now)
                == ReadResult::Retain ==> r == crate::Entry::Occupied(old(self).pointer_of(k))
                && final(self).contents() == old(self).contents() && final(self).pointer_of(k)
                == old(self).pointer_of(k),
            old(self).contents().contains_key(k) && old(self).read_decision_of(k, now)
                == ReadResult::Remove ==> r is Vacant
                && final(self).contents() == old(self).contents().remove(k),
            Self::spec_probe_layer(*old(self), final(self).spec_layer(), k, now),
    {
        match self.get_at(k, now) {
            Some(p) => crate::Entry::Occupied(p),
            None => crate::Entry::Vacant,
        }
    }

    /// Returns the pointer already stored under `value`'s key, or inserts
    /// `value` and returns the fresh pointer. A stored entry counts as
    /// touched; a dead one is dropped and replaced by `value`.
    pub fn or_insert_at(&mut self, value: T, now: Instant) -> (r: Pointer<T, L::Value>)
        requires
            old(self).inv(),
            old(self).contents().dom().len() < 0xFFFF_FFFF,
        ensures
            final(self).inv(),
            old(self).contents().contains_key(value.spec_key()) && old(self).read_decision_of(
                value.spec_key(),
                now,
            ) == ReadResult::Retain ==> r == old(self).pointer_of(value.spec_key()) && final(self).contents() == old(self).contents() && final(self).pointer_of(value.spec_key())
                == old(self).pointer_of(value.spec_key()),
            !(old(self).contents().contains_key(value.spec_key()) && old(self).read_decision_of(
                value.spec_key(),
                now,
            ) == ReadResult::Retain) ==> r.spec_value() == value && final(self).contents().contains_key(value.spec_key()) && final(self).contents()[value.spec_key()]
                == (r.spec_id(), value) && final(self).pointer_of(value.spec_key()) == r,
            // Keys other than the probed one leave only by eviction.
            !(old(self).contents().contains_key(value.spec_key()) && old(self).read_decision_of(
                value.spec_key(),
                now,
            ) == ReadResult::Retain) ==> exists|evs: Seq<u64>|
                {
                    &&& evs.no_duplicates()
                    &&& (forall|i: int|
                        0 <= i < evs.len() ==> old(self).contents().contains_key(#[trigger] evs[i])
                            && evs[i] != value.spec_key())
                    &&& final(self).contents() == old(self).contents().remove_keys(
                        evs.to_set(),
                    ).insert(value.spec_key(), (r.spec_id(), value))
                },
            // The layer saw the probe; on a live hit nothing more, otherwise
            // one install of `value`.
            Self::spec_probe_then_install(*old(self), final(self).spec_layer(), value.spec_key(), now),
    {
        let ghost pre = *old(self);
        let k = value.key();
        match self.get_at(k, now) {
            Some(existing) => {
                proof {
                    assert(pre.contents().contains_key(k));
                    assert(Self::spec_probe_layer(pre, self.spec_layer(), k, now));
                }
                existing
            },
            None => {
                let ghost mid = *self;
                proof {
                    pre.lemma_len();
                    self.lemma_len();
                    vstd::set_lib::lemma_len_subset(
                        self.contents().dom(),
                        pre.contents().dom(),
                    );
                }
                let ghost probe_mid: L = self.spec_layer();
                let r = self.insert_at(value, now);
                proof {
                    assert(Self::spec_probe_layer(pre, probe_mid, k, now));
                    assert(spec_layer_insert::<T, L>(
                        probe_mid,
                        self.spec_layer(),
                        value.spec_key(),
                        value,
                        now,
                        r.spec_layer(),
                    ));
                    let k_ = value.spec_key();
                    let evs0 = choose|evs: Seq<u64>|
                        {
                            &&& evs.no_duplicates()
                            &&& (forall|i: int|
                                0 <= i < evs.len() ==> mid.contents().contains_key(
                                    #[trigger] evs[i],
                                ) && evs[i] != k_)
                            &&& self.contents() == mid.contents().remove_keys(evs.to_set()).insert(
                                k_,
                                (r.spec_id(), value),
                            )
                        };
                    // The probe removed at most the probed key itself, so
                    // the same witness serves from the pre-probe state.
                    assert forall|i: int| 0 <= i < evs0.len() implies pre.contents().contains_key(
                        #[trigger] evs0[i],
                    ) && evs0[i] != k_ by {
                        assert(mid.contents().contains_key(evs0[i]));
                        if pre.contents().contains_key(k_) {
                            assert(mid.contents() == pre.contents().remove(k_));
                        }
                    }
                    assert(self.contents() =~= pre.contents().remove_keys(evs0.to_set()).insert(
                        k_,
                        (r.spec_id(), value),
                    )) by {
                        if pre.contents().contains_key(k_) {
                            assert(mid.contents() == pre.contents().remove(k_));
                        }
                    }
                    assert(exists|evs: Seq<u64>|
                        {
                            &&& evs.no_duplicates()
                            &&& (forall|i: int|
                                0 <= i < evs.len() ==> pre.contents().contains_key(
                                    #[trigger] evs[i],
                                ) && evs[i] != value.spec_key())
                            &&& self.contents() == pre.contents().remove_keys(evs.to_set()).insert(
                                value.spec_key(),
                                (r.spec_id(), value),
                            )
                        }) by {
                        assert(evs0.no_duplicates());
                    }
                }
                r
            },
        }
    }

    /// Inserts `value` on a miss; on a live hit, hands `value` and the
    /// stored value to `merge`, which returns the replacement or `None` to
    /// keep the stored entry untouched.
    pub fn upsert_at<F: FnOnce(T, &T) -> Option<T>>(
        &mut self,
        value: T,
        merge: F,
        now: Instant,
    ) -> (r: Pointer<T, L::Value>)
        requires
            old(self).inv(),
            old(self).contents().dom().len() < 0xFFFF_FFFF,
            forall|t: &T| #[trigger] call_requires(merge, (value, t)),
            forall|t: &T, out: Option<T>|
                #[trigger] call_ensures(merge, (value, t), out) ==> (out matches Some(n)
                    ==> n.spec_key() == value.spec_key()),
        ensures
            final(self).inv(),
            // A miss, or a dead entry: `value` goes in as written.
            !(old(self).contents().contains_key(value.spec_key()) && old(self).read_decision_of(
                value.spec_key(),
                now,
            ) == ReadResult::Retain) ==> r.spec_value() == value && final(self).contents().contains_key(value.spec_key()) && final(self).contents()[value.spec_key()]
                == (r.spec_id(), value) && final(self).pointer_of(value.spec_key()) == r,
            // A live hit: whatever the merge returned decides.
            old(self).contents().contains_key(value.spec_key()) && old(self).read_decision_of(
                value.spec_key(),
                now,
            ) == ReadResult::Retain ==> exists|t: &T, out: Option<T>|
                {
                    &&& *t == old(self).pointer_of(value.spec_key()).spec_value()
                    &&& #[trigger] call_ensures(merge, (value, t), out)
                    &&& (out is None ==> r == old(self).pointer_of(value.spec_key()) && final(self).contents() == old(self).contents() && final(self).pointer_of(value.spec_key())
                        == old(self).pointer_of(value.spec_key()))
                    &&& (out matches Some(n) ==> r.spec_value() == n && final(self).contents().contains_key(value.spec_key()) && final(self).contents()[value.spec_key()] == (
                    r.spec_id(), n) && final(self).pointer_of(value.spec_key()) == r)
                },
            // The upsert touches no other key but by eviction: nothing new
            // appears under any other key.
            forall|k2: u64|
                #[trigger] final(self).contents().contains_key(k2) ==> old(self).contents().contains_key(
                    k2,
                ) || k2 == value.spec_key(),
            Self::spec_probe_then_install(*old(self), final(self).spec_layer(), value.spec_key(), now),
    {
        let ghost pre = *old(self);
        let k = value.key();
        match self.get_at(k, now) {
            Some(existing) => {
                let ghost mid = *self;
                let ghost probe_mid: L = self.spec_layer();
                let merged = merge(value, existing.value());
                match merged {
                    None => {
                        proof {
                            assert(Self::spec_probe_layer(pre, probe_mid, k, now));
                        }
                        existing
                    },
                    Some(replacement) => {
                        proof {
                            assert(replacement.spec_key() == k);
                        }
                        let ghost removed_mid: L = self.spec_layer();
                        let dropped = self.remove_entry(k);
                        let ghost after_remove: L = self.spec_layer();
                        let ghost mid2 = *self;
                        proof {
                            pre.lemma_len();
                            self.lemma_len();
                            vstd::set_lib::lemma_len_subset(
                                self.contents().dom(),
                                pre.contents().dom(),
                            );
                        }
                        let r = self.insert_at(replacement, now);
                        proof {
                            lemma_grows_only_by(mid2, *self, k, (r.spec_id(), replacement));
                            assert forall|k2: u64|
                                #[trigger] self.contents().contains_key(k2) implies pre.contents().contains_key(
                                k2,
                            ) || k2 == k by {
                                if k2 != k {
                                    assert(mid2.contents().contains_key(k2));
                                    assert(mid2.contents() == pre.contents().remove(k));
                                }
                            }
                            assert(Self::spec_probe_layer(pre, probe_mid, k, now));
                            assert(L::remove_rel(
                                probe_mid,
                                after_remove,
                                k,
                                pre.pointer_of(k).spec_layer(),
                            ));
                            assert(spec_layer_insert::<T, L>(
                                after_remove,
                                self.spec_layer(),
                                k,
                                replacement,
                                now,
                                r.spec_layer(),
                            ));
                        }
                        r
                    },
                }
            },
            None => {
                let ghost mid = *self;
                let ghost probe_mid: L = self.spec_layer();
                proof {
                    pre.lemma_len();
                    self.lemma_len();
                    vstd::set_lib::lemma_len_subset(self.contents().dom(), pre.contents().dom());
                }
                let r = self.insert_at(value, now);
                proof {
                    lemma_grows_only_by(mid, *self, k, (r.spec_id(), value));
                    assert(Self::spec_probe_layer(pre, probe_mid, k, now));
                    assert(spec_layer_insert::<T, L>(
                        probe_mid,
                        self.spec_layer(),
                        k,
                        value,
                        now,
                        r.spec_layer(),
                    ));
                }
                r
            },
        }
    }

    /// Returns the pointer already stored under `k`, or inserts the value
    /// `init` produces (which must carry key `k`).
    pub fn or_insert_with_at<F: FnOnce() -> T>(&mut self, k: u64, init: F, now: Instant) -> (r:
        Pointer<T, L::Value>)
        requires
            old(self).inv(),
            old(self).contents().dom().len() < 0xFFFF_FFFF,
            call_requires(init, ()),
            forall|t: T| #[trigger] call_ensures(init, (), t) ==> t.spec_key() == k,
        ensures
            final(self).inv(),
            old(self).contents().contains_key(k) && old(self).read_decision_of(k, now)
                == ReadResult::Retain ==> r == old(self).pointer_of(k) && final(self).contents()
                == old(self).contents(),
            !(old(self).contents().contains_key(k) && old(self).read_decision_of(k, now)
                == ReadResult::Retain) ==> exists|t: T|
                {
                    &&& #[trigger] call_ensures(init, (), t)
                    &&& r.spec_value() == t
                    &&& final(self).contents().contains_key(k)
                    &&& final(self).contents()[k] == (r.spec_id(), t)
                },
            forall|k2: u64|
                #[trigger] final(self).contents().contains_key(k2) ==> old(self).contents().contains_key(
                    k2,
                ) || k2 == k,
            Self::spec_probe_then_install(*old(self), final(self).spec_layer(), k, now),
    {
        let ghost pre = *old(self);
        match self.get_at(k, now) {
            Some(existing) => {
                proof {
                    assert(Self::spec_probe_layer(pre, self.spec_layer(), k, now));
                }
                existing
            },
            None => {
                let ghost mid = *self;
                let ghost probe_mid: L = self.spec_layer();
                proof {
                    pre.lemma_len();
                    self.lemma_len();
                    vstd::set_lib::lemma_len_subset(self.contents().dom(), pre.contents().dom());
                }
                let value = init();
                let r = self.insert_at(value, now);
                proof {
                    lemma_grows_only_by(mid, *self, k, (r.spec_id(), value));
                    assert(Self::spec_probe_layer(pre, probe_mid, k, now));
                    assert(spec_layer_insert::<T, L>(
                        probe_mid,
                        self.spec_layer(),
                        k,
                        value,
                        now,
                        r.spec_layer(),
                    ));
                }
                r
            },
        }
    }

    /// Returns the pointer already stored under `k`, or inserts the type's
    /// default value (which must carry key `k`).
    pub fn or_insert_default_at(&mut self, k: u64, now: Instant) -> (r: Pointer<T, L::Value>) where
        T: Default,
        requires
            old(self).inv(),
            old(self).contents().dom().len() < 0xFFFF_FFFF,
            forall|t: T| #[trigger] T::default.ensures((), t) ==> t.spec_key() == k,
        ensures
            final(self).inv(),
            old(self).contents().contains_key(k) && old(self).read_decision_of(k, now)
                == ReadResult::Retain ==> r == old(self).pointer_of(k) && final(self).contents()
                == old(self).contents(),
            !(old(self).contents().contains_key(k) && old(self).read_decision_of(k, now)
                == ReadResult::Retain) ==> r.spec_value().spec_key() == k && final(self).contents().contains_key(k) && final(self).contents()[k] == (
                r.spec_id(),
                r.spec_value(),
            ),
            forall|k2: u64|
                #[trigger] final(self).contents().contains_key(k2) ==> old(self).contents().contains_key(
                    k2,
                ) || k2 == k,
            Self::spec_probe_then_install(*old(self), final(self).spec_layer(), k, now),
    {
        let ghost pre = *old(self);
        match self.get_at(k, now) {
            Some(existing) => {
                proof {
                    assert(Self::spec_probe_layer(pre, self.spec_layer(), k, now));
                }
                existing
            },
            None => {
                let ghost mid = *self;
                let ghost probe_mid: L = self.spec_layer();
                proof {
                    pre.lemma_len();
                    self.lemma_len();
                    vstd::set_lib::lemma_len_subset(self.contents().dom(), pre.contents().dom());
                }
                let value = T::default();
                let r = self.insert_at(value, now);
                proof {
                    lemma_grows_only_by(mid, *self, k, (r.spec_id(), value));
                    assert(Self::spec_probe_layer(pre, probe_mid, k, now));
                    assert(spec_layer_insert::<T, L>(
                        probe_mid,
                        self.spec_layer(),
                        k,
                        value,
                        now,
                        r.spec_layer(),
                    ));
                }
                r
            },
        }
    }

    /// Removes the entry under `k` when `pred` approves of its value. The
    /// lookup counts as a touch; a dead entry is dropped either way and
    /// reported as a miss.
    pub fn remove_if_at<F: FnOnce(&T) -> bool>(&mut self, k: u64, pred: F, now: Instant) -> (r:
        Option<Pointer<T, L::Value>>)
        requires
            old(self).inv(),
            forall|t: &T| #[trigger] call_requires(pred, (t,)),
        ensures
            final(self).inv(),
            !old(self).contents().contains_key(k) ==> r is None && final(self).contents() == old(
                self,
            ).contents(),
            old(self).contents().contains_key(k) && old(self).read_decision_of(k, now)
                == ReadResult::Remove ==> r is None && final(self).contents() == old(
                self,
            ).contents().remove(k),
            old(self).contents().contains_key(k) && old(self).read_decision_of(k, now)
                == ReadResult::Retain ==> exists|t: &T, keep: bool|
                {
                    &&& *t == old(self).pointer_of(k).spec_value()
                    &&& #[trigger] call_ensures(pred, (t,), keep)
                    &&& (keep ==> r == Some(old(self).pointer_of(k)) && final(self).contents()
                        == old(self).contents().remove(k))
                    &&& (!keep ==> r is None && final(self).contents() == old(self).contents())
                },
            Self::spec_probe_then_install(*old(self), final(self).spec_layer(), k, now),
    {
        let ghost pre = *old(self);
        match self.get_at(k, now) {
            Some(pointer) => {
                let ghost probe_mid: L = self.spec_layer();
                if pred(pointer.value()) {
                    let removed = self.remove_entry(k);
                    proof {
                        assert(Self::spec_probe_layer(pre, probe_mid, k, now));
                        assert(L::remove_rel(
                            probe_mid,
                            self.spec_layer(),
                            k,
                            pre.pointer_of(k).spec_layer(),
                        ));
                    }
                    Some(pointer)
                } else {
                    proof {
                        assert(Self::spec_probe_layer(pre, probe_mid, k, now));
                    }
                    None
                }
            },
            None => {
                proof {
                    assert(Self::spec_probe_layer(pre, self.spec_layer(), k, now));
                }
                None
            },
        }
    }

    /// Visits every entry, letting the layer drop the dead ones, and hands
    /// back one pointer per surviving entry, with no key repeated.
    pub fn iter_at(&mut self, now: Instant) -> (r: Vec<Pointer<T, L::Value>>)
        requires
            old(self).inv(),
        ensures
            final(self).inv(),
            r@.len() == final(self).contents().dom().len(),
            forall|j: int|
                0 <= j < r@.len() ==> final(self).contents().contains_key(
                    (#[trigger] r@[j]).spec_value().spec_key(),
                ) && r@[j] == final(self).pointer_of(r@[j].spec_value().spec_key()),
            // Nothing changed but removals of dead entries.
            forall|k: u64|
                #[trigger] final(self).contents().contains_key(k) ==> old(
                    self,
                ).contents().contains_key(k) && final(self).contents()[k] == old(
                    self,
                ).contents()[k],
            // Every surviving entry is in the result.
            forall|k: u64|
                #[trigger] final(self).contents().contains_key(k) ==> exists|j: int|
                    0 <= j < r@.len() && r@[j] == final(self).pointer_of(k),
            // No key appears twice.
            forall|a: int, b: int|
                0 <= a < r@.len() && 0 <= b < r@.len() && a != b ==> (
                #[trigger] r@[a]).spec_value().spec_key() != (#[trigger] r@[b]).spec_value().spec_key(),
    {
        let ghost pre = *old(self);
        let mut out: Vec<Pointer<T, L::Value>> = Vec::new();
        let mut i: usize = 0;
        while i < self.slots.len()
            invariant
                self.inv(),
                out@.len() == i,
                i <= self.slots@.len(),
                forall|j: int| 0 <= j < i ==> out@[j] == self.slots@[j],
                forall|k: u64|
                    #[trigger] self.contents().contains_key(k) ==> pre.contents().contains_key(k)
                        && self.contents()[k] == pre.contents()[k],
            decreases self.slots@.len() - i,
        {
            let pointer = self.slots[i].clone();
            let k = pointer.value().key();
            let ghost before_visit = *self;
            let verdict = self.layer.iter_read_mut(k, pointer.layer_value(), pointer.value(), now);
            proof {
                assert(self.contents() =~= before_visit.contents());
            }
            match verdict {
                ReadResult::Retain => {
                    out.push(pointer);
                    i = i + 1;
                },
                ReadResult::Remove => {
                    proof {
                        assert(self.table@[k] == i as int);
                    }
                    let removed = self.remove_entry(k);
                    proof {
                        assert forall|j: int| 0 <= j < i implies out@[j] == self.slots@[j] by {}
                    }
                },
            }
        }
        proof {
            self.lemma_len();
            assert forall|k: u64| #[trigger] self.contents().contains_key(k) implies exists|j: int|
                0 <= j < out@.len() && out@[j] == self.pointer_of(k) by {
                let j = self.table@[k];
                assert(out@[j as int] == self.slots@[j as int]);
            }
            assert forall|a: int, b: int|
                0 <= a < out@.len() && 0 <= b < out@.len() && a != b implies (
            #[trigger] out@[a]).spec_value().spec_key() != (
            #[trigger] out@[b]).spec_value().spec_key() by {
                assert(out@[a] == self.slots@[a] && out@[b] == self.slots@[b]);
                if self.slots@[a].spec_value().spec_key() == self.slots@[b].spec_value().spec_key() {
                    assert(self.table@[self.slots@[a].spec_value().spec_key()] == a);
                    assert(self.table@[self.slots@[b].spec_value().spec_key()] == b);
                }
            }
        }
        out
    }

    /// Removes the entry stored under `k` and hands its pointer back. The
    /// lookup counts as a touch first, so an entry the layer reports dead is
    /// dropped and reported as a miss, exactly as a `get` would.
    pub fn remove_at(&mut self, k: u64, now: Instant) -> (r: Option<Pointer<T, L::Value>>)
        requires
            old(self).inv(),
        ensures
            final(self).inv(),
            !old(self).contents().contains_key(k) ==> r is None && final(self).contents() == old(
                self,
            ).contents(),
            old(self).contents().contains_key(k) && old(self).read_decision_of(k, now)
                == ReadResult::Retain ==> r == Some(old(self).pointer_of(k))
                && final(self).contents() == old(self).contents().remove(k),
            old(self).contents().contains_key(k) && old(self).read_decision_of(k, now)
                == ReadResult::Remove ==> r is None
                && final(self).contents() == old(self).contents().remove(k),
            !old(self).contents().contains_key(k) ==> final(self).spec_layer() == old(
                self,
            ).spec_layer(),
            // Either way the layer saw one read of `k` and then forgot it.
            old(self).contents().contains_key(k) ==> exists|mid: L|
                {
                    &&& #[trigger] L::read_rel(
                        old(self).spec_layer(),
                        mid,
                        k,
                        old(self).pointer_of(k).spec_layer(),
                        old(self).pointer_of(k).spec_value(),
                        now,
                    )
                    &&& L::remove_rel(
                        mid,
                        final(self).spec_layer(),
                        k,
                        old(self).pointer_of(k).spec_layer(),
                    )
                },
    {
        let ghost pre = *old(self);
        match self.get_at(k, now) {
            Some(pointer) => {
                let ghost mid_layer = self.spec_layer();
                let removed = self.remove_entry(k);
                proof {
                    if pre.contents().contains_key(k) {
                        assert(self.pointer_of(k) == pre.pointer_of(k) || true);
                        assert(L::read_rel(
                            pre.spec_layer(),
                            mid_layer,
                            k,
                            pre.pointer_of(k).spec_layer(),
                            pre.pointer_of(k).spec_value(),
                            now,
                        ));
                    }
                }
                Some(pointer)
            },
            None => None,
        }
    }
}

/// After an insert, the shard holds at most the keys it held plus the one
/// inserted: the insert equation only ever removes and then adds that key.
proof fn lemma_grows_only_by<T: Value, L: Shard<T>>(
    pre: StoreShard<T, L>,
    post: StoreShard<T, L>,
    k: u64,
    entry: (u64, T),
)
    requires
        exists|evs: Seq<u64>|
            {
                &&& evs.no_duplicates()
                &&& (forall|i: int|
                    0 <= i < evs.len() ==> pre.contents().contains_key(#[trigger] evs[i]) && evs[i]
                        != k)
                &&& post.contents() == pre.contents().remove_keys(evs.to_set()).insert(k, entry)
            },
    ensures
        forall|k2: u64|
            #[trigger] post.contents().contains_key(k2) ==> pre.contents().contains_key(k2) || k2
                == k,
{
    let evs = choose|evs: Seq<u64>|
        {
            &&& evs.no_duplicates()
            &&& (forall|i: int|
                0 <= i < evs.len() ==> pre.contents().contains_key(#[trigger] evs[i]) && evs[i]
                    != k)
            &&& post.contents() == pre.contents().remove_keys(evs.to_set()).insert(k, entry)
        };
    assert forall|k2: u64| #[trigger] post.contents().contains_key(k2) implies pre.contents().contains_key(
        k2,
    ) || k2 == k by {
        if k2 != k {
            assert(pre.contents().remove_keys(evs.to_set()).contains_key(k2));
        }
    }
}

} // verus!
