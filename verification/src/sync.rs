//! The sharded store: an array of independently-held shards, each a
//! [`StoreShard`], with keys routed by a rotate-xor of the key bits. The
//! store itself is single-threaded code with an exclusive-borrow API; a
//! concurrent front-end wraps each shard in a lock and routes the same way.
use vstd::prelude::*;

use crate::layer::{Layer, ReadResult, Shard};
use crate::shard::{spec_layer_insert, Pointer, StoreShard};
use crate::time::{Clock, DefaultClock, Instant};
use crate::{Entry, Value};

verus! {

/// The most shards a store will be built with.
pub const MAX_SHARDS: usize = 2048;

/// Whether `n` is an acceptable exact shard count.
pub open spec fn valid_shard_count(n: usize) -> bool {
    1 <= n <= MAX_SHARDS && ((n as u64) & (((n as u64) - 1) as u64)) == 0
}

/// The ceiling of `a / b`.
pub open spec fn spec_ceil_div(a: int, b: int) -> int {
    (a + b - 1) / b
}

/// Rounds a target shard count up to the least power of two at or above it,
/// capped at [`MAX_SHARDS`].
pub fn target_shards_to_exact(target: usize) -> (r: usize)
    ensures
        valid_shard_count(r),
        r >= 1,
        target <= MAX_SHARDS ==> r >= target,
        target > MAX_SHARDS ==> r == MAX_SHARDS,
        // Minimality: the next power of two down is already under target.
        r == 1 || r / 2 < target,
{
    let mut p: usize = 1;
    proof {
        assert((1u64 & 0u64) == 0u64) by (bit_vector);
    }
    while p < target && p < MAX_SHARDS
        invariant
            1 <= p <= MAX_SHARDS,
            ((p as u64) & (((p as u64) - 1) as u64)) == 0,
            p == 1 || p / 2 < target,
        decreases MAX_SHARDS - p,
    {
        proof {
            let p64 = p as u64;
            assert(1 <= p64 < 0x800 && (p64 & ((p64 - 1) as u64)) == 0 ==> (((2 * p64) as u64) & ((
            2 * p64 - 1) as u64)) == 0 && 2 * p64 <= 0x800) by (bit_vector);
        }
        p = p * 2;
    }
    p
}

/// The shard a key lives in: the key xor'd with its own 32-bit rotation,
/// masked down to the shard count.
pub open spec fn spec_shard_of(k: u64, mask: u64) -> int {
    ((k ^ ((k >> 32) | (k << 32))) & mask) as int
}

/// Masking keeps a value at or under the mask.
proof fn lemma_mask_bound(x: u64, m: u64)
    ensures
        (x & m) <= m,
{
    assert((x & m) <= m) by (bit_vector);
}

/// A builder for the sharded store: shard count and total capacity.
#[derive(Debug, Clone, Copy)]
pub struct SyncCacheBuilder {
    pub shards: usize,
    pub capacity: usize,
}

impl SyncCacheBuilder {
    /// The default configuration: sixteen shards, sixteen entries per shard.
    pub fn new() -> (r: SyncCacheBuilder)
        ensures
            valid_shard_count(r.shards),
            1 <= r.capacity <= u32::MAX,
    {
        proof {
            assert((16u64 & 15u64) == 0u64) by (bit_vector);
        }
        SyncCacheBuilder { shards: 16, capacity: 256 }
    }

    /// Rounds `shards` up to the least acceptable exact count.
    pub fn shards(self, shards: usize) -> (r: SyncCacheBuilder)
        ensures
            valid_shard_count(r.shards),
            r.capacity == self.capacity,
            shards <= MAX_SHARDS ==> r.shards >= shards,
            shards > MAX_SHARDS ==> r.shards == MAX_SHARDS,
            r.shards == 1 || r.shards / 2 < shards,
    {
        SyncCacheBuilder { shards: target_shards_to_exact(shards), capacity: self.capacity }
    }

    /// Uses exactly `shards` shards, which must be a power of two in range.
    pub fn exact_shards(self, shards: usize) -> (r: SyncCacheBuilder)
        requires
            valid_shard_count(shards),
        ensures
            r.shards == shards,
            valid_shard_count(r.shards),
            r.capacity == self.capacity,
    {
        SyncCacheBuilder { shards, capacity: self.capacity }
    }

    /// Sets the total capacity, shared out across the shards.
    pub fn capacity(self, capacity: usize) -> (r: SyncCacheBuilder)
        requires
            1 <= capacity <= u32::MAX,
        ensures
            r.capacity == capacity,
            r.shards == self.shards,
    {
        SyncCacheBuilder { shards: self.shards, capacity }
    }

    /// Builds the store around one shard of `layer` state per store shard,
    /// reading time from `clock`. Each shard gets its share of the capacity,
    /// rounded up.
    pub fn build_with_layer_and_clock<T: Value, La: Layer<T>, C: Clock>(
        self,
        layer: La,
        clock: C,
    ) -> (r: SyncCache<T, La::Shard, C>)
        requires
            valid_shard_count(self.shards),
            1 <= self.capacity <= u32::MAX,
        ensures
            r.inv(),
            r.contents() == Map::<u64, (u64, T)>::empty(),
            r.spec_shards().len() == self.shards,
            r.spec_per_shard_capacity() == spec_ceil_div(self.capacity as int, self.shards as int),
    {
        let shard_count = self.shards;
        proof {
            let c = self.capacity as u64;
            let s_ = shard_count as u64;
            assert(1 <= c <= 0xFFFF_FFFFu64 && 1 <= s_ <= 0x800u64 ==> 1 <= ((c + s_ - 1) as int)
                / (s_ as int) <= 0xFFFF_FFFF) by (nonlinear_arith);
        }
        let per_shard_u64 = ((self.capacity as u64) + (shard_count as u64) - 1) / (
        shard_count as u64);
        let per_shard = per_shard_u64 as usize;
        let mut shards: Vec<StoreShard<T, La::Shard>> = Vec::new();
        while shards.len() < shard_count
            invariant
                1 <= per_shard <= u32::MAX,
                shards@.len() <= shard_count,
                forall|i: int|
                    0 <= i < shards@.len() ==> (#[trigger] shards@[i]).inv() && shards@[i].contents()
                        =~= Map::<u64, (u64, T)>::empty(),
            decreases shard_count - shards@.len(),
        {
            let shard_layer = layer.new_shard(per_shard);
            shards.push(StoreShard::new(per_shard, shard_layer));
        }
        let r = SyncCache {
            shards,
            mask: (shard_count - 1) as u64,
            clock,
            per_shard: Ghost(per_shard),
        };
        proof {
            assert forall|k: u64| 0 <= #[trigger] spec_shard_of(k, r.mask) < r.shards@.len() by {
                lemma_mask_bound(k ^ ((k >> 32) | (k << 32)), r.mask);
            }
            assert forall|k: u64| !(#[trigger] r.contents().contains_key(k)) by {
                lemma_mask_bound(k ^ ((k >> 32) | (k << 32)), r.mask);
                assert(r.shards@[spec_shard_of(k, r.mask)].contents() =~= Map::<
                    u64,
                    (u64, T),
                >::empty());
            }
            assert(r.contents() =~= Map::<u64, (u64, T)>::empty());
            assert(r.contents().dom() =~= Set::<u64>::empty());
        }
        r
    }

    /// Builds the store on the process clock.
    pub fn build_with_layer<T: Value, La: Layer<T>>(self, layer: La) -> (r: SyncCache<
        T,
        La::Shard,
        DefaultClock,
    >)
        requires
            valid_shard_count(self.shards),
            1 <= self.capacity <= u32::MAX,
        ensures
            r.inv(),
            r.contents() == Map::<u64, (u64, T)>::empty(),
            r.spec_shards().len() == self.shards,
            r.spec_per_shard_capacity() == spec_ceil_div(self.capacity as int, self.shards as int),
    {
        self.build_with_layer_and_clock(layer, DefaultClock)
    }
}

/// The sharded store. Every key lives in the shard its rotate-xor hash
/// selects; operations borrow the store exclusively and touch exactly one
/// shard (scans touch them all in turn).
pub struct SyncCache<T: Value, L: Shard<T>, C: Clock> {
    shards: Vec<StoreShard<T, L>>,
    mask: u64,
    clock: C,
    per_shard: Ghost<usize>,
}

impl<T: Value, L: Shard<T>, C: Clock> SyncCache<T, L, C> {
    /// The shard index for a key.
    pub open spec fn spec_shard_index(&self, k: u64) -> int {
        spec_shard_of(k, self.spec_mask())
    }

    pub closed spec fn spec_mask(&self) -> u64 {
        self.mask
    }

    pub closed spec fn spec_shards(&self) -> Seq<StoreShard<T, L>> {
        self.shards@
    }

    /// The shard the key `k` lives in.
    pub closed spec fn spec_shard_at(&self, k: u64) -> StoreShard<T, L> {
        self.shards@[spec_shard_of(k, self.mask)]
    }

    /// The capacity each shard was built with: the total capacity shared
    /// out, rounded up.
    pub closed spec fn spec_per_shard_capacity(&self) -> usize {
        self.per_shard@
    }

    /// What the store holds: the union of what its shards hold.
    pub closed spec fn contents(&self) -> Map<u64, (u64, T)> {
        Map::new(
            |k: u64| self.shards@[spec_shard_of(k, self.mask)].contents().contains_key(k),
            |k: u64| self.shards@[spec_shard_of(k, self.mask)].contents()[k],
        )
    }

    /// The pointer stored for `k`.
    pub open spec fn pointer_of(&self, k: u64) -> Pointer<T, L::Value> {
        self.spec_shard_at(k).pointer_of(k)
    }

    /// The verdict a point read of `k` would get right now from the layer
    /// shard that holds it.
    pub open spec fn read_decision_of(&self, k: u64, now: Instant) -> ReadResult {
        self.spec_shard_at(k).read_decision_of(k, now)
    }

    /// Every shard is coherent, holds only keys routed to it, and the store
    /// as a whole stays within the per-shard index limit.
    pub closed spec fn inv(&self) -> bool {
        &&& 1 <= self.shards@.len() <= MAX_SHARDS
        &&& self.mask == self.shards@.len() - 1
        &&& forall|i: int| 0 <= i < self.shards@.len() ==> (#[trigger] self.shards@[i]).inv()
        &&& forall|i: int, k: u64|
            0 <= i < self.shards@.len() && (#[trigger] self.shards@[i].contents().contains_key(k))
                ==> spec_shard_of(k, self.mask) == i
        &&& self.contents().dom().len() <= 0xFFFF_FFFF
        &&& self.contents().dom().finite()
    }

    /// The union of the first `n` shards' key sets.
    pub closed spec fn prefix_dom(&self, n: int) -> Set<u64>
        decreases n,
    {
        if n <= 0 {
            Set::empty()
        } else {
            self.prefix_dom(n - 1) + self.shards@[n - 1].contents().dom()
        }
    }

    /// The sum of the first `n` shards' sizes.
    pub closed spec fn prefix_len(&self, n: int) -> nat
        decreases n,
    {
        if n <= 0 {
            0
        } else {
            self.prefix_len(n - 1) + self.shards@[n - 1].contents().dom().len()
        }
    }

    /// Membership in a prefix union means membership in one of its shards.
    proof fn lemma_prefix_dom(&self, n: int)
        requires
            0 <= n <= self.shards@.len(),
        ensures
            forall|k: u64|
                self.prefix_dom(n).contains(k) <==> exists|i: int|
                    0 <= i < n && (#[trigger] self.shards@[i].contents().contains_key(k)),
        decreases n,
    {
        if n > 0 {
            self.lemma_prefix_dom(n - 1);
            assert forall|k: u64| self.prefix_dom(n).contains(k) implies exists|i: int|
                0 <= i < n && (#[trigger] self.shards@[i].contents().contains_key(k)) by {
                if self.prefix_dom(n - 1).contains(k) {
                    let i = choose|i: int|
                        0 <= i < n - 1 && (#[trigger] self.shards@[i].contents().contains_key(k));
                    assert(self.shards@[i].contents().contains_key(k));
                } else {
                    assert(self.shards@[n - 1].contents().contains_key(k));
                }
            }
            assert forall|k: u64|
                (exists|i: int|
                    0 <= i < n && (#[trigger] self.shards@[i].contents().contains_key(
                        k,
                    ))) implies self.prefix_dom(n).contains(k) by {
                let i = choose|i: int|
                    0 <= i < n && (#[trigger] self.shards@[i].contents().contains_key(k));
                if i < n - 1 {
                    assert(self.prefix_dom(n - 1).contains(k));
                } else {
                    assert(self.shards@[n - 1].contents().dom().contains(k));
                }
            }
        }
    }

    /// Shard sizes add up: the shards hold disjoint key sets.
    proof fn lemma_prefix_len(&self, n: int)
        requires
            self.wf_shards(),
            0 <= n <= self.shards@.len(),
        ensures
            self.prefix_dom(n).finite(),
            self.prefix_dom(n).len() == self.prefix_len(n),
        decreases n,
    {
        if n > 0 {
            self.lemma_prefix_len(n - 1);
            self.lemma_prefix_dom(n - 1);
            let a = self.prefix_dom(n - 1);
            let b = self.shards@[n - 1].contents().dom();
            self.shards@[n - 1].lemma_contents_finite();
            assert(a.disjoint(b)) by {
                assert forall|k: u64| a.contains(k) implies !b.contains(k) by {
                    let i = choose|i: int|
                        0 <= i < n - 1 && (#[trigger] self.shards@[i].contents().contains_key(k));
                    assert(spec_shard_of(k, self.mask) == i);
                    if b.contains(k) {
                        assert(spec_shard_of(k, self.mask) == n - 1);
                    }
                }
            }
            vstd::set_lib::lemma_set_disjoint_lens(a, b);
        }
    }

    /// The shard-coherence part of the invariant, as its own predicate so
    /// the cardinality lemmas can ask for just that much.
    pub closed spec fn wf_shards(&self) -> bool {
        &&& 1 <= self.shards@.len() <= MAX_SHARDS
        &&& self.mask == self.shards@.len() - 1
        &&& forall|i: int| 0 <= i < self.shards@.len() ==> (#[trigger] self.shards@[i]).inv()
        &&& forall|i: int, k: u64|
            0 <= i < self.shards@.len() && (#[trigger] self.shards@[i].contents().contains_key(k))
                ==> spec_shard_of(k, self.mask) == i
    }

    /// The store's key set is the disjoint union of its shards' key sets.
    proof fn lemma_contents_dom(&self)
        requires
            self.wf_shards(),
        ensures
            self.contents().dom() =~= self.prefix_dom(self.shards@.len() as int),
            self.contents().dom().finite(),
            self.contents().dom().len() == self.prefix_len(self.shards@.len() as int),
    {
        let n = self.shards@.len() as int;
        self.lemma_prefix_dom(n);
        self.lemma_prefix_len(n);
        assert forall|k: u64| self.contents().dom().contains(k) implies self.prefix_dom(n).contains(
            k,
        ) by {
            lemma_mask_bound(k ^ ((k >> 32) | (k << 32)), self.mask);
            let i = spec_shard_of(k, self.mask);
            assert(self.shards@[i].contents().contains_key(k));
        }
        assert forall|k: u64| self.prefix_dom(n).contains(k) implies self.contents().dom().contains(
            k,
        ) by {
            let i = choose|i: int|
                0 <= i < n && (#[trigger] self.shards@[i].contents().contains_key(k));
            assert(spec_shard_of(k, self.mask) == i);
        }
        assert(self.contents().dom() =~= self.prefix_dom(n));
    }

    /// The shard a key routes to is coherent, layer included.
    pub proof fn lemma_shard_inv_at(&self, k: u64)
        requires
            self.inv(),
        ensures
            self.spec_shard_at(k).inv(),
            self.spec_shard_at(k).spec_layer().inv(),
            self.contents().contains_key(k) == self.spec_shard_at(k).contents().contains_key(k),
            self.contents().contains_key(k) ==> self.pointer_of(k) == self.spec_shard_at(
                k,
            ).pointer_of(k),
    {
        lemma_mask_bound(k ^ ((k >> 32) | (k << 32)), self.mask);
        self.spec_shard_at(k).lemma_layer_inv();
    }

    /// The store's key set is finite and within the per-shard index limit:
    /// the bound every insert keeps.
    pub proof fn lemma_contents_finite(&self)
        requires
            self.inv(),
        ensures
            self.contents().dom().finite(),
            self.contents().dom().len() <= 0xFFFF_FFFF,
    {
        self.lemma_contents_dom();
    }

    /// What the contents map files under a key is exactly the identity and
    /// value of the stored pointer.
    pub proof fn lemma_contents_pointer(&self, k: u64)
        requires
            self.contents().contains_key(k),
        ensures
            self.contents()[k] == (self.pointer_of(k).spec_id(), self.pointer_of(k).spec_value()),
    {
        self.spec_shards()[self.spec_shard_index(k)].lemma_contents_pointer(k);
    }

    /// The number of keys stored, across all shards.
    pub fn len(&self) -> (r: usize)
        requires
            self.inv(),
        ensures
            r == self.contents().dom().len(),
    {
        proof {
            self.lemma_contents_dom();
        }
        let mut total: usize = 0;
        let mut i: usize = 0;
        while i < self.shards.len()
            invariant
                self.wf_shards(),
                self.contents().dom().len() <= 0xFFFF_FFFF,
                self.contents().dom().len() == self.prefix_len(self.shards@.len() as int),
                i <= self.shards@.len(),
                total == self.prefix_len(i as int),
                total <= 0xFFFF_FFFF,
            decreases self.shards@.len() - i,
        {
            proof {
                self.lemma_prefix_len_monotone(i + 1, self.shards@.len() as int);
            }
            let shard_len = self.shards[i].len();
            total = total + shard_len;
            i = i + 1;
        }
        total
    }

    /// Prefix sums only grow.
    proof fn lemma_prefix_len_monotone(&self, a: int, b: int)
        requires
            a <= b,
        ensures
            self.prefix_len(a) <= self.prefix_len(b),
        decreases b - a,
    {
        if a < b {
            self.lemma_prefix_len_monotone(a, b - 1);
        }
    }

    /// The shard index for a key, computed as the spec says: rotate, xor,
    /// mask.
    fn shard_index(&self, k: u64) -> (i: usize)
        requires
            self.inv(),
        ensures
            i == self.spec_shard_index(k),
            i < self.spec_shards().len(),
    {
        let rotated = (k >> 32u64) | (k << 32u64);
        let h = k ^ rotated;
        proof {
            lemma_mask_bound(h, self.mask);
        }
        (h & self.mask) as usize
    }

    /// Lifts a change of one shard to the whole store: when only shard `i`
    /// changed, and it gained at most the key `k` (which routes to it), the
    /// store's contents agree with the shard's on keys routed to `i` and are
    /// untouched elsewhere.
    proof fn lemma_shard_update(pre: Self, post: Self, i: int, k: u64)
        requires
            pre.wf_shards(),
            0 <= i < pre.spec_shards().len(),
            post.spec_mask() == pre.spec_mask(),
            post.spec_shards().len() == pre.spec_shards().len(),
            forall|j: int|
                0 <= j < pre.spec_shards().len() && j != i ==> post.spec_shards()[j]
                    == pre.spec_shards()[j],
            post.spec_shards()[i].inv(),
            forall|k2: u64|
                #[trigger] post.spec_shards()[i].contents().contains_key(k2) ==> pre.spec_shards()[i].contents().contains_key(
                    k2,
                ) || (k2 == k && spec_shard_of(k2, pre.spec_mask()) == i),
        ensures
            post.wf_shards(),
            forall|k2: u64|
                spec_shard_of(k2, pre.spec_mask()) != i ==> (#[trigger] post.contents().contains_key(
                    k2,
                ) <==> pre.contents().contains_key(k2)) && (pre.contents().contains_key(k2)
                    ==> post.contents()[k2] == pre.contents()[k2]),
            forall|k2: u64|
                spec_shard_of(k2, pre.spec_mask()) == i ==> (#[trigger] post.contents().contains_key(
                    k2,
                ) <==> post.spec_shards()[i].contents().contains_key(k2)) && (
                post.contents().contains_key(k2) ==> post.contents()[k2]
                    == post.spec_shards()[i].contents()[k2] && post.pointer_of(k2)
                    == post.spec_shards()[i].pointer_of(k2)),
            forall|k2: u64|
                spec_shard_of(k2, pre.spec_mask()) == i ==> (#[trigger] pre.contents().contains_key(
                    k2,
                ) <==> pre.spec_shards()[i].contents().contains_key(k2)) && (
                pre.contents().contains_key(k2) ==> pre.contents()[k2]
                    == pre.spec_shards()[i].contents()[k2] && pre.pointer_of(k2)
                    == pre.spec_shards()[i].pointer_of(k2)),
            post.contents().dom().subset_of(pre.contents().dom().insert(k)),
    {
        assert forall|j: int, k2: u64|
            0 <= j < post.spec_shards().len() && (#[trigger] post.spec_shards()[j].contents().contains_key(
                k2,
            )) implies spec_shard_of(k2, post.spec_mask()) == j by {
            if j != i {
                assert(pre.spec_shards()[j].contents().contains_key(k2));
            } else {
                if pre.spec_shards()[i].contents().contains_key(k2) {
                } else {
                    assert(k2 == k);
                }
            }
        }
        assert forall|k2: u64|
            spec_shard_of(k2, pre.spec_mask()) != i implies (#[trigger] post.contents().contains_key(
                k2,
            ) <==> pre.contents().contains_key(k2)) && (pre.contents().contains_key(k2)
                ==> post.contents()[k2] == pre.contents()[k2]) by {
            lemma_mask_bound(k2 ^ ((k2 >> 32) | (k2 << 32)), pre.spec_mask());
            let j = spec_shard_of(k2, pre.spec_mask());
            assert(post.spec_shards()[j] == pre.spec_shards()[j]);
        }
        assert forall|k2: u64|
            spec_shard_of(k2, pre.spec_mask()) == i implies (#[trigger] post.contents().contains_key(
                k2,
            ) <==> post.spec_shards()[i].contents().contains_key(k2)) && (
            post.contents().contains_key(k2) ==> post.contents()[k2]
                == post.spec_shards()[i].contents()[k2] && post.pointer_of(k2)
                == post.spec_shards()[i].pointer_of(k2)) by {
            lemma_mask_bound(k2 ^ ((k2 >> 32) | (k2 << 32)), pre.spec_mask());
        }
        assert forall|k2: u64|
            spec_shard_of(k2, pre.spec_mask()) == i implies (#[trigger] pre.contents().contains_key(
                k2,
            ) <==> pre.spec_shards()[i].contents().contains_key(k2)) && (
            pre.contents().contains_key(k2) ==> pre.contents()[k2]
                == pre.spec_shards()[i].contents()[k2] && pre.pointer_of(k2)
                == pre.spec_shards()[i].pointer_of(k2)) by {
            lemma_mask_bound(k2 ^ ((k2 >> 32) | (k2 << 32)), pre.spec_mask());
        }
        assert forall|k2: u64| #[trigger] post.contents().dom().contains(k2) implies pre.contents().dom().insert(
            k,
        ).contains(k2) by {
            lemma_mask_bound(k2 ^ ((k2 >> 32) | (k2 << 32)), pre.spec_mask());
            if k2 != k {
                let j = spec_shard_of(k2, pre.spec_mask());
                if j == i {
                    assert(pre.spec_shards()[i].contents().contains_key(k2));
                }
            }
        }
    }

    /// How the contents change under each basic operation, so that the
    /// clock-reading entry points can state "this happened at some instant".
    pub open spec fn spec_get_post(
        pre: Self,
        post: Self,
        k: u64,
        now: Instant,
        r: Option<Pointer<T, L::Value>>,
    ) -> bool {
        &&& (!pre.contents().contains_key(k) ==> r is None && post.contents() == pre.contents())
        &&& (pre.contents().contains_key(k) && pre.read_decision_of(k, now) == ReadResult::Retain
            ==> r == Some(pre.pointer_of(k)) && post.contents() == pre.contents()
                && post.pointer_of(k) == pre.pointer_of(k))
        &&& (pre.contents().contains_key(k) && pre.read_decision_of(k, now) == ReadResult::Remove
            ==> r is None && post.contents() == pre.contents().remove(k))
        &&& StoreShard::spec_probe_layer(
            pre.spec_shard_at(k),
            post.spec_shard_at(k).spec_layer(),
            k,
            now,
        )
    }

    pub open spec fn spec_insert_post(
        pre: Self,
        post: Self,
        value: T,
        now: Instant,
        r: Pointer<T, L::Value>,
    ) -> bool {
        &&& r.spec_value() == value
        &&& post.contents().contains_key(value.spec_key())
        &&& post.contents()[value.spec_key()] == (r.spec_id(), value)
        &&& post.pointer_of(value.spec_key()) == r
        &&& exists|evs: Seq<u64>|
            {
                &&& evs.no_duplicates()
                &&& (forall|i: int|
                    0 <= i < evs.len() ==> pre.contents().contains_key(#[trigger] evs[i]) && evs[i]
                        != value.spec_key())
                &&& post.contents() == pre.contents().remove_keys(evs.to_set()).insert(
                    value.spec_key(),
                    (r.spec_id(), value),
                )
            }
        // On a miss, a deterministic policy names its victims exactly.
        &&& (!pre.contents().contains_key(value.spec_key()) && L::victims_exact()
            ==> post.contents() == pre.contents().remove_keys(
            pre.spec_shard_at(value.spec_key()).spec_layer().spec_victims(now).to_set(),
        ).insert(value.spec_key(), (r.spec_id(), value)))
        // The layer's own evolution: on a miss one install; on a hit the
        // probe-as-touch, the removal of the old entry, then one install.
        &&& (!pre.contents().contains_key(value.spec_key()) ==> spec_layer_insert::<T, L>(
            pre.spec_shard_at(value.spec_key()).spec_layer(),
            post.spec_shard_at(value.spec_key()).spec_layer(),
            value.spec_key(),
            value,
            now,
            r.spec_layer(),
        ))
        &&& (pre.contents().contains_key(value.spec_key()) ==> exists|mid0: L, mid1: L|
            {
                &&& #[trigger] L::read_rel(
                    pre.spec_shard_at(value.spec_key()).spec_layer(),
                    mid0,
                    value.spec_key(),
                    pre.pointer_of(value.spec_key()).spec_layer(),
                    pre.pointer_of(value.spec_key()).spec_value(),
                    now,
                )
                &&& #[trigger] L::remove_rel(
                    mid0,
                    mid1,
                    value.spec_key(),
                    pre.pointer_of(value.spec_key()).spec_layer(),
                )
                &&& spec_layer_insert::<T, L>(
                    mid1,
                    post.spec_shard_at(value.spec_key()).spec_layer(),
                    value.spec_key(),
                    value,
                    now,
                    r.spec_layer(),
                )
            })
    }

    pub open spec fn spec_remove_post(
        pre: Self,
        post: Self,
        k: u64,
        now: Instant,
        r: Option<Pointer<T, L::Value>>,
    ) -> bool {
        &&& (!pre.contents().contains_key(k) ==> r is None && post.contents() == pre.contents())
        &&& (pre.contents().contains_key(k) && pre.read_decision_of(k, now) == ReadResult::Retain
            ==> r == Some(pre.pointer_of(k)) && post.contents() == pre.contents().remove(k))
        &&& (pre.contents().contains_key(k) && pre.read_decision_of(k, now) == ReadResult::Remove
            ==> r is None && post.contents() == pre.contents().remove(k))
        &&& (!pre.contents().contains_key(k) ==> post.spec_shard_at(k).spec_layer()
            == pre.spec_shard_at(k).spec_layer())
        &&& (pre.contents().contains_key(k) ==> exists|mid: L|
            {
                &&& #[trigger] L::read_rel(
                    pre.spec_shard_at(k).spec_layer(),
                    mid,
                    k,
                    pre.pointer_of(k).spec_layer(),
                    pre.pointer_of(k).spec_value(),
                    now,
                )
                &&& L::remove_rel(
                    mid,
                    post.spec_shard_at(k).spec_layer(),
                    k,
                    pre.pointer_of(k).spec_layer(),
                )
            })
    }

    pub open spec fn spec_or_insert_post(
        pre: Self,
        post: Self,
        value: T,
        now: Instant,
        r: Pointer<T, L::Value>,
    ) -> bool {
        &&& (pre.contents().contains_key(value.spec_key()) && pre.read_decision_of(
            value.spec_key(),
            now,
        ) == ReadResult::Retain ==> r == pre.pointer_of(value.spec_key()) && post.contents()
            == pre.contents() && post.pointer_of(value.spec_key()) == pre.pointer_of(
            value.spec_key(),
        ))
        &&& (!(pre.contents().contains_key(value.spec_key()) && pre.read_decision_of(
            value.spec_key(),
            now,
        ) == ReadResult::Retain) ==> r.spec_value() == value && post.contents().contains_key(
            value.spec_key(),
        ) && post.contents()[value.spec_key()] == (r.spec_id(), value) && post.pointer_of(
            value.spec_key(),
        ) == r)
        // Keys other than the probed one leave only by eviction.
        &&& (!(pre.contents().contains_key(value.spec_key()) && pre.read_decision_of(
            value.spec_key(),
            now,
        ) == ReadResult::Retain) ==> exists|evs: Seq<u64>|
            {
                &&& evs.no_duplicates()
                &&& (forall|i: int|
                    0 <= i < evs.len() ==> pre.contents().contains_key(#[trigger] evs[i]) && evs[i]
                        != value.spec_key())
                &&& post.contents() == pre.contents().remove_keys(evs.to_set()).insert(
                    value.spec_key(),
                    (r.spec_id(), value),
                )
            })
        &&& StoreShard::spec_probe_then_install(
            pre.spec_shard_at(value.spec_key()),
            post.spec_shard_at(value.spec_key()).spec_layer(),
            value.spec_key(),
            now,
        )
    }

    /// Looks `k` up at the given instant; the layer observes the read.
    pub fn get_at(&mut self, k: u64, now: Instant) -> (r: Option<Pointer<T, L::Value>>)
        requires
            old(self).inv(),
        ensures
            final(self).inv(),
            Self::spec_get_post(*old(self), *final(self), k, now, r),
    {
        let ghost pre = *old(self);
        let i = self.shard_index(k);
        let shard = &mut self.shards[i];
        let r = shard.get_at(k, now);
        proof {
            Self::lemma_shard_update(pre, *self, i as int, k);
            pre.lemma_contents_dom();
            vstd::set_lib::lemma_len_subset(
                self.contents().dom(),
                pre.contents().dom().insert(k),
            );
            if !pre.contents().contains_key(k) {
                assert(self.contents() =~= pre.contents());
            } else {
                if pre.read_decision_of(k, now) == ReadResult::Retain {
                    assert(self.contents() =~= pre.contents());
                } else {
                    assert(self.contents() =~= pre.contents().remove(k));
                    vstd::set_lib::lemma_len_subset(
                        self.contents().dom(),
                        pre.contents().dom(),
                    );
                }
            }
        }
        r
    }

    /// Looks `k` up at the clock's current instant.
    pub fn get(&mut self, k: u64) -> (r: Option<Pointer<T, L::Value>>)
        requires
            old(self).inv(),
        ensures
            final(self).inv(),
            exists|now: Instant| #[trigger] Self::spec_get_post(*old(self), *final(self), k, now, r),
    {
        let now = self.clock.now();
        let r = self.get_at(k, now);
        r
    }

    /// Inserts `value` at the given instant; an entry already stored under
    /// the key is replaced, and the policy's victims are evicted.
    pub fn insert_at(&mut self, value: T, now: Instant) -> (r: Pointer<T, L::Value>)
        requires
            old(self).inv(),
            old(self).contents().dom().len() < 0xFFFF_FFFF,
        ensures
            final(self).inv(),
            Self::spec_insert_post(*old(self), *final(self), value, now, r),
    {
        let ghost pre = *old(self);
        let k = value.key();
        let i = self.shard_index(k);
        proof {
            pre.lemma_contents_dom();
            Self::lemma_shard_update(pre, pre, i as int, k);
            assert(pre.spec_shards()[i as int].contents().dom().subset_of(
                pre.contents().dom(),
            )) by {
                assert forall|k2: u64|
                    pre.spec_shards()[i as int].contents().dom().contains(
                        k2,
                    ) implies pre.contents().dom().contains(k2) by {
                    assert(pre.spec_shards()[i as int].contents().contains_key(k2));
                }
            }
            vstd::set_lib::lemma_len_subset(
                pre.spec_shards()[i as int].contents().dom(),
                pre.contents().dom(),
            );
        }
        let shard = &mut self.shards[i];
        let r = shard.insert_at(value, now);
        proof {
            Self::lemma_shard_update(pre, *self, i as int, k);
            pre.lemma_contents_dom();
            vstd::set_lib::lemma_len_subset(
                self.contents().dom(),
                pre.contents().dom().insert(k),
            );
            let sevs = choose|evs: Seq<u64>|
                {
                    &&& evs.no_duplicates()
                    &&& (forall|q: int|
                        0 <= q < evs.len() ==> pre.spec_shards()[i as int].contents().contains_key(
                            #[trigger] evs[q],
                        ) && evs[q] != k)
                    &&& self.spec_shards()[i as int].contents() == pre.spec_shards()[i as int].contents().remove_keys(
                        evs.to_set(),
                    ).insert(k, (r.spec_id(), value))
                };
            assert forall|q: int| 0 <= q < sevs.len() implies pre.contents().contains_key(
                #[trigger] sevs[q],
            ) && sevs[q] != k by {
                assert(pre.spec_shards()[i as int].contents().contains_key(sevs[q]));
            }
            assert(self.contents() =~= pre.contents().remove_keys(sevs.to_set()).insert(
                k,
                (r.spec_id(), value),
            )) by {
                assert forall|k2: u64|
                    #[trigger] self.contents().contains_key(k2)
                        == pre.contents().remove_keys(sevs.to_set()).insert(
                        k,
                        (r.spec_id(), value),
                    ).contains_key(k2) && (self.contents().contains_key(k2)
                        ==> self.contents()[k2] == pre.contents().remove_keys(
                        sevs.to_set(),
                    ).insert(k, (r.spec_id(), value))[k2]) by {
                    if spec_shard_of(k2, pre.spec_mask()) != i {
                        if sevs.to_set().contains(k2) {
                            let q = choose|q: int| 0 <= q < sevs.len() && sevs[q] == k2;
                            assert(pre.spec_shards()[i as int].contents().contains_key(k2));
                            assert(false);
                        }
                    }
                }
            }
            // The probe, removal and install clauses mirror the shard's.
            assert(pre.spec_shard_at(k) == pre.spec_shards()[i as int]);
            assert(self.spec_shard_at(k) == self.spec_shards()[i as int]);
            assert(pre.contents().contains_key(k) == pre.spec_shards()[i as int].contents(
            ).contains_key(k));
            if pre.contents().contains_key(k) {
                assert(pre.pointer_of(k) == pre.spec_shards()[i as int].pointer_of(k));
            }
            // On a miss, the exact-victims equation lifts shard by shard.
            if !pre.contents().contains_key(k) && L::victims_exact() {
                let vs = pre.spec_shards()[i as int].spec_layer().spec_victims(now);
                assert(self.spec_shards()[i as int].contents() == pre.spec_shards()[i as int].contents(
                ).remove_keys(vs.to_set()).insert(k, (r.spec_id(), value)));
                assert(self.contents() =~= pre.contents().remove_keys(vs.to_set()).insert(
                    k,
                    (r.spec_id(), value),
                )) by {
                    assert forall|k2: u64|
                        #[trigger] self.contents().contains_key(k2) == pre.contents().remove_keys(
                            vs.to_set(),
                        ).insert(k, (r.spec_id(), value)).contains_key(k2) && (
                    self.contents().contains_key(k2) ==> self.contents()[k2]
                        == pre.contents().remove_keys(vs.to_set()).insert(
                        k,
                        (r.spec_id(), value),
                    )[k2]) by {
                        if spec_shard_of(k2, pre.spec_mask()) != i {
                            if vs.to_set().contains(k2) {
                                let q = choose|q: int| 0 <= q < vs.len() && vs[q] == k2;
                                // Victims come from the shard's own stored
                                // keys, which all route to it.
                                assert(pre.spec_shards()[i as int].contents().contains_key(k2));
                                assert(false);
                            }
                        }
                    }
                }
            }
        }
        r
    }

    /// Inserts `value` at the clock's current instant.
    pub fn insert(&mut self, value: T) -> (r: Pointer<T, L::Value>)
        requires
            old(self).inv(),
            old(self).contents().dom().len() < 0xFFFF_FFFF,
        ensures
            final(self).inv(),
            exists|now: Instant|
                #[trigger] Self::spec_insert_post(*old(self), *final(self), value, now, r),
    {
        let now = self.clock.now();
        let r = self.insert_at(value, now);
        r
    }

    /// Removes the entry under `k` at the given instant; the lookup counts
    /// as a touch, and a dead entry is dropped but reported as a miss.
    pub fn remove_at(&mut self, k: u64, now: Instant) -> (r: Option<Pointer<T, L::Value>>)
        requires
            old(self).inv(),
        ensures
            final(self).inv(),
            Self::spec_remove_post(*old(self), *final(self), k, now, r),
    {
        let ghost pre = *old(self);
        let i = self.shard_index(k);
        let shard = &mut self.shards[i];
        let r = shard.remove_at(k, now);
        proof {
            Self::lemma_shard_update(pre, *self, i as int, k);
            pre.lemma_contents_dom();
            vstd::set_lib::lemma_len_subset(
                self.contents().dom(),
                pre.contents().dom().insert(k),
            );
            assert(pre.spec_shard_at(k) == pre.spec_shards()[i as int]);
            assert(self.spec_shard_at(k) == self.spec_shards()[i as int]);
            assert(pre.contents().contains_key(k) == pre.spec_shards()[i as int].contents(
            ).contains_key(k));
            if !pre.contents().contains_key(k) {
                assert(self.contents() =~= pre.contents());
            } else {
                assert(self.contents() =~= pre.contents().remove(k));
                assert(pre.pointer_of(k) == pre.spec_shards()[i as int].pointer_of(k));
            }
        }
        r
    }

    /// Removes the entry under `k` at the clock's current instant.
    pub fn remove(&mut self, k: u64) -> (r: Option<Pointer<T, L::Value>>)
        requires
            old(self).inv(),
        ensures
            final(self).inv(),
            exists|now: Instant|
                #[trigger] Self::spec_remove_post(*old(self), *final(self), k, now, r),
    {
        let now = self.clock.now();
        let r = self.remove_at(k, now);
        r
    }

    /// Returns the pointer already stored under `value`'s key, or inserts
    /// `value`, at the given instant.
    pub fn or_insert_at(&mut self, value: T, now: Instant) -> (r: Pointer<T, L::Value>)
        requires
            old(self).inv(),
            old(self).contents().dom().len() < 0xFFFF_FFFF,
        ensures
            final(self).inv(),
            Self::spec_or_insert_post(*old(self), *final(self), value, now, r),
    {
        let ghost pre = *old(self);
        let k = value.key();
        let i = self.shard_index(k);
        proof {
            pre.lemma_contents_dom();
            Self::lemma_shard_update(pre, pre, i as int, k);
            assert(pre.spec_shards()[i as int].contents().dom().subset_of(
                pre.contents().dom(),
            )) by {
                assert forall|k2: u64|
                    pre.spec_shards()[i as int].contents().dom().contains(
                        k2,
                    ) implies pre.contents().dom().contains(k2) by {
                    assert(pre.spec_shards()[i as int].contents().contains_key(k2));
                }
            }
            vstd::set_lib::lemma_len_subset(
                pre.spec_shards()[i as int].contents().dom(),
                pre.contents().dom(),
            );
        }
        let shard = &mut self.shards[i];
        let r = shard.or_insert_at(value, now);
        proof {
            Self::lemma_shard_update(pre, *self, i as int, k);
            pre.lemma_contents_dom();
            vstd::set_lib::lemma_len_subset(
                self.contents().dom(),
                pre.contents().dom().insert(k),
            );
            assert(pre.spec_shard_at(k) == pre.spec_shards()[i as int]);
            assert(self.spec_shard_at(k) == self.spec_shards()[i as int]);
            assert(pre.contents().contains_key(k) == pre.spec_shards()[i as int].contents(
            ).contains_key(k));
            if pre.contents().contains_key(k) {
                assert(pre.pointer_of(k) == pre.spec_shards()[i as int].pointer_of(k));
            }
            if pre.contents().contains_key(k) && pre.read_decision_of(k, now)
                == ReadResult::Retain {
                assert(self.contents() =~= pre.contents());
            } else {
                // Lift the shard's eviction accounting to the whole store.
                let sevs = choose|evs: Seq<u64>|
                    {
                        &&& evs.no_duplicates()
                        &&& (forall|q: int|
                            0 <= q < evs.len() ==> pre.spec_shards()[i as int].contents(
                            ).contains_key(#[trigger] evs[q]) && evs[q] != k)
                        &&& self.spec_shards()[i as int].contents() == pre.spec_shards()[i as int].contents(
                        ).remove_keys(evs.to_set()).insert(k, (r.spec_id(), value))
                    };
                assert forall|q: int| 0 <= q < sevs.len() implies pre.contents().contains_key(
                    #[trigger] sevs[q],
                ) && sevs[q] != k by {
                    assert(pre.spec_shards()[i as int].contents().contains_key(sevs[q]));
                }
                assert(self.contents() =~= pre.contents().remove_keys(sevs.to_set()).insert(
                    k,
                    (r.spec_id(), value),
                )) by {
                    assert forall|k2: u64|
                        #[trigger] self.contents().contains_key(k2) == pre.contents().remove_keys(
                            sevs.to_set(),
                        ).insert(k, (r.spec_id(), value)).contains_key(k2) && (
                    self.contents().contains_key(k2) ==> self.contents()[k2]
                        == pre.contents().remove_keys(sevs.to_set()).insert(
                        k,
                        (r.spec_id(), value),
                    )[k2]) by {
                        if spec_shard_of(k2, pre.spec_mask()) != i {
                            if sevs.to_set().contains(k2) {
                                let q = choose|q: int| 0 <= q < sevs.len() && sevs[q] == k2;
                                assert(pre.spec_shards()[i as int].contents().contains_key(k2));
                                assert(false);
                            }
                        }
                    }
                }
            }
        }
        r
    }

    /// Returns the stored pointer or inserts `value`, at the clock's
    /// current instant.
    pub fn or_insert(&mut self, value: T) -> (r: Pointer<T, L::Value>)
        requires
            old(self).inv(),
            old(self).contents().dom().len() < 0xFFFF_FFFF,
        ensures
            final(self).inv(),
            exists|now: Instant|
                #[trigger] Self::spec_or_insert_post(*old(self), *final(self), value, now, r),
    {
        let now = self.clock.now();
        let r = self.or_insert_at(value, now);
        r
    }

    /// Probes for `k` at the given instant: the probe counts as a touch and
    /// drops a dead entry, like a `get`.
    pub fn entry_at(&mut self, k: u64, now: Instant) -> (r: Entry<Pointer<T, L::Value>>)
        requires
            old(self).inv(),
        ensures
            final(self).inv(),
            Self::spec_get_post(*old(self), *final(self), k, now, r.spec_option()),
    {
        match self.get_at(k, now) {
            Some(p) => Entry::Occupied(p),
            None => Entry::Vacant,
        }
    }

    /// Probes for `k` at the clock's current instant.
    pub fn entry(&mut self, k: u64) -> (r: Entry<Pointer<T, L::Value>>)
        requires
            old(self).inv(),
        ensures
            final(self).inv(),
            exists|now: Instant|
                #[trigger] Self::spec_get_post(*old(self), *final(self), k, now, r.spec_option()),
    {
        let now = self.clock.now();
        let r = self.entry_at(k, now);
        r
    }

    /// How the contents change under an upsert.
    pub open spec fn spec_upsert_post<F: FnOnce(T, &T) -> Option<T>>(
        pre: Self,
        post: Self,
        value: T,
        merge: F,
        now: Instant,
        r: Pointer<T, L::Value>,
    ) -> bool {
        &&& (!(pre.contents().contains_key(value.spec_key()) && pre.read_decision_of(
            value.spec_key(),
            now,
        ) == ReadResult::Retain) ==> r.spec_value() == value && post.contents().contains_key(
            value.spec_key(),
        ) && post.contents()[value.spec_key()] == (r.spec_id(), value) && post.pointer_of(
            value.spec_key(),
        ) == r)
        &&& (pre.contents().contains_key(value.spec_key()) && pre.read_decision_of(
            value.spec_key(),
            now,
        ) == ReadResult::Retain ==> exists|t: &T, out: Option<T>|
            {
                &&& *t == pre.pointer_of(value.spec_key()).spec_value()
                &&& #[trigger] call_ensures(merge, (value, t), out)
                &&& (out is None ==> r == pre.pointer_of(value.spec_key()) && post.contents()
                    == pre.contents() && post.pointer_of(value.spec_key()) == pre.pointer_of(
                    value.spec_key(),
                ))
                &&& (out matches Some(n) ==> r.spec_value() == n && post.contents().contains_key(
                    value.spec_key(),
                ) && post.contents()[value.spec_key()] == (r.spec_id(), n) && post.pointer_of(
                    value.spec_key(),
                ) == r)
            })
    }

    /// How the contents change under an or-insert-with.
    pub open spec fn spec_or_insert_with_post<F: FnOnce() -> T>(
        pre: Self,
        post: Self,
        k: u64,
        init: F,
        now: Instant,
        r: Pointer<T, L::Value>,
    ) -> bool {
        &&& (pre.contents().contains_key(k) && pre.read_decision_of(k, now) == ReadResult::Retain
            ==> r == pre.pointer_of(k) && post.contents() == pre.contents())
        &&& (!(pre.contents().contains_key(k) && pre.read_decision_of(k, now)
            == ReadResult::Retain) ==> exists|t: T|
            {
                &&& #[trigger] call_ensures(init, (), t)
                &&& r.spec_value() == t
                &&& post.contents().contains_key(k)
                &&& post.contents()[k] == (r.spec_id(), t)
            })
        &&& StoreShard::spec_probe_then_install(
            pre.spec_shard_at(k),
            post.spec_shard_at(k).spec_layer(),
            k,
            now,
        )
    }

    /// How the contents change under an or-insert-default.
    pub open spec fn spec_or_insert_default_post(
        pre: Self,
        post: Self,
        k: u64,
        now: Instant,
        r: Pointer<T, L::Value>,
    ) -> bool {
        &&& (pre.contents().contains_key(k) && pre.read_decision_of(k, now) == ReadResult::Retain
            ==> r == pre.pointer_of(k) && post.contents() == pre.contents())
        &&& (!(pre.contents().contains_key(k) && pre.read_decision_of(k, now)
            == ReadResult::Retain) ==> r.spec_value().spec_key() == k
            && post.contents().contains_key(k) && post.contents()[k] == (
        r.spec_id(), r.spec_value()))
        &&& StoreShard::spec_probe_then_install(
            pre.spec_shard_at(k),
            post.spec_shard_at(k).spec_layer(),
            k,
            now,
        )
    }

    /// How the contents change under a remove-if.
    pub open spec fn spec_remove_if_post<F: FnOnce(&T) -> bool>(
        pre: Self,
        post: Self,
        k: u64,
        pred: F,
        now: Instant,
        r: Option<Pointer<T, L::Value>>,
    ) -> bool {
        &&& (!pre.contents().contains_key(k) ==> r is None && post.contents() == pre.contents())
        &&& (pre.contents().contains_key(k) && pre.read_decision_of(k, now) == ReadResult::Remove
            ==> r is None && post.contents() == pre.contents().remove(k))
        &&& (pre.contents().contains_key(k) && pre.read_decision_of(k, now) == ReadResult::Retain
            ==> exists|t: &T, keep: bool|
            {
                &&& *t == pre.pointer_of(k).spec_value()
                &&& #[trigger] call_ensures(pred, (t,), keep)
                &&& (keep ==> r == Some(pre.pointer_of(k)) && post.contents()
                    == pre.contents().remove(k))
                &&& (!keep ==> r is None && post.contents() == pre.contents())
            })
        &&& StoreShard::spec_probe_then_install(
            pre.spec_shard_at(k),
            post.spec_shard_at(k).spec_layer(),
            k,
            now,
        )
    }

    /// Inserts `value` on a miss; on a live hit, `merge` sees `value` and
    /// the stored value and returns the replacement, or `None` to keep the
    /// stored entry. All at the given instant.
    pub fn upsert_at<F: FnOnce(T, &T) -> Option<T>>(
        &mut self,
        value: T,
        merge: F,
        now: Instant,
    ) -> (r: Pointer<T, L::Value>)
        requires
            old(self).inv(),
            old(self).contents().dom().len() < 0xFFFF_FFFF,
            forall|t: &T| #[trigger] call_requires(merge, (value, t)),
            forall|t: &T, out: Option<T>|
                #[trigger] call_ensures(merge, (value, t), out) ==> (out matches Some(n)
                    ==> n.spec_key() == value.spec_key()),
        ensures
            final(self).inv(),
            Self::spec_upsert_post(*old(self), *final(self), value, merge, now, r),
    {
        let ghost pre = *old(self);
        let k = value.key();
        let i = self.shard_index(k);
        proof {
            pre.lemma_contents_dom();
            assert(pre.spec_shards()[i as int].contents().dom().subset_of(
                pre.contents().dom(),
            )) by {
                assert forall|k2: u64|
                    pre.spec_shards()[i as int].contents().dom().contains(
                        k2,
                    ) implies pre.contents().dom().contains(k2) by {
                    assert(pre.spec_shards()[i as int].contents().contains_key(k2));
                }
            }
            vstd::set_lib::lemma_len_subset(
                pre.spec_shards()[i as int].contents().dom(),
                pre.contents().dom(),
            );
        }
        let shard = &mut self.shards[i];
        let r = shard.upsert_at(value, merge, now);
        proof {
            Self::lemma_shard_update(pre, *self, i as int, k);
            pre.lemma_contents_dom();
            vstd::set_lib::lemma_len_subset(
                self.contents().dom(),
                pre.contents().dom().insert(k),
            );
            if pre.contents().contains_key(k) && pre.read_decision_of(k, now)
                == ReadResult::Retain {
                let (t, out): (&T, Option<T>) = choose|t: &T, out: Option<T>|
                    {
                        &&& *t == pre.spec_shards()[i as int].pointer_of(k).spec_value()
                        &&& #[trigger] call_ensures(merge, (value, t), out)
                        &&& (out is None ==> r == pre.spec_shards()[i as int].pointer_of(k)
                            && self.spec_shards()[i as int].contents()
                            == pre.spec_shards()[i as int].contents()
                            && self.spec_shards()[i as int].pointer_of(k)
                            == pre.spec_shards()[i as int].pointer_of(k))
                        &&& (out matches Some(n) ==> r.spec_value() == n
                            && self.spec_shards()[i as int].contents().contains_key(k)
                            && self.spec_shards()[i as int].contents()[k] == (r.spec_id(), n)
                            && self.spec_shards()[i as int].pointer_of(k) == r)
                    };
                if out is None {
                    assert(self.contents() =~= pre.contents());
                }
                assert(Self::spec_upsert_post(pre, *self, value, merge, now, r));
            }
        }
        r
    }

    /// Upserts at the clock's current instant.
    pub fn upsert<F: FnOnce(T, &T) -> Option<T>>(&mut self, value: T, merge: F) -> (r: Pointer<
        T,
        L::Value,
    >)
        requires
            old(self).inv(),
            old(self).contents().dom().len() < 0xFFFF_FFFF,
            forall|t: &T| #[trigger] call_requires(merge, (value, t)),
            forall|t: &T, out: Option<T>|
                #[trigger] call_ensures(merge, (value, t), out) ==> (out matches Some(n)
                    ==> n.spec_key() == value.spec_key()),
        ensures
            final(self).inv(),
            exists|now: Instant|
                #[trigger] Self::spec_upsert_post(*old(self), *final(self), value, merge, now, r),
    {
        let now = self.clock.now();
        let r = self.upsert_at(value, merge, now);
        r
    }

    /// Returns the stored pointer for `k`, or inserts what `init` produces
    /// (which must carry key `k`), at the given instant.
    pub fn or_insert_with_at<F: FnOnce() -> T>(&mut self, k: u64, init: F, now: Instant) -> (r:
        Pointer<T, L::Value>)
        requires
            old(self).inv(),
            old(self).contents().dom().len() < 0xFFFF_FFFF,
            call_requires(init, ()),
            forall|t: T| #[trigger] call_ensures(init, (), t) ==> t.spec_key() == k,
        ensures
            final(self).inv(),
            Self::spec_or_insert_with_post(*old(self), *final(self), k, init, now, r),
    {
        let ghost pre = *old(self);
        let i = self.shard_index(k);
        proof {
            pre.lemma_contents_dom();
            assert(pre.spec_shards()[i as int].contents().dom().subset_of(
                pre.contents().dom(),
            )) by {
                assert forall|k2: u64|
                    pre.spec_shards()[i as int].contents().dom().contains(
                        k2,
                    ) implies pre.contents().dom().contains(k2) by {
                    assert(pre.spec_shards()[i as int].contents().contains_key(k2));
                }
            }
            vstd::set_lib::lemma_len_subset(
                pre.spec_shards()[i as int].contents().dom(),
                pre.contents().dom(),
            );
        }
        let shard = &mut self.shards[i];
        let r = shard.or_insert_with_at(k, init, now);
        proof {
            Self::lemma_shard_update(pre, *self, i as int, k);
            pre.lemma_contents_dom();
            vstd::set_lib::lemma_len_subset(
                self.contents().dom(),
                pre.contents().dom().insert(k),
            );
            assert(pre.spec_shard_at(k) == pre.spec_shards()[i as int]);
            assert(self.spec_shard_at(k) == self.spec_shards()[i as int]);
            assert(pre.contents().contains_key(k) == pre.spec_shards()[i as int].contents(
            ).contains_key(k));
            if pre.contents().contains_key(k) {
                assert(pre.pointer_of(k) == pre.spec_shards()[i as int].pointer_of(k));
            }
            if pre.contents().contains_key(k) && pre.read_decision_of(k, now)
                == ReadResult::Retain {
                assert(self.contents() =~= pre.contents());
            }
        }
        r
    }

    /// Returns the stored pointer for `k`, or inserts what `init` produces,
    /// at the clock's current instant.
    pub fn or_insert_with<F: FnOnce() -> T>(&mut self, k: u64, init: F) -> (r: Pointer<
        T,
        L::Value,
    >)
        requires
            old(self).inv(),
            old(self).contents().dom().len() < 0xFFFF_FFFF,
            call_requires(init, ()),
            forall|t: T| #[trigger] call_ensures(init, (), t) ==> t.spec_key() == k,
        ensures
            final(self).inv(),
            final(self).contents().contains_key(k),
            exists|now: Instant|
                #[trigger] Self::spec_or_insert_with_post(
                    *old(self),
                    *final(self),
                    k,
                    init,
                    now,
                    r,
                ),
    {
        let now = self.clock.now();
        let r = self.or_insert_with_at(k, init, now);
        proof {
            if old(self).contents().contains_key(k) && old(self).read_decision_of(k, now)
                == ReadResult::Retain {
            }
        }
        r
    }

    /// Returns the stored pointer for `k`, or inserts the type's default
    /// value (which must carry key `k`), at the given instant.
    pub fn or_insert_default_at(&mut self, k: u64, now: Instant) -> (r: Pointer<T, L::Value>) where
        T: Default,
        requires
            old(self).inv(),
            old(self).contents().dom().len() < 0xFFFF_FFFF,
            forall|t: T| #[trigger] T::default.ensures((), t) ==> t.spec_key() == k,
        ensures
            final(self).inv(),
            final(self).contents().contains_key(k),
            Self::spec_or_insert_default_post(*old(self), *final(self), k, now, r),
    {
        let ghost pre = *old(self);
        let i = self.shard_index(k);
        proof {
            pre.lemma_contents_dom();
            assert(pre.spec_shards()[i as int].contents().dom().subset_of(
                pre.contents().dom(),
            )) by {
                assert forall|k2: u64|
                    pre.spec_shards()[i as int].contents().dom().contains(
                        k2,
                    ) implies pre.contents().dom().contains(k2) by {
                    assert(pre.spec_shards()[i as int].contents().contains_key(k2));
                }
            }
            vstd::set_lib::lemma_len_subset(
                pre.spec_shards()[i as int].contents().dom(),
                pre.contents().dom(),
            );
        }
        let shard = &mut self.shards[i];
        let r = shard.or_insert_default_at(k, now);
        proof {
            Self::lemma_shard_update(pre, *self, i as int, k);
            pre.lemma_contents_dom();
            vstd::set_lib::lemma_len_subset(
                self.contents().dom(),
                pre.contents().dom().insert(k),
            );
            assert(pre.spec_shard_at(k) == pre.spec_shards()[i as int]);
            assert(self.spec_shard_at(k) == self.spec_shards()[i as int]);
            assert(pre.contents().contains_key(k) == pre.spec_shards()[i as int].contents(
            ).contains_key(k));
            if pre.contents().contains_key(k) {
                assert(pre.pointer_of(k) == pre.spec_shards()[i as int].pointer_of(k));
            }
            if pre.contents().contains_key(k) && pre.read_decision_of(k, now)
                == ReadResult::Retain {
                assert(self.contents() =~= pre.contents());
            }
        }
        r
    }

    /// Returns the stored pointer for `k`, or inserts the default value, at
    /// the clock's current instant.
    pub fn or_insert_default(&mut self, k: u64) -> (r: Pointer<T, L::Value>) where T: Default,
        requires
            old(self).inv(),
            old(self).contents().dom().len() < 0xFFFF_FFFF,
            forall|t: T| #[trigger] T::default.ensures((), t) ==> t.spec_key() == k,
        ensures
            final(self).inv(),
            final(self).contents().contains_key(k),
            exists|now: Instant|
                #[trigger] Self::spec_or_insert_default_post(*old(self), *final(self), k, now, r),
    {
        let now = self.clock.now();
        let r = self.or_insert_default_at(k, now);
        r
    }

    /// Removes the entry under `k` when `pred` approves of its value, at the
    /// given instant.
    pub fn remove_if_at<F: FnOnce(&T) -> bool>(&mut self, k: u64, pred: F, now: Instant) -> (r:
        Option<Pointer<T, L::Value>>)
        requires
            old(self).inv(),
            forall|t: &T| #[trigger] call_requires(pred, (t,)),
        ensures
            final(self).inv(),
            Self::spec_remove_if_post(*old(self), *final(self), k, pred, now, r),
    {
        let ghost pre = *old(self);
        let i = self.shard_index(k);
        let shard = &mut self.shards[i];
        let r = shard.remove_if_at(k, pred, now);
        proof {
            Self::lemma_shard_update(pre, *self, i as int, k);
            pre.lemma_contents_dom();
            vstd::set_lib::lemma_len_subset(
                self.contents().dom(),
                pre.contents().dom().insert(k),
            );
            assert(pre.spec_shard_at(k) == pre.spec_shards()[i as int]);
            assert(self.spec_shard_at(k) == self.spec_shards()[i as int]);
            assert(pre.contents().contains_key(k) == pre.spec_shards()[i as int].contents(
            ).contains_key(k));
            if pre.contents().contains_key(k) {
                assert(pre.pointer_of(k) == pre.spec_shards()[i as int].pointer_of(k));
            }
            if !pre.contents().contains_key(k) {
                assert(self.contents() =~= pre.contents());
            } else if pre.read_decision_of(k, now) == ReadResult::Remove {
                assert(self.contents() =~= pre.contents().remove(k));
            } else {
                let (t, keep): (&T, bool) = choose|t: &T, keep: bool|
                    {
                        &&& *t == pre.spec_shards()[i as int].pointer_of(k).spec_value()
                        &&& #[trigger] call_ensures(pred, (t,), keep)
                        &&& (keep ==> r == Some(pre.spec_shards()[i as int].pointer_of(k))
                            && self.spec_shards()[i as int].contents()
                            == pre.spec_shards()[i as int].contents().remove(k))
                        &&& (!keep ==> r is None && self.spec_shards()[i as int].contents()
                            == pre.spec_shards()[i as int].contents())
                    };
                if keep {
                    assert(self.contents() =~= pre.contents().remove(k));
                } else {
                    assert(self.contents() =~= pre.contents());
                }
            }
        }
        r
    }

    /// What a scan leaves behind and hands back: only removals of dead
    /// entries happened, and the result holds exactly one pointer per
    /// surviving entry, no key repeated.
    pub open spec fn spec_iter_post(
        pre: Self,
        post: Self,
        r: Seq<Pointer<T, L::Value>>,
    ) -> bool {
        &&& (forall|k: u64|
            #[trigger] post.contents().contains_key(k) ==> pre.contents().contains_key(k)
                && post.contents()[k] == pre.contents()[k])
        &&& (forall|j: int|
            0 <= j < r.len() ==> post.contents().contains_key(
                (#[trigger] r[j]).spec_value().spec_key(),
            ) && r[j] == post.pointer_of(r[j].spec_value().spec_key()))
        &&& (forall|k: u64|
            #[trigger] post.contents().contains_key(k) ==> exists|j: int|
                0 <= j < r.len() && r[j] == post.pointer_of(k))
        &&& (forall|a: int, b: int|
            0 <= a < r.len() && 0 <= b < r.len() && a != b ==> (
            #[trigger] r[a]).spec_value().spec_key() != (#[trigger] r[b]).spec_value().spec_key())
    }

    /// Visits every entry shard by shard at the given instant, letting the
    /// layers drop dead entries, and hands back one pointer per survivor.
    pub fn iter_at(&mut self, now: Instant) -> (r: Vec<Pointer<T, L::Value>>)
        requires
            old(self).inv(),
        ensures
            final(self).inv(),
            Self::spec_iter_post(*old(self), *final(self), r@),
    {
        let ghost pre = *old(self);
        let mut out: Vec<Pointer<T, L::Value>> = Vec::new();
        let mut i: usize = 0;
        while i < self.shards.len()
            invariant
                self.wf_shards(),
                self.spec_shards().len() == pre.spec_shards().len(),
                self.spec_mask() == pre.spec_mask(),
                pre.inv(),
                i <= self.spec_shards().len(),
                forall|k: u64|
                    #[trigger] self.contents().contains_key(k) ==> pre.contents().contains_key(k)
                        && self.contents()[k] == pre.contents()[k],
                forall|j: int|
                    0 <= j < out@.len() ==> spec_shard_of(
                        (#[trigger] out@[j]).spec_value().spec_key(),
                        self.spec_mask(),
                    ) < i && self.contents().contains_key(out@[j].spec_value().spec_key())
                        && out@[j] == self.pointer_of(out@[j].spec_value().spec_key()),
                forall|k: u64|
                    spec_shard_of(k, self.spec_mask()) < i && (
                    #[trigger] self.contents().contains_key(k)) ==> exists|j: int|
                        0 <= j < out@.len() && out@[j] == self.pointer_of(k),
                forall|a: int, b: int|
                    0 <= a < out@.len() && 0 <= b < out@.len() && a != b ==> (
                    #[trigger] out@[a]).spec_value().spec_key() != (
                    #[trigger] out@[b]).spec_value().spec_key(),
            decreases self.spec_shards().len() - i,
        {
            let ghost before = *self;
            let shard = &mut self.shards[i];
            let mut chunk = shard.iter_at(now);
            proof {
                Self::lemma_shard_update(before, *self, i as int, 0);
                assert forall|j: int|
                    0 <= j < chunk@.len() implies spec_shard_of(
                    (#[trigger] chunk@[j]).spec_value().spec_key(),
                    self.spec_mask(),
                ) == i && self.contents().contains_key(chunk@[j].spec_value().spec_key())
                    && chunk@[j] == self.pointer_of(chunk@[j].spec_value().spec_key()) by {
                    let k2 = chunk@[j].spec_value().spec_key();
                    assert(self.spec_shards()[i as int].contents().contains_key(k2));
                }
            }
            let ghost out_before = out@;
            let ghost chunk_snapshot = chunk@;
            out.append(&mut chunk);
            proof {
                assert(out@ == out_before + chunk_snapshot);
                assert forall|k: u64|
                    spec_shard_of(k, self.spec_mask()) < i + 1 && (
                    #[trigger] self.contents().contains_key(k)) implies exists|j: int|
                    0 <= j < out@.len() && out@[j] == self.pointer_of(k) by {
                    if spec_shard_of(k, self.spec_mask()) < i {
                        assert(before.contents().contains_key(k));
                        let j = choose|j: int|
                            0 <= j < out_before.len() && out_before[j] == before.pointer_of(k);
                        assert(out@[j] == self.pointer_of(k));
                    } else {
                        assert(self.spec_shards()[i as int].contents().contains_key(k));
                        let j = choose|j: int|
                            0 <= j < chunk_snapshot.len() && chunk_snapshot[j]
                                == self.spec_shards()[i as int].pointer_of(k);
                        assert(out@[out_before.len() + j] == self.pointer_of(k));
                    }
                }
                assert forall|a: int, b: int|
                    0 <= a < out@.len() && 0 <= b < out@.len() && a != b implies (
                #[trigger] out@[a]).spec_value().spec_key() != (
                #[trigger] out@[b]).spec_value().spec_key() by {
                    let ka = out@[a].spec_value().spec_key();
                    let kb = out@[b].spec_value().spec_key();
                    if a < out_before.len() && b < out_before.len() {
                        assert(out@[a] == out_before[a] && out@[b] == out_before[b]);
                    } else if a >= out_before.len() && b >= out_before.len() {
                        assert(out@[a] == chunk_snapshot[a - out_before.len()]);
                        assert(out@[b] == chunk_snapshot[b - out_before.len()]);
                    } else if a < out_before.len() {
                        assert(out@[a] == out_before[a]);
                        assert(out@[b] == chunk_snapshot[b - out_before.len()]);
                        assert(spec_shard_of(ka, self.spec_mask()) < i);
                        assert(spec_shard_of(kb, self.spec_mask()) == i);
                    } else {
                        assert(out@[b] == out_before[b]);
                        assert(out@[a] == chunk_snapshot[a - out_before.len()]);
                        assert(spec_shard_of(kb, self.spec_mask()) < i);
                        assert(spec_shard_of(ka, self.spec_mask()) == i);
                    }
                }
            }
            i = i + 1;
        }
        proof {
            pre.lemma_contents_dom();
            vstd::set_lib::lemma_len_subset(self.contents().dom(), pre.contents().dom());
            assert forall|k: u64| #[trigger] self.contents().contains_key(k) implies exists|j: int|
                0 <= j < out@.len() && out@[j] == self.pointer_of(k) by {
                lemma_mask_bound(k ^ ((k >> 32) | (k << 32)), self.spec_mask());
            }
        }
        out
    }

    /// Visits every entry at the clock's current instant.
    pub fn iter(&mut self) -> (r: Vec<Pointer<T, L::Value>>)
        requires
            old(self).inv(),
        ensures
            final(self).inv(),
            Self::spec_iter_post(*old(self), *final(self), r@),
    {
        let now = self.clock.now();
        let r = self.iter_at(now);
        r
    }

    /// Removes the entry under `k` when `pred` approves, at the clock's
    /// current instant.
    pub fn remove_if<F: FnOnce(&T) -> bool>(&mut self, k: u64, pred: F) -> (r: Option<
        Pointer<T, L::Value>,
    >)
        requires
            old(self).inv(),
            forall|t: &T| #[trigger] call_requires(pred, (t,)),
        ensures
            final(self).inv(),
            exists|now: Instant|
                #[trigger] Self::spec_remove_if_post(*old(self), *final(self), k, pred, now, r),
    {
        let now = self.clock.now();
        let r = self.remove_if_at(k, pred, now);
        r
    }
}

} // verus!
