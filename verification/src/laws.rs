//! The laws the cache obeys, stated over the stores' transition predicates
//! and the policies' order models, and proved once and for all.
use vstd::prelude::*;

use crate::evict::approx::ApproximateShard;
use crate::evict::generation::{Promote, Queue};
use crate::evict::lri;
use crate::evict::touch;
use crate::expire::{ExpireAt, ExpireAtLayer};
use crate::layer::{AndThenShard, ReadLock, ReadResult, Shard};
use crate::shard::{spec_layer_insert, spec_removed_all, Pointer};
use crate::sync::SyncCache;
use crate::time::{Clock, Instant};
use crate::Value;

verus! {

/// A value just inserted is found by the immediately following read: the
/// insert never evicts the key it inserts, so as long as the policy retains
/// the entry at the read, the read returns the pointer the insert created.
pub proof fn law_insert_then_get<T: Value, L: Shard<T>, C: Clock>(
    s0: SyncCache<T, L, C>,
    s1: SyncCache<T, L, C>,
    s2: SyncCache<T, L, C>,
    value: T,
    p: Pointer<T, L::Value>,
    now1: Instant,
    now2: Instant,
    r: Option<Pointer<T, L::Value>>,
)
    requires
        SyncCache::spec_insert_post(s0, s1, value, now1, p),
        SyncCache::spec_get_post(s1, s2, value.spec_key(), now2, r),
        s1.read_decision_of(value.spec_key(), now2) == ReadResult::Retain,
    ensures
        r == Some(p),
        r matches Some(q) && q.spec_value() == value && q.spec_value().spec_key()
            == value.spec_key(),
{
}

/// After a remove that returned an entry, an immediately following read
/// misses: the key is gone until someone inserts it again.
pub proof fn law_remove_then_get<T: Value, L: Shard<T>, C: Clock>(
    s0: SyncCache<T, L, C>,
    s1: SyncCache<T, L, C>,
    s2: SyncCache<T, L, C>,
    k: u64,
    now1: Instant,
    now2: Instant,
    removed: Option<Pointer<T, L::Value>>,
    r: Option<Pointer<T, L::Value>>,
)
    requires
        SyncCache::spec_remove_post(s0, s1, k, now1, removed),
        removed is Some,
        SyncCache::spec_get_post(s1, s2, k, now2, r),
    ensures
        r is None,
        s2.contents() == s1.contents(),
{
}

/// Removing a key and inserting a value under the same key leaves the store
/// holding exactly that value, and the following read returns it.
pub proof fn law_remove_insert_get<T: Value, L: Shard<T>, C: Clock>(
    s0: SyncCache<T, L, C>,
    s1: SyncCache<T, L, C>,
    s2: SyncCache<T, L, C>,
    s3: SyncCache<T, L, C>,
    k: u64,
    value: T,
    p: Pointer<T, L::Value>,
    now1: Instant,
    now2: Instant,
    now3: Instant,
    removed: Option<Pointer<T, L::Value>>,
    r: Option<Pointer<T, L::Value>>,
)
    requires
        value.spec_key() == k,
        SyncCache::spec_remove_post(s0, s1, k, now1, removed),
        SyncCache::spec_insert_post(s1, s2, value, now2, p),
        SyncCache::spec_get_post(s2, s3, k, now3, r),
        s2.read_decision_of(k, now3) == ReadResult::Retain,
    ensures
        r == Some(p),
        r matches Some(q) && q.spec_value() == value,
{
}

/// Asking for an entry that is already stored hands out the same pointer
/// every time: any run of or-inserts on a retained key yields one identity.
pub proof fn law_or_insert_stable<T: Value, L: Shard<T>, C: Clock>(
    s0: SyncCache<T, L, C>,
    s1: SyncCache<T, L, C>,
    s2: SyncCache<T, L, C>,
    first: T,
    second: T,
    now1: Instant,
    now2: Instant,
    r1: Pointer<T, L::Value>,
    r2: Pointer<T, L::Value>,
)
    requires
        first.spec_key() == second.spec_key(),
        SyncCache::spec_or_insert_post(s0, s1, first, now1, r1),
        SyncCache::spec_or_insert_post(s1, s2, second, now2, r2),
        s1.contents().contains_key(first.spec_key()),
        s1.read_decision_of(first.spec_key(), now2) == ReadResult::Retain,
    ensures
        r2 == r1,
        s2.contents() == s1.contents(),
{
}

/// An upsert whose merge declines (returns nothing, whatever it is shown)
/// on a stored, retained key is a no-op on the store and hands back the
/// pointer already stored.
pub proof fn law_upsert_noop<T: Value, L: Shard<T>, C: Clock, F: FnOnce(T, &T) -> Option<T>>(
    s0: SyncCache<T, L, C>,
    s1: SyncCache<T, L, C>,
    value: T,
    merge: F,
    now: Instant,
    r: Pointer<T, L::Value>,
)
    requires
        SyncCache::spec_upsert_post(s0, s1, value, merge, now, r),
        s0.contents().contains_key(value.spec_key()),
        s0.read_decision_of(value.spec_key(), now) == ReadResult::Retain,
        forall|t: &T, out: Option<T>| #[trigger] call_ensures(merge, (value, t), out) ==> out
            is None,
    ensures
        s1.contents() == s0.contents(),
        r == s0.pointer_of(value.spec_key()),
{
    let (t, out): (&T, Option<T>) = choose|t: &T, out: Option<T>|
        {
            &&& *t == s0.pointer_of(value.spec_key()).spec_value()
            &&& #[trigger] call_ensures(merge, (value, t), out)
            &&& (out is None ==> r == s0.pointer_of(value.spec_key()) && s1.contents()
                == s0.contents() && s1.pointer_of(value.spec_key()) == s0.pointer_of(
                value.spec_key(),
            ))
            &&& (out matches Some(n) ==> r.spec_value() == n && s1.contents().contains_key(
                value.spec_key(),
            ) && s1.contents()[value.spec_key()] == (r.spec_id(), n) && s1.pointer_of(
                value.spec_key(),
            ) == r)
        };
    assert(out is None);
}

/// A deadline-expired entry is gone the moment a read reaches it: reading at
/// or past the deadline misses, removes the entry, and shrinks the store by
/// exactly that one key.
pub proof fn law_expire_at_get<T: Value + ExpireAt, C: Clock>(
    s0: SyncCache<T, ExpireAtLayer, C>,
    s1: SyncCache<T, ExpireAtLayer, C>,
    k: u64,
    now: Instant,
    r: Option<Pointer<T, ()>>,
)
    requires
        s0.contents().dom().finite(),
        s0.contents().contains_key(k),
        s0.contents()[k].1.spec_expire_at().nanos <= now.nanos,
        SyncCache::spec_get_post(s0, s1, k, now, r),
    ensures
        r is None,
        s1.contents() == s0.contents().remove(k),
        s1.contents().dom().len() == s0.contents().dom().len() - 1,
{
    s0.lemma_contents_pointer(k);
    assert(s0.read_decision_of(k, now) == ReadResult::Remove);
    assert(s1.contents().dom() =~= s0.contents().dom().remove(k));
}

/// Chaining two layers is commutative up to the single-eviction tie-break:
/// swapped chains track the same keys, demand the same locks, pass the same
/// verdicts, and name the same victims as a multiset (only the order in
/// which the two parts' victims are listed differs).
pub proof fn law_and_then_commutes<T, A: Shard<T>, B: Shard<T>>(
    ab: AndThenShard<A, B>,
    ba: AndThenShard<B, A>,
    k: u64,
    va: A::Value,
    vb: B::Value,
    t: T,
    now: Instant,
)
    requires
        ab.first == ba.second,
        ab.second == ba.first,
    ensures
        ab.key_set() == ba.key_set(),
        ab.read_decision(k, (va, vb), t, now) == ba.read_decision(k, (vb, va), t, now),
        ab.iter_decision(k, (va, vb), t, now) == ba.iter_decision(k, (vb, va), t, now),
        AndThenShard::<A, B>::spec_read_lock() == AndThenShard::<B, A>::spec_read_lock(),
        AndThenShard::<A, B>::spec_iter_read_lock() == AndThenShard::<B, A>::spec_iter_read_lock(),
        ab.spec_victims(now).to_multiset() == ba.spec_victims(now).to_multiset(),
{
    assert(ab.key_set() =~= ba.key_set());
    vstd::seq_lib::lemma_seq_union_to_multiset_commutative(
        ab.first.spec_victims(now),
        ab.second.spec_victims(now),
    );
}

/// Joining verdicts and lock demands does not depend on the order of the
/// parts.
pub proof fn law_or_commutes(a: ReadResult, b: ReadResult, la: ReadLock, lb: ReadLock)
    ensures
        a.spec_or(b) == b.spec_or(a),
        la.spec_or(lb) == lb.spec_or(la),
{
}

/// Inside its window, approximate touch tracking absorbs reads completely:
/// the verdict is `Retain` and (by `read_mut`'s contract) the shard, the
/// inner policy included, is left exactly as it was. Any run of reads within
/// one window therefore forwards at most the touch that opened the window.
pub proof fn law_approx_window_absorbs<T, S: Shard<T>>(
    s: ApproximateShard<S>,
    k: u64,
    v: S::Value,
    t: T,
    nows: Seq<Instant>,
)
    requires
        forall|i: int| 0 <= i < nows.len() ==> (#[trigger] nows[i]).nanos < s.last_touch(k)
            + s.spec_window().nanos,
    ensures
        forall|i: int|
            0 <= i < nows.len() ==> s.read_decision(k, v, t, #[trigger] nows[i])
                == ReadResult::Retain,
{
    assert forall|i: int| 0 <= i < nows.len() implies s.read_decision(k, v, t, #[trigger] nows[i])
        == ReadResult::Retain by {
        assert(s.absorbed(k, nows[i]));
    }
}

/// The write-order policy evicts the oldest insertion: a full shard names
/// the head of its insertion order, and nothing else, as the victim.
pub proof fn law_lri_victim_is_oldest<T>(s: lri::Shard, now: Instant)
    requires
        s.order().len() >= s.spec_capacity(),
    ensures
        crate::layer::Shard::<T>::spec_victims(&s, now) == seq![s.order()[0]],
{
}

/// The touch-order policy evicts the coldest key; touching a key moves it to
/// the tail of the order (stated by `read_mut`'s contract), so with at least
/// two keys stored, the key just touched is never the next victim.
pub proof fn law_lrt_touch_protects<T>(s: touch::Shard, touched: u64, now: Instant)
    requires
        s.order().len() >= 2,
        s.order().len() >= s.spec_capacity(),
        s.order().no_duplicates(),
        s.order().last() == touched,
    ensures
        crate::layer::Shard::<T>::spec_victims(&s, now) == seq![s.order()[0]],
        s.order()[0] != touched,
{
    assert(s.order()[0] != s.order()[s.order().len() - 1]);
}

/// The write-order book-keeping, run over a whole insertion sequence: keys
/// arrive at the tail, and once the shard is full every arrival pushes out
/// the head. `lri_run` is the order after the run, `lri_evicted` what left.
pub open spec fn lri_step(ord: Seq<u64>, cap: nat, k: u64) -> Seq<u64> {
    if ord.len() >= cap {
        ord.drop_first().push(k)
    } else {
        ord.push(k)
    }
}

pub open spec fn lri_run(cap: nat, keys: Seq<u64>) -> Seq<u64>
    decreases keys.len(),
{
    if keys.len() == 0 {
        Seq::empty()
    } else {
        lri_step(lri_run(cap, keys.drop_last()), cap, keys.last())
    }
}

pub open spec fn lri_evicted(cap: nat, keys: Seq<u64>) -> Seq<u64>
    decreases keys.len(),
{
    if keys.len() == 0 {
        Seq::empty()
    } else {
        let prior = lri_run(cap, keys.drop_last());
        if prior.len() >= cap {
            lri_evicted(cap, keys.drop_last()).push(prior.first())
        } else {
            lri_evicted(cap, keys.drop_last())
        }
    }
}

/// The order after a run is the most recent insertions, in arrival order.
pub proof fn law_lri_run_order(cap: nat, keys: Seq<u64>)
    requires
        cap >= 1,
    ensures
        lri_run(cap, keys).len() == if keys.len() <= cap {
            keys.len()
        } else {
            cap
        },
        lri_run(cap, keys) == keys.skip(keys.len() - lri_run(cap, keys).len() as int),
    decreases keys.len(),
{
    if keys.len() == 0 {
        assert(lri_run(cap, keys) =~= keys.skip(0));
    } else {
        let front = keys.drop_last();
        law_lri_run_order(cap, front);
        let prior = lri_run(cap, front);
        let run = lri_run(cap, keys);
        if prior.len() >= cap {
            assert(run =~= keys.skip(keys.len() - cap as int));
        } else {
            assert(run =~= keys.skip(keys.len() - (prior.len() + 1)));
        }
    }
}

/// Inserting `cap + n` keys into a write-order shard of capacity `cap`
/// evicts exactly the first `n` keys, in the order they were inserted.
pub proof fn law_lri_eviction_sequence(cap: nat, keys: Seq<u64>, n: nat)
    requires
        cap >= 1,
        keys.len() == cap + n,
    ensures
        lri_evicted(cap, keys) == keys.take(n as int),
    decreases n,
{
    law_lri_run_order(cap, keys.drop_last());
    if n == 0 {
        law_lri_empty_prefix(cap, keys);
        assert(lri_evicted(cap, keys) =~= keys.take(0));
    } else {
        let front = keys.drop_last();
        law_lri_eviction_sequence(cap, front, (n - 1) as nat);
        let prior = lri_run(cap, front);
        assert(prior.len() >= cap);
        assert(prior.first() == front[front.len() - cap as int]);
        assert(front.len() - cap as int == n - 1);
        assert(front[n - 1] == keys[n - 1]);
        assert(lri_evicted(cap, keys) =~= lri_evicted(cap, front).push(keys[n - 1]));
        assert(lri_evicted(cap, front) == front.take(n - 1));
        assert(front.take(n - 1) =~= keys.take(n - 1));
        assert(keys.take(n - 1).push(keys[n - 1]) =~= keys.take(n as int));
    }
}

/// While a write-order shard is filling up, nothing is evicted.
pub proof fn law_lri_empty_prefix(cap: nat, keys: Seq<u64>)
    requires
        keys.len() <= cap,
        cap >= 1,
    ensures
        lri_evicted(cap, keys) == Seq::<u64>::empty(),
        decreases keys.len(),
{
    if keys.len() > 0 {
        law_lri_run_order(cap, keys.drop_last());
        law_lri_empty_prefix(cap, keys.drop_last());
    }
}

/// The touch-order book-keeping: a touch moves the key to the tail. With a
/// full shard holding `k1 .. k_cap` in insertion order, touching `k1` and
/// then inserting a fresh key evicts `k2` -- the touched `k1` survives.
pub proof fn law_lrt_touch_then_insert(cap: nat, keys: Seq<u64>, fresh: u64)
    requires
        cap >= 2,
        keys.len() == cap,
        keys.no_duplicates(),
        !keys.contains(fresh),
    ensures
        ({
            let touched = keys.drop_first().push(keys.first());
            let after_insert = lri_step(touched, cap, fresh);
            &&& touched.first() == keys[1]
            &&& after_insert.contains(keys.first())
            &&& !after_insert.contains(keys[1])
        }),
{
    let touched = keys.drop_first().push(keys.first());
    let after_insert = lri_step(touched, cap, fresh);
    assert(after_insert =~= touched.drop_first().push(fresh));
    assert(after_insert[after_insert.len() - 2] == keys.first());
    assert(after_insert.contains(keys.first()));
    assert forall|q: int| 0 <= q < after_insert.len() implies after_insert[q] != keys[1] by {
        if q == after_insert.len() - 1 {
            assert(after_insert[q] == fresh);
            assert(keys.contains(keys[1]));
        } else if q == after_insert.len() - 2 {
            assert(after_insert[q] == keys[0]);
        } else {
            assert(after_insert[q] == keys[q + 2]);
        }
    }
}

/// S1, one contract-derived step: inserting a fresh key into a full
/// write-order store evicts exactly the oldest insertion, and the policy's
/// order afterwards is the old order less its head plus the new key.
pub proof fn law_lri_store_insert_step<T: Value, C: Clock>(
    s0: SyncCache<T, lri::Shard, C>,
    s1: SyncCache<T, lri::Shard, C>,
    value: T,
    now: Instant,
    p: Pointer<T, crate::evict::Key>,
)
    requires
        s0.inv(),
        SyncCache::spec_insert_post(s0, s1, value, now, p),
        !s0.contents().contains_key(value.spec_key()),
        s0.spec_shard_at(value.spec_key()).spec_layer().order().len() >= s0.spec_shard_at(
            value.spec_key(),
        ).spec_layer().spec_capacity(),
    ensures
        ({
            let ord = s0.spec_shard_at(value.spec_key()).spec_layer().order();
            &&& s1.contents() == s0.contents().remove(ord[0]).insert(
                value.spec_key(),
                (p.spec_id(), value),
            )
            &&& s1.spec_shard_at(value.spec_key()).spec_layer().order() == ord.drop_first().push(
                value.spec_key(),
            )
        }),
{
    let k = value.spec_key();
    let pre_l = s0.spec_shard_at(k).spec_layer();
    let post_l = s1.spec_shard_at(k).spec_layer();
    let ord = pre_l.order();
    s0.lemma_shard_inv_at(k);
    pre_l.lemma_order_distinct::<T>();
    assert(ord.len() >= 1);
    // The exact-victims clause pins the contents.
    let vs = crate::layer::Shard::<T>::spec_victims(&pre_l, now);
    assert(vs == seq![ord[0]]);
    assert(vs.to_set() =~= Set::<u64>::empty().insert(ord[0]));
    assert(s0.contents().remove_keys(vs.to_set()) =~= s0.contents().remove(ord[0]));
    // The install chain pins the order.
    let (m0, m1, vs2): (lri::Shard, lri::Shard, Seq<u64>) = choose|
        m0: lri::Shard,
        m1: lri::Shard,
        vs2: Seq<u64>,
    |
        {
            &&& #[trigger] crate::layer::Shard::<T>::victims_rel(pre_l, m0, now, vs2)
            &&& #[trigger] spec_removed_all::<T, lri::Shard>(m0, m1, vs2)
            &&& crate::layer::Shard::<T>::write_rel(m1, post_l, k, value, now, p.spec_layer())
        };
    assert(m0 == pre_l && vs2 == seq![ord[0]]);
    assert(vs2.first() == ord[0] && vs2.drop_first() =~= Seq::<u64>::empty());
    let (mid, v0): (lri::Shard, crate::evict::Key) = choose|mid: lri::Shard, v0: crate::evict::Key|
        #[trigger] crate::layer::Shard::<T>::remove_rel(m0, mid, vs2.first(), v0)
            && spec_removed_all::<T, lri::Shard>(mid, m1, vs2.drop_first());
    assert(m1 == mid);
    assert(ord.index_of(ord[0]) == 0) by {
        assert(ord.contains(ord[0]));
        let q = ord.index_of(ord[0]);
        assert(ord[q] == ord[0]);
    }
    assert(mid.order() == ord.remove(0));
    assert(ord.remove(0) =~= ord.drop_first());
    assert(post_l.order() == ord.drop_first().push(k));
}

/// S2, one contract-derived step: a retained read on a touch-order store
/// moves the key to the tail of the eviction order, so the key just read is
/// the last to be evicted.
pub proof fn law_lrt_store_get_touches<T: Value, C: Clock>(
    s0: SyncCache<T, touch::Shard, C>,
    s1: SyncCache<T, touch::Shard, C>,
    k: u64,
    now: Instant,
    r: Option<Pointer<T, crate::evict::Key>>,
)
    requires
        s0.inv(),
        SyncCache::spec_get_post(s0, s1, k, now, r),
        s0.contents().contains_key(k),
    ensures
        r == Some(s0.pointer_of(k)),
        s1.contents() == s0.contents(),
        ({
            let ord = s0.spec_shard_at(k).spec_layer().order();
            s1.spec_shard_at(k).spec_layer().order() == ord.remove(ord.index_of(k)).push(k)
        }),
{
    s0.lemma_shard_inv_at(k);
    assert(s0.read_decision_of(k, now) == ReadResult::Retain);
}

/// S4, one contract-derived step: a retained read inside the approximate
/// window leaves the whole layer shard, inner policy included, untouched.
pub proof fn law_approx_store_get_absorbed<T: Value, S: Shard<T>, C: Clock>(
    s0: SyncCache<T, ApproximateShard<S>, C>,
    s1: SyncCache<T, ApproximateShard<S>, C>,
    k: u64,
    now: Instant,
    r: Option<Pointer<T, S::Value>>,
)
    requires
        s0.inv(),
        SyncCache::spec_get_post(s0, s1, k, now, r),
        s0.contents().contains_key(k),
        s0.spec_shard_at(k).spec_layer().absorbed(k, now),
    ensures
        r == Some(s0.pointer_of(k)),
        s1.contents() == s0.contents(),
        s1.spec_shard_at(k).spec_layer() == s0.spec_shard_at(k).spec_layer(),
{
    s0.lemma_shard_inv_at(k);
    assert(s0.read_decision_of(k, now) == ReadResult::Retain);
}

/// S5 at the policy: the short-term touch whose rule fires migrates the key
/// to the long-term queue's tail, exactly once; it then no longer competes
/// with short-term churn, whose victims come from the short-term head.
pub proof fn law_generational_promotion<T: Value, P: Promote>(
    pre: Queue<P>,
    post: Queue<P>,
    k: u64,
    t: T,
    now: Instant,
) where P::Value: Copy
    requires
        pre.in_g0(k),
        pre.spec_promo().spec_step(pre.promo_of(k), now).1,
        pre.g1_order().len() < 0xFFFF_FFFF,
        crate::layer::Shard::<T>::read_rel(pre, post, k, (), t, now),
    ensures
        !post.in_g0(k),
        post.g1_order() == pre.g1_order().push(k),
        post.g1_order().last() == k,
        post.g0_order() == pre.g0_order().remove(pre.g0_order().index_of(k)),
{
}

} // verus!
