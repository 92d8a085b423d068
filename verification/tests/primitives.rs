//! The primitives under the policies: the generational list, the key
//! packing, and the time types.
use layercache::evict::bag::{Bag, Key as BagKey};
use layercache::evict::generation::{
    Promote, PromoteAfterTouchCount, PromoteTouchedAfterDuration,
};
use layercache::evict::index::{key_to_u64, u64_to_key, AtomicKey, Generation, Index, Key};
use layercache::evict::list::List;
use layercache::time::{AtomicInstant, Duration, Instant};

#[test]
fn list_push_pop_order() {
    let mut list: List<u64> = List::with_capacity(4);
    list.push_tail_with_key(10);
    list.push_tail_with_key(20);
    list.push_tail_with_key(30);
    assert_eq!(list.len(), 3);
    assert_eq!(list.pop_head(), Some(10));
    assert_eq!(list.pop_head(), Some(20));
    assert_eq!(list.pop_head(), Some(30));
    assert_eq!(list.pop_head(), None);
}

#[test]
fn list_remove_by_key() {
    let mut list: List<u64> = List::with_capacity(4);
    let a = list.push_tail_with_key(10);
    let b = list.push_tail_with_key(20);
    list.push_tail_with_key(30);
    assert_eq!(list.remove(b), Some(20));
    assert_eq!(list.len(), 2);
    // The same key is stale now.
    assert_eq!(list.remove(b), None);
    assert_eq!(list.remove(a), Some(10));
    assert_eq!(list.pop_head(), Some(30));
}

#[test]
fn list_stale_key_after_reuse() {
    let mut list: List<u64> = List::with_capacity(4);
    let a = list.push_tail_with_key(10);
    assert_eq!(list.remove(a), Some(10));
    // The slot is reused with a fresh generation; the old key stays dead.
    let b = list.push_tail_with_key(11);
    assert_eq!(list.get(a), None);
    assert_eq!(list.get(b), Some(&11));
    assert_eq!(list.remove(a), None);
    assert_eq!(list.remove(b), Some(11));
}

#[test]
fn list_move_to_tail_reorders() {
    let mut list: List<u64> = List::with_capacity(4);
    let a = list.push_tail_with_key(10);
    list.push_tail_with_key(20);
    list.push_tail_with_key(30);
    list.move_to_tail(a);
    assert_eq!(list.pop_head(), Some(20));
    assert_eq!(list.pop_head(), Some(30));
    assert_eq!(list.pop_head(), Some(10));
}

#[test]
fn list_push_pop_if_full() {
    let mut list: List<u64> = List::with_capacity(2);
    list.push_tail_with_key(10);
    let (_k, popped) = list.push_tail_with_key_and_pop_if_full(20);
    assert_eq!(popped, None);
    let (_k, popped) = list.push_tail_with_key_and_pop_if_full(30);
    assert_eq!(popped, Some(10));
    assert_eq!(list.len(), 2);
}

#[test]
fn list_peek_and_drain() {
    let mut list: List<u64> = List::with_capacity(4);
    assert_eq!(list.peek_head(), None);
    list.push_tail_with_key(10);
    list.push_tail_with_key(20);
    assert_eq!(list.peek_head(), Some(&10));
    assert_eq!(list.drain(), vec![10, 20]);
    assert_eq!(list.len(), 0);
    assert_eq!(list.capacity(), 4);
}

#[test]
fn key_packing_round_trips() {
    let key = Key { index: Index(7), gen: Generation(9) };
    let packed = key_to_u64(key);
    let back = u64_to_key(packed);
    assert_eq!(back.index.0, 7);
    assert_eq!(back.gen.0, 9);
}

#[test]
fn generation_increments_and_wraps() {
    let g = Generation::initial();
    assert_eq!(g.0, 1);
    assert_eq!(g.increment().0, 2);
    let top = Generation(u32::MAX);
    assert_eq!(top.increment().0, 1);
    let mut g = Generation(5);
    g.increment_mut();
    assert_eq!(g.0, 6);
}

#[test]
fn atomic_key_stores_and_loads() {
    let key = Key { index: Index(3), gen: Generation(4) };
    let mut cell = AtomicKey::new(key);
    assert_eq!(cell.load().index.0, 3);
    assert_eq!(cell.get().gen.0, 4);
    cell.store(Key { index: Index(8), gen: Generation(2) });
    assert_eq!(cell.load().index.0, 8);
    assert_eq!(cell.load().gen.0, 2);
}

#[test]
fn instants_and_durations() {
    let a = Instant::new(100);
    let b = Instant::new(40);
    assert_eq!(a.checked_duration_since(b), Some(Duration::from_nanos(60)));
    assert_eq!(b.checked_duration_since(a), None);
    assert_eq!(b.saturating_duration_since(a).nanos, 0);
    assert_eq!(b.saturating_add(Duration::from_nanos(5)).nanos, 45);
    assert_eq!(Instant::new(u64::MAX).saturating_add(Duration::from_nanos(1)).nanos, u64::MAX);
    assert!(b.is_at_or_before(a));
    assert!(Duration::from_millis(1).is_at_least(Duration::from_nanos(999)));
}

#[test]
fn instant_offsets() {
    let zero = Instant::new(50);
    assert_eq!(layercache::time::instant_to_offset(Instant::new(80), zero), 30);
    assert_eq!(layercache::time::instant_to_offset(Instant::new(20), zero), 0);
    assert_eq!(layercache::time::offset_to_instant(30, zero).nanos, 80);
}

#[test]
fn atomic_instant_cell() {
    let mut cell = AtomicInstant::new(Instant::new(5));
    assert_eq!(cell.load().nanos, 5);
    cell.store(Instant::new(9));
    assert_eq!(cell.load().nanos, 9);
    let old = cell.swap(Instant::new(11));
    assert_eq!(old.nanos, 9);
    assert_eq!(cell.load().nanos, 11);
}

#[test]
fn bag_insert_remove_pop() {
    let mut bag: Bag<u64> = Bag::with_capacity(4);
    bag.insert_with_key(BagKey(1), 10);
    bag.insert_with_key(BagKey(2), 20);
    bag.insert_with_key(BagKey(3), 30);
    assert_eq!(bag.len(), 3);
    assert_eq!(bag.get(BagKey(2)), Some(&20));
    assert_eq!(bag.remove_by_key(BagKey(2)), Some(20));
    assert_eq!(bag.remove_by_key(BagKey(2)), None);
    assert_eq!(bag.len(), 2);
    // After the swap-remove, both survivors are still reachable.
    assert_eq!(bag.get(BagKey(1)), Some(&10));
    assert_eq!(bag.get(BagKey(3)), Some(&30));
    let (h, v) = bag.pop(0);
    assert!(h == 1 || h == 3);
    assert!(v == 10 || v == 30);
    assert_eq!(bag.len(), 1);
}

#[test]
fn promote_after_touch_count() {
    let rule = PromoteAfterTouchCount::new(3);
    let now = Instant::new(0);
    let mut state = rule.new_value(now);
    assert_eq!(state, 3);
    assert!(!rule.try_touch_promote(&mut state, now));
    assert!(!rule.try_touch_promote(&mut state, now));
    // The third touch fires.
    assert!(rule.try_touch_promote(&mut state, now));
}

#[test]
fn promote_after_duration() {
    let rule = PromoteTouchedAfterDuration::new(Duration::from_nanos(10));
    let mut state = rule.new_value(Instant::new(5));
    assert_eq!(state.nanos, 15);
    assert!(!rule.try_touch_promote(&mut state, Instant::new(14)));
    assert!(rule.try_touch_promote(&mut state, Instant::new(15)));
}

#[test]
fn list_prefix_reads_head() {
    let mut list: List<u64> = List::with_capacity(4);
    list.push_tail_with_key(10);
    list.push_tail_with_key(20);
    list.push_tail_with_key(30);
    assert_eq!(list.prefix(2), vec![10, 20]);
    assert_eq!(list.prefix(9), vec![10, 20, 30]);
    assert_eq!(list.len(), 3);
}
