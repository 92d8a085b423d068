//! End-to-end scenarios through the stores: eviction order, touch order,
//! expiry, the approximate touch window, and the entry-style operations.
use layercache::builder::BuildCache;
use layercache::evict::approx::EvictApproximate;
use layercache::evict::lri::EvictLeastRecentlyInserted;
use layercache::evict::touch::EvictLeastRecentlyTouched;
use layercache::expire::{ExpireAfterReadLayer, ExpireAfterWriteLayer, ExpireAtLayer, ExpireLayer};
use layercache::layer::LayerNone;
use layercache::local::LocalCacheBuilder;
use layercache::map::{ExpiringEntry, FlaggedEntry, MapCache, MapEntry};
use layercache::sync::{target_shards_to_exact, SyncCacheBuilder};
use layercache::time::{Duration, Instant};

fn at(nanos: u64) -> Instant {
    Instant::new(nanos)
}

#[test]
fn lri_capacity_evicts_oldest() {
    // Insert four values into a three-entry single-shard store: the first
    // insertion is evicted, the other three survive.
    let mut cache = SyncCacheBuilder::new()
        .exact_shards(1)
        .capacity(3)
        .build_with_layer::<MapEntry<u64>, _>(EvictLeastRecentlyInserted);
    cache.insert(MapEntry::new(1, 10));
    cache.insert(MapEntry::new(2, 20));
    cache.insert(MapEntry::new(3, 30));
    cache.insert(MapEntry::new(4, 40));
    assert!(cache.get(1).is_none());
    assert_eq!(cache.get(2).unwrap().value().value, 20);
    assert_eq!(cache.get(3).unwrap().value().value, 30);
    assert_eq!(cache.get(4).unwrap().value().value, 40);
    assert_eq!(cache.len(), 3);
}

#[test]
fn lrt_touch_protects_touched_key() {
    // With touch-order eviction, reading the oldest key protects it: the
    // next insert evicts the key read longest ago instead.
    let mut cache = SyncCacheBuilder::new()
        .exact_shards(1)
        .capacity(3)
        .build_with_layer::<MapEntry<u64>, _>(EvictLeastRecentlyTouched);
    cache.insert(MapEntry::new(1, 10));
    cache.insert(MapEntry::new(2, 20));
    cache.insert(MapEntry::new(3, 30));
    assert!(cache.get(1).is_some());
    cache.insert(MapEntry::new(4, 40));
    assert_eq!(cache.get(1).unwrap().value().value, 10);
    assert!(cache.get(2).is_none());
    assert_eq!(cache.get(3).unwrap().value().value, 30);
    assert_eq!(cache.get(4).unwrap().value().value, 40);
}

#[test]
fn expire_at_deadline() {
    // An entry with deadline 10 is served before the deadline and gone, with
    // the store shrunk, at and after it.
    let mut cache = SyncCacheBuilder::new()
        .exact_shards(1)
        .capacity(3)
        .build_with_layer::<ExpiringEntry<u64>, _>(ExpireAtLayer::new());
    cache.insert_at(ExpiringEntry::new(1, at(10), 111), at(0));
    let hit = cache.get_at(1, at(5));
    assert_eq!(hit.unwrap().value().value, 111);
    assert!(cache.get_at(1, at(10)).is_none());
    assert_eq!(cache.len(), 0);
}

#[test]
fn approximate_touch_window() {
    // Approximate touch tracking: the first read past the window forwards
    // one touch, the reads inside the window are absorbed. The touched key
    // survives the next insert; the key read longest ago is evicted.
    let window = Duration::from_millis(100);
    let layer = EvictApproximate::with_window(EvictLeastRecentlyTouched, window);
    let mut cache = SyncCacheBuilder::new()
        .exact_shards(1)
        .capacity(3)
        .build_with_layer::<MapEntry<u64>, _>(layer);
    let ms = 1_000_000u64;
    cache.insert_at(MapEntry::new(1, 10), at(0));
    cache.insert_at(MapEntry::new(2, 20), at(1 * ms));
    cache.insert_at(MapEntry::new(3, 30), at(2 * ms));
    // One forwarded touch, then two absorbed reads within 50ms of it.
    assert!(cache.get_at(1, at(200 * ms)).is_some());
    assert!(cache.get_at(1, at(210 * ms)).is_some());
    assert!(cache.get_at(1, at(220 * ms)).is_some());
    cache.insert_at(MapEntry::new(4, 40), at(230 * ms));
    assert_eq!(cache.get_at(1, at(231 * ms)).unwrap().value().value, 10);
    assert!(cache.get_at(2, at(232 * ms)).is_none());
}

#[test]
fn expire_flag() {
    // A value that reports itself expired is dropped on the read that
    // notices; a live one stays.
    let mut cache = SyncCacheBuilder::new()
        .exact_shards(1)
        .capacity(3)
        .build_with_layer::<FlaggedEntry<u64>, _>(ExpireLayer);
    cache.insert(FlaggedEntry { key: 1, expired: false, value: 5 });
    cache.insert(FlaggedEntry { key: 2, expired: true, value: 6 });
    assert!(cache.get(1).is_some());
    assert!(cache.get(2).is_none());
    assert_eq!(cache.len(), 1);
}

#[test]
fn expire_after_write_ttl() {
    // The deadline is stamped at the write: ttl past the write instant.
    let mut cache = SyncCacheBuilder::new()
        .exact_shards(1)
        .capacity(3)
        .build_with_layer::<MapEntry<u64>, _>(ExpireAfterWriteLayer::new(Duration::from_nanos(10)));
    cache.insert_at(MapEntry::new(1, 10), at(0));
    assert!(cache.get_at(1, at(9)).is_some());
    assert!(cache.get_at(1, at(10)).is_none());
    assert_eq!(cache.len(), 0);
}

#[test]
fn expire_after_read_slides() {
    // Every read pushes the deadline out again; only a gap longer than the
    // ttl lets the entry die.
    let mut cache = SyncCacheBuilder::new()
        .exact_shards(1)
        .capacity(3)
        .build_with_layer::<MapEntry<u64>, _>(ExpireAfterReadLayer::new(Duration::from_nanos(10)));
    cache.insert_at(MapEntry::new(1, 10), at(0));
    assert!(cache.get_at(1, at(5)).is_some());
    assert!(cache.get_at(1, at(12)).is_some());
    assert!(cache.get_at(1, at(25)).is_none());
}

#[test]
fn insert_then_get_returns_inserted() {
    let mut cache = SyncCacheBuilder::new().build_with_layer::<MapEntry<u64>, _>(LayerNone);
    let p = cache.insert(MapEntry::new(7, 70));
    let q = cache.get(7).unwrap();
    assert_eq!(q.value().value, 70);
    assert_eq!(q.id(), p.id());
}

#[test]
fn remove_then_get_misses() {
    let mut cache = SyncCacheBuilder::new().build_with_layer::<MapEntry<u64>, _>(LayerNone);
    cache.insert(MapEntry::new(7, 70));
    let removed = cache.remove(7);
    assert_eq!(removed.unwrap().value().value, 70);
    assert!(cache.get(7).is_none());
    assert_eq!(cache.len(), 0);
    assert!(cache.remove(7).is_none());
}

#[test]
fn remove_insert_get_round_trip() {
    let mut cache = SyncCacheBuilder::new().build_with_layer::<MapEntry<u64>, _>(LayerNone);
    cache.insert(MapEntry::new(7, 70));
    cache.remove(7);
    cache.insert(MapEntry::new(7, 71));
    assert_eq!(cache.get(7).unwrap().value().value, 71);
}

#[test]
fn upsert_merge_none_is_noop() {
    // An upsert whose merge declines keeps the stored entry, identity
    // included.
    let mut cache = SyncCacheBuilder::new().build_with_layer::<MapEntry<u64>, _>(LayerNone);
    let first = cache.insert(MapEntry::new(7, 70));
    let kept = cache.upsert(MapEntry::new(7, 99), |_new, _old| None);
    assert_eq!(kept.id(), first.id());
    assert_eq!(kept.value().value, 70);
    assert_eq!(cache.get(7).unwrap().value().value, 70);
}

#[test]
fn upsert_merge_some_replaces() {
    let mut cache = SyncCacheBuilder::new().build_with_layer::<MapEntry<u64>, _>(LayerNone);
    cache.insert(MapEntry::new(7, 70));
    let merged = cache.upsert(MapEntry::new(7, 9), |new, old| {
        Some(MapEntry::new(new.key, new.value + old.value))
    });
    assert_eq!(merged.value().value, 79);
    assert_eq!(cache.get(7).unwrap().value().value, 79);
}

#[test]
fn or_insert_yields_one_identity() {
    // Repeated or-inserts on the same key always hand out the pointer the
    // first one created.
    let mut cache = SyncCacheBuilder::new().build_with_layer::<MapEntry<u64>, _>(LayerNone);
    let first = cache.or_insert(MapEntry::new(5, 50));
    let second = cache.or_insert(MapEntry::new(5, 51));
    let third = cache.or_insert(MapEntry::new(5, 52));
    assert_eq!(second.id(), first.id());
    assert_eq!(third.id(), first.id());
    assert_eq!(third.value().value, 50);
}

#[test]
fn or_insert_with_runs_once() {
    let mut cache = SyncCacheBuilder::new().build_with_layer::<MapEntry<u64>, _>(LayerNone);
    let first = cache.or_insert_with(5, || MapEntry::new(5, 50));
    let second = cache.or_insert_with(5, || MapEntry::new(5, 99));
    assert_eq!(first.value().value, 50);
    assert_eq!(second.value().value, 50);
}

#[test]
fn or_insert_default_uses_default() {
    let mut cache = SyncCacheBuilder::new().build_with_layer::<MapEntry<u64>, _>(LayerNone);
    let p = cache.or_insert_default(0);
    assert_eq!(p.value().key, 0);
    assert_eq!(p.value().value, 0);
}

#[test]
fn remove_if_consults_predicate() {
    let mut cache = SyncCacheBuilder::new().build_with_layer::<MapEntry<u64>, _>(LayerNone);
    cache.insert(MapEntry::new(1, 10));
    assert!(cache.remove_if(1, |t| t.value > 50).is_none());
    assert!(cache.get(1).is_some());
    assert!(cache.remove_if(1, |t| t.value <= 50).is_some());
    assert!(cache.get(1).is_none());
}

#[test]
fn entry_probe() {
    let mut cache = SyncCacheBuilder::new().build_with_layer::<MapEntry<u64>, _>(LayerNone);
    assert!(!cache.entry(3).is_occupied());
    cache.insert(MapEntry::new(3, 33));
    let e = cache.entry(3);
    assert!(e.is_occupied());
    assert_eq!(e.into_pointer().unwrap().value().value, 33);
}

#[test]
fn iter_yields_every_entry_once() {
    // A scan returns one pointer per stored key, none twice, across shards.
    let mut cache = SyncCacheBuilder::new()
        .shards(4)
        .capacity(64)
        .build_with_layer::<MapEntry<u64>, _>(LayerNone);
    for k in 0..20u64 {
        cache.insert(MapEntry::new(k, k * 10));
    }
    let mut seen: Vec<u64> = cache.iter().iter().map(|p| p.value().key).collect();
    seen.sort();
    let expected: Vec<u64> = (0..20).collect();
    assert_eq!(seen, expected);
}

#[test]
fn len_counts_distinct_keys() {
    // Re-inserting a key does not grow the store; distinct keys do.
    let mut cache = SyncCacheBuilder::new()
        .shards(4)
        .capacity(64)
        .build_with_layer::<MapEntry<u64>, _>(LayerNone);
    cache.insert(MapEntry::new(1, 10));
    cache.insert(MapEntry::new(1, 11));
    cache.insert(MapEntry::new(2, 20));
    assert_eq!(cache.len(), 2);
}

#[test]
fn composition_order_is_immaterial() {
    // ExpireAt chained with touch-order eviction behaves the same whichever
    // side of the chain each stands on.
    let run = |flip: bool| {
        let mut history: Vec<Option<u64>> = Vec::new();
        if flip {
            let mut cache = SyncCacheBuilder::new()
                .exact_shards(1)
                .capacity(3)
                .build_with_layer::<ExpiringEntry<u64>, _>(layercache::layer::and_then(
                    EvictLeastRecentlyTouched,
                    ExpireAtLayer::new(),
                ));
            cache.insert_at(ExpiringEntry::new(1, at(100), 10), at(0));
            cache.insert_at(ExpiringEntry::new(2, at(5), 20), at(1));
            history.push(cache.get_at(1, at(2)).map(|p| p.value().value));
            history.push(cache.get_at(2, at(6)).map(|p| p.value().value));
            history.push(Some(cache.len() as u64));
        } else {
            let mut cache = SyncCacheBuilder::new()
                .exact_shards(1)
                .capacity(3)
                .build_with_layer::<ExpiringEntry<u64>, _>(layercache::layer::and_then(
                    ExpireAtLayer::new(),
                    EvictLeastRecentlyTouched,
                ));
            cache.insert_at(ExpiringEntry::new(1, at(100), 10), at(0));
            cache.insert_at(ExpiringEntry::new(2, at(5), 20), at(1));
            history.push(cache.get_at(1, at(2)).map(|p| p.value().value));
            history.push(cache.get_at(2, at(6)).map(|p| p.value().value));
            history.push(Some(cache.len() as u64));
        }
        history
    };
    assert_eq!(run(false), run(true));
}

#[test]
fn local_cache_round_trip() {
    let mut cache = LocalCacheBuilder::new()
        .capacity(3)
        .build_with_layer::<MapEntry<u64>, _>(EvictLeastRecentlyInserted);
    cache.insert(MapEntry::new(1, 10));
    cache.insert(MapEntry::new(2, 20));
    cache.insert(MapEntry::new(3, 30));
    cache.insert(MapEntry::new(4, 40));
    assert!(cache.get(1).is_none());
    assert!(cache.get(2).is_some());
    assert_eq!(cache.len(), 3);
    assert_eq!(cache.iter().len(), 3);
}

#[test]
fn test() {
    // Building a deadline-expiring sharded store through the fluent builder.
    let mut cache = BuildCache::new().expire_at().build_sync::<ExpiringEntry<u64>>();
    cache.insert_at(ExpiringEntry::new(1, at(50), 5), at(0));
    assert!(cache.get_at(1, at(10)).is_some());
    assert!(cache.get_at(1, at(50)).is_none());
}

#[test]
fn shard_count_rounding() {
    assert_eq!(target_shards_to_exact(1), 1);
    assert_eq!(target_shards_to_exact(3), 4);
    assert_eq!(target_shards_to_exact(16), 16);
    assert_eq!(target_shards_to_exact(1000000), 2048);
}

#[test]
fn random_eviction_stays_at_capacity() {
    // The victim is random, but the count is bounded and the newest
    // insertion always survives the write that inserted it.
    let mut cache = SyncCacheBuilder::new()
        .exact_shards(1)
        .capacity(3)
        .build_with_layer::<MapEntry<u64>, _>(
            layercache::evict::random::EvictRandom::with_seed(7),
        );
    for k in 1..=10u64 {
        let p = cache.insert(MapEntry::new(k, k));
        assert_eq!(p.value().key, k);
        assert!(cache.get(k).is_some());
        assert!(cache.len() <= 3);
    }
    assert_eq!(cache.len(), 3);
}

#[test]
fn expired_drain_on_insert() {
    // The deadline-draining write-order policy drops expired head entries
    // as later writes come in.
    let mut cache = SyncCacheBuilder::new()
        .exact_shards(1)
        .capacity(8)
        .build_with_layer::<ExpiringEntry<u64>, _>(
            layercache::evict::lri::EvictExpiredLeastRecentlyInserted,
        );
    cache.insert_at(ExpiringEntry::new(1, at(5), 10), at(0));
    cache.insert_at(ExpiringEntry::new(2, at(100), 20), at(1));
    assert_eq!(cache.len(), 2);
    // By now the first entry's deadline passed; this write drains it.
    cache.insert_at(ExpiringEntry::new(3, at(100), 30), at(50));
    assert_eq!(cache.len(), 2);
    assert!(cache.get_at(1, at(51)).is_none());
    assert!(cache.get_at(2, at(52)).is_some());
    assert!(cache.get_at(3, at(53)).is_some());
}

#[test]
fn map_cache_front() {
    let inner = SyncCacheBuilder::new().build_with_layer::<MapEntry<u64>, _>(LayerNone);
    let mut cache = MapCache::new(inner);
    cache.insert(4, 44);
    assert_eq!(*cache.get(4).unwrap().value(), 44);
    assert!(cache.get(5).is_none());
}

#[test]
fn generational_promotion_survives_churn() {
    // An entry read often enough is promoted to the long-term queue and
    // survives the churn that flushes the short-term one.
    let layer = layercache::evict::generation::EvictGenerational::new(
        layercache::evict::generation::PromoteAfterTouchCount::new(3),
    );
    // One shard of capacity 8: the short-term queue gets a quarter share,
    // three entries.
    let mut cache = SyncCacheBuilder::new()
        .exact_shards(1)
        .capacity(8)
        .build_with_layer::<MapEntry<u64>, _>(layer);
    cache.insert(MapEntry::new(1, 10));
    assert!(cache.get(1).is_some());
    assert!(cache.get(1).is_some());
    assert!(cache.get(1).is_some());
    // The promoted key no longer competes with fresh insertions.
    for k in 2..=6u64 {
        cache.insert(MapEntry::new(k, k));
    }
    assert_eq!(cache.get(1).unwrap().value().value, 10);
    // The short-term queue churned: its oldest entries left.
    assert!(cache.get(2).is_none());
}

#[test]
fn least_of_n_eviction_stays_at_capacity() {
    // Sample-and-compare eviction: victims are drawn and ranked, the count
    // stays bounded, and the newest insertion always survives its write.
    let layer = layercache::evict::random::EvictLeastOfN::new(
        2,
        layercache::evict::random::LeastRecentlyWritten,
        11,
    );
    let mut cache = SyncCacheBuilder::new()
        .exact_shards(1)
        .capacity(3)
        .build_with_layer::<MapEntry<u64>, _>(layer);
    for k in 1..=10u64 {
        cache.insert_at(MapEntry::new(k, k), at(k));
        assert!(cache.get_at(k, at(k)).is_some());
        assert!(cache.len() <= 3);
    }
    assert_eq!(cache.len(), 3);
}

#[test]
fn peek_reads_without_touching() {
    // A peek is a plain lookup: no touch, so the peeked key is still the
    // next LRT victim.
    let mut cache = LocalCacheBuilder::new()
        .capacity(3)
        .build_with_layer::<MapEntry<u64>, _>(EvictLeastRecentlyTouched);
    cache.insert(MapEntry::new(1, 10));
    cache.insert(MapEntry::new(2, 20));
    cache.insert(MapEntry::new(3, 30));
    assert_eq!(cache.peek(1).unwrap().value().value, 10);
    assert!(cache.peek(9).is_none());
    cache.insert(MapEntry::new(4, 40));
    // Unlike a get, the peek protected nothing: key 1 was evicted.
    assert!(cache.peek(1).is_none());
}
