//! The memory cache's FIFO and staging behaviour, the store model, the
//! writers, migration, maintenance and idle flush.

use llm_api::db_writer::DbWriter;
use llm_api::fingerprint::answer_key;
use llm_api::idle_flush::{IdleFlushConfig, IdleFlushManager};
use llm_api::memory_cache::MemoryCache;
use llm_api::store::{LegacyRow, Store};

fn bytes(s: &str) -> Vec<u8> {
    s.as_bytes().to_vec()
}

#[test]
fn fifo_eviction() {
    // Capacity two: the third distinct insert evicts the first-inserted
    // key into the pending area; the other two stay resident.
    let mut cache = MemoryCache::new(2);
    cache.insert("a".to_string(), bytes("va"));
    cache.insert("b".to_string(), bytes("vb"));
    cache.insert("c".to_string(), bytes("vc"));
    assert!(cache.get("a").is_none());
    assert_eq!(cache.get("b").unwrap(), bytes("vb"));
    assert_eq!(cache.get("c").unwrap(), bytes("vc"));
    assert_eq!(cache.cache_count(), 2);
    assert_eq!(cache.pending_count(), 1);
    let pending = cache.take_pending_writes(10);
    assert_eq!(pending.len(), 1);
    assert_eq!(pending[0].0, "a");
    assert_eq!(pending[0].1, bytes("va"));
}

#[test]
fn replacement_does_not_evict() {
    let mut cache = MemoryCache::new(2);
    cache.insert("a".to_string(), bytes("v1"));
    cache.insert("b".to_string(), bytes("v2"));
    cache.insert("a".to_string(), bytes("v3"));
    assert_eq!(cache.get("a").unwrap(), bytes("v3"));
    assert_eq!(cache.get("b").unwrap(), bytes("v2"));
    assert_eq!(cache.pending_count(), 0);
}

#[test]
fn batch_drain() {
    // k + n distinct inserts with capacity k stage exactly n pairs; a
    // drain of batch size n removes them all, oldest first.
    let k = 3;
    let n = 2;
    let mut cache = MemoryCache::new(k);
    let keys = ["q1", "q2", "q3", "q4", "q5"];
    for key in keys.iter() {
        cache.insert(key.to_string(), bytes(key));
    }
    assert_eq!(cache.pending_count(), n);
    let batch = cache.take_pending_writes(n);
    assert_eq!(batch.len(), n);
    assert_eq!(batch[0].0, "q1");
    assert_eq!(batch[1].0, "q2");
    assert_eq!(cache.pending_count(), 0);
}

#[test]
fn take_pending_respects_batch_size() {
    let mut cache = MemoryCache::new(1);
    cache.insert("a".to_string(), bytes("1"));
    cache.insert("b".to_string(), bytes("2"));
    cache.insert("c".to_string(), bytes("3"));
    assert_eq!(cache.pending_count(), 2);
    let batch = cache.take_pending_writes(1);
    assert_eq!(batch.len(), 1);
    assert_eq!(batch[0].0, "a");
    assert_eq!(cache.pending_count(), 1);
}

#[test]
fn flush_all_moves_everything() {
    let mut cache = MemoryCache::new(4);
    cache.insert("x".to_string(), bytes("1"));
    cache.insert("y".to_string(), bytes("2"));
    let moved = cache.flush_all_to_pending();
    assert_eq!(moved.len(), 2);
    assert_eq!(moved[0].0, "x");
    assert_eq!(moved[1].0, "y");
    assert_eq!(cache.cache_count(), 0);
    assert_eq!(cache.pending_count(), 2);
}

#[test]
fn write_single_creates_both_rows() {
    let mut store = Store::new();
    let writer = DbWriter::new(3);
    let blob = bytes("compressed-blob");
    assert!(writer.write_single(&mut store, "qk1".to_string(), blob.clone(), 1000));
    let stats = store.cache_stats();
    assert_eq!(stats.answers_count, 1);
    assert_eq!(stats.questions_count, 1);
    assert_eq!(stats.total_size, blob.len() as u128);
    let hit = store.lookup("qk1", 0, false).unwrap();
    assert_eq!(hit.0, blob);
    assert_eq!(hit.1, answer_key(&blob));
}

#[test]
fn answer_dedup() {
    // Two distinct questions with the same reply: one answer row, two
    // question rows referencing it.
    let mut store = Store::new();
    let writer = DbWriter::new(0);
    let blob = bytes("same-answer");
    writer.write_single(&mut store, "qk1".to_string(), blob.clone(), 10);
    writer.write_single(&mut store, "qk2".to_string(), blob.clone(), 11);
    let stats = store.cache_stats();
    assert_eq!(stats.answers_count, 1);
    assert_eq!(stats.questions_count, 2);
    let ak = answer_key(&blob);
    assert_eq!(store.lookup("qk1", 0, false).unwrap().1, ak);
    assert_eq!(store.lookup("qk2", 0, false).unwrap().1, ak);
}

#[test]
fn cache_hit_idempotence() {
    // Two sequential lookups of the same key return byte-identical blobs,
    // and the asynchronous hit-count update lands between them.
    let mut store = Store::new();
    let writer = DbWriter::new(0);
    let blob = bytes("the-answer");
    writer.write_single(&mut store, "qk".to_string(), blob.clone(), 10);
    let first = store.lookup("qk", 0, false).unwrap();
    store.increment_hit(&first.1);
    let second = store.lookup("qk", 0, false).unwrap();
    assert_eq!(first.0, second.0);
    assert_eq!(first.1, second.1);
    // A second increment keeps counting.
    store.increment_hit(&second.1);
    let third = store.lookup("qk", 0, false).unwrap();
    assert_eq!(third.0, blob);
}

#[test]
fn version_gated_lookup() {
    let mut store = Store::new();
    let writer = DbWriter::new(2);
    writer.write_single(&mut store, "qk".to_string(), bytes("blob"), 10);
    // Override mode admits only answers at or above the wanted version.
    assert!(store.lookup("qk", 2, true).is_some());
    assert!(store.lookup("qk", 3, true).is_none());
    assert!(store.lookup("qk", 3, false).is_some());
    assert!(store.lookup("missing", 0, false).is_none());
}

#[test]
fn batch_write_counts() {
    let mut store = Store::new();
    let writer = DbWriter::new(0);
    let items = vec![
        ("q1".to_string(), bytes("a1")),
        ("q2".to_string(), bytes("a2")),
        ("q3".to_string(), bytes("a1")),
    ];
    let (ok, failed) = writer.batch_write(&mut store, items, 50);
    assert_eq!(ok, 3);
    assert_eq!(failed, 0);
    let stats = store.cache_stats();
    // Two distinct answers, three questions.
    assert_eq!(stats.answers_count, 2);
    assert_eq!(stats.questions_count, 3);
}

#[test]
fn migration_completeness() {
    // N legacy rows with distinct keys: answers and questions both gain
    // the keys, and the legacy table survives only as the backup.
    let rows = vec![
        LegacyRow { key: "k1".to_string(), response: bytes("r1"), size: 2, hit_count: 7, version: 1 },
        LegacyRow { key: "k2".to_string(), response: bytes("r2"), size: 2, hit_count: 0, version: 0 },
        LegacyRow { key: "k3".to_string(), response: bytes("r3"), size: 2, hit_count: 3, version: 2 },
    ];
    let mut store = Store::with_legacy(rows);
    store.migrate_legacy(500);
    assert!(store.legacy_cache.is_none());
    assert!(store.backup.is_some());
    assert_eq!(store.backup.as_ref().unwrap().len(), 3);
    let stats = store.cache_stats();
    assert_eq!(stats.answers_count, 3);
    assert_eq!(stats.questions_count, 3);
    // Each legacy question points at the answer under the identical key.
    for key in ["k1", "k2", "k3"] {
        let (resp, ak) = store.lookup(key, 0, false).unwrap();
        assert_eq!(ak, key);
        assert!(!resp.is_empty());
    }
    store.cleanup_backup_table();
    assert!(store.backup.is_none());
}

#[test]
fn migration_without_legacy_table() {
    let mut store = Store::new();
    store.migrate_legacy(500);
    assert!(store.backup.is_none());
    assert_eq!(store.cache_stats().answers_count, 0);
}

#[test]
fn maintenance_prunes_aged_unreferenced_low_hit_answers() {
    let mut store = Store::new();
    let writer = DbWriter::new(0);
    // An old question/answer pair and a fresh one.
    writer.write_single(&mut store, "old-q".to_string(), bytes("old-a"), 100);
    writer.write_single(&mut store, "new-q".to_string(), bytes("new-a"), 9_000);
    // Age out the old question (cutoff 5000): the question goes; its
    // answer survives this pass because the deletion of answers is
    // computed before the questions are dropped.
    store.cleanup_old_entries(5_000, 5);
    assert!(store.lookup("old-q", 0, false).is_none());
    assert!(store.lookup("new-q", 0, false).is_some());
    let stats = store.cache_stats();
    assert_eq!(stats.questions_count, 1);
    assert_eq!(stats.answers_count, 2);
    // The next pass finds the orphaned, low-hit, aged answer and prunes it.
    store.cleanup_old_entries(5_000, 5);
    assert_eq!(store.cache_stats().answers_count, 1);
}

#[test]
fn maintenance_keeps_high_hit_orphans() {
    let mut store = Store::new();
    let writer = DbWriter::new(0);
    writer.write_single(&mut store, "q".to_string(), bytes("a"), 100);
    let ak = answer_key(&bytes("a"));
    for _ in 0..6 {
        store.increment_hit(&ak);
    }
    store.cleanup_old_entries(5_000, 5);
    // The question aged out, but the answer has six hits and stays.
    store.cleanup_old_entries(5_000, 5);
    assert_eq!(store.cache_stats().answers_count, 1);
    assert_eq!(store.cache_stats().questions_count, 0);
}

#[test]
fn idle_flush_drains_to_store() {
    // Five resident entries, idle-flush enabled with a one-second
    // timeout: after the idle period the entries are persisted; a fresh
    // cache (the restart) no longer holds them, but the store does.
    let config = IdleFlushConfig { enabled: true, idle_timeout: 1, check_interval: 1 };
    let mut manager = IdleFlushManager::new(config, 1_000).with_db(0);
    let mut cache = MemoryCache::new(10);
    let mut store = Store::new();
    for key in ["e1", "e2", "e3", "e4", "e5"] {
        cache.insert(key.to_string(), bytes(key));
    }
    assert!(!manager.should_flush(1_000, cache.cache_count(), cache.pending_count()));
    assert!(manager.should_flush(1_002, cache.cache_count(), cache.pending_count()));
    let (ok, failed) = manager.flush_idle(&mut cache, &mut store, 1_002);
    assert_eq!(ok, 5);
    assert_eq!(failed, 0);
    assert_eq!(cache.cache_count(), 0);
    assert_eq!(manager.last_activity, 1_002);

    let restarted = MemoryCache::new(10);
    for key in ["e1", "e2", "e3", "e4", "e5"] {
        assert!(restarted.get(key).is_none());
        assert!(store.lookup(key, 0, false).is_some());
    }
}

#[test]
fn idle_flush_without_writer_leaves_store() {
    let config = IdleFlushConfig { enabled: true, idle_timeout: 1, check_interval: 1 };
    let mut manager = IdleFlushManager::new(config, 0);
    let mut cache = MemoryCache::new(4);
    let mut store = Store::new();
    cache.insert("k".to_string(), bytes("v"));
    let (ok, failed) = manager.flush_idle(&mut cache, &mut store, 10);
    assert_eq!((ok, failed), (0, 0));
    assert_eq!(store.cache_stats().answers_count, 0);
}

#[test]
fn idle_flush_disabled_never_triggers() {
    let config = IdleFlushConfig::default();
    let manager = IdleFlushManager::new(config, 0);
    assert!(!manager.should_flush(1_000_000, 5, 5));
}

#[test]
fn from_yaml_config_copies_fields() {
    let yaml = llm_api::config::IdleFlushConfig {
        enabled: true,
        idle_timeout_seconds: 42,
        check_interval_seconds: 7,
    };
    let runtime = IdleFlushConfig::from_yaml_config(&yaml);
    assert!(runtime.enabled);
    assert_eq!(runtime.idle_timeout, 42);
    assert_eq!(runtime.check_interval, 7);
}
