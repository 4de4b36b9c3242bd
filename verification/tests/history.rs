use rmqtt_plugins::history_cache::{
    recovery_due, unpersisted_after_failure, unpersisted_after_recovery, HistoryCache, RECOVERY_BATCH,
};
use rmqtt_plugins::history::{key_timestamp, stable_sort_positions, warmup_plan};

#[test]
fn key_times() {
    assert_eq!(key_timestamp(b"stats_hist:1:1700000000000"), Some(1_700_000_000_000));
    assert_eq!(key_timestamp(b"stats_hist:1:+12"), Some(12));
    assert_eq!(key_timestamp(b"stats_hist:1:"), None);
    assert_eq!(key_timestamp(b"stats_hist:1:12a"), None);
    assert_eq!(key_timestamp(b"42"), Some(42));
    assert_eq!(key_timestamp(b"x:99999999999999999999"), None);
}

#[test]
fn stable_positions() {
    assert_eq!(stable_sort_positions(&vec![5, 1, 5, 0]), vec![3, 1, 0, 2]);
    assert_eq!(stable_sort_positions(&vec![]), Vec::<usize>::new());
}

#[test]
fn warmup_reloads_recent_and_drops_old() {
    let keys = vec![
        b"m:1:300".to_vec(),
        b"m:1:100".to_vec(),
        b"m:1:bad".to_vec(),
        b"m:1:200".to_vec(),
        b"m:1:50".to_vec(),
    ];
    let plan = warmup_plan(&keys, 1_000, 850);
    assert_eq!(plan.remove, vec![b"m:1:50".to_vec(), b"m:1:100".to_vec()]);
    assert_eq!(plan.load, vec![(200, b"m:1:200".to_vec()), (300, b"m:1:300".to_vec())]);
    let all = warmup_plan(&keys, 100, 1_000);
    assert!(all.remove.is_empty());
    assert_eq!(all.load.len(), 4);
}

#[test]
fn history_cache_needs_capacity() {
    assert_eq!(HistoryCache::new(0).err(), Some("[http-api] LRU cache capacity must be > 0, got 0".to_string()));
    assert!(HistoryCache::new(1).is_ok());
}

#[test]
fn history_cache_record_then_flush_payload() {
    let mut c = HistoryCache::new(4).unwrap();
    c.record(1000, "{\"a\":1}".to_string());
    assert_eq!(c.flush_payload(1000), "{\"a\":1}");
    assert_eq!(c.flush_payload(2000), "");
    c.record(1000, "{\"a\":2}".to_string());
    assert_eq!(c.flush_payload(1000), "{\"a\":2}");
}

#[test]
fn history_cache_evicts_least_recent() {
    let mut c = HistoryCache::new(2).unwrap();
    c.record(1, "one".to_string());
    c.record(2, "two".to_string());
    c.record(3, "three".to_string());
    assert_eq!(c.flush_payload(1), "");
    assert_eq!(c.flush_payload(2), "two");
    assert_eq!(c.flush_payload(3), "three");
}

#[test]
fn history_cache_failed_flush_is_retried() {
    let mut c = HistoryCache::new(8).unwrap();
    c.record(10, "x".to_string());
    c.record(20, "y".to_string());
    c.record(30, "z".to_string());
    assert!(c.failed_entries(RECOVERY_BATCH).is_empty());
    assert!(c.flushed(10, false));
    assert!(!c.flushed(20, true));
    assert!(c.flushed(30, false));
    assert_eq!(c.failed_entries(RECOVERY_BATCH), vec![(30, "z".to_string()), (10, "x".to_string())]);
    assert_eq!(c.failed_entries(1), vec![(30, "z".to_string())]);
    c.recovered(10);
    assert_eq!(c.failed_entries(RECOVERY_BATCH), vec![(30, "z".to_string())]);
    assert_eq!(c.flush_payload(10), "x");
    assert!(c.flushed(99, false));
    assert_eq!(c.failed_entries(RECOVERY_BATCH), vec![(30, "z".to_string())]);
}

#[test]
fn unpersisted_counter() {
    assert_eq!(unpersisted_after_failure(0), 1);
    assert_eq!(unpersisted_after_failure(i64::MAX), i64::MIN);
    assert_eq!(unpersisted_after_recovery(3), 2);
    assert_eq!(unpersisted_after_recovery(0), 0);
    assert_eq!(unpersisted_after_recovery(-2), -2);
    assert!(recovery_due(1));
    assert!(!recovery_due(0));
}

#[test]
fn history_cache_evicts_by_recency_and_recovery_stops_on_failure() {
    let mut c = HistoryCache::new(2).unwrap();
    c.record(1, "one".to_string());
    c.record(2, "two".to_string());
    assert!(c.flushed(1, false));
    c.record(3, "three".to_string());
    assert_eq!(c.flush_payload(2), "");
    assert_eq!(c.flush_payload(1), "one");
    assert!(c.flushed(3, false));
    assert_eq!(c.failed_entries(RECOVERY_BATCH), vec![(3, "three".to_string()), (1, "one".to_string())]);
    let (go_on, n) = c.recovery_step(3, true, 2);
    assert!(go_on);
    assert_eq!(n, 1);
    let (go_on, n) = c.recovery_step(1, false, n);
    assert!(!go_on);
    assert_eq!(n, 1);
    assert_eq!(c.failed_entries(RECOVERY_BATCH), vec![(1, "one".to_string())]);
}
