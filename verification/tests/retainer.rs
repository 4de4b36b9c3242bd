use rmqtt_plugins::message::{MsgFrom, Publish};
use rmqtt_plugins::retainer::{
    check_constraints, expiry_interval, ram_set_decision, retain_count_from_len, retain_key, retained_alive,
    topic_filter_to_pattern, hold_too_long, breaker_answer, merge_more, BreakerAnswer, RetainOp, RetainIndex, is_exact_filter, page_of, remaining_ms, RetainLimits, RetainRequest, WriteHold,
};

fn publish(topic: &str, payload: &str) -> Publish {
    Publish {
        dup: false,
        retain: true,
        qos: 1,
        topic: topic.to_string(),
        packet_id: None,
        payload: payload.as_bytes().to_vec(),
        target_clientid: None,
        create_time: None,
    }
}

fn req(topic: &str, payload: &str, expiry_ms: Option<u64>) -> RetainRequest {
    RetainRequest {
        topic: topic.to_string(),
        from: MsgFrom { node_id: 1, client_id: "c".to_string() },
        publish: publish(topic, payload),
        expiry_ms,
    }
}

#[test]
fn ttl_overrides_message_expiry() {
    assert_eq!(expiry_interval(Some(0), Some(5)), None);
    assert_eq!(expiry_interval(Some(7), Some(5)), Some(7));
    assert_eq!(expiry_interval(None, Some(5)), Some(5));
    assert_eq!(expiry_interval(None, None), None);
}

#[test]
fn constraints_on_size_and_count() {
    assert!(check_constraints(10, 10, 0, 1_000_000));
    assert!(!check_constraints(11, 10, 0, 0));
    assert!(!check_constraints(1, 10, 3, 3));
    assert!(check_constraints(1, 10, 3, 2));
    assert_eq!(ram_set_decision(1, 10, 3, 2, None, Some(9)), Some(Some(9)));
    assert_eq!(ram_set_decision(1, 10, 3, 3, None, Some(9)), None);
}

#[test]
fn retain_count_skips_counter_key() {
    assert_eq!(retain_count_from_len(0), 0);
    assert_eq!(retain_count_from_len(1), 0);
    assert_eq!(retain_count_from_len(6), 5);
}

#[test]
fn retain_key_has_prefix() {
    assert_eq!(retain_key("a/b"), b"p|a/b".to_vec());
}

#[test]
fn filter_patterns() {
    assert_eq!(topic_filter_to_pattern("#"), "*");
    assert_eq!(topic_filter_to_pattern("+"), "*");
    assert_eq!(topic_filter_to_pattern("a/+/c"), "a/*/c");
    assert_eq!(topic_filter_to_pattern("a/b/#"), "a/b*");
    assert_eq!(topic_filter_to_pattern("a*b?c"), "a\\*b\\?c");
    assert_eq!(topic_filter_to_pattern("a/b"), "a/b");
}

#[test]
fn expiry_alive_check() {
    assert!(retained_alive(None, 5));
    assert!(retained_alive(Some(6), 5));
    assert!(!retained_alive(Some(5), 5));
}

#[test]
fn index_insert_remove_match() {
    let mut idx = RetainIndex::new();
    idx.insert("a/b", None);
    idx.insert("a/c", Some(100));
    idx.insert("a/b", Some(50));
    idx.insert("x/#/y", None);
    assert_eq!(idx.len(), 2);
    assert_eq!(idx.matches("a/+", 10).unwrap(), vec!["a/b".to_string(), "a/c".to_string()]);
    assert_eq!(idx.matches("a/+", 60).unwrap(), vec!["a/c".to_string()]);
    assert_eq!(idx.matches("#", 200).unwrap(), Vec::<String>::new());
    idx.remove("a/c");
    assert_eq!(idx.len(), 1);
    assert!(idx.matches("a/#/b", 0).is_err());
}

#[test]
fn batch_plan_inserts_removes_and_expires() {
    let mut idx = RetainIndex::new();
    let lim = RetainLimits { max_retained: 2, max_payload_size: 4, ttl_ms: None };
    let plan = idx.plan_batch(
        vec![
            req("t/1", "on", Some(1_000)),
            req("t/2", "too long", None),
            req("t/3", "x", None),
            req("t/4", "y", None),
            req("t/1", "", None),
            req("t/5", "z", None),
        ],
        &lim,
        10_000,
    );
    assert_eq!(plan.count, 3);
    let keys: Vec<Vec<u8>> = plan.inserts.iter().map(|i| i.key.clone()).collect();
    assert_eq!(keys, vec![b"p|t/1".to_vec(), b"p|t/3".to_vec(), b"p|t/5".to_vec()]);
    assert_eq!(plan.inserts[0].expiry_time_at, Some(11_000));
    assert_eq!(plan.inserts[1].expiry_time_at, None);
    assert_eq!(plan.removes, vec![b"p|t/1".to_vec()]);
    assert_eq!(plan.expires, vec![(b"p|t/1".to_vec(), 1_000)]);
    assert_eq!(idx.len(), 2);
}

#[test]
fn batch_plan_ttl_zero_never_expires() {
    let mut idx = RetainIndex::new();
    let lim = RetainLimits { max_retained: 0, max_payload_size: 100, ttl_ms: Some(0) };
    let plan = idx.plan_batch(vec![req("a", "1", Some(5))], &lim, 0);
    assert_eq!(plan.inserts[0].expiry_time_at, None);
    assert!(plan.expires.is_empty());
}

#[test]
fn write_hold_label() {
    let h = WriteHold::new("batch_insert");
    assert_eq!(h.label(), "batch_insert");
    assert!(!h.held_too_long());
}

#[test]
fn remaining_ttl_of_retained() {
    assert_eq!(remaining_ms(None, 100), None);
    assert_eq!(remaining_ms(Some(100), 100), None);
    assert_eq!(remaining_ms(Some(50), 100), None);
    assert_eq!(remaining_ms(Some(1600), 100), Some(1500));
    assert_eq!(remaining_ms(Some(i64::MAX), i64::MIN), Some(u64::MAX));
}

#[test]
fn pages_of_a_listing() {
    let p = page_of(10, 0, 3);
    assert_eq!((p.start, p.end, p.has_more), (0, 3, true));
    let p = page_of(10, 7, 3);
    assert_eq!((p.start, p.end, p.has_more), (7, 10, false));
    let p = page_of(10, 8, 5);
    assert_eq!((p.start, p.end, p.has_more), (8, 10, false));
    let p = page_of(10, 12, 5);
    assert_eq!((p.start, p.end, p.has_more), (10, 10, false));
    let p = page_of(0, 0, 0);
    assert_eq!((p.start, p.end, p.has_more), (0, 0, false));
}

#[test]
fn exact_filters() {
    assert!(is_exact_filter("a/b/c"));
    assert!(!is_exact_filter("a/+/c"));
    assert!(!is_exact_filter("a/#"));
    assert!(is_exact_filter(""));
}

#[test]
fn write_hold_threshold() {
    assert!(!hold_too_long(0));
    assert!(!hold_too_long(100));
    assert!(hold_too_long(101));
}

#[test]
fn retained_topic_found_until_removed_or_expired() {
    let mut idx = RetainIndex::new();
    idx.insert("home/kitchen/temp", Some(1_000));
    assert_eq!(idx.matches("home/+/temp", 999).unwrap(), vec!["home/kitchen/temp".to_string()]);
    assert_eq!(idx.matches("home/#", 500).unwrap(), vec!["home/kitchen/temp".to_string()]);
    assert!(idx.matches("home/+/temp", 1_000).unwrap().is_empty());
    idx.insert("home/kitchen/temp", None);
    assert_eq!(idx.matches("home/+/temp", 5_000).unwrap(), vec!["home/kitchen/temp".to_string()]);
    idx.remove("home/kitchen/temp");
    assert!(idx.matches("#", 0).unwrap().is_empty());
}

#[test]
fn breaker_and_batching() {
    assert_eq!(breaker_answer(false, RetainOp::Get), BreakerAnswer::Proceed);
    assert_eq!(breaker_answer(true, RetainOp::Get), BreakerAnswer::Empty);
    assert_eq!(breaker_answer(true, RetainOp::Page), BreakerAnswer::Empty);
    assert_eq!(breaker_answer(true, RetainOp::Store), BreakerAnswer::Dropped);
    assert_eq!(breaker_answer(true, RetainOp::Count), BreakerAnswer::Unknown);
    assert_eq!(breaker_answer(true, RetainOp::Max), BreakerAnswer::Unknown);
    assert_eq!(breaker_answer(true, RetainOp::Batch), BreakerAnswer::Skip);
    assert!(merge_more(0, 500));
    assert!(!merge_more(500, 500));
}
