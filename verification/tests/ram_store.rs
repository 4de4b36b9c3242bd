use rmqtt_plugins::message::{recipient, MsgFrom, Publish};
use rmqtt_plugins::ram_store::{RamConfig, RamMessageManager};

const T0: i64 = 1_700_000_000_000;

fn from(client_id: &str) -> MsgFrom {
    MsgFrom { node_id: 1, client_id: client_id.to_string() }
}

fn publish(topic: &str, payload: &str) -> Publish {
    Publish {
        dup: false,
        retain: false,
        qos: 1,
        topic: topic.to_string(),
        packet_id: Some(1),
        payload: payload.as_bytes().to_vec(),
        target_clientid: None,
        create_time: Some(T0),
    }
}

fn new_mgr() -> RamMessageManager {
    RamMessageManager::new(RamConfig::default())
}

#[test]
fn test_message_manager() {
    let mut msg_mgr = new_mgr();
    let f = from("test-001");
    for topic in ["/xx/yy/zz", "/xx/yy/cc", "/xx/yy/", "/xx/yy/ee/ff", "/foo/yy/ee"] {
        for i in 0..5u64 {
            let msg_id = msg_mgr.next_msg_id();
            msg_mgr
                .store_at(T0, msg_id, f.copy(), publish(topic, "test ..."), (i + 2) * 1000, Some(Vec::new()))
                .unwrap();
        }
    }
    let now = T0 + 10;
    let msgs = msg_mgr.get_at(now, "c-id-001", "/xx/yy/#", None).unwrap();
    assert_eq!(msgs.len(), 20);
    let msgs = msg_mgr.get_at(now, "c-id-002", "/xx/yy/cc", None).unwrap();
    assert_eq!(msgs.len(), 5);
    let msgs = msg_mgr.get_at(now, "", "/foo/yy/ee", None).unwrap();
    assert_eq!(msgs.len(), 5);
}

#[test]
fn test_dedup_same_client() {
    let mut msg_mgr = new_mgr();
    let f = from("pub-001");
    let msg_id = msg_mgr.next_msg_id();
    msg_mgr.store_at(T0, msg_id, f, publish("/sensor/temp", "25.3"), 30_000, Some(Vec::new())).unwrap();
    let now = T0 + 10;

    let msgs = msg_mgr.get_at(now, "c-001", "/sensor/temp", None).unwrap();
    assert_eq!(msgs.len(), 1, "first get should return 1 message");

    msg_mgr.mark_forwarded(msg_id, vec![recipient("c-001", None)]).unwrap();

    let msgs = msg_mgr.get_at(now + 10, "c-001", "/sensor/temp", None).unwrap();
    assert_eq!(msgs.len(), 0, "second get should return 0 (dedup)");

    let msgs = msg_mgr.get_at(now + 10, "c-002", "/sensor/temp", None).unwrap();
    assert_eq!(msgs.len(), 1, "different client should get the message");
}

#[test]
fn test_mark_forwarded_basic() {
    let mut msg_mgr = new_mgr();
    let msg_id = msg_mgr.next_msg_id();
    msg_mgr
        .store_at(T0, msg_id, from("pub-001"), publish("/sensor/temp", "25.3"), 30_000, Some(Vec::new()))
        .unwrap();

    let msgs = msg_mgr.get_at(T0 + 10, "c-001", "/sensor/temp", None).unwrap();
    assert_eq!(msgs.len(), 1);

    msg_mgr.mark_forwarded(msg_id, vec![recipient("c-001", None)]).unwrap();

    let msgs = msg_mgr.get_at(T0 + 30, "c-001", "/sensor/temp", None).unwrap();
    assert_eq!(msgs.len(), 0, "c-001 should be deduplicated after mark_forwarded");
}

#[test]
fn test_mark_forwarded_non_existent() {
    let mut msg_mgr = new_mgr();
    let result = msg_mgr.mark_forwarded(99999, vec![recipient("ghost-client", None)]);
    assert!(result.is_ok(), "non-existent msg_id should return Ok(())");
    let count = msg_mgr.forwardeds_count();
    assert_eq!(count, 0, "forwardeds should be empty after non-existent add");
}

#[test]
fn test_shared_subscription_dedup() {
    let mut msg_mgr = new_mgr();
    let msg_id = msg_mgr.next_msg_id();
    msg_mgr
        .store_at(T0, msg_id, from("pub-001"), publish("/sensor/temp", "25.3"), 30_000, Some(Vec::new()))
        .unwrap();

    let msgs = msg_mgr.get_at(T0 + 10, "c-001", "/sensor/temp", Some("group1")).unwrap();
    assert_eq!(msgs.len(), 1, "first client in shared group gets message");

    msg_mgr.mark_forwarded(msg_id, vec![recipient("c-001", Some(("/sensor/temp", "group1")))]).unwrap();

    let msgs = msg_mgr.get_at(T0 + 30, "c-002", "/sensor/temp", Some("group1")).unwrap();
    assert_eq!(msgs.len(), 0, "second client in same group is deduplicated");

    let msgs = msg_mgr.get_at(T0 + 30, "c-003", "/sensor/temp", None).unwrap();
    assert_eq!(msgs.len(), 1, "non-shared client still gets the message");
}

#[test]
fn test_message_expiry() {
    let mut msg_mgr = new_mgr();
    let msg_id = msg_mgr.next_msg_id();
    msg_mgr
        .store_at(T0, msg_id, from("pub-001"), publish("/sensor/temp", "25.3"), 1_000, Some(Vec::new()))
        .unwrap();

    let msgs = msg_mgr.get_at(T0 + 10, "c-001", "/sensor/temp", None).unwrap();
    assert_eq!(msgs.len(), 1, "message available before expiry");

    let msgs = msg_mgr.get_at(T0 + 2_010, "c-002", "/sensor/temp", None).unwrap();
    assert_eq!(msgs.len(), 0, "message expired");
}

#[test]
fn test_wildcard_matching() {
    let mut msg_mgr = new_mgr();
    for topic in ["/a/b/c", "/a/b/d", "/a/x/y", "/x/y/z"] {
        let msg_id = msg_mgr.next_msg_id();
        msg_mgr
            .store_at(T0, msg_id, from("pub-001"), publish(topic, "data"), 30_000, Some(Vec::new()))
            .unwrap();
    }
    let now = T0 + 20;
    let msgs = msg_mgr.get_at(now, "c-001", "/a/b/#", None).unwrap();
    assert_eq!(msgs.len(), 2, "/a/b/# matches 2 topics");
    let msgs = msg_mgr.get_at(now, "c-002", "/a/+/c", None).unwrap();
    assert_eq!(msgs.len(), 1, "/a/+/c matches 1 topic");
    let msgs = msg_mgr.get_at(now, "c-003", "/a/b/c", None).unwrap();
    assert_eq!(msgs.len(), 1, "exact match");
}

#[test]
fn test_methods() {
    let mut msg_mgr = new_mgr();
    assert!(msg_mgr.enable(), "enable() should return true");
    assert!(msg_mgr.merge_on_read(), "merge_on_read() should return true");
    assert_eq!(msg_mgr.count(), 0, "count should be 0 initially");
    assert!(msg_mgr.max() >= 0, "max() should be >= 0");
    let id1 = msg_mgr.next_msg_id();
    let id2 = msg_mgr.next_msg_id();
    let id3 = msg_mgr.next_msg_id();
    assert!(id1 < id2, "msg_ids should be incrementing");
    assert!(id2 < id3, "msg_ids should be incrementing");
}

#[test]
fn ram_store_with_clock_serves_and_rejects_bad_topics() {
    let mut msg_mgr = new_mgr();
    let msg_id = msg_mgr.next_msg_id();
    msg_mgr.store(msg_id, from("p"), publish("a/b", "x"), 60_000, None).unwrap();
    assert_eq!(msg_mgr.get("c", "a/+", None).unwrap().len(), 1);
    let id2 = msg_mgr.next_msg_id();
    assert!(msg_mgr.store(id2, from("p"), publish("a/+", "x"), 60_000, None).is_err());
    let id3 = msg_mgr.next_msg_id();
    assert!(msg_mgr.store(id3, from("p"), publish("a/b#", "x"), 60_000, None).is_err());
    assert!(msg_mgr.get("c", "a/#/b", None).is_err());
    assert_eq!(msg_mgr.count(), 1);
}

#[test]
fn ram_store_target_client_and_system_topics() {
    let mut msg_mgr = new_mgr();
    let id = msg_mgr.next_msg_id();
    let mut p = publish("p2p/topic", "x");
    p.target_clientid = Some("only-me".to_string());
    msg_mgr.store_at(T0, id, from("p"), p, 60_000, None).unwrap();
    assert_eq!(msg_mgr.get_at(T0, "only-me", "p2p/topic", None).unwrap().len(), 1);
    assert_eq!(msg_mgr.get_at(T0, "someone", "p2p/topic", None).unwrap().len(), 0);

    let id = msg_mgr.next_msg_id();
    msg_mgr.store_at(T0, id, from("p"), publish("$SYS/brokers", "x"), 60_000, None).unwrap();
    assert_eq!(msg_mgr.get_at(T0, "c", "#", None).unwrap().len(), 0);
    assert_eq!(msg_mgr.get_at(T0, "c", "+/brokers", None).unwrap().len(), 0);
    assert_eq!(msg_mgr.get_at(T0, "c", "$SYS/#", None).unwrap().len(), 1);
}

#[test]
fn ram_store_cleanup_removes_expired_in_order() {
    let mut msg_mgr = new_mgr();
    for i in 0..4u64 {
        let id = msg_mgr.next_msg_id();
        msg_mgr.store_at(T0, id, from("p"), publish("t", "x"), (i + 1) * 1000, None).unwrap();
    }
    assert_eq!(msg_mgr.remove_expired_messages_at(T0 + 500, usize::MAX), 0);
    assert_eq!(msg_mgr.remove_expired_messages_at(T0 + 2_000, usize::MAX), 2);
    assert_eq!(msg_mgr.count(), 2);
    // at most max_limit + 1 per pass
    assert_eq!(msg_mgr.remove_expired_messages_at(T0 + 10_000, 0), 1);
    assert_eq!(msg_mgr.count(), 1);
    assert_eq!(msg_mgr.get_at(T0, "c", "t", None).unwrap()[0].0, 4);
}

#[test]
fn ram_store_cleanup_evicts_when_over_count() {
    let cfg = RamConfig { cache_capacity: usize::MAX, cache_max_count: 1, encode: false, queue_max: 10 };
    let mut msg_mgr = RamMessageManager::new(cfg);
    for _ in 0..3 {
        let id = msg_mgr.next_msg_id();
        msg_mgr.store_at(T0, id, from("p"), publish("t", "x"), 60_000, None).unwrap();
    }
    assert_eq!(msg_mgr.remove_expired_messages_at(T0, 1), 2);
    assert_eq!(msg_mgr.count(), 1);
    assert!(msg_mgr.messages_bytes_size_get() > 0);
}
