use rmqtt_plugins::helloworld::Helloworld;
use rmqtt_plugins::message::{recipient, MsgFrom, Publish};
use rmqtt_plugins::storage::{from_be_bytes8, increment, parse_storage_type, to_be_bytes8, Metadata, StorageType};
use rmqtt_plugins::storage_msg::{cleanup_again, cleanup_count, deliverable_stored, is_forwarded_stored, make_forwarded_key, mark_plan, store_plan, worker_index};
use rmqtt_plugins::sys_topic::{sys_topic, SysEvent};

#[test]
fn helloworld_plugin() {
    let h = Helloworld::new("helloworld".to_string(), "demo".to_string());
    assert_eq!(h.name(), "helloworld");
    assert_eq!(h.descr(), "demo");
    assert_eq!(h.version(), "0.1.1");
}

#[test]
fn storage_type_is_sled() {
    assert_eq!(parse_storage_type("SLED"), StorageType::Sled);
    assert_eq!(parse_storage_type("redis"), StorageType::Sled);
    let m = Metadata::new(b"k".to_vec(), 5, 3);
    assert_eq!((m.key, m.time, m.size), (b"k".to_vec(), 5, 3));
}

#[test]
fn counters_increment() {
    assert_eq!(to_be_bytes8(258), vec![0, 0, 0, 0, 0, 0, 1, 2]);
    assert_eq!(from_be_bytes8(&[0, 0, 0, 0, 0, 0, 1, 2]), 258);
    assert_eq!(increment(None), Some(1u64.to_be_bytes().to_vec()));
    assert_eq!(increment(Some(&[1, 2, 3])), Some(1u64.to_be_bytes().to_vec()));
    assert_eq!(increment(Some(&41u64.to_be_bytes())), Some(42u64.to_be_bytes().to_vec()));
}

#[test]
fn workers_and_keys() {
    assert_eq!(worker_index(0), 0);
    assert_eq!(worker_index(65), 1);
    assert_eq!(worker_index(127), 63);
    assert_eq!(make_forwarded_key("c1"), b"fwd_c1".to_vec());
}

#[test]
fn store_plans() {
    let p = store_plan(
        5,
        from_c0(),
        publish_on("a/b"),
        1_000,
        10_000,
        &vec![recipient("c1", None), recipient("c2", Some(("g", "t/#")))],
    )
    .unwrap();
    assert_eq!(p.record.msg_id, 5);
    assert_eq!(p.record.expiry_time_at, 11_000);
    assert_eq!(p.record.publish.topic, "a/b");
    assert_eq!(p.record.from.client_id, "c0");
    assert_eq!(p.counter_add, 1);
    assert_eq!(p.msg_key, 5u64.to_be_bytes().to_vec());
    assert_eq!(p.expiry_time_at, 11_000);
    assert_eq!(p.ttl_ms, 1_000);
    assert_eq!(p.forwarded_keys, vec![b"fwd_c1".to_vec(), b"fwd_c2".to_vec()]);
    let levels: Vec<String> = p.index_levels.iter().map(|l| l.iter().collect()).collect();
    assert_eq!(levels, vec!["a", "b", "5"]);
    assert!(store_plan(1, from_c0(), publish_on("a/#/b"), 1, 0, &vec![]).is_err());
}

fn from_c0() -> MsgFrom {
    MsgFrom { node_id: 1, client_id: "c0".to_string() }
}

fn publish_on(topic: &str) -> Publish {
    Publish {
        dup: false,
        retain: false,
        qos: 1,
        topic: topic.to_string(),
        packet_id: None,
        payload: b"x".to_vec(),
        target_clientid: None,
        create_time: None,
    }
}

#[test]
fn marks_need_stored_data() {
    let rs = vec![recipient("c1", None), recipient("c2", None)];
    assert_eq!(mark_plan(true, &rs), Some(vec![b"fwd_c1".to_vec(), b"fwd_c2".to_vec()]));
    assert_eq!(mark_plan(false, &rs), None);
    assert_eq!(mark_plan(true, &vec![]), Some(vec![]));
}

#[test]
fn cleanup_counts() {
    assert_eq!(cleanup_count(&vec![1, 2, 3, 10], 5, 100), 3);
    assert_eq!(cleanup_count(&vec![1, 2, 3, 4], 5, 1), 2);
    assert_eq!(cleanup_count(&vec![6, 7], 5, 1), 0);
    assert_eq!(cleanup_count(&vec![], 5, 1), 0);
}

#[test]
fn sys_topics() {
    assert_eq!(sys_topic(1, "c1", SysEvent::SessionCreated), "$SYS/brokers/1/session/c1/created");
    assert_eq!(sys_topic(2, "c2", SysEvent::ClientDisconnected), "$SYS/brokers/2/clients/c2/disconnected");
    assert_eq!(sys_topic(3, "c3", SysEvent::SessionUnsubscribed), "$SYS/brokers/3/session/c3/unsubscribed");
}

use rmqtt_plugins::session_flags::{
    keepalive_plan, DisconnectInfo, is_inactive, should_save_last_time, StateFlags, CONNECTED, REMOVE_AND_SAVE, SESSION_PRESENT, SUPERUSER,
};
use rmqtt_plugins::storage::{
    array_key_content, array_key_count, frame_key, frame_matches, frame_metadata, keep_record, ArrayError, ArrayWindow,
};

#[test]
fn state_flags_ops() {
    let mut f = StateFlags::initial(true, false, true);
    assert!(f.has(SESSION_PRESENT));
    assert!(!f.has(SUPERUSER));
    assert!(f.has(CONNECTED));
    f.remove(CONNECTED);
    assert!(!f.has(CONNECTED));
    f.insert(SUPERUSER);
    assert_eq!(f.get(), SESSION_PRESENT | SUPERUSER);
    assert_eq!(f.difference(SUPERUSER), SESSION_PRESENT);
    assert_eq!(StateFlags::all().get(), 0xff);
    assert_eq!(StateFlags::empty().get(), 0);
}

#[test]
fn remove_and_save_runs_once() {
    let mut f = StateFlags::initial(false, false, true);
    let first = f.equal_exchange(!REMOVE_AND_SAVE, REMOVE_AND_SAVE, REMOVE_AND_SAVE);
    assert_eq!(first, Ok(CONNECTED));
    assert!(f.has(REMOVE_AND_SAVE) && f.has(CONNECTED));
    let second = f.equal_exchange(!REMOVE_AND_SAVE, REMOVE_AND_SAVE, REMOVE_AND_SAVE);
    assert_eq!(second, Err(CONNECTED | REMOVE_AND_SAVE));
}

#[test]
fn activity_clock() {
    assert!(should_save_last_time(true, 0, 0));
    assert!(!should_save_last_time(false, 60_000, 0));
    assert!(should_save_last_time(false, 60_001, 0));
    assert!(!is_inactive(180_000, 0));
    assert!(is_inactive(180_001, 0));
}

#[test]
fn frames_and_array_keys() {
    let k = frame_key(b"abc", &[9, 9]);
    assert_eq!(k, vec![b'a', b'b', b'c', 9, 9, 3]);
    assert_eq!(frame_matches(b"abc", &k), Ok(true));
    assert_eq!(frame_matches(b"ab", &k), Ok(false));
    assert!(frame_matches(&[0u8; 256], &k).is_err());
    assert_eq!(frame_metadata(3, &k), &[9, 9]);
    assert_eq!(array_key_count(b"q"), b"@count@q".to_vec());
    let mut c = b"@content@q".to_vec();
    c.extend_from_slice(&7u64.to_be_bytes());
    assert_eq!(array_key_content(b"q", 7), c);
}

#[test]
fn array_window_queue() {
    let mut w = ArrayWindow { start: 0, end: 0 };
    assert_eq!(w.push(), 1);
    assert_eq!(w.push(), 2);
    assert_eq!(w.len(), 2);
    assert_eq!(w.front_index(), Some(1));
    assert_eq!(w.item_index(1), Ok(2));
    assert_eq!(w.item_index(2), Err(ArrayError::IndexOutOfBounds));
    let p = w.push_limit(2, true).unwrap();
    assert_eq!((p.removed, p.index), (Some(1), 3));
    w.front_dropped();
    assert_eq!(w, ArrayWindow { start: 1, end: 3 });
    assert!(matches!(w.push_limit(2, false), Err(ArrayError::IsFull)));
    let p = w.push_limit(5, false).unwrap();
    assert_eq!((p.removed, p.index), (None, 4));
}

#[test]
fn abnormal_records() {
    assert!(keep_record(100_000, 99_000_000, false));
    assert!(!keep_record(200_000, 1_000, false));
    assert!(keep_record(200_000, 1_000, true));
}

#[test]
fn stored_message_forwarded_marks() {
    let marks = vec![None, Some(("a/+".to_string(), "g1".to_string()))];
    assert!(is_forwarded_stored(true, &vec![], "a/+", None));
    assert!(!is_forwarded_stored(false, &marks, "a/+", None));
    assert!(is_forwarded_stored(false, &marks, "a/+", Some("g1")));
    assert!(!is_forwarded_stored(false, &marks, "a/+", Some("g2")));
    assert!(!is_forwarded_stored(false, &marks, "a/#", Some("g1")));
}

#[test]
fn stored_message_delivery() {
    assert!(deliverable_stored(false, false, None, "c1"));
    assert!(deliverable_stored(false, false, Some("c1"), "c1"));
    assert!(!deliverable_stored(false, false, Some("c2"), "c1"));
    assert!(!deliverable_stored(true, false, None, "c1"));
    assert!(!deliverable_stored(false, true, None, "c1"));
}

#[test]
fn cleanup_rounds_continue_while_full() {
    assert!(cleanup_again(100, 100));
    assert!(cleanup_again(101, 100));
    assert!(!cleanup_again(99, 100));
    assert!(cleanup_again(0, 0));
}

#[test]
fn keepalive_plans() {
    let p = keepalive_plan(true, 1_000_000, 1_000_000 - 180_001);
    assert!(p.remove_and_save && p.save_last_time);
    let p = keepalive_plan(true, 1_000_000, 1_000_000 - 180_000);
    assert!(!p.remove_and_save && p.save_last_time);
    let p = keepalive_plan(false, 1_000_000, 0);
    assert!(!p.remove_and_save && !p.save_last_time);
}

#[test]
fn disconnect_info_accumulates_reasons() {
    let mut flags = StateFlags::initial(false, false, true);
    let mut d = DisconnectInfo { disconnected_at: 0, reasons: vec![], mqtt_disconnect: None };
    d.disconnected_set(&mut flags, 500, Some("normal".to_string()), Some("kicked".to_string()));
    assert_eq!(d.disconnected_at, 500);
    assert!(!flags.has(CONNECTED));
    assert_eq!(d.reasons, vec!["normal".to_string(), "kicked".to_string()]);
    assert_eq!(d.mqtt_disconnect, Some("normal".to_string()));
    d.disconnected_set(&mut flags, 900, None, Some("again".to_string()));
    assert_eq!(d.disconnected_at, 500);
    assert_eq!(d.mqtt_disconnect, Some("normal".to_string()));
    assert!(d.reason_has());
    d.reason_add("later".to_string());
    let taken = d.reason_take();
    assert_eq!(taken, vec!["normal".to_string(), "kicked".to_string(), "again".to_string(), "later".to_string()]);
    assert!(!d.reason_has());
}
