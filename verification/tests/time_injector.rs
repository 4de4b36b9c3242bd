use rmqtt_plugins::message::Publish;
use rmqtt_plugins::time_injector::{inject_rts, stamp_publish, with_stamped_payload};

#[test]
fn rts_added_to_objects() {
    let out = inject_rts(br#"{"t":1}"#, 42).unwrap();
    let v: serde_json::Value = serde_json::from_slice(&out).unwrap();
    assert_eq!(v["rts"], 42);
    assert_eq!(v["t"], 1);
}

#[test]
fn non_objects_and_non_json() {
    assert_eq!(inject_rts(b"[1,2]", 42).unwrap(), b"[1,2]".to_vec());
    assert!(inject_rts(b"not json", 42).is_none());
}

#[test]
fn publish_stamped() {
    let p = Publish {
        dup: false,
        retain: false,
        qos: 0,
        topic: "t".to_string(),
        packet_id: None,
        payload: br#"{}"#.to_vec(),
        target_clientid: None,
        create_time: Some(9),
    };
    let q = stamp_publish(&p).unwrap();
    assert_eq!(q.topic, "t");
    let v: serde_json::Value = serde_json::from_slice(&q.payload).unwrap();
    assert_eq!(v["rts"], 9);
    let mut none = p;
    none.create_time = None;
    assert!(stamp_publish(&none).is_none());
}

#[test]
fn payload_replaced_only_when_stamped() {
    let p = Publish {
        dup: true,
        retain: false,
        qos: 2,
        topic: "a/b".to_string(),
        packet_id: Some(7),
        payload: b"old".to_vec(),
        target_clientid: None,
        create_time: Some(1),
    };
    let q = with_stamped_payload(&p, Some(b"new".to_vec())).unwrap();
    assert_eq!(q.payload, b"new".to_vec());
    assert_eq!(q.topic, "a/b");
    assert_eq!(q.packet_id, Some(7));
    assert!(q.dup);
    assert!(with_stamped_payload(&p, None).is_none());
}
