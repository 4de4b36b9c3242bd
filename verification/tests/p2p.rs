use rmqtt_plugins::message::Publish;
use rmqtt_plugins::p2p::{mode_default, mode_name, p2p_publish, parse_mode, parse_p2p_topic, Mode, P2PError};

#[test]
fn modes() {
    assert_eq!(mode_default(), Mode::Prefix);
    assert_eq!(parse_mode("both"), Some(Mode::Both));
    assert_eq!(parse_mode("Both"), None);
    assert_eq!(mode_name(Mode::Suffix), "suffix");
}

#[test]
fn prefix_topics() {
    let m = parse_p2p_topic(Mode::Prefix, "p2p/c1/a/b").unwrap().unwrap();
    assert_eq!(m.clientid, "c1");
    assert_eq!(m.topic, "a/b");
    assert!(parse_p2p_topic(Mode::Prefix, "a/b/p2p/c1").unwrap().is_none());
    assert!(parse_p2p_topic(Mode::Prefix, "p2p/c1").unwrap().is_none());
    assert!(matches!(parse_p2p_topic(Mode::Prefix, "p2p//a"), Err(P2PError::ClientIdNotFound)));
    assert!(matches!(parse_p2p_topic(Mode::Prefix, "p2p/c1/"), Err(P2PError::SubTopicNotFound)));
}

#[test]
fn suffix_and_both_topics() {
    let m = parse_p2p_topic(Mode::Suffix, "a/b/p2p/c9").unwrap().unwrap();
    assert_eq!(m.clientid, "c9");
    assert_eq!(m.topic, "a/b");
    let m = parse_p2p_topic(Mode::Both, "p2p/c1/a").unwrap().unwrap();
    assert_eq!((m.clientid.as_str(), m.topic.as_str()), ("c1", "a"));
    let m = parse_p2p_topic(Mode::Both, "a/p2p/c2").unwrap().unwrap();
    assert_eq!((m.clientid.as_str(), m.topic.as_str()), ("c2", "a"));
    assert!(matches!(parse_p2p_topic(Mode::Suffix, "a/p2p/"), Err(P2PError::ClientIdNotFound)));
}

#[test]
fn publish_rewritten() {
    let p = Publish {
        dup: false,
        retain: false,
        qos: 1,
        topic: "p2p/c1/x".to_string(),
        packet_id: Some(3),
        payload: b"hi".to_vec(),
        target_clientid: None,
        create_time: Some(7),
    };
    let q = p2p_publish(Mode::Prefix, &p).unwrap();
    assert_eq!(q.topic, "x");
    assert_eq!(q.target_clientid, Some("c1".to_string()));
    assert_eq!(q.payload, b"hi".to_vec());
    let mut plain = p;
    plain.topic = "x/y".to_string();
    assert!(p2p_publish(Mode::Both, &plain).is_none());
}
