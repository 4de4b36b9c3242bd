use rmqtt_plugins::message::{MsgFrom, Publish};
use rmqtt_plugins::session_store::{
    list_stored_key_to_id_bytes, load_session_infos, make_list_stored_key, make_map_stored_key,
    map_stored_key_to_id_bytes, rebuild_decision, session_expiry_interval, DisconnectState, LoadedOffline,
    LoadedSession, RebuildAction, SessionBasic, StoredSessionInfo, StoredSessionInfos, InflightMessage,
    InflightStatus,
};

fn basic(cid: &str, connected_at: i64) -> SessionBasic {
    SessionBasic { client_id: cid.to_string(), created_at: connected_at - 5, connected_at }
}

fn info(key: &str, cid: &str, last_time: i64) -> StoredSessionInfo {
    let mut s = StoredSessionInfo::from(key.as_bytes().to_vec(), basic(cid, 0));
    s.set_last_time(last_time);
    s
}

fn publish(topic: &str) -> Publish {
    Publish {
        dup: false,
        retain: false,
        qos: 0,
        topic: topic.to_string(),
        packet_id: None,
        payload: b"x".to_vec(),
        target_clientid: None,
        create_time: None,
    }
}

fn from(cid: &str) -> MsgFrom {
    MsgFrom { node_id: 1, client_id: cid.to_string() }
}

#[test]
fn stored_keys_carry_their_prefix() {
    assert_eq!(make_map_stored_key(b"1@c1"), b"map-1@c1".to_vec());
    assert_eq!(make_list_stored_key(b"1@c1"), b"list-1@c1".to_vec());
}

#[test]
fn stored_keys_round_trip() {
    let id = b"node/10.0.0.1:1883/c1".to_vec();
    assert_eq!(map_stored_key_to_id_bytes(&make_map_stored_key(&id)), id.as_slice());
    assert_eq!(list_stored_key_to_id_bytes(&make_list_stored_key(&id)), id.as_slice());
}

#[test]
fn keys_without_prefix_are_returned_whole() {
    assert_eq!(map_stored_key_to_id_bytes(b"list-abc"), b"list-abc");
    assert_eq!(list_stored_key_to_id_bytes(b"map-abc"), b"map-abc");
    assert_eq!(map_stored_key_to_id_bytes(b"map"), b"map");
    assert_eq!(map_stored_key_to_id_bytes(b"map-"), b"");
}

#[test]
fn last_time_only_moves_forward() {
    let mut s = StoredSessionInfo::from(b"k".to_vec(), basic("c", 100));
    assert_eq!(s.last_time, 100);
    s.set_last_time(50);
    assert_eq!(s.last_time, 100);
    s.set_last_time(200);
    assert_eq!(s.last_time, 200);
}

#[test]
fn add_groups_by_client() {
    let mut infos = StoredSessionInfos::new();
    infos.add(info("k1", "a", 1));
    infos.add(info("k2", "b", 1));
    infos.add(info("k3", "a", 2));
    assert_eq!(infos.len(), 2);
    let a = infos.get("a").unwrap();
    assert_eq!(a.len(), 2);
    assert_eq!(a[0].id_key, b"k1".to_vec());
    assert_eq!(a[1].id_key, b"k3".to_vec());
    assert!(infos.get("z").is_none());
}

#[test]
fn retain_latests_keeps_latest_session() {
    let mut infos = StoredSessionInfos::new();
    infos.add(info("k1", "a", 5));
    infos.add(info("k2", "a", 1));
    infos.add(info("k3", "a", 3));
    infos.add(info("k4", "b", 7));
    let mut removed = infos.retain_latests();
    removed.sort();
    assert_eq!(removed, vec![b"k2".to_vec(), b"k3".to_vec()]);
    let a = infos.get("a").unwrap();
    assert_eq!(a.len(), 1);
    assert_eq!(a[0].id_key, b"k1".to_vec());
    assert_eq!(infos.get("b").unwrap().len(), 1);
}

#[test]
fn retain_latests_prefers_later_stored_on_tie() {
    let mut infos = StoredSessionInfos::new();
    infos.add(info("k1", "a", 9));
    infos.add(info("k2", "a", 9));
    let removed = infos.retain_latests();
    assert_eq!(removed, vec![b"k1".to_vec()]);
    assert_eq!(infos.get("a").unwrap()[0].id_key, b"k2".to_vec());
}

#[test]
fn offline_messages_land_on_matching_session() {
    let mut infos = StoredSessionInfos::new();
    infos.add(info("k1", "a", 1));
    let ok = infos.set_offline_messages(
        b"k1",
        vec![Some(("a".to_string(), from("p"), publish("t/1"))), None, Some(("b".to_string(), from("p"), publish("t/2")))],
    );
    assert!(ok);
    assert_eq!(infos.get("a").unwrap()[0].offline_messages.len(), 1);
    let missed = infos.set_offline_messages(b"k9", vec![Some(("a".to_string(), from("p"), publish("t/3")))]);
    assert!(!missed);
    assert_eq!(infos.get("a").unwrap()[0].offline_messages.len(), 1);
}

#[test]
fn expiry_counts_from_disconnect() {
    assert_eq!(session_expiry_interval(10_000, Some(1_000), 500, 4_000), 7_000);
    assert_eq!(session_expiry_interval(10_000, Some(0), 500, 4_000), 6_500);
    assert_eq!(session_expiry_interval(10_000, None, 2_000, 4_000), 8_000);
    assert_eq!(session_expiry_interval(1_000, None, 0, 4_000), -3_000);
}

#[test]
fn rebuild_decisions() {
    let mut s = info("id1", "a", 1_000);
    assert!(matches!(rebuild_decision(&mut s, false, 10_000, 2_000), RebuildAction::NoListener));
    match rebuild_decision(&mut s, true, 500, 2_000) {
        RebuildAction::Expired { map_key, list_key } => {
            assert_eq!(map_key, b"map-id1".to_vec());
            assert_eq!(list_key, b"list-id1".to_vec());
        }
        _ => panic!("expected expiry"),
    }
    s.set_disconnect_info(DisconnectState { disconnected_at: 1_500 });
    s.set_subs(vec!["t/#".to_string()]);
    s.offline_messages.push((from("p"), publish("t/1")));
    s.set_inflight_messages(vec![InflightMessage {
        publish: publish("t/2"),
        from: from("q"),
        status: InflightStatus::UnAck,
        update_time: 1_400,
    }]);
    match rebuild_decision(&mut s, true, 10_000, 2_000) {
        RebuildAction::Restore { expiry_interval_ms, disconnected_at, subs, offline_messages, inflight_messages } => {
            assert_eq!(expiry_interval_ms, 9_500);
            assert_eq!(disconnected_at, 1_500);
            assert_eq!(subs, vec!["t/#".to_string()]);
            assert_eq!(offline_messages.len(), 1);
            assert_eq!(offline_messages[0].1.topic, "t/1");
            assert_eq!(inflight_messages.len(), 1);
            assert_eq!(inflight_messages[0].publish.topic, "t/2");
            assert_eq!(inflight_messages[0].status, InflightStatus::UnAck);
        }
        _ => panic!("expected restore"),
    }
    assert!(s.subs.is_none() && s.offline_messages.is_empty() && s.inflight_messages.is_empty());
    assert!(s.disconnect_info.is_none());
}

#[test]
fn load_plan_drops_broken_and_stale_records() {
    let sessions = vec![
        LoadedSession {
            name: b"map-old".to_vec(),
            basic: Some(basic("a", 10)),
            last_time: Some(20),
            subs: Some(vec!["t/#".to_string()]),
            disconnect_info: None,
            inflight_messages: None,
        },
        LoadedSession {
            name: b"map-broken".to_vec(),
            basic: None,
            last_time: None,
            subs: None,
            disconnect_info: None,
            inflight_messages: None,
        },
        LoadedSession {
            name: b"map-new".to_vec(),
            basic: Some(basic("a", 30)),
            last_time: None,
            subs: None,
            disconnect_info: Some(DisconnectState { disconnected_at: 40 }),
            inflight_messages: Some(vec![InflightMessage {
                publish: publish("t/9"),
                from: from("p"),
                status: InflightStatus::UnComplete,
                update_time: 35,
            }]),
        },
    ];
    let offline = vec![
        LoadedOffline { name: b"list-new".to_vec(), messages: Some(vec![Some(("a".to_string(), from("p"), publish("t/1")))]) },
        LoadedOffline { name: b"list-gone".to_vec(), messages: Some(vec![Some(("x".to_string(), from("p"), publish("t/1")))]) },
        LoadedOffline { name: b"list-bad".to_vec(), messages: None },
    ];
    let plan = load_session_infos(sessions, offline);
    assert_eq!(plan.infos.len(), 1);
    let a = plan.infos.get("a").unwrap();
    assert_eq!(a.len(), 1);
    assert_eq!(a[0].id_key, b"new".to_vec());
    assert_eq!(a[0].offline_messages.len(), 1);
    assert_eq!(a[0].inflight_messages.len(), 1);
    assert_eq!(a[0].inflight_messages[0].status, InflightStatus::UnComplete);
    assert_eq!(plan.map_removals, vec![b"map-broken".to_vec(), b"map-old".to_vec()]);
    assert_eq!(plan.list_removals, vec![b"list-gone".to_vec(), b"list-bad".to_vec(), b"list-old".to_vec()]);
}

use rmqtt_plugins::session_store::{is_session_expiry, KeyError};
use rmqtt_plugins::storage::Metadata;

#[test]
fn records_by_key() {
    let meta = Metadata::new(b"1@c".to_vec(), 500, 10);
    let s = StoredSessionInfo::from_meta(meta, basic("c", 100)).unwrap();
    assert_eq!(s.last_time, 500);
    let mut infos = StoredSessionInfos::new();
    infos.add(s);
    infos.add_subs("c", b"1@c", 800, vec!["a/#".to_string()]).unwrap();
    infos.add_disconnect_info("c", b"1@c", 700, DisconnectState { disconnected_at: 650 }).unwrap();
    infos.set_last_time("c", b"1@c", 600).unwrap();
    infos.set_last_time("c", b"other", 9_999).unwrap();
    let got = &infos.get("c").unwrap()[0];
    assert_eq!(got.subs, Some(vec!["a/#".to_string()]));
    assert_eq!(got.disconnect_info.as_ref().map(|d| d.disconnected_at), Some(650));
    assert_eq!(got.last_time, 800);
    assert_eq!(infos.set_last_time("c", &[0xff, 0xfe], 1), Err(KeyError::InvalidKey));
    assert!(StoredSessionInfo::from_meta(Metadata::new(vec![0xc3], 1, 1), basic("c", 1)).is_err());
}

#[test]
fn session_expiry_checks() {
    assert!(is_session_expiry(false, 10_000, None, 0, 1));
    assert!(!is_session_expiry(true, 10_000, None, 0, 1));
    assert!(is_session_expiry(true, 10_000, Some(5), 0, 10_005));
}

use rmqtt_plugins::session_store::create_plan;

#[test]
fn create_plans() {
    let p = create_plan(true, true, Some(b"old"));
    assert!(!p.persistent && !p.save_now && p.clear_last.is_none());
    let p = create_plan(false, false, Some(b"old"));
    assert!(p.persistent && !p.save_now && p.clear_last.is_none());
    let p = create_plan(false, true, Some(b"old"));
    assert!(p.persistent && p.save_now);
    assert_eq!(p.clear_last, Some((b"map-old".to_vec(), b"list-old".to_vec())));
    assert!(create_plan(false, true, None).clear_last.is_none());
}
