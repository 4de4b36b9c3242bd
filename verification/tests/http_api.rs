use rmqtt_plugins::http_api::{
    next_search_limit, normalize_limit, offline_query, publish_plan, PublishError, PublishParams,
    continues_after, filtering, grpc_route, make_key, round_down, rounded_timestamp_ms, search, ClientSearchParams,
    ClientSnapshot, GrpcRoute, Message,
};
use rmqtt_plugins::http_api::{trim_chars, bearer_ok, ApiSettings, payload_encoding, plan_from_parts, PayloadEncoding, RefreshThrottle, result_times, node_target, remote_subscribe_reply, session_route, NodeTarget, SessionRoute, SubscribeReply};

fn params() -> ClientSearchParams {
    ClientSearchParams {
        _limit: 10,
        clientid: None,
        username: None,
        ip_address: None,
        connected: None,
        session_present: None,
        clean_start: None,
        proto_ver: None,
        _like_clientid: None,
        _like_username: None,
        _gte_created_at: None,
        _lte_created_at: None,
        _gte_connected_at: None,
        _lte_connected_at: None,
        _gte_mqueue_len: None,
        _lte_mqueue_len: None,
    }
}

fn snap(cid: &str, user: &str, connected: bool, created_at: i64, mqueue_len: usize) -> ClientSnapshot {
    ClientSnapshot {
        client_id: cid.to_string(),
        username: user.to_string(),
        ip_address: Some("10.0.0.1".to_string()),
        connected,
        session_present: false,
        clean_start: true,
        proto_ver: 4,
        created_at,
        connected_at: created_at + 1,
        mqueue_len,
    }
}

#[test]
fn filters_each_field() {
    let c = snap("dev-001", "alice", true, 1_000, 3);
    assert!(filtering(&params(), Some(&c)));
    assert!(!filtering(&params(), None));
    let mut q = params();
    q._like_clientid = Some("001".to_string());
    assert!(filtering(&q, Some(&c)));
    q._like_clientid = Some("002".to_string());
    assert!(!filtering(&q, Some(&c)));
    let mut q = params();
    q.username = Some("bob".to_string());
    assert!(!filtering(&q, Some(&c)));
    let mut q = params();
    q._gte_created_at = Some(1_000);
    q._lte_created_at = Some(1_000);
    assert!(filtering(&q, Some(&c)));
    q._gte_created_at = Some(1_001);
    assert!(!filtering(&q, Some(&c)));
    let mut q = params();
    q._lte_mqueue_len = Some(2);
    assert!(!filtering(&q, Some(&c)));
    let mut q = params();
    q.ip_address = Some("10.0.0.1".to_string());
    assert!(filtering(&q, Some(&c)));
    let mut no_ip = snap("x", "", false, 0, 0);
    no_ip.ip_address = None;
    assert!(!filtering(&q, Some(&no_ip)));
    let mut q = params();
    q.connected = Some(false);
    assert!(!filtering(&q, Some(&c)));
}

#[test]
fn search_respects_limit_and_order() {
    let entries = vec![
        Some(snap("a1", "u", true, 0, 0)),
        None,
        Some(snap("b1", "u", false, 0, 0)),
        Some(snap("a2", "u", true, 0, 0)),
        Some(snap("a3", "u", true, 0, 0)),
    ];
    let mut q = params();
    q.connected = Some(true);
    assert_eq!(search(&q, &entries), vec![0, 3, 4]);
    q._limit = 2;
    assert_eq!(search(&q, &entries), vec![0, 3]);
    q._limit = 0;
    assert_eq!(search(&q, &entries), Vec::<usize>::new());
}

#[test]
fn history_keys_and_buckets() {
    assert_eq!(make_key("stats_hist", 1, 1_700_000_000_000), "stats_hist:1:1700000000000");
    assert_eq!(round_down(12_345, 1_000), 12_000);
    assert_eq!(round_down(999, 1_000), 0);
    assert_eq!(rounded_timestamp_ms(60_000) % 60_000, 0);
}

#[test]
fn grpc_routing() {
    assert_eq!(grpc_route(7, 8, true), GrpcRoute::Pass);
    assert_eq!(grpc_route(7, 7, true), GrpcRoute::Serve);
    assert_eq!(grpc_route(7, 7, false), GrpcRoute::Unsupported);
    assert!(!continues_after(GrpcRoute::Serve));
    assert!(continues_after(GrpcRoute::Pass));
    let m = Message::ClientGet { clientid: "c".to_string() };
    assert!(matches!(m, Message::ClientGet { .. }));
}

fn pub_params(topics: Option<&str>, topic: Option<&str>, encoding: &str, payload: &str, qos: u8) -> PublishParams {
    PublishParams {
        topics: topics.map(|t| t.to_string()),
        topic: topic.map(|t| t.to_string()),
        clientid: "admin-c".to_string(),
        payload: payload.to_string(),
        encoding: encoding.to_string(),
        qos,
        retain: true,
        message_expiry_interval: None,
    }
}

#[test]
fn publish_requests() {
    let p = publish_plan(&pub_params(Some(" a/b , c "), Some("d"), "PLAIN", "hi", 1), 5_000).unwrap();
    assert_eq!(p.topics, vec!["a/b".to_string(), "c".to_string(), "d".to_string()]);
    assert_eq!(p.payload, b"hi".to_vec());
    assert_eq!(p.qos, 1);
    assert_eq!(p.expiry_interval_ms, 5_000);
    let mut q = pub_params(None, Some("t"), "base64", "aGVsbG8=", 0);
    q.message_expiry_interval = Some(3);
    let p = publish_plan(&q, 5_000).unwrap();
    assert_eq!(p.payload, b"hello".to_vec());
    assert_eq!(p.expiry_interval_ms, 3_000);
    assert!(matches!(publish_plan(&pub_params(None, None, "plain", "x", 0), 1), Err(PublishError::EmptyTopics)));
    assert!(matches!(publish_plan(&pub_params(None, Some("t"), "plain", "x", 3), 1), Err(PublishError::Qos)));
    assert!(matches!(publish_plan(&pub_params(None, Some("t"), "hex", "x", 0), 1), Err(PublishError::Encoding)));
    assert!(matches!(publish_plan(&pub_params(None, Some("t"), "base64", "!!", 0), 1), Err(PublishError::Base64)));
}

#[test]
fn search_limits() {
    assert_eq!(normalize_limit(0, 100), 100);
    assert_eq!(normalize_limit(500, 100), 100);
    assert_eq!(normalize_limit(7, 100), 7);
    let q = offline_query(params(), 50);
    assert_eq!(q.connected, Some(false));
    assert_eq!(q._limit, 10);
    assert_eq!(next_search_limit(3, 10), Some(7));
    assert_eq!(next_search_limit(10, 10), None);
}

#[test]
fn node_target_resolves_local_remote_and_unknown() {
    let peers = vec![2u64, 3u64];
    assert_eq!(node_target(1, 1, &peers), NodeTarget::Local);
    assert_eq!(node_target(3, 1, &peers), NodeTarget::Remote);
    assert_eq!(node_target(9, 1, &peers), NodeTarget::NotFound);
    assert_eq!(node_target(2, 1, &vec![]), NodeTarget::NotFound);
}

#[test]
fn session_route_by_status() {
    assert_eq!(session_route(None, 1), SessionRoute::NoSession);
    assert_eq!(session_route(Some((false, 1)), 1), SessionRoute::Offline);
    assert_eq!(session_route(Some((true, 1)), 1), SessionRoute::Local);
    assert_eq!(session_route(Some((true, 4)), 1), SessionRoute::Remote(4));
}

#[test]
fn remote_subscribe_reply_values() {
    assert_eq!(remote_subscribe_reply(true, None), SubscribeReply::Done(true));
    assert_eq!(remote_subscribe_reply(false, None), SubscribeReply::Done(false));
    assert_eq!(remote_subscribe_reply(true, Some("x".to_string())), SubscribeReply::Done(true));
    assert_eq!(
        remote_subscribe_reply(false, Some("acl denied".to_string())),
        SubscribeReply::Refused("acl denied".to_string())
    );
}

#[test]
fn result_times_connected_and_offline() {
    let r = result_times(true, Some(1_700_000_000_999), None, Some(1_699_999_000_000), 7200, 1_700_000_100);
    assert_eq!(r.connected_at, 1_700_000_000);
    assert_eq!(r.disconnected_at, 0);
    assert_eq!(r.created_at, 1_699_999_000);
    assert_eq!(r.expiry_interval, 7200);
    let r = result_times(false, Some(1_000_000), Some(1_600_500), None, 7200, 2_600);
    assert_eq!(r.disconnected_at, 1_600);
    assert_eq!(r.created_at, 0);
    assert_eq!(r.expiry_interval, 7200 - 1000);
    let r = result_times(true, Some(-1_500), None, None, 0, 0);
    assert_eq!(r.connected_at, -1);
}

#[test]
fn prometheus_refresh_throttle() {
    let mut t = RefreshThrottle::new();
    assert!(t.refresh_enable(1000, 5));
    assert_eq!(t.last_refresh_secs, 1000);
    assert!(!t.refresh_enable(1003, 5));
    assert!(!t.refresh_enable(1005, 5));
    assert_eq!(t.last_refresh_secs, 1000);
    assert!(t.refresh_enable(1006, 5));
    assert_eq!(t.last_refresh_secs, 1006);
}

#[test]
fn payload_encodings() {
    assert_eq!(payload_encoding("plain"), PayloadEncoding::Plain);
    assert_eq!(payload_encoding("BASE64"), PayloadEncoding::Base64);
    assert_eq!(payload_encoding("hex"), PayloadEncoding::Unknown);
}

#[test]
fn plan_from_read_parts() {
    let p = PublishParams {
        topics: None,
        topic: Some("t".to_string()),
        clientid: "c".to_string(),
        payload: "aGk=".to_string(),
        encoding: "base64".to_string(),
        qos: 1,
        retain: true,
        message_expiry_interval: Some(3),
    };
    let plan = plan_from_parts(&p, vec!["t".to_string()], Some(b"hi".to_vec()), 60_000).unwrap();
    assert_eq!(plan.payload, b"hi".to_vec());
    assert_eq!(plan.expiry_interval_ms, 3_000);
    assert_eq!(plan_from_parts(&p, vec!["t".to_string()], None, 60_000).err(), Some(PublishError::Base64));
    assert_eq!(plan_from_parts(&p, vec![], Some(vec![]), 60_000).err(), Some(PublishError::EmptyTopics));
    let plain = PublishParams { encoding: "Plain".to_string(), message_expiry_interval: None, ..p };
    let plan = plan_from_parts(&plain, vec!["x".to_string(), "y".to_string()], None, 60_000).unwrap();
    assert_eq!(plan.payload, b"aGk=".to_vec());
    assert_eq!(plan.topics, vec!["x".to_string(), "y".to_string()]);
    assert_eq!(plan.expiry_interval_ms, 60_000);
}

#[test]
fn bearer_token_check() {
    assert!(bearer_ok(Some(b"Bearer s3cr3t"), "s3cr3t"));
    assert!(!bearer_ok(Some(b"bearer s3cr3t"), "s3cr3t"));
    assert!(!bearer_ok(Some(b"Bearer s3cr3"), "s3cr3t"));
    assert!(!bearer_ok(None, "s3cr3t"));
    assert!(bearer_ok(Some(b"Bearer "), ""));
}

fn settings(rows: usize, laddr: &str) -> ApiSettings {
    ApiSettings {
        workers: 1,
        max_row_limit: rows,
        http_laddr: laddr.to_string(),
        metrics_sample_interval_ms: 5_000,
        http_request_log: false,
    }
}

#[test]
fn settings_changes() {
    let a = settings(10_000, "0.0.0.0:6060");
    assert!(!a.changed(&settings(10_000, "0.0.0.0:6060")));
    assert!(!a.restart_enable(&settings(10_000, "0.0.0.0:6060")));
    assert!(a.changed(&settings(5, "0.0.0.0:6060")));
    assert!(!a.restart_enable(&settings(5, "0.0.0.0:6060")));
    assert!(a.changed(&settings(10_000, "0.0.0.0:7070")));
    assert!(a.restart_enable(&settings(10_000, "0.0.0.0:7070")));
}

#[test]
fn trim_matches_std() {
    for t in ["  a/b  ", "\u{3000}x\u{2028}", "\t\n", "", "a b", "\u{85}q\u{a0}", "\u{200b}z"] {
        let v: Vec<char> = t.chars().collect();
        let r: String = trim_chars(&v).into_iter().collect();
        assert_eq!(r, t.trim());
    }
}
