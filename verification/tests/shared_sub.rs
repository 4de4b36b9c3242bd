use rmqtt_plugins::shared_sub::{
    choice_by_hash, choice_from_ring, choice_local, choice_random, find_local_fallback, sticky_cache_size_default,
    sticky_decision, strategy_default, GroupCounters, SharedSubscriptionImpl, StickyUpdate, Strategy, Subscriber,
};

fn sub(node_id: u64, client_id: &str, is_online: bool) -> Subscriber {
    Subscriber { node_id, client_id: client_id.to_string(), is_online }
}

fn three_online() -> Vec<Subscriber> {
    vec![sub(1, "a", true), sub(2, "b", true), sub(3, "c", true)]
}

#[test]
fn defaults() {
    assert_eq!(strategy_default(), Strategy::RoundRobin);
    assert_eq!(sticky_cache_size_default(), 100_000);
}

#[test]
fn fallback_prefers_publisher_node() {
    let ncs = vec![sub(1, "a", false), sub(2, "b", false), sub(2, "c", false)];
    assert_eq!(find_local_fallback(2, &ncs), Some((1, false)));
    assert_eq!(find_local_fallback(9, &ncs), Some((0, false)));
    assert_eq!(find_local_fallback(9, &Vec::new()), None);
}

#[test]
fn ring_skips_offline_subscribers() {
    let ncs = vec![sub(1, "a", true), sub(1, "b", false), sub(1, "c", true)];
    assert_eq!(choice_from_ring(0, 1, &ncs), Some((0, true)));
    assert_eq!(choice_from_ring(1, 1, &ncs), Some((2, true)));
    assert_eq!(choice_from_ring(5, 1, &ncs), Some((2, true)));
    let offline = vec![sub(1, "a", false), sub(2, "b", false)];
    assert_eq!(choice_from_ring(1, 2, &offline), Some((1, false)));
}

#[test]
fn random_choice_is_online() {
    let ncs = vec![sub(1, "a", false), sub(1, "b", true), sub(1, "c", false)];
    for _ in 0..20 {
        assert_eq!(choice_random(1, &ncs), Some((1, true)));
    }
}

#[test]
fn local_choice_prefers_publisher_node() {
    let ncs = vec![sub(1, "a", true), sub(2, "b", false), sub(2, "c", true)];
    assert_eq!(choice_local(2, &ncs), Some((2, true)));
    assert_eq!(choice_local(3, &ncs), Some((0, true)));
}

#[test]
fn hash_choice_falls_back_when_target_offline() {
    let ncs = vec![sub(1, "a", false), sub(1, "b", true), sub(1, "c", false)];
    assert_eq!(choice_by_hash(4, 1, &ncs), Some((1, true)));
    assert_eq!(choice_by_hash(0, 1, &ncs), Some((1, true)));
    let all = three_online();
    assert_eq!(choice_by_hash(5, 1, &all), Some((2, true)));
}

#[test]
fn group_counters_advance_per_group() {
    let mut c = GroupCounters::new();
    assert_eq!(c.fetch_next("g1"), 0);
    assert_eq!(c.fetch_next("g1"), 1);
    assert_eq!(c.fetch_next("g2"), 0);
    assert_eq!(c.fetch_next("g1"), 2);
    assert_eq!(c.len(), 2);
}

#[test]
fn sticky_decision_keeps_online_binding() {
    let ncs = three_online();
    assert_eq!(sticky_decision(Some("b"), 1, &ncs), (Some((1, true)), StickyUpdate::Keep));
    assert_eq!(sticky_decision(None, 1, &ncs), (Some((0, true)), StickyUpdate::Bind(0)));
    let mut gone = three_online();
    gone[1].is_online = false;
    assert_eq!(sticky_decision(Some("b"), 1, &gone), (Some((0, true)), StickyUpdate::Bind(0)));
}

#[test]
fn round_robin_strategy_rotates() {
    let mut s = SharedSubscriptionImpl::new(Strategy::RoundRobin, 16);
    let ncs = three_online();
    let picks: Vec<_> = (0..4).map(|_| s.choice("g", "pub", 1, "t/1", &ncs)).collect();
    assert_eq!(picks, vec![Some((0, true)), Some((1, true)), Some((2, true)), Some((0, true))]);
    assert_eq!(s.rr_counter(), 4);
}

#[test]
fn round_robin_per_group_strategy_counts_each_group() {
    let mut s = SharedSubscriptionImpl::new(Strategy::RoundRobinPerGroup, 16);
    let ncs = three_online();
    assert_eq!(s.choice("g1", "pub", 1, "t", &ncs), Some((0, true)));
    assert_eq!(s.choice("g1", "pub", 1, "t", &ncs), Some((1, true)));
    assert_eq!(s.choice("g2", "pub", 1, "t", &ncs), Some((0, true)));
    assert_eq!(s.rr_group_count(), 2);
}

#[test]
fn sticky_strategy_binds_publisher() {
    let mut s = SharedSubscriptionImpl::new(Strategy::Sticky, 16);
    let ncs = vec![sub(1, "a", false), sub(1, "b", true), sub(1, "c", true)];
    assert_eq!(s.choice("g", "p1", 1, "t", &ncs), Some((1, true)));
    assert_eq!(s.sticky_binding_count(), 1);
    let reordered = vec![sub(1, "c", true), sub(1, "b", true)];
    assert_eq!(s.choice("g", "p1", 1, "t", &reordered), Some((1, true)));
}

#[test]
fn hash_strategies_are_stable() {
    let ncs = three_online();
    let mut s = SharedSubscriptionImpl::new(Strategy::HashClientId, 16);
    let first = s.choice("g", "publisher-7", 1, "t/a", &ncs);
    assert!(first.is_some());
    for _ in 0..5 {
        assert_eq!(s.choice("g", "publisher-7", 1, "t/b", &ncs), first);
    }
    let mut t = SharedSubscriptionImpl::new(Strategy::HashTopic, 16);
    let by_topic = t.choice("g", "p1", 1, "sensors/1", &ncs);
    assert_eq!(t.choice("g", "p2", 2, "sensors/1", &ncs), by_topic);
}

#[test]
fn nobody_online_goes_to_publisher_node() {
    let ncs = vec![sub(1, "a", false), sub(2, "b", false)];
    for strategy in [
        Strategy::Random,
        Strategy::RoundRobin,
        Strategy::RoundRobinPerGroup,
        Strategy::Sticky,
        Strategy::Local,
        Strategy::HashClientId,
        Strategy::HashTopic,
    ] {
        let mut s = SharedSubscriptionImpl::new(strategy, 16);
        assert_eq!(s.choice("g", "p", 2, "t", &ncs), Some((1, false)));
        assert_eq!(s.choice("g", "p", 2, "t", &Vec::new()), None);
    }
}

#[test]
fn shared_subscriptions_supported_for_every_strategy() {
    for st in [
        Strategy::Random,
        Strategy::RoundRobin,
        Strategy::RoundRobinPerGroup,
        Strategy::Sticky,
        Strategy::Local,
        Strategy::HashClientId,
        Strategy::HashTopic,
    ] {
        let s = SharedSubscriptionImpl::new(st, 4);
        assert!(s.is_supported());
        assert_eq!(s.sticky_binding_count(), 0);
    }
}
