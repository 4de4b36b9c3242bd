use rmqtt_plugins::value_cache::refresh_result;
use rmqtt_plugins::value_cache::ValueCache;

const SHORT: u64 = 50;
const WAIT: u64 = 300;

/// Runs a call at `now`; when it starts a refresh, the refresh's result is
/// returned for the test to hand back later (as the background task would).
fn call(c: &mut ValueCache<usize>, now: u64, refresh: Result<usize, String>) -> (bool, Option<Result<usize, String>>) {
    let o = c.call(now);
    (o.spawned, if o.spawned { Some(refresh) } else { None })
}

fn value(c: &ValueCache<usize>) -> Option<usize> {
    c.get().unwrap().copied()
}

#[test]
fn first_call_no_value() {
    let mut cached: ValueCache<usize> = ValueCache::new(SHORT, 0);
    let o = cached.call(0);
    assert!(cached.get().unwrap().is_none(), "first call should return None (no cached value)");
    assert!(!o.has_value, "has_value should be false");
    assert!(o.spawned, "should have spawned a background refresh");
    cached.refresh_done(Ok(42), WAIT);
    let (_, pending) = call(&mut cached, WAIT, Ok(99));
    assert_eq!(value(&cached), Some(42), "should return the stored 42, not 99");
    assert!(pending.is_none());
}

#[test]
fn fresh_cache_no_spawn() {
    let mut cached: ValueCache<usize> = ValueCache::new(5000, 0);
    let (spawned, pending) = call(&mut cached, 0, Ok(42));
    assert!(spawned);
    cached.refresh_done(pending.unwrap(), WAIT);
    let (spawned, pending) = call(&mut cached, WAIT + 1, Ok(99));
    assert_eq!(value(&cached), Some(42), "should return the cached value");
    assert!(!spawned, "should NOT have spawned a refresh");
    assert!(pending.is_none(), "the closure should NOT have been called");
}

#[test]
fn expired_cache_stale_while_revalidate() {
    let mut cached: ValueCache<usize> = ValueCache::new(SHORT, 0);
    let (_, pending) = call(&mut cached, 0, Ok(10));
    cached.refresh_done(pending.unwrap(), WAIT);
    let now = WAIT + SHORT + 1;
    let (spawned, pending) = call(&mut cached, now, Ok(20));
    assert_eq!(value(&cached), Some(10), "should return stale value 10, not wait for 20");
    assert!(spawned, "should have spawned a background refresh");
    cached.refresh_done(pending.unwrap(), now + WAIT);
    let (_, _) = call(&mut cached, now + WAIT, Ok(99));
    assert_eq!(value(&cached), Some(20), "should now return the refreshed value 20");
}

#[test]
fn cas_prevents_duplicate_refresh() {
    let mut cached: ValueCache<usize> = ValueCache::new(SHORT, 0);
    let (_, pending) = call(&mut cached, 0, Ok(1));
    cached.refresh_done(pending.unwrap(), WAIT);
    let now = WAIT + SHORT + 1;
    let (s1, p1) = call(&mut cached, now, Ok(10));
    let v1 = value(&cached);
    let (s2, p2) = call(&mut cached, now, Ok(20));
    let v2 = value(&cached);
    assert_eq!(v1, Some(1), "r1: stale value");
    assert_eq!(v2, Some(1), "r2: stale value");
    assert!(s1 || s2, "at least one call should spawn");
    let calls = [p1, p2].iter().filter(|p| p.is_some()).count();
    assert_eq!(calls, 1, "closure should be called exactly once");
}

#[test]
fn background_refresh_updates_cache() {
    let mut cached: ValueCache<usize> = ValueCache::new(SHORT, 0);
    let (_, pending) = call(&mut cached, 0, Ok(1));
    cached.refresh_done(pending.unwrap(), WAIT);
    let now = WAIT + SHORT + 1;
    let (_, slow) = call(&mut cached, now, Ok(2));
    let (_, _) = call(&mut cached, now + 1, Ok(99));
    assert_eq!(value(&cached), Some(1), "still stale before refresh completes");
    assert!(slow.is_some(), "slow refresh should have completed");
    cached.refresh_done(slow.unwrap(), now + 100);
    let (_, _) = call(&mut cached, now + 100, Ok(99));
    assert_eq!(value(&cached), Some(2), "cache should now have the refreshed value");
}

#[test]
fn refresh_error_cached() {
    let mut cached: ValueCache<usize> = ValueCache::new(SHORT, 0);
    let (_, pending) = call(&mut cached, 0, Ok(1));
    cached.refresh_done(pending.unwrap(), WAIT);
    let now = WAIT + SHORT + 1;
    let (_, pending) = call(&mut cached, now, Err("storage error".to_string()));
    cached.refresh_done(pending.unwrap(), now + WAIT);
    let (_, _) = call(&mut cached, now + WAIT, Ok(3));
    match cached.get() {
        Err(e) => assert!(e.contains("storage error"), "error should be preserved"),
        Ok(v) => panic!("expected error, got Ok({v:?})"),
    }
}

#[test]
fn sync_variant_works() {
    let mut cached: ValueCache<usize> = ValueCache::new(SHORT, 0);
    let (_, pending) = call(&mut cached, 0, Ok(42));
    assert!(cached.get().unwrap().is_none(), "first call should return None");
    cached.refresh_done(pending.unwrap(), WAIT);
    let (_, _) = call(&mut cached, WAIT, Ok(99));
    assert_eq!(value(&cached), Some(42), "should have the cached value from spawn_blocking");
}

#[test]
fn multiple_expiry_cycles() {
    let mut cached: ValueCache<usize> = ValueCache::new(SHORT, 0);
    let (_, pending) = call(&mut cached, 0, Ok(1));
    cached.refresh_done(pending.unwrap(), WAIT);
    let mut now = WAIT + SHORT + 1;
    let (spawned, pending) = call(&mut cached, now, Ok(2));
    assert_eq!(value(&cached), Some(1), "stale 1 before refresh");
    assert!(spawned);
    cached.refresh_done(pending.unwrap(), now + WAIT);
    now += WAIT + SHORT + 1;
    let (spawned, pending) = call(&mut cached, now, Ok(3));
    assert_eq!(value(&cached), Some(2), "stale 2 before refresh");
    assert!(spawned);
    cached.refresh_done(pending.unwrap(), now + WAIT);
    let (_, _) = call(&mut cached, now + WAIT, Ok(99));
    assert_eq!(value(&cached), Some(3), "final value should be 3");
}

#[test]
fn clock_going_back_does_not_expire() {
    let mut cached: ValueCache<usize> = ValueCache::new(SHORT, 1_000);
    cached.refresh_done(Ok(5), 1_000);
    let o = cached.call(10);
    assert!(!o.expired);
    assert!(!o.spawned);
}

#[test]
fn timed_out_refresh_caches_timeout_error() {
    let mut c: ValueCache<u32> = ValueCache::new(100, 0);
    let o = c.call(0);
    assert!(o.spawned);
    c.refresh_done(refresh_result(None), 5);
    assert_eq!(c.get().err(), Some("ValueCached refresh timeout".to_string()));
    assert!(!c.refreshing);
    assert_eq!(refresh_result(Some(Ok(7u32))), Ok(7));
    let o = c.call(50);
    assert!(!o.spawned && !o.expired);
}
