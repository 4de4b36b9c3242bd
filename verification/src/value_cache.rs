//! A cache that serves its value while it refreshes it in the background
//! (stale-while-revalidate). A call never waits: it reports what is cached
//! and whether it started a refresh; at most one refresh runs at a time.
//! The caller runs the refresh and hands its result back with
//! [`ValueCache::refresh_done`]. Times are milliseconds of a monotonic clock.
use vstd::prelude::*;

verus! {

/// The cache's state.
pub struct ValueCache<T> {
    /// The last result of a refresh: a value or the error it failed with.
    pub cached: Option<Result<T, String>>,
    pub expire_interval_ms: u64,
    /// When the cached result was stored (or the cache was made).
    pub refreshed_at_ms: u64,
    /// Whether a refresh is under way.
    pub refreshing: bool,
}

/// What a call saw and did.
#[derive(Debug, Clone, Copy, PartialEq, Eq, Structural)]
pub struct CallOutcome {
    /// A result was cached when the call came.
    pub has_value: bool,
    /// Nothing was cached, or what was is older than the expiry interval.
    pub expired: bool,
    /// This call started a refresh, which the caller is to run.
    pub spawned: bool,
}

/// Whether what is cached is missing or stale at `now`.
pub open spec fn is_expired<T>(c: ValueCache<T>, now: u64) -> bool {
    c.cached is None || now - c.refreshed_at_ms > c.expire_interval_ms
}

/// What a call at `now` does: it reports whether something is cached and
/// whether that is stale, and starts a refresh when it is stale and none is
/// under way. The cached result itself is left as it is.
pub open spec fn call_spec<T>(c: ValueCache<T>, now: u64) -> (ValueCache<T>, CallOutcome) {
    let expired = is_expired(c, now);
    let spawned = expired && !c.refreshing;
    (
        ValueCache { refreshing: c.refreshing || spawned, ..c },
        CallOutcome { has_value: c.cached is Some, expired, spawned },
    )
}

/// What a refresh finishing at `now` with `result` does.
pub open spec fn done_spec<T>(c: ValueCache<T>, result: Result<T, String>, now: u64) -> ValueCache<T> {
    ValueCache { cached: Some(result), refreshed_at_ms: now, refreshing: false, ..c }
}

impl<T> ValueCache<T> {
    /// An empty cache made at `now`, whose results stay fresh for
    /// `expire_interval_ms`.
    pub fn new(expire_interval_ms: u64, now: u64) -> (c: ValueCache<T>)
        ensures
            c.cached is None,
            c.expire_interval_ms == expire_interval_ms,
            c.refreshed_at_ms == now,
            !c.refreshing,
    {
        ValueCache { cached: None, expire_interval_ms, refreshed_at_ms: now, refreshing: false }
    }

    /// A call at `now`: when the cached result is missing or stale and no
    /// refresh is under way, it starts one (see [`call_spec`]).
    pub fn call(&mut self, now: u64) -> (o: CallOutcome)
        ensures
            (*final(self), o) == call_spec(*old(self), now),
    {
        let has_value = self.cached.is_some();
        let expired = match &self.cached {
            None => true,
            Some(_) => now > self.refreshed_at_ms && now - self.refreshed_at_ms > self.expire_interval_ms,
        };
        let spawned = if expired && !self.refreshing {
            self.refreshing = true;
            true
        } else {
            false
        };
        CallOutcome { has_value, expired, spawned }
    }

    /// A refresh finished at `now` with `result`: it is cached from now on,
    /// and another refresh may start.
    pub fn refresh_done(&mut self, result: Result<T, String>, now: u64)
        ensures
            *final(self) == done_spec(*old(self), result, now),
    {
        self.cached = Some(result);
        self.refreshed_at_ms = now;
        self.refreshing = false;
    }

    /// What is cached: the value, even a stale one; the error the last
    /// refresh failed with; or nothing yet.
    pub fn get(&self) -> (r: Result<Option<&T>, String>)
        ensures
            match self.cached {
                Some(Ok(v)) => r matches Ok(x) && x == Some(&v),
                Some(Err(e)) => r matches Err(m) && m@ == e@,
                None => r matches Ok(x) && x is None,
            },
    {
        match &self.cached {
            Some(Ok(v)) => Ok(Some(v)),
            Some(Err(e)) => Err(crate::message::copy_string(e)),
            None => Ok(None),
        }
    }
}

/// The error a refresh that ran past its time limit leaves cached.
pub open spec fn timeout_text() -> Seq<char> {
    "ValueCached refresh timeout"@
}

/// What a refresh run with a time limit hands back: its own result when it
/// finished in time (`finished`), else the timeout error.
pub fn refresh_result<T>(finished: Option<Result<T, String>>) -> (r: Result<T, String>)
    ensures
        match finished {
            Some(x) => r == x,
            None => r matches Err(e) && e@ == timeout_text(),
        },
{
    match finished {
        Some(x) => x,
        None => {
            proof {
                reveal_strlit("ValueCached refresh timeout");
            }
            Err(crate::text::owned("ValueCached refresh timeout"))
        },
    }
}

/// A refresh that times out is not lost: its timeout error is cached, and
/// another refresh may start at once.
pub proof fn law_timeout_cached<T>(c: ValueCache<T>, e: String, now: u64)
    requires
        e@ == timeout_text(),
    ensures
        ({
            let c2 = done_spec(c, Err(e), now);
            &&& c2.cached matches Some(Err(x)) && x == e
            &&& !c2.refreshing
        }),
{
}

/// A call that finds a fresh result starts no refresh and changes nothing:
/// the refresh it was handed is dropped.
pub proof fn law_fresh_call_changes_nothing<T>(c: ValueCache<T>, now: u64)
    requires
        !is_expired(c, now),
    ensures
        ({
            let (c2, o) = call_spec(c, now);
            &&& !o.spawned
            &&& c2 == c
        }),
{
}

/// Of two calls with no refresh finishing in between, at most one starts a
/// refresh; the cached result stays what it was.
pub proof fn law_one_refresh_at_a_time<T>(c: ValueCache<T>, t1: u64, t2: u64)
    ensures
        ({
            let (c1, o1) = call_spec(c, t1);
            let (c2, o2) = call_spec(c1, t2);
            &&& !(o1.spawned && o2.spawned)
            &&& c2.cached == c.cached
        }),
{
}

/// Right after a refresh, a call within the expiry interval finds the new
/// result fresh and starts no refresh.
pub proof fn law_fresh_after_refresh<T>(c: ValueCache<T>, result: Result<T, String>, t: u64, t2: u64)
    requires
        t <= t2,
        t2 - t <= c.expire_interval_ms,
    ensures
        ({
            let (c2, o) = call_spec(done_spec(c, result, t), t2);
            &&& o.has_value
            &&& !o.expired
            &&& !o.spawned
            &&& c2.cached == Some(result)
        }),
{
}

/// A stale result is still served: a call leaves it cached and starts the
/// refresh when none is under way.
pub proof fn law_stale_while_revalidate<T>(c: ValueCache<T>, now: u64)
    requires
        c.cached is Some,
        !c.refreshing,
        now > c.refreshed_at_ms + c.expire_interval_ms,
    ensures
        ({
            let (c2, o) = call_spec(c, now);
            &&& o.has_value && o.expired && o.spawned
            &&& c2.cached == c.cached
            &&& c2.refreshing
        }),
{
}

} // verus!
