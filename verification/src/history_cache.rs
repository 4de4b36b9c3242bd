//! The in-memory history of stats and metrics snapshots: an LRU cache from
//! a snapshot's (rounded) time to its JSON text, which queries read and
//! from which snapshots are written to storage. A snapshot whose write
//! failed is marked, and retried by the recovery loop until it succeeds.
use vstd::prelude::*;

verus! {

/// A cached snapshot.
#[derive(Clone, Debug)]
pub struct CacheEntry {
    /// The snapshot as JSON text.
    pub json: String,
    /// Whether writing it to storage failed, so that it waits for recovery.
    pub failed: bool,
}

impl View for CacheEntry {
    type V = (Seq<char>, bool);

    open spec fn view(&self) -> (Seq<char>, bool) {
        (self.json@, self.failed)
    }
}

/// The `lru` cache that holds the snapshots.
pub type HistoryLru = lru::LruCache<u64, CacheEntry>;

/// The snapshots the LRU cache holds, by time.
pub uninterp spec fn history_entries(c: HistoryLru) -> Map<u64, (Seq<char>, bool)>;

/// The capacity the LRU cache was made with.
pub uninterp spec fn history_capacity(c: HistoryLru) -> nat;

/// The times the LRU cache holds, most recently used first (the order in
/// which it iterates, and whose last one it evicts when full).
pub uninterp spec fn history_order(c: HistoryLru) -> Seq<u64>;

/// A cache holds finitely many snapshots, at most its capacity, and its
/// recency order lists each held time once.
pub open spec fn lru_sane(c: HistoryLru) -> bool {
    &&& history_entries(c).dom().finite()
    &&& history_entries(c).dom().len() <= history_capacity(c)
    &&& history_capacity(c) > 0
    &&& history_order(c).no_duplicates()
    &&& history_order(c).len() == history_entries(c).dom().len()
    &&& forall|k: u64| #[trigger] history_order(c).contains(k) <==> history_entries(c).contains_key(k)
}

/// `o` without `k`.
pub open spec fn without(o: Seq<u64>, k: u64) -> Seq<u64> {
    o.filter(|x: u64| x != k)
}

/// What `LruCache::put` of `v` under `k` does to a cache holding `before`
/// in recency order `before_o`, with capacity `cap`: `k` now holds `v` and
/// is the most recently used; when `k` was new and the cache full, the least
/// recently used entry (the last in `before_o`) left.
pub open spec fn put_result(
    before: Map<u64, (Seq<char>, bool)>,
    after: Map<u64, (Seq<char>, bool)>,
    before_o: Seq<u64>,
    after_o: Seq<u64>,
    k: u64,
    v: (Seq<char>, bool),
    cap: nat,
) -> bool {
    if before.contains_key(k) {
        &&& after == before.insert(k, v)
        &&& after_o == seq![k] + without(before_o, k)
    } else if before.dom().len() < cap {
        &&& after == before.insert(k, v)
        &&& after_o == seq![k] + before_o
    } else {
        &&& after == before.remove(before_o.last()).insert(k, v)
        &&& after_o == seq![k] + before_o.drop_last()
    }
}

/// No snapshots.
pub open spec fn no_snapshots() -> Map<u64, (Seq<char>, bool)> {
    Map::empty()
}

/// `LruCache::new`: an empty cache of capacity `cap`.
#[verifier::external_body]
fn lru_new(cap: usize) -> (c: HistoryLru)
    requires
        cap > 0,
    ensures
        history_entries(c) == no_snapshots(),
        history_order(c).len() == 0,
        history_capacity(c) == cap,
{
    lru::LruCache::new(std::num::NonZeroUsize::new(cap).unwrap())
}

/// `LruCache::put`: stores `e` under `ts` (see [`put_result`]).
#[verifier::external_body]
fn lru_put(c: &mut HistoryLru, ts: u64, e: CacheEntry)
    requires
        lru_sane(*old(c)),
    ensures
        history_capacity(*final(c)) == history_capacity(*old(c)),
        lru_sane(*final(c)),
        put_result(
            history_entries(*old(c)),
            history_entries(*final(c)),
            history_order(*old(c)),
            history_order(*final(c)),
            ts,
            e@,
            history_capacity(*old(c)),
        ),
{
    c.put(ts, e);
}

/// `LruCache::peek`: a copy of the snapshot under `ts`, if any, without
/// touching its recency.
#[verifier::external_body]
fn lru_peek(c: &HistoryLru, ts: u64) -> (r: Option<CacheEntry>)
    ensures
        match r {
            Some(e) => history_entries(*c).contains_key(ts) && history_entries(*c)[ts] == e@,
            None => !history_entries(*c).contains_key(ts),
        },
{
    c.peek(&ts).cloned()
}

/// `LruCache::iter`: copies of all snapshots with their times, most
/// recently used first.
#[verifier::external_body]
fn lru_items(c: &HistoryLru) -> (r: Vec<(u64, CacheEntry)>)
    requires
        lru_sane(*c),
    ensures
        r@.len() == history_order(*c).len(),
        forall|i: int| 0 <= i < r@.len() ==> #[trigger] r@[i].0 == history_order(*c)[i]
            && history_entries(*c)[r@[i].0] == r@[i].1@,
{
    c.iter().map(|(k, v)| (*k, v.clone())).collect()
}

/// The snapshot history of one kind (stats or metrics).
pub struct HistoryCache {
    cache: HistoryLru,
}

/// Whether `ts` holds a snapshot whose write failed.
pub open spec fn is_failed(m: Map<u64, (Seq<char>, bool)>, ts: u64) -> bool {
    m.contains_key(ts) && m[ts].1
}

/// The times in `o` whose snapshot failed, in the order of `o`.
pub open spec fn failed_in_order(o: Seq<u64>, m: Map<u64, (Seq<char>, bool)>) -> Seq<u64>
    decreases o.len(),
{
    if o.len() == 0 {
        Seq::empty()
    } else {
        let rest = failed_in_order(o.drop_last(), m);
        if is_failed(m, o.last()) {
            rest.push(o.last())
        } else {
            rest
        }
    }
}

proof fn lemma_failed_prefix(o: Seq<u64>, m: Map<u64, (Seq<char>, bool)>, i: int)
    requires
        0 <= i <= o.len(),
    ensures
        failed_in_order(o.take(i), m).len() <= failed_in_order(o, m).len(),
        forall|a: int| 0 <= a < failed_in_order(o.take(i), m).len() ==> #[trigger] failed_in_order(o.take(i), m)[a]
            == failed_in_order(o, m)[a],
    decreases o.len(),
{
    if i == o.len() {
        assert(o.take(i) =~= o);
    } else {
        let w = o.drop_last();
        lemma_failed_prefix(w, m, i);
        assert(w.take(i) =~= o.take(i));
    }
}

/// The error text for a cache asked to hold no snapshot.
pub open spec fn zero_capacity_error() -> Seq<char> {
    "[http-api] LRU cache capacity must be > 0, got 0"@
}

impl HistoryCache {
    /// The snapshots held, by time: their JSON text and whether their write
    /// failed.
    pub closed spec fn entries(&self) -> Map<u64, (Seq<char>, bool)> {
        history_entries(self.cache)
    }

    /// The times held, most recently used first.
    pub closed spec fn order(&self) -> Seq<u64> {
        history_order(self.cache)
    }

    /// How many snapshots the cache keeps at most.
    pub closed spec fn capacity(&self) -> nat {
        history_capacity(self.cache)
    }

    pub closed spec fn wf(&self) -> bool {
        lru_sane(self.cache)
    }

    /// An empty history keeping at most `capacity` snapshots; an error
    /// telling so when the capacity is 0.
    pub fn new(capacity: usize) -> (r: Result<HistoryCache, String>)
        ensures
            match r {
                Ok(h) => capacity > 0 && h.wf() && h.entries() == no_snapshots() && h.order().len() == 0
                    && h.capacity() == capacity,
                Err(msg) => capacity == 0 && msg@ == zero_capacity_error(),
            },
    {
        if capacity == 0 {
            let msg = crate::text::owned("[http-api] LRU cache capacity must be > 0, got 0");
            proof {
                reveal_strlit("[http-api] LRU cache capacity must be > 0, got 0");
            }
            Err(msg)
        } else {
            let c = lru_new(capacity);
            proof {
                assert(history_order(c).no_duplicates());
            }
            Ok(HistoryCache { cache: c })
        }
    }

    /// Caches the snapshot `json` taken at `ts`, not yet written to storage
    /// (also how the warm-up reloads a stored one); it becomes the most
    /// recently used (see [`put_result`]).
    pub fn record(&mut self, ts: u64, json: String)
        requires
            old(self).wf(),
        ensures
            final(self).wf(),
            final(self).capacity() == old(self).capacity(),
            put_result(
                old(self).entries(),
                final(self).entries(),
                old(self).order(),
                final(self).order(),
                ts,
                (json@, false),
                old(self).capacity(),
            ),
    {
        lru_put(&mut self.cache, ts, CacheEntry { json, failed: false });
    }

    /// The text to write to storage for the snapshot at `ts`: its JSON, or
    /// nothing when it has left the cache.
    pub fn flush_payload(&self, ts: u64) -> (r: String)
        ensures
            r@ == if self.entries().contains_key(ts) {
                self.entries()[ts].0
            } else {
                Seq::<char>::empty()
            },
    {
        match lru_peek(&self.cache, ts) {
            Some(e) => e.json,
            None => String::new(),
        }
    }

    /// Marks the snapshot at `ts`, if still cached, as written (`ok`) or as
    /// failed (making it the most recently used); returns whether the count
    /// of unwritten snapshots grows, that is whether the write failed.
    pub fn flushed(&mut self, ts: u64, ok: bool) -> (grows: bool)
        requires
            old(self).wf(),
        ensures
            final(self).wf(),
            final(self).capacity() == old(self).capacity(),
            grows == !ok,
            final(self).entries() == if old(self).entries().contains_key(ts) {
                old(self).entries().insert(ts, (old(self).entries()[ts].0, !ok))
            } else {
                old(self).entries()
            },
            final(self).order() == if old(self).entries().contains_key(ts) {
                seq![ts] + without(old(self).order(), ts)
            } else {
                old(self).order()
            },
    {
        self.set_failed(ts, !ok);
        !ok
    }

    /// Marks the snapshot at `ts`, if still cached, as written by the
    /// recovery loop (making it the most recently used).
    pub fn recovered(&mut self, ts: u64)
        requires
            old(self).wf(),
        ensures
            final(self).wf(),
            final(self).capacity() == old(self).capacity(),
            final(self).entries() == if old(self).entries().contains_key(ts) {
                old(self).entries().insert(ts, (old(self).entries()[ts].0, false))
            } else {
                old(self).entries()
            },
            final(self).order() == if old(self).entries().contains_key(ts) {
                seq![ts] + without(old(self).order(), ts)
            } else {
                old(self).order()
            },
    {
        self.set_failed(ts, false);
    }

    /// One retry of the recovery loop for the snapshot at `ts`, with
    /// `unpersisted` snapshots unwritten so far: on success (`ok`) the
    /// snapshot is marked written, the count drops by one (never below
    /// zero) and the loop goes on; on failure nothing changes and the loop
    /// stops. Returns whether to go on, and the new count.
    pub fn recovery_step(&mut self, ts: u64, ok: bool, unpersisted: i64) -> (r: (bool, i64))
        requires
            old(self).wf(),
        ensures
            final(self).wf(),
            final(self).capacity() == old(self).capacity(),
            r.0 == ok,
            ok ==> r.1 == (if unpersisted > 0 { unpersisted - 1 } else { unpersisted as int }),
            ok ==> final(self).entries() == if old(self).entries().contains_key(ts) {
                old(self).entries().insert(ts, (old(self).entries()[ts].0, false))
            } else {
                old(self).entries()
            },
            ok ==> final(self).order() == if old(self).entries().contains_key(ts) {
                seq![ts] + without(old(self).order(), ts)
            } else {
                old(self).order()
            },
            !ok ==> r.1 == unpersisted && final(self).entries() == old(self).entries() && final(self).order()
                == old(self).order(),
    {
        if ok {
            self.recovered(ts);
            (true, unpersisted_after_recovery(unpersisted))
        } else {
            (false, unpersisted)
        }
    }

    fn set_failed(&mut self, ts: u64, failed: bool)
        requires
            old(self).wf(),
        ensures
            final(self).wf(),
            final(self).capacity() == old(self).capacity(),
            final(self).entries() == if old(self).entries().contains_key(ts) {
                old(self).entries().insert(ts, (old(self).entries()[ts].0, failed))
            } else {
                old(self).entries()
            },
            final(self).order() == if old(self).entries().contains_key(ts) {
                seq![ts] + without(old(self).order(), ts)
            } else {
                old(self).order()
            },
    {
        match lru_peek(&self.cache, ts) {
            Some(e) => {
                lru_put(&mut self.cache, ts, CacheEntry { json: e.json, failed });
            },
            None => {},
        }
    }

    /// The first `limit` snapshots whose write failed, most recently used
    /// first, with their JSON: what one recovery round retries.
    pub fn failed_entries(&self, limit: usize) -> (r: Vec<(u64, String)>)
        requires
            self.wf(),
        ensures
            ({
                let f = failed_in_order(self.order(), self.entries());
                &&& r@.len() == (if f.len() < limit { f.len() } else { limit as nat })
                &&& forall|i: int| 0 <= i < r@.len() ==> #[trigger] r@[i].0 == f[i] && self.entries()[r@[i].0].0
                    == r@[i].1@
            }),
            forall|i: int| 0 <= i < r@.len() ==> #[trigger] is_failed(self.entries(), r@[i].0),
    {
        let items = lru_items(&self.cache);
        let ghost m = self.entries();
        let ghost o = self.order();
        let mut r: Vec<(u64, String)> = Vec::new();
        let mut i: usize = 0;
        proof {
            assert(o.take(0) =~= Seq::<u64>::empty());
        }
        while i < items.len() && r.len() < limit
            invariant
                self.wf(),
                m == self.entries(),
                o == self.order(),
                items@.len() == o.len(),
                forall|a: int| 0 <= a < items@.len() ==> #[trigger] items@[a].0 == o[a] && m[items@[a].0]
                    == items@[a].1@,
                i <= items@.len(),
                r@.len() <= limit,
                r@.len() == failed_in_order(o.take(i as int), m).len(),
                forall|a: int| 0 <= a < r@.len() ==> #[trigger] r@[a].0 == failed_in_order(o.take(i as int), m)[a]
                    && m[r@[a].0].0 == r@[a].1@ && is_failed(m, r@[a].0),
            decreases items@.len() - i,
        {
            let ghost before = r@;
            proof {
                assert(o.take(i + 1).drop_last() =~= o.take(i as int));
                assert(o.take(i + 1).last() == o[i as int]);
            }
            let (ts, e) = &items[i];
            if e.failed {
                proof {
                    assert(self.wf());
                    assert(o.contains(o[i as int]));
                    assert(m.contains_key(*ts));
                }
                r.push((*ts, e.json.clone()));
                proof {
                    assert forall|a: int| 0 <= a < r@.len() implies #[trigger] r@[a].0 == failed_in_order(
                        o.take(i + 1),
                        m,
                    )[a] && m[r@[a].0].0 == r@[a].1@ && is_failed(m, r@[a].0) by {
                        if a < before.len() {
                            assert(r@[a] == before[a]);
                        }
                    }
                }
            } else {
                proof {
                    assert(m.contains_key(*ts) ==> !is_failed(m, o[i as int]));
                    assert(o.contains(o[i as int]));
                }
            }
            i += 1;
        }
        proof {
            lemma_failed_prefix(o, m, i as int);
            if i == items@.len() {
                assert(o.take(i as int) =~= o);
            }
        }
        r
    }
}

/// The count of unwritten snapshots after one more write failed
/// (`fetch_add`, which wraps around).
pub fn unpersisted_after_failure(n: i64) -> (r: i64)
    ensures
        r == if n == i64::MAX { i64::MIN as int } else { n + 1 },
{
    if n == i64::MAX {
        i64::MIN
    } else {
        n + 1
    }
}

/// The count of unwritten snapshots after one was recovered: one less, but
/// never below zero.
pub fn unpersisted_after_recovery(n: i64) -> (r: i64)
    ensures
        r == if n > 0 { n - 1 } else { n as int },
{
    if n > 0 {
        n - 1
    } else {
        n
    }
}

/// Whether a recovery round has anything to do.
pub fn recovery_due(n: i64) -> (r: bool)
    ensures
        r == (n != 0),
{
    n != 0
}

/// How many failed snapshots one recovery round retries at most.
pub const RECOVERY_BATCH: usize = 200;

/// A snapshot just recorded is what a flush writes, and it is the most
/// recently used.
pub proof fn law_record_then_flush(
    before: Map<u64, (Seq<char>, bool)>,
    after: Map<u64, (Seq<char>, bool)>,
    before_o: Seq<u64>,
    after_o: Seq<u64>,
    ts: u64,
    json: Seq<char>,
    cap: nat,
)
    requires
        put_result(before, after, before_o, after_o, ts, (json, false), cap),
    ensures
        after.contains_key(ts),
        after[ts] == (json, false),
        !is_failed(after, ts),
        after_o[0] == ts,
{
}

/// Recording a snapshot keeps every other cached snapshot, except, when the
/// cache was full and the key new, the least recently used one.
pub proof fn law_record_keeps_others(
    before: Map<u64, (Seq<char>, bool)>,
    after: Map<u64, (Seq<char>, bool)>,
    before_o: Seq<u64>,
    after_o: Seq<u64>,
    ts: u64,
    json: Seq<char>,
    cap: nat,
    k: u64,
)
    requires
        put_result(before, after, before_o, after_o, ts, (json, false), cap),
        before.contains_key(k),
        k != ts,
        before.contains_key(ts) || before.dom().len() < cap || k != before_o.last(),
    ensures
        after.contains_key(k),
        after[k] == before[k],
{
}

/// A failed flush leaves the snapshot marked for recovery, and a
/// successful flush or a recovery clears the mark; the snapshot's text
/// stays as it was.
pub proof fn law_flush_marks(
    before: Map<u64, (Seq<char>, bool)>,
    after: Map<u64, (Seq<char>, bool)>,
    ts: u64,
    failed: bool,
)
    requires
        before.contains_key(ts),
        after == before.insert(ts, (before[ts].0, failed)),
    ensures
        is_failed(after, ts) == failed,
        after[ts].0 == before[ts].0,
        forall|k: u64| k != ts ==> #[trigger] is_failed(after, k) == is_failed(before, k),
{
}

} // verus!
