//! Retained messages: the limits a new one must meet, the expiry it gets,
//! the in-memory index of retained topics, and the storage writes a batch
//! of retain requests comes to.
use vstd::prelude::*;
use crate::message::{MsgFrom, MsgFromView, Publish, PublishView};
use crate::text::str_chars;
use crate::topic::{levels_match, levels_view, parse_filter, parse_filter_spec, topic_matches, TopicError};

verus! {

/// The expiry interval a retained message gets: the configured TTL when one
/// is set (a zero TTL meaning none), else the message's own.
pub open spec fn effective_expiry(ttl_ms: Option<u64>, msg_expiry_ms: Option<u64>) -> Option<u64> {
    match ttl_ms {
        Some(t) => if t == 0 {
            None
        } else {
            Some(t)
        },
        None => msg_expiry_ms,
    }
}

/// Computes [`effective_expiry`].
pub fn expiry_interval(ttl_ms: Option<u64>, msg_expiry_ms: Option<u64>) -> (r: Option<u64>)
    ensures
        r == effective_expiry(ttl_ms, msg_expiry_ms),
{
    match ttl_ms {
        Some(t) => if t == 0 {
            None
        } else {
            Some(t)
        },
        None => msg_expiry_ms,
    }
}

/// Whether a new retained message may be kept: its payload is within the
/// size limit, and the count limit (0 meaning none) is not reached yet.
pub open spec fn within_limits(payload_len: nat, max_payload_size: nat, max_retained: nat, count: nat) -> bool {
    payload_len <= max_payload_size && !(max_retained > 0 && count >= max_retained)
}

/// Checks [`within_limits`] for a message with `payload_len` bytes while
/// `count` messages are retained.
pub fn check_constraints(payload_len: usize, max_payload_size: usize, max_retained: usize, count: usize) -> (ok: bool)
    ensures
        ok == within_limits(payload_len as nat, max_payload_size as nat, max_retained as nat, count as nat),
{
    if payload_len > max_payload_size {
        return false;
    }
    if max_retained > 0 && count >= max_retained {
        return false;
    }
    true
}

/// What storing a retained message in memory comes to: `None` when it is
/// refused, else the expiry interval it is stored with.
pub fn ram_set_decision(
    payload_len: usize,
    max_payload_size: usize,
    max_retained: usize,
    count: usize,
    ttl_ms: Option<u64>,
    msg_expiry_ms: Option<u64>,
) -> (r: Option<Option<u64>>)
    ensures
        r == if within_limits(payload_len as nat, max_payload_size as nat, max_retained as nat, count as nat) {
            Some(effective_expiry(ttl_ms, msg_expiry_ms))
        } else {
            None
        },
{
    if !check_constraints(payload_len, max_payload_size, max_retained, count) {
        return None;
    }
    Some(expiry_interval(ttl_ms, msg_expiry_ms))
}

/// The number of retained messages when storage holds `len` keys: one key
/// is the high-water counter.
pub fn retain_count_from_len(len: usize) -> (n: usize)
    ensures
        n == if len > 0 {
            len - 1
        } else {
            0
        },
{
    if len > 0 {
        len - 1
    } else {
        len
    }
}

/// `p|`: the prefix of the storage key of a retained message.
pub open spec fn retain_prefix() -> Seq<u8> {
    seq![112u8, 124u8]
}

/// The storage key of the message retained on `topic`: `p|` and the
/// topic's UTF-8 bytes.
pub fn retain_key(topic: &str) -> (k: Vec<u8>)
    ensures
        k@ == retain_prefix() + vstd::utf8::encode_utf8(topic@),
{
    let mut k: Vec<u8> = Vec::new();
    k.push(112u8);
    k.push(124u8);
    let b = topic.as_bytes();
    let mut i: usize = 0;
    while i < b.len()
        invariant
            i <= b@.len(),
            b@ == vstd::utf8::encode_utf8(topic@),
            k@ == retain_prefix() + b@.take(i as int),
        decreases b@.len() - i,
    {
        k.push(b[i]);
        i += 1;
        proof {
            assert(retain_prefix() + b@.take(i as int) =~= (retain_prefix() + b@.take(i - 1)).push(b@[i - 1]));
        }
    }
    proof {
        assert(b@.take(b@.len() as int) =~= b@);
    }
    k
}

/// A retained topic in the in-memory index.
struct IndexEntry {
    topic: String,
    levels: Vec<Vec<char>>,
    /// When the retained message expires, in unix milliseconds.
    expires_at: Option<i64>,
}

/// The index of the topics that hold a retained message, with their expiry.
pub struct RetainIndex {
    entries: Vec<IndexEntry>,
}

/// The index as a sequence of (topic, expiry time).
pub type IndexView = Seq<(Seq<char>, Option<i64>)>;

spec fn index_entries_view(es: Seq<IndexEntry>) -> IndexView {
    Seq::new(es.len(), |i: int| (es[i].topic@, es[i].expires_at))
}

/// Position of `topic` in the index, if it is there.
pub open spec fn topic_index(v: IndexView, topic: Seq<char>) -> Option<int> {
    if exists|i: int| 0 <= i < v.len() && (#[trigger] v[i]).0 == topic {
        Some(choose|i: int| 0 <= i < v.len() && (#[trigger] v[i]).0 == topic)
    } else {
        None
    }
}

/// Each topic once, and each a valid topic.
pub open spec fn index_view_wf(v: IndexView) -> bool {
    &&& forall|i: int, j: int| 0 <= i < j < v.len() ==> (#[trigger] v[i]).0 != (#[trigger] v[j]).0
    &&& forall|i: int| 0 <= i < v.len() ==> (#[trigger] parse_filter_spec(v[i].0)) is Ok
}

/// The index once `topic` holds a message expiring at `exp` (a topic that
/// does not parse is not indexed).
pub open spec fn index_set(v: IndexView, topic: Seq<char>, exp: Option<i64>) -> IndexView {
    if parse_filter_spec(topic) is Err {
        v
    } else {
        match topic_index(v, topic) {
            Some(i) => v.update(i, (topic, exp)),
            None => v.push((topic, exp)),
        }
    }
}

/// The index once `topic` holds no message.
pub open spec fn index_del(v: IndexView, topic: Seq<char>) -> IndexView {
    match topic_index(v, topic) {
        Some(i) => v.remove(i),
        None => v,
    }
}

/// Whether an entry expiring at `exp` is still alive at `now`.
pub open spec fn alive(exp: Option<i64>, now: i64) -> bool {
    match exp {
        Some(t) => now < t,
        None => true,
    }
}

/// The live topics of `v` that filter `f` matches, in index order.
pub open spec fn matched_topics(v: IndexView, f: Seq<Seq<char>>, now: i64) -> Seq<Seq<char>>
    decreases v.len(),
{
    if v.len() == 0 {
        Seq::empty()
    } else {
        let rest = matched_topics(v.drop_last(), f, now);
        let e = v.last();
        if alive(e.1, now) && topic_matches(f, parse_filter_spec(e.0)->Ok_0) {
            rest.push(e.0)
        } else {
            rest
        }
    }
}

proof fn lemma_topic_index(v: IndexView, topic: Seq<char>, i: int)
    requires
        index_view_wf(v),
        0 <= i < v.len(),
        v[i].0 == topic,
    ensures
        topic_index(v, topic) == Some(i),
{
    let j = choose|j: int| 0 <= j < v.len() && (#[trigger] v[j]).0 == topic;
    if j < i {
        assert(v[j].0 != v[i].0);
    } else if j > i {
        assert(v[i].0 != v[j].0);
    }
}

impl View for RetainIndex {
    type V = IndexView;

    closed spec fn view(&self) -> IndexView {
        index_entries_view(self.entries@)
    }
}

impl RetainIndex {
    /// The index is consistent: see [`index_view_wf`]; each entry also
    /// keeps its topic's parsed levels.
    pub closed spec fn wf(&self) -> bool {
        &&& index_view_wf(self@)
        &&& forall|i: int|
            0 <= i < self.entries@.len() ==> parse_filter_spec((#[trigger] self.entries@[i]).topic@) == Ok::<
                Seq<Seq<char>>,
                TopicError,
            >(levels_view(self.entries@[i].levels@))
    }

    /// An empty index.
    pub fn new() -> (r: RetainIndex)
        ensures
            r.wf(),
            r@.len() == 0,
    {
        let r = RetainIndex { entries: Vec::new() };
        proof {
            assert(r@ =~= Seq::<(Seq<char>, Option<i64>)>::empty());
        }
        r
    }

    /// How many topics hold a retained message.
    pub fn len(&self) -> (n: usize)
        ensures
            n == self@.len(),
    {
        self.entries.len()
    }

    fn find(&self, topic: &str) -> (r: Option<usize>)
        requires
            self.wf(),
        ensures
            match r {
                Some(i) => i < self@.len() && topic_index(self@, topic@) == Some(i as int),
                None => topic_index(self@, topic@) is None,
            },
    {
        let ghost v = self@;
        let mut i: usize = 0;
        while i < self.entries.len()
            invariant
                v == self@,
                self.wf(),
                i <= v.len(),
                forall|k: int| 0 <= k < i ==> (#[trigger] v[k]).0 != topic@,
            decreases v.len() - i,
        {
            if crate::text::str_eq(self.entries[i].topic.as_str(), topic) {
                proof {
                    lemma_topic_index(v, topic@, i as int);
                }
                return Some(i);
            }
            i += 1;
        }
        None
    }

    /// Records that `topic` holds a message expiring at `expires_at`.
    pub fn insert(&mut self, topic: &str, expires_at: Option<i64>)
        requires
            old(self).wf(),
        ensures
            final(self).wf(),
            final(self)@ == index_set(old(self)@, topic@, expires_at),
    {
        let chars = str_chars(topic);
        let parsed = parse_filter(&chars);
        let levels = match parsed {
            Ok(l) => l,
            Err(_) => return,
        };
        let ghost v = self@;
        match self.find(topic) {
            Some(i) => {
                let t = crate::text::owned(topic);
                let e = IndexEntry { topic: t, levels, expires_at };
                let _ = self.entries.remove(i);
                self.entries.insert(i, e);
                proof {
                    assert(self@ =~= v.update(i as int, (topic@, expires_at)));
                    assert forall|a: int, b: int| 0 <= a < b < self@.len() implies (#[trigger] self@[a]).0
                        != (#[trigger] self@[b]).0 by {
                        assert(v[a].0 != v[b].0);
                    }
                }
            },
            None => {
                let t = crate::text::owned(topic);
                self.entries.push(IndexEntry { topic: t, levels, expires_at });
                proof {
                    assert(self@ =~= v.push((topic@, expires_at)));
                    assert forall|a: int, b: int| 0 <= a < b < self@.len() implies (#[trigger] self@[a]).0
                        != (#[trigger] self@[b]).0 by {
                        if b == v.len() {
                            assert(v[a].0 != topic@);
                        } else {
                            assert(v[a].0 != v[b].0);
                        }
                    }
                }
            },
        }
    }

    /// Records that `topic` holds no message.
    pub fn remove(&mut self, topic: &str)
        requires
            old(self).wf(),
        ensures
            final(self).wf(),
            final(self)@ == index_del(old(self)@, topic@),
    {
        let ghost v = self@;
        match self.find(topic) {
            Some(i) => {
                let _ = self.entries.remove(i);
                proof {
                    assert(self@ =~= v.remove(i as int));
                    assert forall|a: int, b: int| 0 <= a < b < self@.len() implies (#[trigger] self@[a]).0
                        != (#[trigger] self@[b]).0 by {
                        if a < i && b >= i {
                            assert(self@[b] == v[b + 1]);
                        }
                        if a >= i {
                            assert(self@[a] == v[a + 1] && self@[b] == v[b + 1]);
                        }
                    }
                }
            },
            None => {},
        }
    }

    /// The live topics that `topic_filter` matches at `now`, in index order.
    pub fn matches(&self, topic_filter: &str, now: i64) -> (r: Result<Vec<String>, TopicError>)
        requires
            self.wf(),
        ensures
            match parse_filter_spec(topic_filter@) {
                Err(e) => r matches Err(x) && x == e,
                Ok(f) => r matches Ok(ts) && crate::session_store::strings_view(ts@) == matched_topics(self@, f, now),
            },
    {
        let chars = str_chars(topic_filter);
        let f = parse_filter(&chars)?;
        let ghost v = self@;
        let mut out: Vec<String> = Vec::new();
        let mut i: usize = 0;
        while i < self.entries.len()
            invariant
                v == self@,
                self.wf(),
                i <= v.len(),
                crate::session_store::strings_view(out@) == matched_topics(v.take(i as int), levels_view(f@), now),
            decreases v.len() - i,
        {
            let e = &self.entries[i];
            let live = match e.expires_at {
                Some(t) => now < t,
                None => true,
            };
            proof {
                assert(v.take(i + 1).drop_last() =~= v.take(i as int));
                assert(v.take(i + 1).last() == v[i as int]);
            }
            if live && levels_match(&f, &e.levels) {
                out.push(crate::message::copy_string(&e.topic));
                proof {
                    assert(crate::session_store::strings_view(out@) =~= matched_topics(v.take(i as int), levels_view(f@), now).push(
                        v[i as int].0,
                    ));
                }
            }
            i += 1;
        }
        proof {
            assert(v.take(v.len() as int) =~= v);
        }
        Ok(out)
    }
}

/// Entry `i` of the index holds `x`, is alive at `now`, and filter `f`
/// matches it.
pub open spec fn live_match_at(v: IndexView, f: Seq<Seq<char>>, now: i64, x: Seq<char>, i: int) -> bool {
    0 <= i < v.len() && v[i].0 == x && alive(v[i].1, now) && topic_matches(f, parse_filter_spec(x)->Ok_0)
}

proof fn lemma_matched_contains(v: IndexView, f: Seq<Seq<char>>, now: i64, x: Seq<char>)
    ensures
        matched_topics(v, f, now).contains(x) <==> exists|i: int| #[trigger] live_match_at(v, f, now, x, i),
    decreases v.len(),
{
    if v.len() > 0 {
        let w = v.drop_last();
        lemma_matched_contains(w, f, now, x);
        let rest = matched_topics(w, f, now);
        let e = v.last();
        if exists|i: int| #[trigger] live_match_at(v, f, now, x, i) {
            let i = choose|i: int| #[trigger] live_match_at(v, f, now, x, i);
            if i < v.len() - 1 {
                assert(live_match_at(w, f, now, x, i));
                let k = choose|k: int| 0 <= k < rest.len() && rest[k] == x;
                if alive(e.1, now) && topic_matches(f, parse_filter_spec(e.0)->Ok_0) {
                    assert(rest.push(e.0)[k] == x);
                }
            } else {
                assert(e.0 == x);
                assert(rest.push(e.0)[rest.len() as int] == x);
            }
        }
        if matched_topics(v, f, now).contains(x) {
            if alive(e.1, now) && topic_matches(f, parse_filter_spec(e.0)->Ok_0) && e.0 == x {
                assert(live_match_at(v, f, now, x, v.len() - 1));
            } else {
                let m = matched_topics(v, f, now);
                let k = choose|k: int| 0 <= k < m.len() && m[k] == x;
                if alive(e.1, now) && topic_matches(f, parse_filter_spec(e.0)->Ok_0) {
                    assert(k < rest.len());
                    assert(rest[k] == x);
                }
                assert(rest.contains(x));
                let i = choose|i: int| #[trigger] live_match_at(w, f, now, x, i);
                assert(live_match_at(v, f, now, x, i));
            }
        }
    }
}

/// What a write of a retained topic gives back: once `topic` is indexed
/// with expiry `exp`, a lookup at a time it is still alive, with a filter
/// that matches it, finds it.
pub proof fn law_retained_topic_found(v: IndexView, topic: Seq<char>, exp: Option<i64>, f: Seq<Seq<char>>, now: i64)
    requires
        index_view_wf(v),
        parse_filter_spec(topic) is Ok,
        alive(exp, now),
        topic_matches(f, parse_filter_spec(topic)->Ok_0),
    ensures
        matched_topics(index_set(v, topic, exp), f, now).contains(topic),
{
    let nv = index_set(v, topic, exp);
    match topic_index(v, topic) {
        Some(i) => {
            assert(live_match_at(nv, f, now, topic, i));
        },
        None => {
            assert(live_match_at(nv, f, now, topic, v.len() as int));
        },
    }
    lemma_matched_contains(nv, f, now, topic);
}

/// A retained topic is found through the multi-level wildcard filter of
/// its own levels: once topic `a/b` holds a live message, `a/b/#` finds it
/// (for topics without a leading `$` level).
pub proof fn law_retained_found_by_parent_wildcard(v: IndexView, topic: Seq<char>, exp: Option<i64>, now: i64)
    requires
        index_view_wf(v),
        crate::topic::parse_name_spec(topic) is Ok,
        alive(exp, now),
        crate::topic::plain_start(crate::topic::parse_name_spec(topic)->Ok_0),
    ensures
        matched_topics(index_set(v, topic, exp), crate::topic::parse_name_spec(topic)->Ok_0.push(seq!['#']), now).contains(topic),
{
    let p = crate::topic::parse_name_spec(topic)->Ok_0;
    assert(p + Seq::<Seq<char>>::empty() =~= p);
    crate::topic::law_hash_matches_parent_and_below(p, Seq::<Seq<char>>::empty());
    law_retained_topic_found(v, topic, exp, p.push(seq!['#']), now);
}

/// Once a retained topic is removed, no lookup finds it.
pub proof fn law_removed_topic_not_found(v: IndexView, topic: Seq<char>, f: Seq<Seq<char>>, now: i64)
    requires
        index_view_wf(v),
    ensures
        !matched_topics(index_del(v, topic), f, now).contains(topic),
{
    let nv = index_del(v, topic);
    lemma_matched_contains(nv, f, now, topic);
    match topic_index(v, topic) {
        Some(i) => {
            assert forall|k: int| 0 <= k < nv.len() implies nv[k].0 != topic by {
                if k < i {
                    assert(nv[k] == v[k]);
                    assert(v[k].0 != v[i].0);
                } else {
                    assert(nv[k] == v[k + 1]);
                    assert(v[i].0 != v[k + 1].0);
                }
            }
            if exists|k: int| #[trigger] live_match_at(nv, f, now, topic, k) {
                let k = choose|k: int| #[trigger] live_match_at(nv, f, now, topic, k);
                assert(nv[k].0 != topic);
            }
        },
        None => {
            if exists|k: int| #[trigger] live_match_at(nv, f, now, topic, k) {
                let k = choose|k: int| #[trigger] live_match_at(nv, f, now, topic, k);
                assert(v[k].0 == topic);
            }
        },
    }
}

/// An expired retained topic is not found.
pub proof fn law_expired_topic_not_found(v: IndexView, topic: Seq<char>, exp: Option<i64>, f: Seq<Seq<char>>, now: i64)
    requires
        index_view_wf(v),
        !alive(exp, now),
    ensures
        !matched_topics(index_set(v, topic, exp), f, now).contains(topic),
{
    let nv = index_set(v, topic, exp);
    lemma_matched_contains(nv, f, now, topic);
    if exists|k: int| #[trigger] live_match_at(nv, f, now, topic, k) {
        let k = choose|k: int| #[trigger] live_match_at(nv, f, now, topic, k);
        if parse_filter_spec(topic) is Ok {
            match topic_index(v, topic) {
                Some(i) => {
                    if k != i {
                        assert(nv[k] == v[k]);
                        if k < i {
                            assert(v[k].0 != v[i].0);
                        } else {
                            assert(v[i].0 != v[k].0);
                        }
                    }
                },
                None => {
                    if k < v.len() {
                        assert(nv[k] == v[k]);
                    }
                },
            }
        } else {
            assert(v[k].0 == topic);
        }
    }
}

/// A request to retain `publish` on `topic`; an empty payload removes the
/// retained message instead.
pub struct RetainRequest {
    pub topic: String,
    pub from: MsgFrom,
    pub publish: Publish,
    /// The message's own expiry interval, in milliseconds.
    pub expiry_ms: Option<u64>,
}

/// The configured limits and TTL of retained messages.
pub struct RetainLimits {
    /// 0 means no limit.
    pub max_retained: usize,
    pub max_payload_size: usize,
    /// Overrides each message's expiry when set; 0 means never expire.
    pub ttl_ms: Option<u64>,
}

/// A retained message to write to storage.
pub struct StoredRetain {
    pub key: Vec<u8>,
    pub from: MsgFrom,
    pub publish: Publish,
    /// When it expires, in unix milliseconds.
    pub expiry_time_at: Option<i64>,
}

/// The storage writes a batch comes to.
pub struct BatchPlan {
    pub inserts: Vec<StoredRetain>,
    pub removes: Vec<Vec<u8>>,
    /// Keys to give a TTL, in milliseconds, once inserted.
    pub expires: Vec<(Vec<u8>, u64)>,
    /// How many messages were accepted.
    pub count: usize,
}

pub type InsertView = (Seq<u8>, MsgFromView, PublishView, Option<i64>);

/// The state a batch builds up: the index and the writes so far.
pub struct BatchState {
    pub index: IndexView,
    pub inserts: Seq<InsertView>,
    pub removes: Seq<Seq<u8>>,
    pub expires: Seq<(Seq<u8>, u64)>,
    pub count: nat,
}

pub open spec fn retain_key_spec(topic: Seq<char>) -> Seq<u8> {
    retain_prefix() + vstd::utf8::encode_utf8(topic)
}

pub open spec fn expiry_time(now: i64, e: Option<u64>) -> Option<i64> {
    match e {
        Some(ms) => Some((now + ms) as i64),
        None => None,
    }
}

/// One request's effect on the batch: an empty payload removes the topic;
/// a message over the limits is dropped; any other is stored with its
/// expiry, and given a TTL when it has one.
pub open spec fn batch_step(st: BatchState, r: RetainRequest, lim: RetainLimits, now: i64) -> BatchState {
    let key = retain_key_spec(r.topic@);
    if r.publish.payload@.len() == 0 {
        BatchState { index: index_del(st.index, r.topic@), removes: st.removes.push(key), ..st }
    } else if !within_limits(
        r.publish.payload@.len(),
        lim.max_payload_size as nat,
        lim.max_retained as nat,
        st.index.len(),
    ) {
        st
    } else {
        let e = effective_expiry(lim.ttl_ms, r.expiry_ms);
        let at = expiry_time(now, e);
        BatchState {
            index: index_set(st.index, r.topic@, at),
            inserts: st.inserts.push((key, r.from@, r.publish@, at)),
            removes: st.removes,
            expires: match e {
                Some(ms) => st.expires.push((key, ms)),
                None => st.expires,
            },
            count: st.count + 1,
        }
    }
}

pub open spec fn batch_fold(st: BatchState, rs: Seq<RetainRequest>, lim: RetainLimits, now: i64) -> BatchState
    decreases rs.len(),
{
    if rs.len() == 0 {
        st
    } else {
        batch_step(batch_fold(st, rs.drop_last(), lim, now), rs.last(), lim, now)
    }
}

/// Every request's expiry interval fits in an `i64` and its expiry time
/// does not overflow.
pub open spec fn expiries_fit(rs: Seq<RetainRequest>, lim: RetainLimits, now: i64) -> bool {
    forall|i: int|
        0 <= i < rs.len() ==> match effective_expiry(lim.ttl_ms, (#[trigger] rs[i]).expiry_ms) {
            Some(ms) => ms <= i64::MAX && now + ms <= i64::MAX,
            None => true,
        }
}

pub open spec fn inserts_view(v: Seq<StoredRetain>) -> Seq<InsertView> {
    Seq::new(v.len(), |i: int| (v[i].key@, v[i].from@, v[i].publish@, v[i].expiry_time_at))
}

pub open spec fn expires_view(v: Seq<(Vec<u8>, u64)>) -> Seq<(Seq<u8>, u64)> {
    Seq::new(v.len(), |i: int| (v[i].0@, v[i].1))
}

impl RetainIndex {
    /// Plans the storage writes for a batch of retain requests at `now`,
    /// updating the index as it goes (see [`batch_step`]).
    pub fn plan_batch(&mut self, reqs: Vec<RetainRequest>, lim: &RetainLimits, now: i64) -> (plan: BatchPlan)
        requires
            old(self).wf(),
            expiries_fit(reqs@, *lim, now),
        ensures
            final(self).wf(),
            ({
                let st = batch_fold(
                    BatchState {
                        index: old(self)@,
                        inserts: Seq::empty(),
                        removes: Seq::empty(),
                        expires: Seq::empty(),
                        count: 0,
                    },
                    reqs@,
                    *lim,
                    now,
                );
                &&& final(self)@ == st.index
                &&& inserts_view(plan.inserts@) == st.inserts
                &&& crate::session_store::keys_view(plan.removes@) == st.removes
                &&& expires_view(plan.expires@) == st.expires
                &&& plan.count == st.count
            }),
    {
        let ghost rs = reqs@;
        let ghost st0 = BatchState {
            index: self@,
            inserts: Seq::empty(),
            removes: Seq::empty(),
            expires: Seq::empty(),
            count: 0,
        };
        let n: usize = reqs.len();
        let mut inserts: Vec<StoredRetain> = Vec::new();
        let mut removes: Vec<Vec<u8>> = Vec::new();
        let mut expires: Vec<(Vec<u8>, u64)> = Vec::new();
        let mut count: usize = 0;
        let mut rest = crate::session_store::reversed(reqs);
        let mut k: usize = 0;
        proof {
            assert(rs.subrange(0, rs.len() as int) =~= rs);
            assert(rs.take(0) =~= Seq::<RetainRequest>::empty());
            assert(inserts_view(inserts@) =~= Seq::<InsertView>::empty());
            assert(crate::session_store::keys_view(removes@) =~= Seq::<Seq<u8>>::empty());
            assert(expires_view(expires@) =~= Seq::<(Seq<u8>, u64)>::empty());
        }
        while rest.len() > 0
            invariant
                self.wf(),
                n == rs.len(),
                k + rest@.len() == n,
                rest@ == rs.subrange(k as int, n as int).reverse(),
                expiries_fit(rs, *lim, now),
                count <= k,
                ({
                    let st = batch_fold(st0, rs.take(k as int), *lim, now);
                    &&& self@ == st.index
                    &&& inserts_view(inserts@) == st.inserts
                    &&& crate::session_store::keys_view(removes@) == st.removes
                    &&& expires_view(expires@) == st.expires
                    &&& count == st.count
                }),
            decreases rest@.len(),
        {
            let x = rest.pop();
            match x {
                Some(r) => {
                    proof {
                        assert(rs.subrange(k as int, n as int).reverse().last() == rs[k as int]);
                        assert(r == rs[k as int]);
                        assert(rest@ =~= rs.subrange(k + 1, n as int).reverse());
                        assert(rs.take(k + 1).drop_last() =~= rs.take(k as int));
                        assert(rs.take(k + 1).last() == rs[k as int]);
                    }
                    let ghost rv = r;
                    let ghost st = batch_fold(st0, rs.take(k as int), *lim, now);
                    let RetainRequest { topic, from, publish, expiry_ms } = r;
                    let key = retain_key(topic.as_str());
                    if publish.payload.len() == 0 {
                        self.remove(topic.as_str());
                        let ghost before = crate::session_store::keys_view(removes@);
                        removes.push(key);
                        proof {
                            assert(crate::session_store::keys_view(removes@) =~= before.push(retain_key_spec(rv.topic@)));
                        }
                    } else if check_constraints(publish.payload.len(), lim.max_payload_size, lim.max_retained, self.len()) {
                        let e = expiry_interval(lim.ttl_ms, expiry_ms);
                        proof {
                            assert(expiries_fit(rs, *lim, now));
                            assert(rs[k as int] == rv);
                        }
                        let at: Option<i64> = match e {
                            Some(ms) => Some(now + ms as i64),
                            None => None,
                        };
                        self.insert(topic.as_str(), at);
                        match e {
                            Some(ms) => {
                                let ghost before = expires_view(expires@);
                                let k2 = crate::message::copy_bytes(&key);
                                expires.push((k2, ms));
                                proof {
                                    assert(expires_view(expires@) =~= before.push((retain_key_spec(rv.topic@), ms)));
                                }
                            },
                            None => {},
                        }
                        let ghost before = inserts_view(inserts@);
                        inserts.push(StoredRetain { key, from, publish, expiry_time_at: at });
                        count = count + 1;
                        proof {
                            assert(at == expiry_time(now, effective_expiry(lim.ttl_ms, rv.expiry_ms)));
                            assert(inserts_view(inserts@) =~= before.push(
                                (retain_key_spec(rv.topic@), rv.from@, rv.publish@, at),
                            ));
                        }
                    }
                    k += 1;
                },
                None => {},
            }
        }
        proof {
            assert(rs.take(n as int) =~= rs);
        }
        BatchPlan { inserts, removes, expires, count }
    }
}

/// A topic filter's characters escaped for a storage key pattern: `*` and
/// `?` are escaped with a backslash and `+` becomes the wildcard `*`.
pub open spec fn escape_pattern(t: Seq<char>) -> Seq<char>
    decreases t.len(),
{
    if t.len() == 0 {
        Seq::empty()
    } else {
        let c = t.last();
        let e = if c == '*' {
            seq!['\\', '*']
        } else if c == '?' {
            seq!['\\', '?']
        } else if c == '+' {
            seq!['*']
        } else {
            seq![c]
        };
        escape_pattern(t.drop_last()) + e
    }
}

/// The storage key pattern of a topic filter: `*` for `#` or `+` alone;
/// otherwise the escaped filter, with a trailing `/#` turned into `*`.
pub open spec fn filter_pattern(t: Seq<char>) -> Seq<char> {
    if t == seq!['#'] || t == seq!['+'] {
        seq!['*']
    } else {
        let e = escape_pattern(t);
        if e.len() >= 2 && e[e.len() - 2] == '/' && e[e.len() - 1] == '#' {
            e.take(e.len() - 2).push('*')
        } else {
            e
        }
    }
}

/// Turns a topic filter into a storage key pattern (see [`filter_pattern`]).
pub fn topic_filter_to_pattern(t: &str) -> (p: String)
    ensures
        p@ == filter_pattern(t@),
{
    let cs = str_chars(t);
    if cs.len() == 1 && (cs[0] == '#' || cs[0] == '+') {
        let mut v: Vec<char> = Vec::new();
        v.push('*');
        proof {
            assert(t@ =~= seq![cs@[0]]);
            assert(v@ =~= seq!['*']);
        }
        return crate::text::string_from_chars(&v);
    }
    let mut e: Vec<char> = Vec::new();
    let mut i: usize = 0;
    while i < cs.len()
        invariant
            i <= cs@.len(),
            cs@ == t@,
            e@ == escape_pattern(cs@.take(i as int)),
        decreases cs@.len() - i,
    {
        let c = cs[i];
        proof {
            assert(cs@.take(i + 1).drop_last() =~= cs@.take(i as int));
            assert(cs@.take(i + 1).last() == c);
        }
        if c == '*' {
            e.push('\\');
            e.push('*');
        } else if c == '?' {
            e.push('\\');
            e.push('?');
        } else if c == '+' {
            e.push('*');
        } else {
            e.push(c);
        }
        proof {
            assert(e@ =~= escape_pattern(cs@.take(i + 1)));
        }
        i += 1;
    }
    proof {
        assert(cs@.take(cs@.len() as int) =~= cs@);
        if t@ == seq!['#'] || t@ == seq!['+'] {
            assert(cs@.len() == 1 && cs@[0] == t@[0]);
        }
    }
    let n = e.len();
    if n >= 2 && e[n - 2] == '/' && e[n - 1] == '#' {
        let _ = e.pop();
        let _ = e.pop();
        e.push('*');
        proof {
            assert(e@ =~= escape_pattern(t@).take(n - 2).push('*'));
        }
    }
    crate::text::string_from_chars(&e)
}

/// Whether a message retained until `expiry_time_at` is still served at `now`.
pub fn retained_alive(expiry_time_at: Option<i64>, now: i64) -> (r: bool)
    ensures
        r == match expiry_time_at {
            Some(t) => t > now,
            None => true,
        },
{
    match expiry_time_at {
        Some(t) => t > now,
        None => true,
    }
}

/// How long a message retained until `expiry_time_at` still has at `now`,
/// in milliseconds: `None` when it never expires or is already due.
pub fn remaining_ms(expiry_time_at: Option<i64>, now: i64) -> (r: Option<u64>)
    ensures
        r == match expiry_time_at {
            Some(t) => if t > now { Some((t - now) as u64) } else { None },
            None => None,
        },
{
    match expiry_time_at {
        Some(t) => {
            if t > now {
                let d: i128 = t as i128 - now as i128;
                Some(d as u64)
            } else {
                None
            }
        },
        None => None,
    }
}

/// One page of a listing of `total` retained messages.
pub struct Page {
    /// The first position on the page.
    pub start: usize,
    /// One past the last position on the page.
    pub end: usize,
    /// Whether messages follow the page.
    pub has_more: bool,
}

/// The page of at most `limit` messages from position `offset` of a
/// listing of `total`.
pub fn page_of(total: usize, offset: usize, limit: usize) -> (p: Page)
    requires
        offset + limit <= usize::MAX,
    ensures
        p.start == if offset < total { offset } else { total },
        p.end == if offset + limit < total { (offset + limit) as usize } else { total },
        p.start <= p.end <= total,
        p.has_more == (offset + limit < total),
{
    let start = if offset < total { offset } else { total };
    let stop = offset + limit;
    let end = if stop < total { stop } else { total };
    Page { start, end, has_more: stop < total }
}

/// Whether a filter names one topic (no `+` or `#` in it), so that its
/// retained message is read by key instead of through the index.
pub fn is_exact_filter(topic_filter: &str) -> (r: bool)
    ensures
        r == !(topic_filter@.contains('+') || topic_filter@.contains('#')),
{
    let v = str_chars(topic_filter);
    !(crate::text::has_char(&v, '+') || crate::text::has_char(&v, '#'))
}

/// Whether the serve loop takes one more queued request into the batch it
/// is merging: while the batch holds fewer than `batch_limit`.
pub fn merge_more(merged: usize, batch_limit: usize) -> (r: bool)
    ensures
        r == (merged < batch_limit),
{
    merged < batch_limit
}

/// An operation on the retained-message storage.
#[derive(Debug, Clone, Copy, PartialEq, Eq, Structural)]
pub enum RetainOp {
    /// Reading the messages that match a filter.
    Get,
    /// Queuing a message to retain.
    Store,
    /// Reading how many messages are retained.
    Count,
    /// Reading the most that were retained.
    Max,
    /// Listing a page of all retained messages.
    Page,
    /// Writing a merged batch.
    Batch,
}

/// What an operation does while the storage's circuit breaker is open.
#[derive(Debug, Clone, Copy, PartialEq, Eq, Structural)]
pub enum BreakerAnswer {
    /// The breaker is closed: go to storage.
    Proceed,
    /// Answer with no messages (an empty page has nothing more).
    Empty,
    /// Accept the message without storing it.
    Dropped,
    /// Answer -1: the number is unknown.
    Unknown,
    /// Skip the batch without writing it.
    Skip,
}

/// How operation `op` is answered when the breaker is `blocked`: not at all
/// by storage; reads give nothing, counts -1, a set is accepted and
/// dropped, and a batch is skipped.
pub fn breaker_answer(blocked: bool, op: RetainOp) -> (a: BreakerAnswer)
    ensures
        !blocked ==> a == BreakerAnswer::Proceed,
        blocked ==> a == match op {
            RetainOp::Get => BreakerAnswer::Empty,
            RetainOp::Page => BreakerAnswer::Empty,
            RetainOp::Store => BreakerAnswer::Dropped,
            RetainOp::Count => BreakerAnswer::Unknown,
            RetainOp::Max => BreakerAnswer::Unknown,
            RetainOp::Batch => BreakerAnswer::Skip,
        },
{
    if !blocked {
        return BreakerAnswer::Proceed;
    }
    match op {
        RetainOp::Get => BreakerAnswer::Empty,
        RetainOp::Page => BreakerAnswer::Empty,
        RetainOp::Store => BreakerAnswer::Dropped,
        RetainOp::Count => BreakerAnswer::Unknown,
        RetainOp::Max => BreakerAnswer::Unknown,
        RetainOp::Batch => BreakerAnswer::Skip,
    }
}

/// The clock of a lock-hold timer (`std::time::Instant`).
#[verifier::external_type_specification]
#[verifier::external_body]
pub struct ExInstant(std::time::Instant);

/// `Instant::now`: the current instant.
#[verifier::external_body]
fn instant_now() -> std::time::Instant {
    std::time::Instant::now()
}

/// `Instant::elapsed`: the milliseconds passed since `i`.
#[verifier::external_body]
fn elapsed_ms(i: &std::time::Instant) -> u128 {
    i.elapsed().as_millis()
}

/// Times how long the index's write lock is held, under a label.
pub struct WriteHold {
    label: String,
    start: std::time::Instant,
}

impl WriteHold {
    pub closed spec fn label_view(&self) -> Seq<char> {
        self.label@
    }

    /// Starts timing now.
    pub fn new(label: &str) -> (h: WriteHold)
        ensures
            h.label_view() == label@,
    {
        WriteHold { label: crate::text::owned(label), start: instant_now() }
    }

    /// The label.
    pub fn label(&self) -> (r: &str)
        ensures
            r@ == self.label_view(),
    {
        self.label.as_str()
    }

    /// Whether the lock has been held long enough to warn about (see
    /// [`hold_too_long`]); how long it was held is read from the clock.
    pub fn held_too_long(&self) -> (r: bool) {
        hold_too_long(elapsed_ms(&self.start))
    }
}

/// Whether a write lock held for `held_ms` milliseconds is worth a warning:
/// over 100 ms.
pub fn hold_too_long(held_ms: u128) -> (r: bool)
    ensures
        r == (held_ms > 100),
{
    held_ms > 100
}

} // verus!
