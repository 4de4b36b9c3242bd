//! The decisions of the persistent message store: which worker handles a
//! message, the storage keys of a message and of its recipients, what
//! storing a message writes, and how many expired messages a cleanup round
//! removes from the in-memory index.
use vstd::prelude::*;
use crate::message::{MsgFrom, MsgFromView, Publish, PublishView, Recipient, RecipientView, recipients_view};
use crate::ram_store::stored_levels;
use crate::storage::{be_value, to_be_bytes8};
use crate::text::{decimal, str_chars, u64_decimal};
use crate::topic::{levels_view, parse_filter, parse_filter_spec, TopicError};

verus! {

/// How many workers share the messages; a power of two.
pub const WORKER_COUNT: usize = 64;

/// The worker that handles message `msg_id`: its id modulo the worker count,
/// so that a message's store and its delivery marks are handled in order.
pub fn worker_index(msg_id: usize) -> (w: usize)
    ensures
        w == msg_id % WORKER_COUNT,
        w < WORKER_COUNT,
{
    let w = msg_id & (WORKER_COUNT - 1);
    proof {
        assert(msg_id & 63usize == msg_id % 64) by (bit_vector);
    }
    w
}

/// `fwd_`: the prefix of the key a recipient is recorded under.
pub open spec fn forwarded_prefix() -> Seq<u8> {
    seq![102u8, 119u8, 100u8, 95u8]
}

/// The key recipient `client_id` is recorded under: `fwd_` and the id's bytes.
pub fn make_forwarded_key(client_id: &str) -> (k: Vec<u8>)
    ensures
        k@ == forwarded_prefix() + vstd::utf8::encode_utf8(client_id@),
{
    let mut k: Vec<u8> = Vec::new();
    k.push(102u8);
    k.push(119u8);
    k.push(100u8);
    k.push(95u8);
    let b = client_id.as_bytes();
    let mut i: usize = 0;
    while i < b.len()
        invariant
            i <= b@.len(),
            b@ == vstd::utf8::encode_utf8(client_id@),
            k@ == forwarded_prefix() + b@.take(i as int),
        decreases b@.len() - i,
    {
        k.push(b[i]);
        i += 1;
        proof {
            assert(forwarded_prefix() + b@.take(i as int) =~= (forwarded_prefix() + b@.take(i - 1)).push(b@[i - 1]));
        }
    }
    proof {
        assert(b@.take(b@.len() as int) =~= b@);
    }
    k
}

/// The record a stored message is kept as (under the key `DATA` of its map).
pub struct StoredRecord {
    pub msg_id: u64,
    pub from: MsgFrom,
    pub publish: Publish,
    /// When it expires, in unix milliseconds.
    pub expiry_time_at: i64,
}

/// What storing message `msg_id` writes: the message's key (its id as 8
/// big-endian bytes) with a TTL, the record kept there, a record per
/// recipient it was already forwarded to, the levels it is indexed under
/// (its topic and then its id), and how much the stored-message counter
/// rises once it is written.
pub struct StorePlan {
    pub msg_key: Vec<u8>,
    pub ttl_ms: u64,
    pub expiry_time_at: i64,
    pub record: StoredRecord,
    pub forwarded_keys: Vec<Vec<u8>>,
    pub index_levels: Vec<Vec<char>>,
    pub counter_add: i64,
}

pub open spec fn keys_view(v: Seq<Vec<u8>>) -> Seq<Seq<u8>> {
    Seq::new(v.len(), |i: int| v[i]@)
}

/// The forwarded-record keys of a recipient list, in order.
pub open spec fn forwarded_keys_spec(rs: Seq<RecipientView>) -> Seq<Seq<u8>> {
    Seq::new(rs.len(), |i: int| forwarded_prefix() + vstd::utf8::encode_utf8(rs[i].0))
}

/// Plans storing message `msg_id` (`publish`, from `from`) at `now`; it
/// expires `expiry_interval_ms` later. A topic that does not parse is
/// refused, and nothing is written.
pub fn store_plan(
    msg_id: u64,
    from: MsgFrom,
    publish: Publish,
    expiry_interval_ms: u64,
    now: i64,
    recipients: &Vec<Recipient>,
) -> (r: Result<StorePlan, TopicError>)
    requires
        expiry_interval_ms <= i64::MAX,
        now + expiry_interval_ms <= i64::MAX,
    ensures
        match parse_filter_spec(publish@.topic) {
            Err(e) => r matches Err(x) && x == e,
            Ok(ls) => r matches Ok(p) && {
                &&& p.msg_key@.len() == 8 && be_value(p.msg_key@) == msg_id
                &&& p.ttl_ms == expiry_interval_ms
                &&& p.expiry_time_at == now + expiry_interval_ms
                &&& p.record.msg_id == msg_id
                &&& p.record.from@ == from@
                &&& p.record.publish@ == publish@
                &&& p.record.expiry_time_at == now + expiry_interval_ms
                &&& p.counter_add == 1
                &&& keys_view(p.forwarded_keys@) == forwarded_keys_spec(recipients_view(recipients@))
                &&& levels_view(p.index_levels@) == ls.push(decimal(msg_id as nat))
            },
        },
{
    let cs = str_chars(publish.topic.as_str());
    let mut levels = match parse_filter(&cs) {
        Ok(l) => l,
        Err(e) => return Err(e),
    };
    let id_level = u64_decimal(msg_id);
    let ghost before = levels_view(levels@);
    levels.push(id_level);
    proof {
        assert(levels_view(levels@) =~= before.push(decimal(msg_id as nat)));
    }
    let msg_key = to_be_bytes8(msg_id);
    let keys = forwarded_keys(recipients);
    let expiry_time_at = now + expiry_interval_ms as i64;
    Ok(StorePlan {
        msg_key,
        ttl_ms: expiry_interval_ms,
        expiry_time_at,
        record: StoredRecord { msg_id, from, publish, expiry_time_at },
        forwarded_keys: keys,
        index_levels: levels,
        counter_add: 1,
    })
}

/// The forwarded-record keys of `recipients`, in order.
pub fn forwarded_keys(recipients: &Vec<Recipient>) -> (keys: Vec<Vec<u8>>)
    ensures
        keys_view(keys@) == forwarded_keys_spec(recipients_view(recipients@)),
{
    let mut keys: Vec<Vec<u8>> = Vec::new();
    let ghost rv = recipients_view(recipients@);
    let mut i: usize = 0;
    while i < recipients.len()
        invariant
            i <= recipients@.len(),
            rv == recipients_view(recipients@),
            keys_view(keys@) == forwarded_keys_spec(rv).take(i as int),
        decreases recipients@.len() - i,
    {
        let k = make_forwarded_key(recipients[i].0.as_str());
        let ghost b = keys_view(keys@);
        keys.push(k);
        proof {
            assert(rv[i as int].0 == recipients@[i as int].0@);
            assert(keys_view(keys@) =~= b.push(forwarded_prefix() + vstd::utf8::encode_utf8(rv[i as int].0)));
            assert(keys_view(keys@) =~= forwarded_keys_spec(rv).take(i + 1));
        }
        i += 1;
    }
    proof {
        assert(forwarded_keys_spec(rv).take(recipients@.len() as int) =~= forwarded_keys_spec(rv));
    }
    keys
}

/// What marking message recipients as served writes: their forwarded
/// records, but only when the message's data is stored (`data_present`);
/// a mark for a message with no stored data writes nothing.
pub fn mark_plan(data_present: bool, recipients: &Vec<Recipient>) -> (r: Option<Vec<Vec<u8>>>)
    ensures
        !data_present ==> r is None,
        data_present ==> (r matches Some(keys) && keys_view(keys@) == forwarded_keys_spec(recipients_view(recipients@))),
{
    if data_present {
        Some(forwarded_keys(recipients))
    } else {
        None
    }
}

/// How many leading expiry times of `ts` are due at `now`.
pub open spec fn due_prefix(ts: Seq<i64>, now: i64) -> nat
    decreases ts.len(),
{
    if ts.len() == 0 || ts[0] > now {
        0
    } else {
        1 + due_prefix(ts.drop_first(), now)
    }
}

/// How many entries a cleanup round removes at `now` from an index kept in
/// expiry order (`ts` are the expiry times, earliest first): the due ones
/// from the front, stopping once more than `max_limit` were taken.
pub open spec fn cleanup_count_spec(ts: Seq<i64>, now: i64, max_limit: nat) -> nat {
    let d = due_prefix(ts, now);
    if d > max_limit + 1 {
        max_limit + 1
    } else {
        d
    }
}

/// Counts what a cleanup round removes (see [`cleanup_count_spec`]).
pub fn cleanup_count(ts: &Vec<i64>, now: i64, max_limit: usize) -> (n: usize)
    ensures
        n == cleanup_count_spec(ts@, now, max_limit as nat),
{
    let mut n: usize = 0;
    proof {
        assert(ts@.skip(0) =~= ts@);
    }
    while n < ts.len() && ts[n] <= now && n <= max_limit
        invariant
            n <= ts@.len(),
            n <= max_limit + 1,
            due_prefix(ts@, now) == n + due_prefix(ts@.skip(n as int), now),
        decreases ts@.len() - n,
    {
        proof {
            assert(ts@.skip(n as int)[0] == ts@[n as int]);
            assert(ts@.skip(n as int).drop_first() =~= ts@.skip(n + 1));
        }
        n += 1;
    }
    proof {
        if n < ts@.len() && ts@[n as int] > now {
            assert(ts@.skip(n as int)[0] == ts@[n as int]);
        }
        if n == ts@.len() {
            assert(ts@.skip(n as int).len() == 0);
        }
    }
    n
}

/// Whether a cleanup round that removed `removed` entries is followed at
/// once by another: it took the whole round's allowance (`max_limit`), so
/// more may be due; otherwise the cleaner sleeps before the next round.
pub fn cleanup_again(removed: usize, max_limit: usize) -> (r: bool)
    ensures
        r == (removed >= max_limit),
{
    removed >= max_limit
}

/// Whether a stored message counts as already forwarded to `client_id`,
/// looking up with `topic_filter`: its recipients hold the client's own
/// key, or, for a member of share group `group`, a recipient marked with
/// that filter and group.
pub open spec fn stored_forwarded(
    has_client_key: bool,
    marks: Seq<Option<(Seq<char>, Seq<char>)>>,
    topic_filter: Seq<char>,
    group: Option<Seq<char>>,
) -> bool {
    ||| has_client_key
    ||| match group {
        Some(g) => exists|i: int| 0 <= i < marks.len() && #[trigger] marks[i] == Some((topic_filter, g)),
        None => false,
    }
}

pub open spec fn marks_view(v: Seq<Option<(String, String)>>) -> Seq<Option<(Seq<char>, Seq<char>)>> {
    Seq::new(v.len(), |i: int| match v[i] {
        Some((tf, g)) => Some((tf@, g@)),
        None => None,
    })
}

/// Checks [`stored_forwarded`]: `has_client_key` says whether the client's
/// key is among the message's recipients, `marks` lists the share marks of
/// its recipients.
pub fn is_forwarded_stored(
    has_client_key: bool,
    marks: &Vec<Option<(String, String)>>,
    topic_filter: &str,
    group: Option<&str>,
) -> (r: bool)
    ensures
        r == stored_forwarded(has_client_key, marks_view(marks@), topic_filter@, match group {
            Some(g) => Some(g@),
            None => None,
        }),
{
    if has_client_key {
        return true;
    }
    let g = match group {
        Some(g) => g,
        None => return false,
    };
    let ghost mv = marks_view(marks@);
    let mut i: usize = 0;
    while i < marks.len()
        invariant
            i <= marks@.len(),
            mv == marks_view(marks@),
            !has_client_key,
            group matches Some(x) && x@ == g@,
            forall|j: int| 0 <= j < i ==> mv[j] != Some((topic_filter@, g@)),
        decreases marks@.len() - i,
    {
        match &marks[i] {
            Some((tf, mg)) => {
                if crate::text::str_eq(mg.as_str(), g) && crate::text::str_eq(tf.as_str(), topic_filter) {
                    assert(mv[i as int] == Some((topic_filter@, g@)));
                    return true;
                }
            },
            None => {},
        }
        i += 1;
    }
    proof {
        if exists|j: int| 0 <= j < mv.len() && #[trigger] mv[j] == Some((topic_filter@, g@)) {
            let j = choose|j: int| 0 <= j < mv.len() && #[trigger] mv[j] == Some((topic_filter@, g@));
            assert(mv[j] != Some((topic_filter@, g@)));
        }
    }
    false
}

/// Whether a stored message found for `client_id` is served: it was not
/// forwarded to it yet, has not expired, and is addressed to nobody or to
/// this client.
pub fn deliverable_stored(forwarded: bool, expired: bool, target_clientid: Option<&str>, client_id: &str) -> (r: bool)
    ensures
        r == (!forwarded && !expired && match target_clientid {
            Some(t) => t@ == client_id@,
            None => true,
        }),
{
    if forwarded || expired {
        return false;
    }
    match target_clientid {
        Some(t) => crate::text::str_eq(t, client_id),
        None => true,
    }
}

/// A message's store and its delivery marks are routed to the same worker,
/// which handles its queue in order, so a mark never overtakes the store it
/// refers to.
pub proof fn law_store_and_marks_same_worker(store_id: usize, mark_id: usize)
    requires
        store_id == mark_id,
    ensures
        store_id % WORKER_COUNT == mark_id % WORKER_COUNT,
        store_id % WORKER_COUNT < WORKER_COUNT,
{
}

} // verus!
