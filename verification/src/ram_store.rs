//! In-memory store of offline messages (the RAM message manager).
//!
//! A message is stored under its topic with its id appended as one more
//! level; a subscriber's filter finds the messages whose topic it matches.
//! A message is handed to a client at most once: recipients recorded with
//! `mark_forwarded` (or at store time) are not served it again, and a client
//! of a share group is not served a message that another member of the same
//! group already got through the same filter. Expired messages are never
//! served and are removed by `remove_expired_messages`, which also evicts the
//! oldest messages while the store is over its count or byte limits.
use vstd::prelude::*;
use crate::message::{
    copy_recipient, recipient_view, recipients_view, MsgFrom, MsgFromView, Publish, PublishView,
    Recipient, RecipientView,
};
use crate::text::{decimal, u64_decimal, str_chars};
use crate::topic::{
    is_hash, levels_match, levels_view, parse_filter, parse_filter_spec, parse_name,
    parse_name_spec, topic_matches, TopicError,
};

verus! {

/// Limits of the in-memory store.
#[derive(Debug, Clone, Copy)]
pub struct RamConfig {
    /// Byte budget of the stored messages.
    pub cache_capacity: usize,
    /// Most messages kept before the oldest are evicted.
    pub cache_max_count: usize,
    /// Whether messages are kept encoded (does not change what is served).
    pub encode: bool,
    /// Capacity of the store's work queue.
    pub queue_max: usize,
}

impl Default for RamConfig {
    fn default() -> (c: RamConfig)
        ensures
            c.cache_capacity == 3221225472usize,
            c.cache_max_count == usize::MAX,
            c.encode == false,
            c.queue_max == 300000,
    {
        RamConfig {
            cache_capacity: 3221225472usize,
            cache_max_count: usize::MAX,
            encode: false,
            queue_max: 300000,
        }
    }
}

/// A stored message with its expiry time (unix milliseconds).
#[derive(Debug)]
pub struct StoredMessage {
    pub msg_id: usize,
    pub from: MsgFrom,
    pub publish: Publish,
    pub expiry_time_at: i64,
}

struct Entry {
    msg: StoredMessage,
    levels: Vec<Vec<char>>,
    size: usize,
    forwarded: Vec<Recipient>,
}

/// The mathematical form of one stored message.
pub struct EntryView {
    pub msg_id: usize,
    pub from: MsgFromView,
    pub publish: PublishView,
    pub expiry_time_at: i64,
    /// The topic's levels followed by the decimal message id.
    pub levels: Seq<Seq<char>>,
    /// The bytes this message counts for.
    pub size: usize,
    /// Who already got this message.
    pub forwarded: Seq<RecipientView>,
}

spec fn entry_view(e: Entry) -> EntryView {
    EntryView {
        msg_id: e.msg.msg_id,
        from: e.msg.from@,
        publish: e.msg.publish@,
        expiry_time_at: e.msg.expiry_time_at,
        levels: levels_view(e.levels@),
        size: e.size,
        forwarded: recipients_view(e.forwarded@),
    }
}

/// The in-memory offline-message manager.
pub struct RamMessageManager {
    cfg: RamConfig,
    entries: Vec<Entry>,
    id_gen: usize,
    bytes: usize,
}

/// The mathematical form of the store.
pub struct RamStoreView {
    pub cfg: RamConfig,
    /// Stored messages, oldest store first.
    pub entries: Seq<EntryView>,
    /// The next message id to hand out.
    pub id_gen: usize,
    /// Bytes counted for the stored messages.
    pub bytes: usize,
}

impl View for RamMessageManager {
    type V = RamStoreView;

    closed spec fn view(&self) -> RamStoreView {
        RamStoreView {
            cfg: self.cfg,
            entries: Seq::new(self.entries@.len(), |i: int| entry_view(self.entries@[i])),
            id_gen: self.id_gen,
            bytes: self.bytes,
        }
    }
}

/// Recipient lists name each client at most once.
pub open spec fn unique_clients(f: Seq<RecipientView>) -> bool {
    forall|i: int, j: int| 0 <= i < j < f.len() ==> (#[trigger] f[i]).0 != (#[trigger] f[j]).0
}

/// Records `r` in a recipient list: it replaces the entry of the same
/// client, or is appended.
pub open spec fn upsert(f: Seq<RecipientView>, r: RecipientView) -> Seq<RecipientView> {
    if exists|i: int| 0 <= i < f.len() && (#[trigger] f[i]).0 == r.0 {
        let i = choose|i: int| 0 <= i < f.len() && (#[trigger] f[i]).0 == r.0;
        f.update(i, r)
    } else {
        f.push(r)
    }
}

/// Records all of `rs` in order.
pub open spec fn merge(f: Seq<RecipientView>, rs: Seq<RecipientView>) -> Seq<RecipientView>
    decreases rs.len(),
{
    if rs.len() == 0 {
        f
    } else {
        upsert(merge(f, rs.drop_last()), rs.last())
    }
}

/// The levels a message is stored under.
pub open spec fn stored_levels(topic_levels: Seq<Seq<char>>, msg_id: usize) -> Seq<Seq<char>> {
    topic_levels.push(decimal(msg_id as nat))
}

/// The filter a subscription looks messages up with: a `+` is added for the
/// id level unless the filter already ends with `#`.
pub open spec fn lookup_filter(f: Seq<Seq<char>>) -> Seq<Seq<char>> {
    if f.len() > 0 && is_hash(f.last()) {
        f
    } else {
        f.push(seq!['+'])
    }
}

/// Bytes counted for a level list.
pub open spec fn levels_size(ls: Seq<Seq<char>>) -> nat
    decreases ls.len(),
{
    if ls.len() == 0 {
        0
    } else {
        levels_size(ls.drop_last()) + (LEVEL_OVERHEAD as nat) + ls.last().len()
    }
}

/// Per-level overhead counted for a stored topic.
pub const LEVEL_OVERHEAD: usize = 32;

/// Per-message overhead counted for id, expiry and bookkeeping.
pub const MESSAGE_OVERHEAD: usize = 64;

/// Bytes a message counts for (saturating at `usize::MAX`).
pub open spec fn message_size(ls: Seq<Seq<char>>, topic_len: nat, payload_len: nat) -> usize {
    let s = levels_size(ls) + (MESSAGE_OVERHEAD as nat) + topic_len + payload_len;
    if s > usize::MAX { usize::MAX } else { s as usize }
}

/// Whether the message was already forwarded to `client`, or, for a member
/// of share group `group`, to another member through the same filter.
pub open spec fn is_forwarded(
    f: Seq<RecipientView>,
    client: Seq<char>,
    tf: Seq<char>,
    group: Option<Seq<char>>,
) -> bool {
    ||| exists|i: int| 0 <= i < f.len() && (#[trigger] f[i]).0 == client
    ||| match group {
        Some(g) => exists|i: int| 0 <= i < f.len() && (#[trigger] f[i]).1 == Some((tf, g)),
        None => false,
    }
}

/// A message expires once its expiry time lies before `now`.
pub open spec fn is_expired(e: EntryView, now: i64) -> bool {
    e.expiry_time_at < now
}

/// Whether `client`, looking up with filter levels `fl` (`tf` as written),
/// is served message `e` at time `now`.
pub open spec fn deliverable(
    e: EntryView,
    now: i64,
    client: Seq<char>,
    fl: Seq<Seq<char>>,
    tf: Seq<char>,
    group: Option<Seq<char>>,
) -> bool {
    &&& topic_matches(lookup_filter(fl), e.levels)
    &&& !is_forwarded(e.forwarded, client, tf, group)
    &&& !is_expired(e, now)
    &&& match e.publish.target_clientid {
        Some(t) => t == client,
        None => true,
    }
}

/// What a lookup returns of a message.
pub type DeliveryView = (usize, MsgFromView, PublishView);

/// The messages served to a lookup, in store order.
pub open spec fn delivered(
    es: Seq<EntryView>,
    now: i64,
    client: Seq<char>,
    fl: Seq<Seq<char>>,
    tf: Seq<char>,
    group: Option<Seq<char>>,
) -> Seq<DeliveryView>
    decreases es.len(),
{
    if es.len() == 0 {
        Seq::empty()
    } else {
        let rest = delivered(es.drop_last(), now, client, fl, tf, group);
        let e = es.last();
        if deliverable(e, now, client, fl, tf, group) {
            rest.push((e.msg_id, e.from, e.publish))
        } else {
            rest
        }
    }
}

pub open spec fn deliveries_view(v: Seq<(usize, MsgFrom, Publish)>) -> Seq<DeliveryView> {
    Seq::new(v.len(), |i: int| (v[i].0, v[i].1@, v[i].2@))
}

/// Position of the message with id `id`, if stored.
pub open spec fn index_of(es: Seq<EntryView>, id: usize) -> Option<int> {
    if exists|i: int| 0 <= i < es.len() && (#[trigger] es[i]).msg_id == id {
        Some(choose|i: int| 0 <= i < es.len() && (#[trigger] es[i]).msg_id == id)
    } else {
        None
    }
}

/// Ids are unique, recipient lists name each client once, and every
/// message sits under its parsed topic followed by its id.
pub open spec fn entries_wf(es: Seq<EntryView>) -> bool {
    &&& forall|i: int, j: int|
        0 <= i < j < es.len() ==> (#[trigger] es[i]).msg_id != (#[trigger] es[j]).msg_id
    &&& forall|i: int| 0 <= i < es.len() ==> unique_clients((#[trigger] es[i]).forwarded)
    &&& forall|i: int|
        0 <= i < es.len() ==> {
            let e = #[trigger] es[i];
            parse_name_spec(e.publish.topic) == Ok::<Seq<Seq<char>>, TopicError>(e.levels.drop_last())
                && e.levels.len() >= 1 && e.levels.last() == decimal(e.msg_id as nat)
        }
}

impl RamStoreView {
    /// The store's invariant (see [`entries_wf`]).
    pub open spec fn wf(self) -> bool {
        entries_wf(self.entries)
    }
}

proof fn lemma_upsert_unique(f: Seq<RecipientView>, r: RecipientView)
    requires
        unique_clients(f),
    ensures
        unique_clients(upsert(f, r)),
        forall|k: int| 0 <= k < upsert(f, r).len() ==> (#[trigger] upsert(f, r)[k]).0 == r.0
            || exists|m: int| 0 <= m < f.len() && f[m] == upsert(f, r)[k],
{
    let u = upsert(f, r);
    if exists|i: int| 0 <= i < f.len() && (#[trigger] f[i]).0 == r.0 {
        let i = choose|i: int| 0 <= i < f.len() && (#[trigger] f[i]).0 == r.0;
        assert forall|a: int, b: int| 0 <= a < b < u.len() implies (#[trigger] u[a]).0 != (#[trigger] u[b]).0 by {
            if a == i {
                assert(f[b].0 != f[i].0);
            } else if b == i {
                assert(f[a].0 != f[i].0);
            } else {
                assert(f[a].0 != f[b].0);
            }
        }
        assert forall|k: int| 0 <= k < u.len() implies (#[trigger] u[k]).0 == r.0
            || exists|m: int| 0 <= m < f.len() && f[m] == u[k] by {
            if k != i {
                assert(f[k] == u[k]);
            }
        }
    } else {
        assert forall|a: int, b: int| 0 <= a < b < u.len() implies (#[trigger] u[a]).0 != (#[trigger] u[b]).0 by {
            if b == f.len() {
                assert(f[a].0 != r.0);
            } else {
                assert(f[a].0 != f[b].0);
            }
        }
        assert forall|k: int| 0 <= k < u.len() implies (#[trigger] u[k]).0 == r.0
            || exists|m: int| 0 <= m < f.len() && f[m] == u[k] by {
            if k < f.len() {
                assert(f[k] == u[k]);
            }
        }
    }
}

proof fn lemma_merge_unique(f: Seq<RecipientView>, rs: Seq<RecipientView>)
    requires
        unique_clients(f),
    ensures
        unique_clients(merge(f, rs)),
    decreases rs.len(),
{
    if rs.len() > 0 {
        lemma_merge_unique(f, rs.drop_last());
        lemma_upsert_unique(merge(f, rs.drop_last()), rs.last());
    }
}

/// Records one recipient in a recipient list.
fn upsert_exec(f: &mut Vec<Recipient>, r: Recipient)
    requires
        unique_clients(recipients_view(old(f)@)),
    ensures
        recipients_view(final(f)@) == upsert(recipients_view(old(f)@), recipient_view(r)),
        unique_clients(recipients_view(final(f)@)),
{
    let ghost fv = recipients_view(f@);
    let ghost rv = recipient_view(r);
    proof {
        lemma_upsert_unique(fv, rv);
    }
    let mut i: usize = 0;
    while i < f.len()
        invariant
            f@ == old(f)@,
            fv == recipients_view(f@),
            rv == recipient_view(r),
            unique_clients(fv),
            i <= f@.len(),
            forall|k: int| 0 <= k < i ==> (#[trigger] fv[k]).0 != rv.0,
        decreases f@.len() - i,
    {
        if f[i].0 == r.0 {
            proof {
                assert(fv[i as int].0 == rv.0);
                let j = choose|j: int| 0 <= j < fv.len() && (#[trigger] fv[j]).0 == rv.0;
                if j != i {
                    if j < i {
                        assert(fv[j].0 != fv[i as int].0);
                    } else {
                        assert(fv[i as int].0 != fv[j].0);
                    }
                }
            }
            f.set(i, r);
            proof {
                assert(recipients_view(f@) =~= fv.update(i as int, rv));
            }
            return;
        }
        i += 1;
    }
    f.push(r);
    proof {
        assert(recipients_view(f@) =~= fv.push(rv));
    }
}

/// Records recipients in order.
fn merge_exec(f: &mut Vec<Recipient>, rs: &Vec<Recipient>)
    requires
        unique_clients(recipients_view(old(f)@)),
    ensures
        recipients_view(final(f)@) == merge(recipients_view(old(f)@), recipients_view(rs@)),
        unique_clients(recipients_view(final(f)@)),
{
    let ghost f0 = recipients_view(f@);
    let ghost rsv = recipients_view(rs@);
    let mut i: usize = 0;
    proof {
        assert(rsv.take(0) =~= Seq::<RecipientView>::empty());
    }
    while i < rs.len()
        invariant
            rsv == recipients_view(rs@),
            i <= rs@.len(),
            recipients_view(f@) == merge(f0, rsv.take(i as int)),
            unique_clients(recipients_view(f@)),
        decreases rs@.len() - i,
    {
        let r = copy_recipient(&rs[i]);
        proof {
            assert(recipient_view(r) == rsv[i as int]);
            assert(rsv.take(i + 1).drop_last() =~= rsv.take(i as int));
        }
        upsert_exec(f, r);
        i += 1;
    }
    proof {
        assert(rsv.take(rs@.len() as int) =~= rsv);
    }
}

/// Bytes counted for a level list, capped at `usize::MAX`.
fn levels_size_exec(ls: &Vec<Vec<char>>) -> (r: usize)
    ensures
        r as nat == if levels_size(levels_view(ls@)) > usize::MAX { usize::MAX as nat } else {
            levels_size(levels_view(ls@))
        },
{
    let ghost g = levels_view(ls@);
    let mut acc: usize = 0;
    let mut i: usize = 0;
    proof {
        assert(g.take(0) =~= Seq::<Seq<char>>::empty());
    }
    while i < ls.len()
        invariant
            g == levels_view(ls@),
            i <= ls@.len(),
            acc as nat == if levels_size(g.take(i as int)) > usize::MAX { usize::MAX as nat } else {
                levels_size(g.take(i as int))
            },
        decreases ls@.len() - i,
    {
        proof {
            assert(g.take(i + 1).drop_last() =~= g.take(i as int));
            assert(g.take(i + 1).last() == ls@[i as int]@);
        }
        acc = acc.saturating_add(LEVEL_OVERHEAD);
        acc = acc.saturating_add(ls[i].len());
        i += 1;
    }
    proof {
        assert(g.take(ls@.len() as int) =~= g);
    }
    acc
}

/// Bytes a message counts for.
fn message_size_exec(ls: &Vec<Vec<char>>, topic_len: usize, payload_len: usize) -> (r: usize)
    ensures
        r == message_size(levels_view(ls@), topic_len as nat, payload_len as nat),
{
    let a = levels_size_exec(ls);
    a.saturating_add(MESSAGE_OVERHEAD).saturating_add(topic_len).saturating_add(payload_len)
}

/// The entry a store creates, given the recipient list it starts from.
pub open spec fn new_entry(
    now: i64,
    msg_id: usize,
    from: MsgFromView,
    publish: PublishView,
    expiry_interval_ms: u64,
    ls: Seq<Seq<char>>,
    forwarded: Seq<RecipientView>,
) -> EntryView {
    let levels = stored_levels(ls, msg_id);
    EntryView {
        msg_id,
        from,
        publish,
        expiry_time_at: (now + expiry_interval_ms) as i64,
        levels,
        size: message_size(levels, publish.topic.len(), publish.payload.len()),
        forwarded,
    }
}

/// The messages after storing one under topic levels `ls`: a message with
/// the same id is replaced in place (keeping whom it was forwarded to),
/// otherwise the message is appended.
pub open spec fn stored_entries(
    es: Seq<EntryView>,
    now: i64,
    msg_id: usize,
    from: MsgFromView,
    publish: PublishView,
    expiry_interval_ms: u64,
    ls: Seq<Seq<char>>,
    recipients: Seq<RecipientView>,
) -> Seq<EntryView> {
    match index_of(es, msg_id) {
        Some(i) => es.update(
            i,
            new_entry(now, msg_id, from, publish, expiry_interval_ms, ls, merge(es[i].forwarded, recipients)),
        ),
        None => es.push(
            new_entry(now, msg_id, from, publish, expiry_interval_ms, ls, merge(Seq::empty(), recipients)),
        ),
    }
}

pub open spec fn opt_recipients_view(r: Option<Vec<Recipient>>) -> Seq<RecipientView> {
    match r {
        Some(v) => recipients_view(v@),
        None => Seq::empty(),
    }
}

/// `rmqtt::utils::timestamp_millis`: the wall-clock time in unix
/// milliseconds. Nothing is stated of it: it is the time.
#[verifier::external_body]
pub(crate) fn timestamp_millis() -> i64 {
    rmqtt::utils::timestamp_millis()
}

pub open spec fn opt_str_view(g: Option<&str>) -> Option<Seq<char>> {
    match g {
        Some(s) => Some(s@),
        None => None,
    }
}

/// Whether a recipient list already covers `client_id` (see [`is_forwarded`]).
fn forwarded_to(f: &Vec<Recipient>, client_id: &str, topic_filter: &str, group: Option<&str>) -> (r: bool)
    ensures
        r == is_forwarded(recipients_view(f@), client_id@, topic_filter@, opt_str_view(group)),
{
    let ghost fv = recipients_view(f@);
    let mut i: usize = 0;
    let mut by_group = false;
    while i < f.len()
        invariant
            fv == recipients_view(f@),
            i <= f@.len(),
            forall|k: int| 0 <= k < i ==> (#[trigger] fv[k]).0 != client_id@,
            by_group == match opt_str_view(group) {
                Some(g) => exists|k: int| 0 <= k < i && (#[trigger] fv[k]).1 == Some((topic_filter@, g)),
                None => false,
            },
        decreases f@.len() - i,
    {
        let r = &f[i];
        proof {
            assert(fv[i as int] == recipient_view(*r));
        }
        if crate::text::str_eq(r.0.as_str(), client_id) {
            return true;
        }
        match (group, &r.1) {
            (Some(g), Some(p)) => {
                if crate::text::str_eq(p.0.as_str(), topic_filter) && crate::text::str_eq(p.1.as_str(), g) {
                    by_group = true;
                    proof {
                        assert(fv[i as int].1 == Some((topic_filter@, g@)));
                    }
                }
            },
            _ => {},
        }
        proof {
            match opt_str_view(group) {
                Some(g) => {
                    if !by_group {
                        assert(fv[i as int].1 != Some((topic_filter@, g)));
                    }
                },
                None => {},
            }
        }
        i += 1;
    }
    by_group
}

/// Why storing a message failed.
#[derive(Debug, Clone, Copy, PartialEq, Eq, Structural)]
pub enum StoreError {
    /// The topic is not a valid topic name.
    Topic(TopicError),
    /// The expiry time does not fit in a timestamp.
    ExpiryOverflow,
}

proof fn lemma_kept_wf(es: Seq<EntryView>, all: Seq<EntryView>, k: nat)
    requires
        entries_wf(es),
    ensures
        entries_wf(kept(es, all, k)),
        forall|x: EntryView| kept(es, all, k).contains(x) ==> es.contains(x),
    decreases es.len(),
{
    if es.len() > 0 {
        let d = es.drop_last();
        assert(entries_wf(d)) by {
            assert forall|a: int, b: int| 0 <= a < b < d.len() implies (#[trigger] d[a]).msg_id != (#[trigger] d[b]).msg_id by {
                assert(es[a].msg_id != es[b].msg_id);
            }
            assert forall|a: int| 0 <= a < d.len() implies unique_clients((#[trigger] d[a]).forwarded) by {
                assert(d[a] == es[a]);
            }
            assert forall|a: int| 0 <= a < d.len() implies {
                let e = #[trigger] d[a];
                parse_name_spec(e.publish.topic) == Ok::<Seq<Seq<char>>, TopicError>(e.levels.drop_last())
                    && e.levels.len() >= 1 && e.levels.last() == decimal(e.msg_id as nat)
            } by {
                assert(d[a] == es[a]);
            }
        }
        lemma_kept_wf(d, all, k);
        let r = kept(d, all, k);
        let last = es.last();
        assert forall|x: EntryView| r.contains(x) implies es.contains(x) by {
            assert(d.contains(x));
            let p = choose|p: int| 0 <= p < d.len() && d[p] == x;
            assert(es[p] == x);
        }
        if count_less(all, last) >= k {
            let rr = r.push(last);
            assert forall|x: EntryView| rr.contains(x) implies es.contains(x) by {
                if x != last {
                    let q = choose|q: int| 0 <= q < rr.len() && rr[q] == x;
                    assert(r[q] == x);
                    assert(r.contains(x));
                } else {
                    assert(es[es.len() - 1] == x);
                }
            }
            assert forall|a: int, b: int| 0 <= a < b < rr.len() implies (#[trigger] rr[a]).msg_id != (#[trigger] rr[b]).msg_id by {
                if b == r.len() {
                    assert(r[a] == rr[a]);
                    assert(r.contains(rr[a]));
                    assert(d.contains(rr[a]));
                    let p = choose|p: int| 0 <= p < d.len() && d[p] == rr[a];
                    assert(es[p].msg_id != es[es.len() - 1].msg_id);
                } else {
                    assert(rr[a] == r[a] && rr[b] == r[b]);
                }
            }
            assert forall|a: int| 0 <= a < rr.len() implies unique_clients((#[trigger] rr[a]).forwarded) by {
                if a < r.len() { assert(rr[a] == r[a]); } else { assert(es[es.len() - 1] == last); }
            }
            assert forall|a: int| 0 <= a < rr.len() implies {
                let e = #[trigger] rr[a];
                parse_name_spec(e.publish.topic) == Ok::<Seq<Seq<char>>, TopicError>(e.levels.drop_last())
                    && e.levels.len() >= 1 && e.levels.last() == decimal(e.msg_id as nat)
            } by {
                if a < r.len() { assert(rr[a] == r[a]); } else { assert(es[es.len() - 1] == last); }
            }
        }
    }
}

/// The order in which messages expire: by expiry time, then by id.
pub open spec fn key_less(a: EntryView, b: EntryView) -> bool {
    a.expiry_time_at < b.expiry_time_at || (a.expiry_time_at == b.expiry_time_at && a.msg_id < b.msg_id)
}

/// How many of `xs` expire before `e`.
pub open spec fn count_less(xs: Seq<EntryView>, e: EntryView) -> nat
    decreases xs.len(),
{
    if xs.len() == 0 {
        0
    } else {
        count_less(xs.drop_last(), e) + if key_less(xs.last(), e) { 1nat } else { 0nat }
    }
}

/// How many of `xs` have expired at `now` (expiry time not after `now`).
pub open spec fn count_expired(xs: Seq<EntryView>, now: i64) -> nat
    decreases xs.len(),
{
    if xs.len() == 0 {
        0
    } else {
        count_expired(xs.drop_last(), now) + if xs.last().expiry_time_at <= now { 1nat } else { 0nat }
    }
}

/// Whether the store holds more messages or bytes than its limits allow.
pub open spec fn over_limits(v: RamStoreView) -> bool {
    v.entries.len() > v.cfg.cache_max_count || v.bytes > v.cfg.cache_capacity
}

/// How many messages one cleanup pass removes: the expired ones (or, over
/// the limits, all), at most `max_limit + 1`.
pub open spec fn removal_count(v: RamStoreView, now: i64, max_limit: usize) -> nat {
    let due: nat = if over_limits(v) { v.entries.len() } else { count_expired(v.entries, now) };
    if due > max_limit + 1 { (max_limit + 1) as nat } else { due }
}

/// The messages of `es` that a cleanup removing the `k` first to expire keeps.
pub open spec fn kept(es: Seq<EntryView>, all: Seq<EntryView>, k: nat) -> Seq<EntryView>
    decreases es.len(),
{
    if es.len() == 0 {
        Seq::empty()
    } else {
        let r = kept(es.drop_last(), all, k);
        if count_less(all, es.last()) >= k { r.push(es.last()) } else { r }
    }
}

/// The byte count after the cleanup removing the `k` first to expire.
pub open spec fn bytes_left(b: usize, es: Seq<EntryView>, all: Seq<EntryView>, k: nat) -> usize
    decreases es.len(),
{
    if es.len() == 0 {
        b
    } else {
        let r = bytes_left(b, es.drop_last(), all, k);
        if count_less(all, es.last()) >= k { r } else { r.wrapping_sub(es.last().size) }
    }
}

/// Total number of recorded recipients.
pub open spec fn total_forwarded(es: Seq<EntryView>) -> nat
    decreases es.len(),
{
    if es.len() == 0 {
        0
    } else {
        total_forwarded(es.drop_last()) + es.last().forwarded.len()
    }
}

/// The messages after recording `rs` as recipients of message `msg_id`
/// (nothing changes when no such message is stored).
pub open spec fn marked_entries(es: Seq<EntryView>, msg_id: usize, rs: Seq<RecipientView>) -> Seq<EntryView> {
    match index_of(es, msg_id) {
        Some(i) => es.update(i, EntryView { forwarded: merge(es[i].forwarded, rs), ..es[i] }),
        None => es,
    }
}

fn key_less_exec(a: &Entry, b: &Entry) -> (r: bool)
    ensures
        r == key_less(entry_view(*a), entry_view(*b)),
{
    a.msg.expiry_time_at < b.msg.expiry_time_at || (a.msg.expiry_time_at == b.msg.expiry_time_at
        && a.msg.msg_id < b.msg.msg_id)
}

impl RamMessageManager {
    /// An empty store; ids start at 1.
    pub fn new(cfg: RamConfig) -> (m: RamMessageManager)
        ensures
            m@.cfg == cfg,
            m@.entries.len() == 0,
            m@.id_gen == 1,
            m@.bytes == 0,
            m@.wf(),
    {
        let m = RamMessageManager { cfg, entries: Vec::new(), id_gen: 1, bytes: 0 };
        proof {
            assert(m@.entries =~= Seq::<EntryView>::empty());
        }
        m
    }

    /// Hands out the next message id.
    pub fn next_msg_id(&mut self) -> (id: usize)
        ensures
            id == old(self)@.id_gen,
            final(self)@.id_gen == old(self)@.id_gen.wrapping_add(1),
            final(self)@.entries == old(self)@.entries,
            final(self)@.bytes == old(self)@.bytes,
            final(self)@.cfg == old(self)@.cfg,
    {
        let id = self.id_gen;
        self.id_gen = self.id_gen.wrapping_add(1);
        proof {
            assert(self@.entries =~= old(self)@.entries);
        }
        id
    }

    /// The store always serves lookups from its own state.
    pub fn merge_on_read(&self) -> (r: bool)
        ensures
            r,
    {
        true
    }

    /// The store is always enabled.
    pub fn enable(&self) -> (r: bool)
        ensures
            r,
    {
        true
    }

    /// How many messages are stored.
    pub fn count(&self) -> (r: isize)
        ensures
            r == self@.entries.len() as isize,
    {
        self.entries.len() as isize
    }

    /// How many messages are stored (the high-water mark of this store).
    pub fn max(&self) -> (r: isize)
        ensures
            r == self@.entries.len() as isize,
    {
        self.entries.len() as isize
    }

    /// Bytes counted for the stored messages.
    pub fn messages_bytes_size_get(&self) -> (r: usize)
        ensures
            r == self@.bytes,
    {
        self.bytes
    }

    fn find(&self, msg_id: usize) -> (r: Option<usize>)
        requires
            self@.wf(),
        ensures
            match (r, index_of(self@.entries, msg_id)) {
                (Some(i), Some(j)) => i as int == j && i < self@.entries.len(),
                (None, None) => true,
                _ => false,
            },
    {
        let ghost es = self@.entries;
        let mut i: usize = 0;
        while i < self.entries.len()
            invariant
                es == self@.entries,
                self@.wf(),
                i <= self.entries@.len(),
                forall|k: int| 0 <= k < i ==> (#[trigger] es[k]).msg_id != msg_id,
            decreases self.entries@.len() - i,
        {
            if self.entries[i].msg.msg_id == msg_id {
                proof {
                    assert(es[i as int].msg_id == msg_id);
                    let j = choose|j: int| 0 <= j < es.len() && (#[trigger] es[j]).msg_id == msg_id;
                    if j < i {
                        assert(es[j].msg_id != es[i as int].msg_id);
                    } else if j > i {
                        assert(es[i as int].msg_id != es[j].msg_id);
                    }
                }
                return Some(i);
            }
            i += 1;
        }
        None
    }

    /// Stores a message at time `now`; it expires `expiry_interval_ms` later.
    /// The recipients given are recorded as already served.
    pub fn store_at(
        &mut self,
        now: i64,
        msg_id: usize,
        from: MsgFrom,
        publish: Publish,
        expiry_interval_ms: u64,
        recipients: Option<Vec<Recipient>>,
    ) -> (r: Result<(), TopicError>)
        requires
            old(self)@.wf(),
            expiry_interval_ms <= i64::MAX,
            now + expiry_interval_ms <= i64::MAX,
        ensures
            final(self)@.wf(),
            final(self)@.cfg == old(self)@.cfg,
            final(self)@.id_gen == old(self)@.id_gen,
            match parse_name_spec(publish@.topic) {
                Err(e) => (r matches Err(x) && x == e) && final(self)@ == old(self)@,
                Ok(ls) => {
                    &&& r is Ok
                    &&& final(self)@.entries == stored_entries(
                        old(self)@.entries,
                        now,
                        msg_id,
                        from@,
                        publish@,
                        expiry_interval_ms,
                        ls,
                        opt_recipients_view(recipients),
                    )
                    &&& final(self)@.bytes == old(self)@.bytes.wrapping_add(
                        message_size(stored_levels(ls, msg_id), publish@.topic.len(), publish@.payload.len()),
                    )
                },
            },
    {
        let topic_chars = str_chars(publish.topic.as_str());
        let parsed = parse_name(&topic_chars);
        let mut levels = match parsed {
            Err(e) => {
                return Err(e);
            },
            Ok(ls) => ls,
        };
        let ghost ls = levels_view(levels@);
        levels.push(u64_decimal(msg_id as u64));
        proof {
            assert(levels_view(levels@) =~= stored_levels(ls, msg_id));
        }
        let size = message_size_exec(&levels, topic_chars.len(), publish.payload.len());
        let expiry_time_at = now + expiry_interval_ms as i64;
        let ghost es = self@.entries;
        let ghost rv = opt_recipients_view(recipients);
        let found = self.find(msg_id);
        let mut forwarded: Vec<Recipient> = Vec::new();
        match found {
            Some(i) => {
                let mut old_entry = self.entries.remove(i);
                forwarded = old_entry.forwarded;
                proof {
                    assert(recipients_view(forwarded@) == es[i as int].forwarded);
                }
            },
            None => {
                proof {
                    assert(recipients_view(forwarded@) =~= Seq::<RecipientView>::empty());
                }
            },
        }
        let ghost f0 = recipients_view(forwarded@);
        proof {
            assert(unique_clients(f0));
        }
        match &recipients {
            Some(rs) => {
                merge_exec(&mut forwarded, rs);
            },
            None => {},
        }
        assert(recipients_view(forwarded@) == merge(f0, rv));
        let entry = Entry {
            msg: StoredMessage { msg_id, from, publish, expiry_time_at },
            levels,
            size,
            forwarded,
        };
        match found {
            Some(i) => {
                self.entries.insert(i, entry);
            },
            None => {
                self.entries.push(entry);
            },
        }
        self.bytes = self.bytes.wrapping_add(size);
        proof {
            lemma_merge_unique(f0, rv);
            let ne = entry_view(entry);
            match found {
                Some(i) => {
                    assert(self@.entries =~= es.update(i as int, ne));
                },
                None => {
                    assert(self@.entries =~= es.push(ne));
                },
            }
            assert(ne.levels.drop_last() =~= ls);
            assert(ne == new_entry(now, msg_id, from@, publish@, expiry_interval_ms, ls, merge(f0, rv)));
            assert(self@.entries == stored_entries(es, now, msg_id, from@, publish@, expiry_interval_ms, ls, rv));
            assert forall|a: int, b: int|
                0 <= a < b < self@.entries.len() implies (#[trigger] self@.entries[a]).msg_id
                != (#[trigger] self@.entries[b]).msg_id by {
                match found {
                    Some(i) => {
                        if a != i && b != i {
                            assert(es[a].msg_id != es[b].msg_id);
                        } else if a == i {
                            assert(es[b].msg_id != es[i as int].msg_id);
                        } else {
                            assert(es[a].msg_id != es[i as int].msg_id);
                        }
                    },
                    None => {
                        if b < es.len() {
                            assert(es[a].msg_id != es[b].msg_id);
                        }
                    },
                }
            }
        }
        Ok(())
    }

    /// Serves a lookup by `client_id` with filter `topic_filter` (through
    /// share group `group`, if any) at time `now`: the matching messages not
    /// yet forwarded to it, not expired, and not meant for another client.
    pub fn get_at(
        &self,
        now: i64,
        client_id: &str,
        topic_filter: &str,
        group: Option<&str>,
    ) -> (r: Result<Vec<(usize, MsgFrom, Publish)>, TopicError>)
        requires
            self@.wf(),
        ensures
            match parse_filter_spec(topic_filter@) {
                Err(e) => r matches Err(x) && x == e,
                Ok(fl) => r is Ok && deliveries_view(r->Ok_0@) == delivered(
                    self@.entries,
                    now,
                    client_id@,
                    fl,
                    topic_filter@,
                    opt_str_view(group),
                ),
            },
    {
        let tf_chars = str_chars(topic_filter);
        let mut lf = parse_filter(&tf_chars)?;
        let ghost fl = levels_view(lf@);
        let n = lf.len();
        let ends_with_hash = n > 0 && lf[n - 1].len() == 1 && lf[n - 1][0] == '#';
        if !ends_with_hash {
            let mut plus: Vec<char> = Vec::new();
            plus.push('+');
            lf.push(plus);
        }
        proof {
            if ends_with_hash {
                assert(fl.last() =~= seq!['#']);
                assert(levels_view(lf@) == lookup_filter(fl));
            } else {
                if n > 0 {
                    assert(fl.last() == lf@[n - 1]@);
                    assert(!is_hash(fl.last()));
                }
                assert(levels_view(lf@) =~= lookup_filter(fl));
            }
        }
        let ghost es = self@.entries;
        let ghost gv = opt_str_view(group);
        let mut out: Vec<(usize, MsgFrom, Publish)> = Vec::new();
        let mut i: usize = 0;
        proof {
            assert(es.take(0) =~= Seq::<EntryView>::empty());
            assert(deliveries_view(out@) =~= Seq::<DeliveryView>::empty());
        }
        while i < self.entries.len()
            invariant
                es == self@.entries,
                levels_view(lf@) == lookup_filter(fl),
                gv == opt_str_view(group),
                i <= self.entries@.len(),
                deliveries_view(out@) == delivered(es.take(i as int), now, client_id@, fl, topic_filter@, gv),
            decreases self.entries@.len() - i,
        {
            let e = &self.entries[i];
            proof {
                assert(es.take(i + 1).drop_last() =~= es.take(i as int));
                assert(es.take(i + 1).last() == es[i as int]);
                assert(es[i as int] == entry_view(*e));
            }
            let matched = levels_match(&lf, &e.levels);
            let fwd = forwarded_to(&e.forwarded, client_id, topic_filter, group);
            let expired = e.msg.expiry_time_at < now;
            let targeted_elsewhere = match &e.msg.publish.target_clientid {
                Some(t) => !crate::text::str_eq(t.as_str(), client_id),
                None => false,
            };
            if matched && !fwd && !expired && !targeted_elsewhere {
                let item = (e.msg.msg_id, e.msg.from.copy(), e.msg.publish.copy());
                out.push(item);
                proof {
                    assert(deliveries_view(out@) =~= delivered(es.take(i as int), now, client_id@, fl, topic_filter@, gv).push(
                        (es[i as int].msg_id, es[i as int].from, es[i as int].publish)));
                }
            }
            i += 1;
        }
        proof {
            assert(es.take(es.len() as int) =~= es);
        }
        Ok(out)
    }

    /// Serves a lookup at the current time (see [`Self::get_at`]).
    pub fn get(
        &self,
        client_id: &str,
        topic_filter: &str,
        group: Option<&str>,
    ) -> (r: Result<Vec<(usize, MsgFrom, Publish)>, TopicError>)
        requires
            self@.wf(),
        ensures
            match parse_filter_spec(topic_filter@) {
                Err(e) => r matches Err(x) && x == e,
                Ok(fl) => r is Ok && exists|now: i64| deliveries_view(r->Ok_0@) == #[trigger] delivered(
                    self@.entries,
                    now,
                    client_id@,
                    fl,
                    topic_filter@,
                    opt_str_view(group),
                ),
            },
    {
        let now = timestamp_millis();
        self.get_at(now, client_id, topic_filter, group)
    }

    /// Records that message `msg_id` was delivered to `recipients`; nothing
    /// happens when no such message is stored.
    pub fn mark_forwarded(&mut self, msg_id: usize, recipients: Vec<Recipient>) -> (r: Result<(), TopicError>)
        requires
            old(self)@.wf(),
        ensures
            r is Ok,
            final(self)@.wf(),
            final(self)@.cfg == old(self)@.cfg,
            final(self)@.id_gen == old(self)@.id_gen,
            final(self)@.bytes == old(self)@.bytes,
            final(self)@.entries == marked_entries(old(self)@.entries, msg_id, recipients_view(recipients@)),
    {
        let ghost es = self@.entries;
        let found = self.find(msg_id);
        match found {
            Some(i) => {
                let mut e = self.entries.remove(i);
                proof {
                    assert(entry_view(e) == es[i as int]);
                }
                let ghost f0 = recipients_view(e.forwarded@);
                merge_exec(&mut e.forwarded, &recipients);
                proof {
                    lemma_merge_unique(f0, recipients_view(recipients@));
                }
                self.entries.insert(i, e);
                proof {
                    let ne = EntryView { forwarded: merge(es[i as int].forwarded, recipients_view(recipients@)), ..es[i as int] };
                    assert(entry_view(e) == ne);
                    assert(self@.entries =~= es.update(i as int, ne));
                    assert forall|a: int, b: int|
                        0 <= a < b < self@.entries.len() implies (#[trigger] self@.entries[a]).msg_id
                        != (#[trigger] self@.entries[b]).msg_id by {
                        assert(es[a].msg_id != es[b].msg_id);
                    }
                }
            },
            None => {},
        }
        Ok(())
    }

    /// How many recipients are recorded over all messages (saturating).
    pub fn forwardeds_count(&self) -> (r: usize)
        ensures
            r as nat == if total_forwarded(self@.entries) > usize::MAX { usize::MAX as nat } else {
                total_forwarded(self@.entries)
            },
    {
        let ghost es = self@.entries;
        let mut c: usize = 0;
        let mut i: usize = 0;
        proof {
            assert(es.take(0) =~= Seq::<EntryView>::empty());
        }
        while i < self.entries.len()
            invariant
                es == self@.entries,
                i <= self.entries@.len(),
                c as nat == if total_forwarded(es.take(i as int)) > usize::MAX { usize::MAX as nat } else {
                    total_forwarded(es.take(i as int))
                },
            decreases self.entries@.len() - i,
        {
            proof {
                assert(es.take(i + 1).drop_last() =~= es.take(i as int));
                assert(es[i as int] == entry_view(self.entries@[i as int]));
            }
            c = c.saturating_add(self.entries[i].forwarded.len());
            i += 1;
        }
        proof {
            assert(es.take(es.len() as int) =~= es);
        }
        c
    }

    fn rank_of(&self, j: usize) -> (r: usize)
        requires
            j < self@.entries.len(),
        ensures
            r as nat == count_less(self@.entries, self@.entries[j as int]),
    {
        let ghost es = self@.entries;
        let mut c: usize = 0;
        let mut i: usize = 0;
        proof {
            assert(es.take(0) =~= Seq::<EntryView>::empty());
        }
        while i < self.entries.len()
            invariant
                es == self@.entries,
                j < es.len(),
                i <= self.entries@.len(),
                c <= i,
                c as nat == count_less(es.take(i as int), es[j as int]),
            decreases self.entries@.len() - i,
        {
            proof {
                assert(es.take(i + 1).drop_last() =~= es.take(i as int));
                assert(es[i as int] == entry_view(self.entries@[i as int]));
                assert(es[j as int] == entry_view(self.entries@[j as int]));
            }
            if key_less_exec(&self.entries[i], &self.entries[j]) {
                c += 1;
            }
            i += 1;
        }
        proof {
            assert(es.take(es.len() as int) =~= es);
        }
        c
    }

    fn expired_count(&self, now: i64) -> (r: usize)
        ensures
            r as nat == count_expired(self@.entries, now),
    {
        let ghost es = self@.entries;
        let mut c: usize = 0;
        let mut i: usize = 0;
        proof {
            assert(es.take(0) =~= Seq::<EntryView>::empty());
        }
        while i < self.entries.len()
            invariant
                es == self@.entries,
                i <= self.entries@.len(),
                c <= i,
                c as nat == count_expired(es.take(i as int), now),
            decreases self.entries@.len() - i,
        {
            proof {
                assert(es.take(i + 1).drop_last() =~= es.take(i as int));
                assert(es[i as int] == entry_view(self.entries@[i as int]));
            }
            if self.entries[i].msg.expiry_time_at <= now {
                c += 1;
            }
            i += 1;
        }
        proof {
            assert(es.take(es.len() as int) =~= es);
        }
        c
    }

    /// One cleanup pass at time `now`: removes, in expiry order, the expired
    /// messages (all messages while the store is over its count or byte
    /// limits), at most `max_limit + 1` of them, with their recipient lists.
    /// Returns how many were removed.
    pub fn remove_expired_messages_at(&mut self, now: i64, max_limit: usize) -> (r: usize)
        requires
            old(self)@.wf(),
        ensures
            r as nat == removal_count(old(self)@, now, max_limit),
            final(self)@.wf(),
            final(self)@.cfg == old(self)@.cfg,
            final(self)@.id_gen == old(self)@.id_gen,
            final(self)@.entries == kept(old(self)@.entries, old(self)@.entries, r as nat),
            final(self)@.bytes == bytes_left(old(self)@.bytes, old(self)@.entries, old(self)@.entries, r as nat),
    {
        let ghost all = self@.entries;
        let ghost v0 = self@;
        let n = self.entries.len();
        let over = n > self.cfg.cache_max_count || self.bytes > self.cfg.cache_capacity;
        let due = if over { n } else { self.expired_count(now) };
        let k: usize = if max_limit < usize::MAX && due > max_limit + 1 { max_limit + 1 } else { due };
        proof {
            assert(k as nat == removal_count(v0, now, max_limit));
        }
        let mut ranks: Vec<usize> = Vec::new();
        let mut j: usize = 0;
        while j < n
            invariant
                n == self@.entries.len(),
                all == self@.entries,
                j <= n,
                ranks@.len() == j,
                forall|q: int| 0 <= q < j ==> (#[trigger] ranks@[q]) as nat == count_less(all, all[q]),
            decreases n - j,
        {
            let rk = self.rank_of(j);
            ranks.push(rk);
            j += 1;
        }
        let mut rest: Vec<Entry> = Vec::new();
        std::mem::swap(&mut rest, &mut self.entries);
        let mut bytes = self.bytes;
        let mut i: usize = 0;
        proof {
            assert(all.take(0) =~= Seq::<EntryView>::empty());
            assert(Seq::new(rest@.len(), |q: int| entry_view(rest@[q])) =~= all.skip(0));
        }
        while i < n
            invariant
                n == all.len(),
                i <= n,
                ranks@.len() == n,
                forall|q: int| 0 <= q < n ==> (#[trigger] ranks@[q]) as nat == count_less(all, all[q]),
                rest@.len() == n - i,
                forall|q: int| 0 <= q < rest@.len() ==> entry_view(#[trigger] rest@[q]) == all[i + q],
                Seq::new(self.entries@.len(), |q: int| entry_view(self.entries@[q])) == kept(all.take(i as int), all, k as nat),
                bytes == bytes_left(v0.bytes, all.take(i as int), all, k as nat),
                self.cfg == v0.cfg,
                self.id_gen == v0.id_gen,
            decreases n - i,
        {
            let e = rest.remove(0);
            proof {
                assert(entry_view(e) == all[i as int]);
                assert(all.take(i + 1).drop_last() =~= all.take(i as int));
                assert(all.take(i + 1).last() == all[i as int]);
            }
            if ranks[i] >= k {
                let ghost before = Seq::new(self.entries@.len(), |q: int| entry_view(self.entries@[q]));
                self.entries.push(e);
                proof {
                    assert(Seq::new(self.entries@.len(), |q: int| entry_view(self.entries@[q])) =~= before.push(all[i as int]));
                }
            } else {
                bytes = bytes.wrapping_sub(e.size);
            }
            i += 1;
        }
        self.bytes = bytes;
        proof {
            assert(all.take(n as int) =~= all);
            assert(self@.entries =~= kept(all, all, k as nat));
            lemma_kept_wf(all, all, k as nat);
            assert(entries_wf(all));
        }
        k
    }

    /// One cleanup pass at the current time (see [`Self::remove_expired_messages_at`]).
    pub fn remove_expired_messages(&mut self, max_limit: usize) -> (r: usize)
        requires
            old(self)@.wf(),
        ensures
            final(self)@.wf(),
            exists|now: i64| {
                &&& r as nat == #[trigger] removal_count(old(self)@, now, max_limit)
                &&& final(self)@.entries == kept(old(self)@.entries, old(self)@.entries, r as nat)
            },
    {
        let now = timestamp_millis();
        self.remove_expired_messages_at(now, max_limit)
    }

    /// Stores a message now (see [`Self::store_at`] and [`store_outcome`]):
    /// fails with `ExpiryOverflow` when the expiry time does not fit, with
    /// the topic's error when it is no valid topic name, and succeeds
    /// otherwise (always, for a valid topic and no expiry interval).
    pub fn store(
        &mut self,
        msg_id: usize,
        from: MsgFrom,
        publish: Publish,
        expiry_interval_ms: u64,
        recipients: Option<Vec<Recipient>>,
    ) -> (r: Result<(), StoreError>)
        requires
            old(self)@.wf(),
        ensures
            final(self)@.wf(),
            expiry_interval_ms > i64::MAX ==> (r matches Err(e) && e == StoreError::ExpiryOverflow)
                && final(self)@ == old(self)@,
            expiry_interval_ms <= i64::MAX ==> exists|now: i64| #[trigger] store_outcome(
                old(self)@,
                final(self)@,
                r,
                now,
                msg_id,
                from@,
                publish@,
                expiry_interval_ms,
                opt_recipients_view(recipients),
            ),
    {
        if expiry_interval_ms > i64::MAX as u64 {
            return Err(StoreError::ExpiryOverflow);
        }
        let now = timestamp_millis();
        let ghost old_v = self@;
        let ghost rv = opt_recipients_view(recipients);
        let ghost fv = from@;
        let ghost pv = publish@;
        if now > i64::MAX - (expiry_interval_ms as i64) {
            let r: Result<(), StoreError> = Err(StoreError::ExpiryOverflow);
            assert(store_outcome(old_v, self@, r, now, msg_id, fv, pv, expiry_interval_ms, rv));
            return r;
        }
        let r: Result<(), StoreError> = match self.store_at(now, msg_id, from, publish, expiry_interval_ms, recipients) {
            Ok(()) => Ok(()),
            Err(e) => Err(StoreError::Topic(e)),
        };
        assert(store_outcome(old_v, self@, r, now, msg_id, fv, pv, expiry_interval_ms, rv));
        r
    }
}


proof fn lemma_delivered_members(
    es: Seq<EntryView>,
    now: i64,
    client: Seq<char>,
    fl: Seq<Seq<char>>,
    tf: Seq<char>,
    group: Option<Seq<char>>,
)
    ensures
        forall|i: int|
            0 <= i < es.len() && deliverable(#[trigger] es[i], now, client, fl, tf, group)
                ==> delivered(es, now, client, fl, tf, group).contains((es[i].msg_id, es[i].from, es[i].publish)),
        forall|d: DeliveryView|
            delivered(es, now, client, fl, tf, group).contains(d) ==> exists|i: int|
                0 <= i < es.len() && deliverable(#[trigger] es[i], now, client, fl, tf, group) && d == (
                    es[i].msg_id,
                    es[i].from,
                    es[i].publish,
                ),
    decreases es.len(),
{
    if es.len() > 0 {
        let d = es.drop_last();
        lemma_delivered_members(d, now, client, fl, tf, group);
        let rest = delivered(d, now, client, fl, tf, group);
        let all = delivered(es, now, client, fl, tf, group);
        let e = es.last();
        assert forall|i: int|
            0 <= i < es.len() && deliverable(#[trigger] es[i], now, client, fl, tf, group)
                implies all.contains((es[i].msg_id, es[i].from, es[i].publish)) by {
            if i == es.len() - 1 {
                assert(all[all.len() - 1] == (e.msg_id, e.from, e.publish));
            } else {
                assert(d[i] == es[i]);
                assert(rest.contains((es[i].msg_id, es[i].from, es[i].publish)));
                let q = choose|q: int| 0 <= q < rest.len() && rest[q] == (es[i].msg_id, es[i].from, es[i].publish);
                assert(all[q] == rest[q]);
            }
        }
        assert forall|x: DeliveryView| all.contains(x) implies exists|i: int|
            0 <= i < es.len() && deliverable(#[trigger] es[i], now, client, fl, tf, group) && x == (
                es[i].msg_id,
                es[i].from,
                es[i].publish,
            ) by {
            let q = choose|q: int| 0 <= q < all.len() && all[q] == x;
            if q < rest.len() {
                assert(rest[q] == x);
                assert(rest.contains(x));
                let i = choose|i: int|
                    0 <= i < d.len() && deliverable(#[trigger] d[i], now, client, fl, tf, group) && x == (
                        d[i].msg_id,
                        d[i].from,
                        d[i].publish,
                    );
                assert(es[i] == d[i]);
            } else {
                assert(es[es.len() - 1] == e);
            }
        }
    }
}

/// The recipient list a stored message has right after `store`.
/// What storing a message at time `now` does to a store in state `before`,
/// leaving `after` and answering `r`: when the expiry time overflows, the
/// store is refused with `ExpiryOverflow` and nothing changes; when the topic
/// is no valid name, it is refused with that error and nothing changes;
/// otherwise it succeeds as [`RamMessageManager::store_at`] at `now` does.
pub open spec fn store_outcome(
    before: RamStoreView,
    after: RamStoreView,
    r: Result<(), StoreError>,
    now: i64,
    msg_id: usize,
    from: MsgFromView,
    publish: PublishView,
    expiry_interval_ms: u64,
    recipients: Seq<RecipientView>,
) -> bool {
    if now + expiry_interval_ms > i64::MAX {
        (r matches Err(e) && e == StoreError::ExpiryOverflow) && after == before
    } else {
        match parse_name_spec(publish.topic) {
            Err(e) => (r matches Err(x) && x == StoreError::Topic(e)) && after == before,
            Ok(ls) => {
                &&& r is Ok
                &&& after.cfg == before.cfg
                &&& after.id_gen == before.id_gen
                &&& after.entries == stored_entries(before.entries, now, msg_id, from, publish, expiry_interval_ms, ls, recipients)
                &&& after.bytes == before.bytes.wrapping_add(
                    message_size(stored_levels(ls, msg_id), publish.topic.len(), publish.payload.len()),
                )
            },
        }
    }
}

pub open spec fn forwarded_after_store(es: Seq<EntryView>, msg_id: usize, recipients: Seq<RecipientView>) -> Seq<RecipientView> {
    match index_of(es, msg_id) {
        Some(i) => merge(es[i].forwarded, recipients),
        None => merge(Seq::empty(), recipients),
    }
}

/// A stored message is served: right after a store at time `now`, a lookup
/// at a time not past its expiry, with a filter that matches its topic, by
/// a client the message is meant for and not yet forwarded to, returns it.
pub proof fn law_store_then_get(
    es: Seq<EntryView>,
    now: i64,
    msg_id: usize,
    from: MsgFromView,
    publish: PublishView,
    expiry_interval_ms: u64,
    recipients: Seq<RecipientView>,
    later: i64,
    client: Seq<char>,
    tf: Seq<char>,
    group: Option<Seq<char>>,
)
    requires
        entries_wf(es),
        now + expiry_interval_ms <= i64::MAX,
        parse_name_spec(publish.topic) is Ok,
        parse_filter_spec(tf) is Ok,
        topic_matches(
            lookup_filter(parse_filter_spec(tf)->Ok_0),
            stored_levels(parse_name_spec(publish.topic)->Ok_0, msg_id),
        ),
        later <= now + expiry_interval_ms,
        !is_forwarded(forwarded_after_store(es, msg_id, recipients), client, tf, group),
        publish.target_clientid is None || publish.target_clientid == Some(client),
    ensures
        delivered(
            stored_entries(es, now, msg_id, from, publish, expiry_interval_ms, parse_name_spec(publish.topic)->Ok_0, recipients),
            later,
            client,
            parse_filter_spec(tf)->Ok_0,
            tf,
            group,
        ).contains((msg_id, from, publish)),
{
    let ls = parse_name_spec(publish.topic)->Ok_0;
    let fl = parse_filter_spec(tf)->Ok_0;
    let after = stored_entries(es, now, msg_id, from, publish, expiry_interval_ms, ls, recipients);
    let ne = new_entry(now, msg_id, from, publish, expiry_interval_ms, ls, forwarded_after_store(es, msg_id, recipients));
    lemma_delivered_members(after, later, client, fl, tf, group);
    match index_of(es, msg_id) {
        Some(i) => {
            assert(after[i] == ne);
            assert(deliverable(after[i], later, client, fl, tf, group));
        },
        None => {
            assert(after[es.len() as int] == ne);
            assert(deliverable(after[es.len() as int], later, client, fl, tf, group));
        },
    }
}

/// What a lookup returns is exactly the stored messages it is meant to see:
/// every returned message is deliverable, and every deliverable one is returned.
pub proof fn law_get_returns_deliverable(
    es: Seq<EntryView>,
    now: i64,
    client: Seq<char>,
    fl: Seq<Seq<char>>,
    tf: Seq<char>,
    group: Option<Seq<char>>,
)
    ensures
        forall|i: int|
            0 <= i < es.len() && deliverable(#[trigger] es[i], now, client, fl, tf, group)
                ==> delivered(es, now, client, fl, tf, group).contains((es[i].msg_id, es[i].from, es[i].publish)),
        forall|d: DeliveryView|
            delivered(es, now, client, fl, tf, group).contains(d) ==> exists|i: int|
                0 <= i < es.len() && deliverable(#[trigger] es[i], now, client, fl, tf, group) && d == (
                    es[i].msg_id,
                    es[i].from,
                    es[i].publish,
                ),
{
    lemma_delivered_members(es, now, client, fl, tf, group);
}

proof fn lemma_merge_contains(f: Seq<RecipientView>, rs: Seq<RecipientView>, r: RecipientView)
    requires
        rs.len() > 0,
        rs.last() == r,
    ensures
        merge(f, rs).contains(r),
{
    let m = merge(f, rs.drop_last());
    let u = upsert(m, r);
    assert(merge(f, rs) == u);
    if exists|i: int| 0 <= i < m.len() && (#[trigger] m[i]).0 == r.0 {
        let i = choose|i: int| 0 <= i < m.len() && (#[trigger] m[i]).0 == r.0;
        assert(u[i] == r);
    } else {
        assert(u[m.len() as int] == r);
    }
}

/// Delivery happens once per client: after `mark_forwarded` records
/// `client` for a message, no lookup by `client` returns that message again.
pub proof fn law_forwarded_client_not_served_again(
    es: Seq<EntryView>,
    msg_id: usize,
    client: Seq<char>,
    now: i64,
    fl: Seq<Seq<char>>,
    tf: Seq<char>,
    group: Option<Seq<char>>,
)
    requires
        entries_wf(es),
    ensures
        forall|d: DeliveryView|
            delivered(marked_entries(es, msg_id, seq![(client, None::<(Seq<char>, Seq<char>)>)]), now, client, fl, tf, group).contains(d)
                ==> d.0 != msg_id,
{
    let rs = seq![(client, None::<(Seq<char>, Seq<char>)>)];
    let after = marked_entries(es, msg_id, rs);
    lemma_delivered_members(after, now, client, fl, tf, group);
    assert forall|d: DeliveryView| delivered(after, now, client, fl, tf, group).contains(d) implies d.0 != msg_id by {
        let i = choose|i: int|
            0 <= i < after.len() && deliverable(#[trigger] after[i], now, client, fl, tf, group) && d == (
                after[i].msg_id,
                after[i].from,
                after[i].publish,
            );
        match index_of(es, msg_id) {
            Some(j) => {
                if i == j {
                    lemma_merge_contains(es[j].forwarded, rs, rs[0]);
                    let m = merge(es[j].forwarded, rs);
                    let q = choose|q: int| 0 <= q < m.len() && m[q] == rs[0];
                    assert(after[i].forwarded[q].0 == client);
                } else {
                    assert(after[i] == es[i]);
                    assert(es[i].msg_id != es[j].msg_id) by {
                        if i < j { assert(es[i].msg_id != es[j].msg_id); } else { assert(es[j].msg_id != es[i].msg_id); }
                    }
                }
            },
            None => {
                assert(after[i] == es[i]);
            },
        }
    }
}

/// Shared subscriptions are served once per group: after a member of group
/// `g` is recorded for a message through filter `tf`, another member
/// looking up through `tf` in group `g` is not served it.
pub proof fn law_shared_group_served_once(
    es: Seq<EntryView>,
    msg_id: usize,
    first: Seq<char>,
    other: Seq<char>,
    now: i64,
    fl: Seq<Seq<char>>,
    tf: Seq<char>,
    g: Seq<char>,
)
    requires
        entries_wf(es),
    ensures
        forall|d: DeliveryView|
            delivered(marked_entries(es, msg_id, seq![(first, Some((tf, g)))]), now, other, fl, tf, Some(g)).contains(d)
                ==> d.0 != msg_id,
{
    let rs = seq![(first, Some((tf, g)))];
    let after = marked_entries(es, msg_id, rs);
    lemma_delivered_members(after, now, other, fl, tf, Some(g));
    assert forall|d: DeliveryView| delivered(after, now, other, fl, tf, Some(g)).contains(d) implies d.0 != msg_id by {
        let i = choose|i: int|
            0 <= i < after.len() && deliverable(#[trigger] after[i], now, other, fl, tf, Some(g)) && d == (
                after[i].msg_id,
                after[i].from,
                after[i].publish,
            );
        match index_of(es, msg_id) {
            Some(j) => {
                if i == j {
                    lemma_merge_contains(es[j].forwarded, rs, rs[0]);
                    let m = merge(es[j].forwarded, rs);
                    let q = choose|q: int| 0 <= q < m.len() && m[q] == rs[0];
                    assert(after[i].forwarded[q].1 == Some((tf, g)));
                } else {
                    assert(after[i] == es[i]);
                    assert(es[i].msg_id != es[j].msg_id) by {
                        if i < j { assert(es[i].msg_id != es[j].msg_id); } else { assert(es[j].msg_id != es[i].msg_id); }
                    }
                }
            },
            None => {
                assert(after[i] == es[i]);
            },
        }
    }
}

/// An expired message is never served: every message a lookup at `now`
/// returns expires at `now` or later.
pub proof fn law_expired_not_served(
    es: Seq<EntryView>,
    now: i64,
    client: Seq<char>,
    fl: Seq<Seq<char>>,
    tf: Seq<char>,
    group: Option<Seq<char>>,
)
    ensures
        forall|d: DeliveryView| delivered(es, now, client, fl, tf, group).contains(d) ==> exists|i: int|
            0 <= i < es.len() && (#[trigger] es[i]).msg_id == d.0 && es[i].expiry_time_at >= now,
{
    lemma_delivered_members(es, now, client, fl, tf, group);
}

proof fn lemma_count_mono(xs: Seq<EntryView>, e: EntryView, now: i64)
    ensures
        e.expiry_time_at > now ==> count_less(xs, e) >= count_expired(xs, now),
        e.expiry_time_at <= now ==> count_less(xs, e) <= count_expired(xs, now),
        e.expiry_time_at <= now && xs.contains(e) ==> count_less(xs, e) < count_expired(xs, now),
    decreases xs.len(),
{
    if xs.len() > 0 {
        let d = xs.drop_last();
        lemma_count_mono(d, e, now);
        if xs.contains(e) && xs.last() != e {
            let q = choose|q: int| 0 <= q < xs.len() && xs[q] == e;
            assert(d[q] == e);
            assert(d.contains(e));
        }
    }
}

/// Cleanup removes exactly what is expired: a pass at time `now` with no
/// limit on its size, on a store within its limits, keeps precisely the
/// messages whose expiry time is after `now`.
pub proof fn law_cleanup_removes_expired(v: RamStoreView, now: i64)
    requires
        v.wf(),
        !over_limits(v),
    ensures
        forall|x: EntryView|
            kept(v.entries, v.entries, removal_count(v, now, usize::MAX)).contains(x) <==> (v.entries.contains(x)
                && x.expiry_time_at > now),
{
    let k = removal_count(v, now, usize::MAX);
    assert(k == count_expired(v.entries, now)) by {
        lemma_count_le_len(v.entries, now);
    }
    lemma_kept_members(v.entries, v.entries, k);
    assert forall|x: EntryView|
        kept(v.entries, v.entries, k).contains(x) <==> (v.entries.contains(x) && x.expiry_time_at > now) by {
        lemma_count_mono(v.entries, x, now);
    }
}

proof fn lemma_count_le_len(xs: Seq<EntryView>, now: i64)
    ensures
        count_expired(xs, now) <= xs.len(),
    decreases xs.len(),
{
    if xs.len() > 0 {
        lemma_count_le_len(xs.drop_last(), now);
    }
}

proof fn lemma_kept_members(es: Seq<EntryView>, all: Seq<EntryView>, k: nat)
    ensures
        forall|x: EntryView|
            #![trigger kept(es, all, k).contains(x)]
            #![trigger es.contains(x)]
            kept(es, all, k).contains(x) <==> (es.contains(x) && count_less(all, x) >= k),
    decreases es.len(),
{
    if es.len() > 0 {
        let d = es.drop_last();
        lemma_kept_members(d, all, k);
        let r = kept(d, all, k);
        let last = es.last();
        let kk = kept(es, all, k);
        if count_less(all, last) >= k {
            assert(kk == r.push(last));
        } else {
            assert(kk == r);
        }
        assert forall|x: EntryView| kk.contains(x) implies (es.contains(x) && count_less(all, x) >= k) by {
            let q = choose|q: int| 0 <= q < kk.len() && kk[q] == x;
            if q < r.len() {
                assert(r[q] == x);
                assert(r.contains(x));
                assert(d.contains(x) && count_less(all, x) >= k);
                let p = choose|p: int| 0 <= p < d.len() && d[p] == x;
                assert(es[p] == x);
            } else {
                assert(es[es.len() - 1] == x);
            }
        }
        assert forall|x: EntryView| (es.contains(x) && count_less(all, x) >= k) implies kk.contains(x) by {
            let p = choose|p: int| 0 <= p < es.len() && es[p] == x;
            if p < d.len() {
                assert(d[p] == x);
                assert(d.contains(x));
                assert(r.contains(x));
                let q = choose|q: int| 0 <= q < r.len() && r[q] == x;
                assert(kk[q] == x);
            } else {
                assert(kk[r.len() as int] == x);
            }
        }
    }
}
/// A lookup is repeatable: two lookups at times between which no stored
/// message expires (and with no store or mark in between, the entries being
/// the same) return the same messages. A lookup itself records nothing: it
/// only reads the store.
pub proof fn law_lookup_repeatable(
    es: Seq<EntryView>,
    now1: i64,
    now2: i64,
    client: Seq<char>,
    fl: Seq<Seq<char>>,
    tf: Seq<char>,
    group: Option<Seq<char>>,
)
    requires
        forall|i: int| 0 <= i < es.len() ==> is_expired(#[trigger] es[i], now1) == is_expired(es[i], now2),
    ensures
        delivered(es, now1, client, fl, tf, group) == delivered(es, now2, client, fl, tf, group),
    decreases es.len(),
{
    if es.len() > 0 {
        let w = es.drop_last();
        assert forall|i: int| 0 <= i < w.len() implies is_expired(#[trigger] w[i], now1) == is_expired(w[i], now2) by {
            assert(w[i] == es[i]);
        }
        law_lookup_repeatable(w, now1, now2, client, fl, tf, group);
        assert(is_expired(es[es.len() - 1], now1) == is_expired(es[es.len() - 1], now2));
    }
}

} // verus!
