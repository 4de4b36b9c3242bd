//! Offline session bookkeeping: the keys sessions are stored under, the
//! session infos loaded back at startup, and the decisions taken when the
//! broker restarts the offline sessions.
use vstd::prelude::*;
use vstd::slice::slice_subrange;
use crate::message::{MsgFrom, MsgFromView, Publish, PublishView};

verus! {

/// `map-`: the prefix of the key a session's basic info is stored under.
pub open spec fn map_prefix() -> Seq<u8> {
    seq![109u8, 97u8, 112u8, 45u8]
}

/// `list-`: the prefix of the key a session's offline messages are stored under.
pub open spec fn list_prefix() -> Seq<u8> {
    seq![108u8, 105u8, 115u8, 116u8, 45u8]
}

/// Whether `key` begins with `prefix`.
pub open spec fn has_prefix(key: Seq<u8>, prefix: Seq<u8>) -> bool {
    prefix.len() <= key.len() && key.subrange(0, prefix.len() as int) == prefix
}

/// `key` without `prefix` when it begins with it, else `key` itself.
pub open spec fn strip_prefix(key: Seq<u8>, prefix: Seq<u8>) -> Seq<u8> {
    if has_prefix(key, prefix) {
        key.subrange(prefix.len() as int, key.len() as int)
    } else {
        key
    }
}

fn map_prefix_bytes() -> (p: Vec<u8>)
    ensures
        p@ == map_prefix(),
{
    let mut p: Vec<u8> = Vec::new();
    p.push(109u8);
    p.push(97u8);
    p.push(112u8);
    p.push(45u8);
    proof {
        assert(p@ =~= map_prefix());
    }
    p
}

fn list_prefix_bytes() -> (p: Vec<u8>)
    ensures
        p@ == list_prefix(),
{
    let mut p: Vec<u8> = Vec::new();
    p.push(108u8);
    p.push(105u8);
    p.push(115u8);
    p.push(116u8);
    p.push(45u8);
    proof {
        assert(p@ =~= list_prefix());
    }
    p
}

/// `prefix` followed by `id`.
fn prefixed(prefix: Vec<u8>, id: &[u8]) -> (key: Vec<u8>)
    ensures
        key@ == prefix@ + id@,
{
    let mut key = prefix;
    let mut i: usize = 0;
    while i < id.len()
        invariant
            i <= id@.len(),
            key@ == prefix@ + id@.take(i as int),
        decreases id@.len() - i,
    {
        key.push(id[i]);
        i += 1;
        proof {
            assert(prefix@ + id@.take(i as int) =~= (prefix@ + id@.take(i - 1)).push(id@[i - 1]));
        }
    }
    proof {
        assert(id@.take(id@.len() as int) =~= id@);
    }
    key
}

/// Whether `key` begins with `prefix`.
fn starts_with_bytes(key: &[u8], prefix: &Vec<u8>) -> (r: bool)
    ensures
        r == has_prefix(key@, prefix@),
{
    if prefix.len() > key.len() {
        return false;
    }
    let mut i: usize = 0;
    while i < prefix.len()
        invariant
            prefix@.len() <= key@.len(),
            i <= prefix@.len(),
            forall|j: int| 0 <= j < i ==> key@[j] == prefix@[j],
        decreases prefix@.len() - i,
    {
        if key[i] != prefix[i] {
            proof {
                assert(key@.subrange(0, prefix@.len() as int)[i as int] != prefix@[i as int]);
            }
            return false;
        }
        i += 1;
    }
    proof {
        assert(key@.subrange(0, prefix@.len() as int) =~= prefix@);
    }
    true
}

/// Byte-wise equality.
pub fn bytes_eq(a: &[u8], b: &[u8]) -> (r: bool)
    ensures
        r == (a@ == b@),
{
    if a.len() != b.len() {
        return false;
    }
    let mut i: usize = 0;
    while i < a.len()
        invariant
            a@.len() == b@.len(),
            i <= a@.len(),
            forall|j: int| 0 <= j < i ==> a@[j] == b@[j],
        decreases a@.len() - i,
    {
        if a[i] != b[i] {
            return false;
        }
        i += 1;
    }
    proof {
        assert(a@ =~= b@);
    }
    true
}

/// The key a session's basic info is stored under: `map-` and the session id.
pub fn make_map_stored_key(id: &[u8]) -> (key: Vec<u8>)
    ensures
        key@ == map_prefix() + id@,
{
    prefixed(map_prefix_bytes(), id)
}

/// The session id inside a map key: the key without its `map-` prefix, or
/// the key itself when it has none.
pub fn map_stored_key_to_id_bytes(stored_key: &[u8]) -> (id: &[u8])
    ensures
        id@ == strip_prefix(stored_key@, map_prefix()),
{
    let p = map_prefix_bytes();
    if starts_with_bytes(stored_key, &p) {
        slice_subrange(stored_key, 4, stored_key.len())
    } else {
        stored_key
    }
}

/// The key a session's offline messages are stored under: `list-` and the
/// session id.
pub fn make_list_stored_key(id: &[u8]) -> (key: Vec<u8>)
    ensures
        key@ == list_prefix() + id@,
{
    prefixed(list_prefix_bytes(), id)
}

/// The session id inside a list key: the key without its `list-` prefix,
/// or the key itself when it has none.
pub fn list_stored_key_to_id_bytes(stored_key: &[u8]) -> (id: &[u8])
    ensures
        id@ == strip_prefix(stored_key@, list_prefix()),
{
    let p = list_prefix_bytes();
    if starts_with_bytes(stored_key, &p) {
        slice_subrange(stored_key, 5, stored_key.len())
    } else {
        stored_key
    }
}

/// Reading the session id back out of a map key gives the id it was made from.
pub proof fn law_map_key_roundtrip(id: Seq<u8>)
    ensures
        strip_prefix(map_prefix() + id, map_prefix()) == id,
{
    assert((map_prefix() + id).subrange(0, 4) =~= map_prefix());
    assert((map_prefix() + id).subrange(4, (map_prefix() + id).len() as int) =~= id);
}

/// Reading the session id back out of a list key gives the id it was made from.
pub proof fn law_list_key_roundtrip(id: Seq<u8>)
    ensures
        strip_prefix(list_prefix() + id, list_prefix()) == id,
{
    assert((list_prefix() + id).subrange(0, 5) =~= list_prefix());
    assert((list_prefix() + id).subrange(5, (list_prefix() + id).len() as int) =~= id);
}

/// A map key and a list key never coincide, whatever the session ids.
pub proof fn law_map_and_list_keys_differ(a: Seq<u8>, b: Seq<u8>)
    ensures
        map_prefix() + a != list_prefix() + b,
{
    assert((map_prefix() + a)[0] == 109u8);
    assert((list_prefix() + b)[0] == 108u8);
}

/// The basic info of a stored session, as far as the restart logic reads it.
pub struct SessionBasic {
    pub client_id: String,
    pub created_at: i64,
    pub connected_at: i64,
}

/// A stored session's disconnect record: when the client went away.
pub struct DisconnectState {
    pub disconnected_at: i64,
}

/// Where the delivery of an in-flight message stands.
#[derive(Debug, Clone, Copy, PartialEq, Eq, Structural)]
pub enum InflightStatus {
    /// Sent, awaiting acknowledgment.
    UnAck,
    /// Awaiting PUBREC (QoS 2).
    UnReceived,
    /// Awaiting PUBCOMP (QoS 2).
    UnComplete,
}

/// A message that was sent to the client and not yet acknowledged when
/// the session went offline.
pub struct InflightMessage {
    pub publish: Publish,
    pub from: MsgFrom,
    pub status: InflightStatus,
    /// When its status last changed, in unix milliseconds.
    pub update_time: i64,
}

pub type InflightView = (PublishView, MsgFromView, InflightStatus, i64);

pub open spec fn inflight_view(v: Seq<InflightMessage>) -> Seq<InflightView> {
    Seq::new(v.len(), |i: int| (v[i].publish@, v[i].from@, v[i].status, v[i].update_time))
}

/// A session loaded from storage, with what was found for it.
pub struct StoredSessionInfo {
    pub id_key: Vec<u8>,
    pub basic: SessionBasic,
    /// The topic filters the session was subscribed to.
    pub subs: Option<Vec<String>>,
    pub disconnect_info: Option<DisconnectState>,
    pub offline_messages: Vec<(MsgFrom, Publish)>,
    /// The messages in flight to the client when it went offline.
    pub inflight_messages: Vec<InflightMessage>,
    pub last_time: i64,
}

pub struct StoredSessionView {
    pub id_key: Seq<u8>,
    pub client_id: Seq<char>,
    pub created_at: i64,
    pub connected_at: i64,
    pub subs: Option<Seq<Seq<char>>>,
    pub disconnected_at: Option<i64>,
    pub offline_messages: Seq<(MsgFromView, PublishView)>,
    pub inflight_messages: Seq<InflightView>,
    pub last_time: i64,
}

pub open spec fn strings_view(v: Seq<String>) -> Seq<Seq<char>> {
    Seq::new(v.len(), |i: int| v[i]@)
}

pub open spec fn offline_view(v: Seq<(MsgFrom, Publish)>) -> Seq<(MsgFromView, PublishView)> {
    Seq::new(v.len(), |i: int| (v[i].0@, v[i].1@))
}

impl View for StoredSessionInfo {
    type V = StoredSessionView;

    open spec fn view(&self) -> StoredSessionView {
        StoredSessionView {
            id_key: self.id_key@,
            client_id: self.basic.client_id@,
            created_at: self.basic.created_at,
            connected_at: self.basic.connected_at,
            subs: match self.subs {
                Some(v) => Some(strings_view(v@)),
                None => None,
            },
            disconnected_at: match self.disconnect_info {
                Some(d) => Some(d.disconnected_at),
                None => None,
            },
            offline_messages: offline_view(self.offline_messages@),
            inflight_messages: inflight_view(self.inflight_messages@),
            last_time: self.last_time,
        }
    }
}

impl StoredSessionInfo {
    /// A session info with nothing but its key and basic info; its last
    /// activity is when it connected.
    pub fn from(id_key: Vec<u8>, basic: SessionBasic) -> (s: StoredSessionInfo)
        ensures
            s@.id_key == id_key@,
            s@.client_id == basic.client_id@,
            s@.created_at == basic.created_at,
            s@.connected_at == basic.connected_at,
            s@.subs is None,
            s@.disconnected_at is None,
            s@.offline_messages.len() == 0,
            s@.inflight_messages.len() == 0,
            s@.last_time == basic.connected_at,
    {
        let last_time = basic.connected_at;
        let s = StoredSessionInfo {
            id_key,
            basic,
            subs: None,
            disconnect_info: None,
            offline_messages: Vec::new(),
            inflight_messages: Vec::new(),
            last_time,
        };
        proof {
            assert(s@.offline_messages =~= Seq::<(MsgFromView, PublishView)>::empty());
            assert(s@.inflight_messages =~= Seq::<InflightView>::empty());
        }
        s
    }

    /// Records the messages that were in flight.
    pub fn set_inflight_messages(&mut self, inflight_messages: Vec<InflightMessage>)
        ensures
            final(self)@ == (StoredSessionView { inflight_messages: inflight_view(inflight_messages@), ..old(self)@ }),
    {
        self.inflight_messages = inflight_messages;
    }

    /// Records the session's subscriptions.
    pub fn set_subs(&mut self, subs: Vec<String>)
        ensures
            final(self)@ == (StoredSessionView { subs: Some(strings_view(subs@)), ..old(self)@ }),
    {
        self.subs = Some(subs);
    }

    /// Records the session's disconnect record.
    pub fn set_disconnect_info(&mut self, disconnect_info: DisconnectState)
        ensures
            final(self)@ == (StoredSessionView { disconnected_at: Some(disconnect_info.disconnected_at), ..old(self)@ }),
    {
        self.disconnect_info = Some(disconnect_info);
    }

    /// Moves the last activity forward to `last_time`; an earlier time is ignored.
    pub fn set_last_time(&mut self, last_time: i64)
        ensures
            final(self)@ == (StoredSessionView {
                last_time: if old(self)@.last_time < last_time { last_time } else { old(self)@.last_time },
                ..old(self)@
            }),
    {
        if self.last_time < last_time {
            self.last_time = last_time;
        }
    }
}

pub open spec fn infos_view(v: Seq<StoredSessionInfo>) -> Seq<StoredSessionView> {
    Seq::new(v.len(), |i: int| v[i]@)
}

/// One client's entry: its id and the sessions stored for it.
pub type ClientInfos = (Seq<char>, Seq<StoredSessionView>);

pub open spec fn entry_view(e: (String, Vec<StoredSessionInfo>)) -> ClientInfos {
    (e.0@, infos_view(e.1@))
}

pub open spec fn entries_view(v: Seq<(String, Vec<StoredSessionInfo>)>) -> Seq<ClientInfos> {
    Seq::new(v.len(), |i: int| entry_view(v[i]))
}

/// Each client appears once, with at least one session, and every session
/// listed under a client belongs to that client.
pub open spec fn infos_wf(v: Seq<ClientInfos>) -> bool {
    &&& forall|i: int, j: int| 0 <= i < j < v.len() ==> (#[trigger] v[i]).0 != (#[trigger] v[j]).0
    &&& forall|i: int| 0 <= i < v.len() ==> (#[trigger] v[i]).1.len() > 0
    &&& forall|i: int, k: int|
        0 <= i < v.len() && 0 <= k < v[i].1.len() ==> (#[trigger] v[i].1[k]).client_id == v[i].0
}

/// Position of `cid`'s entry, if it has one.
pub open spec fn client_index(v: Seq<ClientInfos>, cid: Seq<char>) -> Option<int> {
    if exists|i: int| 0 <= i < v.len() && (#[trigger] v[i]).0 == cid {
        Some(choose|i: int| 0 <= i < v.len() && (#[trigger] v[i]).0 == cid)
    } else {
        None
    }
}

/// The sessions stored for `cid`, oldest first (none if it has no entry).
pub open spec fn infos_of(v: Seq<ClientInfos>, cid: Seq<char>) -> Seq<StoredSessionView> {
    match client_index(v, cid) {
        Some(i) => v[i].1,
        None => Seq::empty(),
    }
}

proof fn lemma_client_index(v: Seq<ClientInfos>, cid: Seq<char>, i: int)
    requires
        infos_wf(v),
        0 <= i < v.len(),
        v[i].0 == cid,
    ensures
        client_index(v, cid) == Some(i),
{
    let j = choose|j: int| 0 <= j < v.len() && (#[trigger] v[j]).0 == cid;
    if j < i {
        assert(v[j].0 != v[i].0);
    } else if j > i {
        assert(v[i].0 != v[j].0);
    }
}

/// `v` with session `info` filed under its client, after the ones there.
pub open spec fn added(v: Seq<ClientInfos>, info: StoredSessionView) -> Seq<ClientInfos> {
    match client_index(v, info.client_id) {
        Some(i) => v.update(i, (v[i].0, v[i].1.push(info))),
        None => v.push((info.client_id, seq![info])),
    }
}

/// The session infos loaded from storage, grouped by client id.
pub struct StoredSessionInfos {
    entries: Vec<(String, Vec<StoredSessionInfo>)>,
}

impl View for StoredSessionInfos {
    type V = Seq<ClientInfos>;

    closed spec fn view(&self) -> Seq<ClientInfos> {
        entries_view(self.entries@)
    }
}

impl StoredSessionInfos {
    /// No sessions.
    pub fn new() -> (s: StoredSessionInfos)
        ensures
            s@.len() == 0,
            infos_wf(s@),
    {
        let s = StoredSessionInfos { entries: Vec::new() };
        proof {
            assert(s@ =~= Seq::<ClientInfos>::empty());
        }
        s
    }

    /// How many clients have stored sessions.
    pub fn len(&self) -> (n: usize)
        ensures
            n == self@.len(),
    {
        self.entries.len()
    }

    fn find_client(&self, cid: &str) -> (r: Option<usize>)
        requires
            infos_wf(self@),
        ensures
            match r {
                Some(i) => i < self@.len() && client_index(self@, cid@) == Some(i as int),
                None => client_index(self@, cid@) is None,
            },
    {
        let ghost v = self@;
        let mut i: usize = 0;
        while i < self.entries.len()
            invariant
                v == self@,
                infos_wf(v),
                i <= v.len(),
                forall|k: int| 0 <= k < i ==> (#[trigger] v[k]).0 != cid@,
            decreases v.len() - i,
        {
            if crate::text::str_eq(self.entries[i].0.as_str(), cid) {
                proof {
                    assert(v[i as int] == entry_view(self.entries@[i as int]));
                    lemma_client_index(v, cid@, i as int);
                }
                return Some(i);
            }
            proof {
                assert(v[i as int] == entry_view(self.entries@[i as int]));
            }
            i += 1;
        }
        None
    }

    /// The sessions stored for client `cid`, oldest first.
    pub fn get(&self, cid: &str) -> (r: Option<&Vec<StoredSessionInfo>>)
        requires
            infos_wf(self@),
        ensures
            match r {
                Some(v) => client_index(self@, cid@) is Some && infos_view(v@) == infos_of(self@, cid@),
                None => client_index(self@, cid@) is None,
            },
    {
        match self.find_client(cid) {
            Some(i) => {
                proof {
                    assert(self@[i as int] == entry_view(self.entries@[i as int]));
                }
                Some(&self.entries[i].1)
            },
            None => None,
        }
    }

    /// Files a loaded session under its client, after the ones already there.
    pub fn add(&mut self, stored: StoredSessionInfo)
        requires
            infos_wf(old(self)@),
        ensures
            infos_wf(final(self)@),
            final(self)@ == added(old(self)@, stored@),
            forall|c: Seq<char>|
                #[trigger] infos_of(final(self)@, c) == if c == stored@.client_id {
                    infos_of(old(self)@, c).push(stored@)
                } else {
                    infos_of(old(self)@, c)
                },
            final(self)@.len() == old(self)@.len() + if client_index(old(self)@, stored@.client_id) is None {
                1int
            } else {
                0int
            },
    {
        let ghost v = self@;
        let ghost sv = stored@;
        let found = self.find_client(stored.basic.client_id.as_str());
        match found {
            Some(i) => {
                let (cid, mut infos) = self.entries.remove(i);
                infos.push(stored);
                self.entries.insert(i, (cid, infos));
                proof {
                    let nv = self@;
                    assert(nv =~= v.update(i as int, (v[i as int].0, v[i as int].1.push(sv)))) by {
                        assert forall|k: int| 0 <= k < nv.len() implies nv[k] == v.update(
                            i as int,
                            (v[i as int].0, v[i as int].1.push(sv)),
                        )[k] by {
                            if k == i {
                                assert(infos_view(infos@) =~= v[i as int].1.push(sv));
                            }
                        }
                    }
                    assert forall|c: Seq<char>|
                        #[trigger] infos_of(nv, c) == if c == sv.client_id {
                            infos_of(v, c).push(sv)
                        } else {
                            infos_of(v, c)
                        } by {
                        match client_index(v, c) {
                            Some(j) => {
                                lemma_client_index(nv, c, j);
                            },
                            None => {
                                if client_index(nv, c) is Some {
                                    let j = client_index(nv, c)->0;
                                    assert(nv[j].0 == v[j].0);
                                }
                            },
                        }
                    }
                }
            },
            None => {
                let cid = crate::message::copy_string(&stored.basic.client_id);
                let mut infos: Vec<StoredSessionInfo> = Vec::new();
                infos.push(stored);
                self.entries.push((cid, infos));
                proof {
                    let nv = self@;
                    assert(infos_view(infos@) =~= seq![sv]);
                    assert(nv =~= v.push((sv.client_id, seq![sv])));
                    lemma_client_index(nv, sv.client_id, v.len() as int);
                    assert forall|c: Seq<char>|
                        #[trigger] infos_of(nv, c) == if c == sv.client_id {
                            infos_of(v, c).push(sv)
                        } else {
                            infos_of(v, c)
                        } by {
                        if c == sv.client_id {
                            assert(seq![sv] =~= Seq::<StoredSessionView>::empty().push(sv));
                        } else {
                            match client_index(v, c) {
                                Some(j) => {
                                    lemma_client_index(nv, c, j);
                                },
                                None => {
                                    if client_index(nv, c) is Some {
                                        let j = client_index(nv, c)->0;
                                        assert(j < v.len());
                                    }
                                },
                            }
                        }
                    }
                }
            },
        }
    }
}

/// Position of the first session in `s` stored under `key`, if any.
pub open spec fn first_with_key(s: Seq<StoredSessionView>, key: Seq<u8>) -> Option<int> {
    if exists|j: int| 0 <= j < s.len() && (#[trigger] s[j]).id_key == key && forall|l: int|
        0 <= l < j ==> (#[trigger] s[l]).id_key != key {
        Some(
            choose|j: int|
                0 <= j < s.len() && (#[trigger] s[j]).id_key == key && forall|l: int|
                    0 <= l < j ==> (#[trigger] s[l]).id_key != key,
        )
    } else {
        None
    }
}

/// Whether an offline message of client `cid` finds the session stored
/// under `key`.
pub open spec fn lands(v: Seq<ClientInfos>, key: Seq<u8>, cid: Seq<char>) -> bool {
    match client_index(v, cid) {
        Some(i) => first_with_key(v[i].1, key) is Some,
        None => false,
    }
}

/// `v` with message `m` of client `cid` queued on the session stored under
/// `key`, when that client has such a session.
pub open spec fn with_offline(
    v: Seq<ClientInfos>,
    key: Seq<u8>,
    cid: Seq<char>,
    m: (MsgFromView, PublishView),
) -> Seq<ClientInfos> {
    match client_index(v, cid) {
        Some(i) => match first_with_key(v[i].1, key) {
            Some(j) => v.update(
                i,
                (
                    v[i].0,
                    v[i].1.update(
                        j,
                        StoredSessionView { offline_messages: v[i].1[j].offline_messages.push(m), ..v[i].1[j] },
                    ),
                ),
            ),
            None => v,
        },
        None => v,
    }
}

/// An offline message as loaded: the client it was queued for, its
/// publisher and the packet; `None` for a slot that held nothing.
pub type OfflineItem = Option<(String, MsgFrom, Publish)>;

pub open spec fn offline_item_view(x: OfflineItem) -> Option<(Seq<char>, MsgFromView, PublishView)> {
    match x {
        Some((c, f, p)) => Some((c@, f@, p@)),
        None => None,
    }
}

pub open spec fn offline_items_view(v: Seq<OfflineItem>) -> Seq<Option<(Seq<char>, MsgFromView, PublishView)>> {
    Seq::new(v.len(), |i: int| offline_item_view(v[i]))
}

/// `v` with the messages `ms` queued, in order, on the sessions stored under `key`.
pub open spec fn apply_offline(
    v: Seq<ClientInfos>,
    key: Seq<u8>,
    ms: Seq<Option<(Seq<char>, MsgFromView, PublishView)>>,
) -> Seq<ClientInfos>
    decreases ms.len(),
{
    if ms.len() == 0 {
        v
    } else {
        let v1 = apply_offline(v, key, ms.drop_last());
        match ms.last() {
            Some((c, f, p)) => with_offline(v1, key, c, (f, p)),
            None => v1,
        }
    }
}

/// The client an offline message was queued for.
pub open spec fn item_client(x: Option<(Seq<char>, MsgFromView, PublishView)>) -> Seq<char> {
    match x {
        Some((c, _, _)) => c,
        None => Seq::empty(),
    }
}

/// Whether some message of `ms` finds the session stored under `key`.
pub open spec fn any_lands(
    v: Seq<ClientInfos>,
    key: Seq<u8>,
    ms: Seq<Option<(Seq<char>, MsgFromView, PublishView)>>,
) -> bool {
    exists|k: int| 0 <= k < ms.len() && (#[trigger] ms[k]) is Some && lands(v, key, item_client(ms[k]))
}

/// Same clients, the same sessions under the same keys: only queued
/// messages may differ.
pub open spec fn same_shape(a: Seq<ClientInfos>, b: Seq<ClientInfos>) -> bool {
    &&& a.len() == b.len()
    &&& forall|i: int| 0 <= i < a.len() ==> (#[trigger] a[i]).0 == b[i].0 && a[i].1.len() == b[i].1.len()
    &&& forall|i: int, k: int|
        0 <= i < a.len() && 0 <= k < a[i].1.len() ==> (#[trigger] a[i].1[k]).id_key == b[i].1[k].id_key
            && a[i].1[k].client_id == b[i].1[k].client_id
}

proof fn lemma_first_with_key(s: Seq<StoredSessionView>, key: Seq<u8>, j: int)
    requires
        0 <= j < s.len(),
        s[j].id_key == key,
        forall|l: int| 0 <= l < j ==> (#[trigger] s[l]).id_key != key,
    ensures
        first_with_key(s, key) == Some(j),
{
    let k = choose|k: int|
        0 <= k < s.len() && (#[trigger] s[k]).id_key == key && forall|l: int|
            0 <= l < k ==> (#[trigger] s[l]).id_key != key;
    if k < j {
        assert(s[k].id_key != key);
    } else if k > j {
        assert(s[j].id_key != key);
    }
}

proof fn lemma_same_shape_lands(a: Seq<ClientInfos>, b: Seq<ClientInfos>, key: Seq<u8>, cid: Seq<char>)
    requires
        infos_wf(a),
        same_shape(a, b),
    ensures
        infos_wf(b),
        client_index(a, cid) == client_index(b, cid),
        lands(a, key, cid) == lands(b, key, cid),
        lands(a, key, cid) ==> first_with_key(a[client_index(a, cid)->0].1, key) == first_with_key(
            b[client_index(b, cid)->0].1,
            key,
        ),
{
    assert forall|i: int, j: int| 0 <= i < j < b.len() implies (#[trigger] b[i]).0 != (#[trigger] b[j]).0 by {
        assert(a[i].0 == b[i].0 && a[j].0 == b[j].0);
    }
    assert forall|i: int| 0 <= i < b.len() implies (#[trigger] b[i]).1.len() > 0 by {
        assert(a[i].1.len() == b[i].1.len());
    }
    assert forall|i: int, k: int|
        0 <= i < b.len() && 0 <= k < b[i].1.len() implies (#[trigger] b[i].1[k]).client_id == b[i].0 by {
        assert(a[i].1[k].client_id == b[i].1[k].client_id);
    }
    match client_index(a, cid) {
        Some(i) => {
            lemma_client_index(b, cid, i);
            match first_with_key(a[i].1, key) {
                Some(j) => {
                    assert forall|l: int| 0 <= l < j implies (#[trigger] b[i].1[l]).id_key != key by {
                        assert(a[i].1[l].id_key == b[i].1[l].id_key);
                    }
                    lemma_first_with_key(b[i].1, key, j);
                },
                None => {
                    if first_with_key(b[i].1, key) is Some {
                        let j = first_with_key(b[i].1, key)->0;
                        assert(b[i].1[j].id_key == key);
                        assert forall|l: int| 0 <= l < j implies (#[trigger] a[i].1[l]).id_key != key by {
                            assert(a[i].1[l].id_key == b[i].1[l].id_key);
                        }
                        assert(a[i].1[j].id_key == b[i].1[j].id_key);
                        lemma_first_with_key(a[i].1, key, j);
                    }
                },
            }
        },
        None => {
            if client_index(b, cid) is Some {
                let i = client_index(b, cid)->0;
                assert(a[i].0 == b[i].0);
                lemma_client_index(a, cid, i);
            }
        },
    }
}

proof fn lemma_with_offline_shape(v: Seq<ClientInfos>, key: Seq<u8>, cid: Seq<char>, m: (MsgFromView, PublishView))
    requires
        infos_wf(v),
    ensures
        same_shape(v, with_offline(v, key, cid, m)),
{
}

proof fn lemma_apply_offline(v: Seq<ClientInfos>, key: Seq<u8>, ms: Seq<Option<(Seq<char>, MsgFromView, PublishView)>>)
    requires
        infos_wf(v),
    ensures
        same_shape(v, apply_offline(v, key, ms)),
        infos_wf(apply_offline(v, key, ms)),
    decreases ms.len(),
{
    if ms.len() > 0 {
        lemma_apply_offline(v, key, ms.drop_last());
        let v1 = apply_offline(v, key, ms.drop_last());
        lemma_same_shape_lands(v, v1, key, Seq::empty());
        match ms.last() {
            Some((c, f, p)) => {
                lemma_with_offline_shape(v1, key, c, (f, p));
                let v2 = with_offline(v1, key, c, (f, p));
                lemma_same_shape_lands(v1, v2, key, Seq::empty());
            },
            None => {},
        }
    }
}

impl StoredSessionInfos {
    fn find_key(&self, i: usize, key: &[u8]) -> (r: Option<usize>)
        requires
            i < self@.len(),
        ensures
            match r {
                Some(j) => j < self@[i as int].1.len() && first_with_key(self@[i as int].1, key@) == Some(j as int),
                None => first_with_key(self@[i as int].1, key@) is None,
            },
    {
        let ghost s = self@[i as int].1;
        let mut j: usize = 0;
        while j < self.entries[i].1.len()
            invariant
                i < self@.len(),
                s == self@[i as int].1,
                j <= s.len(),
                forall|l: int| 0 <= l < j ==> (#[trigger] s[l]).id_key != key@,
            decreases s.len() - j,
        {
            let same = bytes_eq(self.entries[i].1[j].id_key.as_slice(), key);
            if same {
                proof {
                    assert(s[j as int] == self.entries@[i as int].1@[j as int]@);
                    lemma_first_with_key(s, key@, j as int);
                }
                return Some(j);
            }
            proof {
                assert(s[j as int] == self.entries@[i as int].1@[j as int]@);
            }
            j += 1;
        }
        proof {
            if first_with_key(s, key@) is Some {
                let k = first_with_key(s, key@)->0;
                assert(s[k].id_key == key@);
            }
        }
        None
    }

    fn push_offline(&mut self, i: usize, j: usize, m: (MsgFrom, Publish))
        requires
            i < old(self)@.len(),
            j < old(self)@[i as int].1.len(),
        ensures
            final(self)@ == old(self)@.update(
                i as int,
                (
                    old(self)@[i as int].0,
                    old(self)@[i as int].1.update(
                        j as int,
                        StoredSessionView {
                            offline_messages: old(self)@[i as int].1[j as int].offline_messages.push((m.0@, m.1@)),
                            ..old(self)@[i as int].1[j as int]
                        },
                    ),
                ),
            ),
    {
        let ghost v = self@;
        let ghost mv = (m.0@, m.1@);
        let (cid, mut infos) = self.entries.remove(i);
        let mut info = infos.remove(j);
        let ghost old_off = info.offline_messages@;
        info.offline_messages.push(m);
        proof {
            assert(offline_view(info.offline_messages@) =~= offline_view(old_off).push(mv));
        }
        infos.insert(j, info);
        self.entries.insert(i, (cid, infos));
        proof {
            let target = v.update(
                i as int,
                (
                    v[i as int].0,
                    v[i as int].1.update(
                        j as int,
                        StoredSessionView { offline_messages: v[i as int].1[j as int].offline_messages.push(mv), ..v[i as int].1[j as int] },
                    ),
                ),
            );
            assert(infos_view(infos@) =~= target[i as int].1);
            assert(self@ =~= target);
        }
    }

    /// Queues the loaded offline messages on the session stored under
    /// `id_key` of the client each names. True when at least one found it.
    pub fn set_offline_messages(&mut self, id_key: &[u8], offline_messages: Vec<OfflineItem>) -> (exist: bool)
        requires
            infos_wf(old(self)@),
        ensures
            infos_wf(final(self)@),
            final(self)@ == apply_offline(old(self)@, id_key@, offline_items_view(offline_messages@)),
            exist == any_lands(old(self)@, id_key@, offline_items_view(offline_messages@)),
    {
        let ghost v0 = self@;
        let ghost ms = offline_items_view(offline_messages@);
        let mut exist = false;
        let mut k: usize = 0;
        while k < offline_messages.len()
            invariant
                infos_wf(v0),
                ms == offline_items_view(offline_messages@),
                k <= ms.len(),
                self@ == apply_offline(v0, id_key@, ms.take(k as int)),
                exist == any_lands(v0, id_key@, ms.take(k as int)),
            decreases ms.len() - k,
        {
            proof {
                lemma_apply_offline(v0, id_key@, ms.take(k as int));
                assert(ms.take(k + 1).drop_last() =~= ms.take(k as int));
            }
            let ghost before = self@;
            match &offline_messages[k] {
                Some((cid, f, p)) => {
                    proof {
                        lemma_same_shape_lands(v0, before, id_key@, cid@);
                    }
                    match self.find_client(cid.as_str()) {
                        Some(i) => {
                            match self.find_key(i, id_key) {
                                Some(j) => {
                                    let fc = f.copy();
                                    let pc = p.copy();
                                    self.push_offline(i, j, (fc, pc));
                                    exist = true;
                                    proof {
                                        assert(client_index(before, cid@) == Some(i as int));
                                        assert(first_with_key(before[i as int].1, id_key@) == Some(j as int));
                                        assert(self@ =~= with_offline(before, id_key@, cid@, (f@, p@)));
                                    }
                                    proof {
                                        assert(ms.take(k + 1)[k as int] == ms[k as int]);
                                    }
                                },
                                None => {},
                            }
                        },
                        None => {},
                    }
                    proof {
                        assert(ms.take(k + 1).last() == ms[k as int]);
                        assert(ms[k as int] == Some((cid@, f@, p@)));
                        assert(self@ == with_offline(before, id_key@, cid@, (f@, p@)));
                        assert(apply_offline(v0, id_key@, ms.take(k + 1)) == with_offline(
                            apply_offline(v0, id_key@, ms.take(k as int)),
                            id_key@,
                            cid@,
                            (f@, p@),
                        ));
                        let a = ms.take(k as int);
                        let b = ms.take(k + 1);
                        assert forall|q: int| 0 <= q < k implies b[q] == a[q] by {}
                        if any_lands(v0, id_key@, b) {
                            let q = choose|q: int| 0 <= q < b.len() && (#[trigger] b[q]) is Some && lands(v0, id_key@, item_client(b[q]));
                            if q < k {
                                assert(a[q] == b[q]);
                            }
                        }
                        if any_lands(v0, id_key@, a) {
                            let q = choose|q: int| 0 <= q < a.len() && (#[trigger] a[q]) is Some && lands(v0, id_key@, item_client(a[q]));
                            assert(b[q] == a[q]);
                        }
                    }
                },
                None => {
                    proof {
                        let a = ms.take(k as int);
                        let b = ms.take(k + 1);
                        assert(b.last() == ms[k as int]);
                        if any_lands(v0, id_key@, b) {
                            let q = choose|q: int| 0 <= q < b.len() && (#[trigger] b[q]) is Some && lands(v0, id_key@, item_client(b[q]));
                            assert(q < k);
                            assert(a[q] == b[q]);
                        }
                        if any_lands(v0, id_key@, a) {
                            let q = choose|q: int| 0 <= q < a.len() && (#[trigger] a[q]) is Some && lands(v0, id_key@, item_client(a[q]));
                            assert(b[q] == a[q]);
                        }
                    }
                },
            }
            k += 1;
        }
        proof {
            assert(ms.take(ms.len() as int) =~= ms);
            lemma_apply_offline(v0, id_key@, ms);
        }
        exist
    }
}

/// Session `k` is the one kept for its client: none was active later, and
/// none stored after it was active as late.
pub open spec fn is_latest(s: Seq<StoredSessionView>, k: int) -> bool {
    &&& 0 <= k < s.len()
    &&& forall|j: int| 0 <= j < s.len() ==> (#[trigger] s[j]).last_time <= s[k].last_time
    &&& forall|j: int| k < j < s.len() ==> (#[trigger] s[j]).last_time < s[k].last_time
}

/// The position of the session kept for a client.
pub open spec fn latest_of(s: Seq<StoredSessionView>) -> int {
    choose|k: int| is_latest(s, k)
}

pub open spec fn ids_of(s: Seq<StoredSessionView>) -> Seq<Seq<u8>> {
    Seq::new(s.len(), |i: int| s[i].id_key)
}

/// The keys of a client's sessions that are dropped: all but the kept one,
/// in the order stored (none when the client has a single session).
pub open spec fn entry_removed(s: Seq<StoredSessionView>) -> Seq<Seq<u8>> {
    if s.len() > 1 {
        ids_of(s).remove(latest_of(s))
    } else {
        Seq::empty()
    }
}

/// A client's entry once only its latest session is kept.
pub open spec fn entry_retained(e: ClientInfos) -> ClientInfos {
    if e.1.len() > 1 {
        (e.0, seq![e.1[latest_of(e.1)]])
    } else {
        e
    }
}

pub open spec fn retained(v: Seq<ClientInfos>) -> Seq<ClientInfos> {
    Seq::new(v.len(), |i: int| entry_retained(v[i]))
}

/// The keys dropped from all clients, the last client's first.
pub open spec fn removed_keys(v: Seq<ClientInfos>) -> Seq<Seq<u8>>
    decreases v.len(),
{
    if v.len() == 0 {
        Seq::empty()
    } else {
        entry_removed(v.last().1) + removed_keys(v.drop_last())
    }
}

pub open spec fn keys_view(v: Seq<Vec<u8>>) -> Seq<Seq<u8>> {
    Seq::new(v.len(), |i: int| v[i]@)
}

proof fn lemma_latest_unique(s: Seq<StoredSessionView>, k: int)
    requires
        is_latest(s, k),
    ensures
        latest_of(s) == k,
{
    let m = choose|m: int| is_latest(s, m);
    assert(is_latest(s, m));
    if m < k {
        assert(s[k].last_time < s[m].last_time);
        assert(s[k].last_time <= s[m].last_time);
        assert(s[m].last_time <= s[k].last_time);
    } else if m > k {
        assert(s[m].last_time < s[k].last_time);
        assert(s[k].last_time <= s[m].last_time);
    }
}

/// The position of the session kept among `infos`.
fn latest_index(infos: &Vec<StoredSessionInfo>) -> (k: usize)
    requires
        infos@.len() > 0,
    ensures
        is_latest(infos_view(infos@), k as int),
{
    let ghost s = infos_view(infos@);
    let mut k: usize = 0;
    let mut j: usize = 1;
    while j < infos.len()
        invariant
            s == infos_view(infos@),
            0 < j <= s.len(),
            k < j,
            forall|l: int| 0 <= l < j ==> (#[trigger] s[l]).last_time <= s[k as int].last_time,
            forall|l: int| k < l < j ==> (#[trigger] s[l]).last_time < s[k as int].last_time,
        decreases s.len() - j,
    {
        if infos[j].last_time >= infos[k].last_time {
            k = j;
        }
        j += 1;
    }
    k
}

/// Splits one client's sessions into the one kept and the keys dropped.
fn retain_entry(infos: Vec<StoredSessionInfo>) -> (r: (Vec<StoredSessionInfo>, Vec<Vec<u8>>))
    requires
        infos@.len() > 0,
    ensures
        infos_view(r.0@) == entry_retained((Seq::empty(), infos_view(infos@))).1,
        keys_view(r.1@) == entry_removed(infos_view(infos@)),
{
    let ghost s = infos_view(infos@);
    let mut removed: Vec<Vec<u8>> = Vec::new();
    if infos.len() <= 1 {
        proof {
            assert(keys_view(removed@) =~= Seq::<Seq<u8>>::empty());
        }
        return (infos, removed);
    }
    let k = latest_index(&infos);
    proof {
        lemma_latest_unique(s, k as int);
    }
    let ghost ids = ids_of(s);
    proof {
        assert(keys_view(removed@) =~= ids.take(0));
    }
    let mut i: usize = 0;
    while i < infos.len()
        invariant
            s == infos_view(infos@),
            ids == ids_of(s),
            k < s.len(),
            i <= s.len(),
            keys_view(removed@) == if i <= k {
                ids.take(i as int)
            } else {
                ids.take(i as int).remove(k as int)
            },
        decreases s.len() - i,
    {
        if i != k {
            let key = crate::message::copy_bytes(&infos[i].id_key);
            let ghost before = keys_view(removed@);
            removed.push(key);
            proof {
                assert(ids[i as int] == infos@[i as int].id_key@);
                assert(keys_view(removed@) =~= before.push(ids[i as int]));
                if i < k {
                    assert(ids.take(i + 1) =~= ids.take(i as int).push(ids[i as int]));
                } else {
                    assert(ids.take(i + 1).remove(k as int) =~= ids.take(i as int).remove(k as int).push(ids[i as int]));
                }
            }
        } else {
            proof {
                assert(ids.take(i + 1).remove(k as int) =~= ids.take(i as int));
            }
        }
        i += 1;
    }
    proof {
        assert(ids.take(s.len() as int) =~= ids);
    }
    let mut infos = infos;
    let kept_info = infos.remove(k);
    let mut kept: Vec<StoredSessionInfo> = Vec::new();
    kept.push(kept_info);
    proof {
        assert(infos_view(kept@) =~= seq![s[k as int]]);
    }
    (kept, removed)
}

impl StoredSessionInfos {
    /// Keeps, for each client, only its latest session (see [`is_latest`])
    /// and hands back the keys of the sessions dropped.
    pub fn retain_latests(&mut self) -> (removed: Vec<Vec<u8>>)
        requires
            infos_wf(old(self)@),
        ensures
            infos_wf(final(self)@),
            final(self)@ == retained(old(self)@),
            keys_view(removed@) == removed_keys(old(self)@),
    {
        let ghost v = self@;
        let ghost n = v.len();
        let mut rev: Vec<(String, Vec<StoredSessionInfo>)> = Vec::new();
        let mut removed: Vec<Vec<u8>> = Vec::new();
        proof {
            assert(v.take(n as int) =~= v);
            assert(keys_view(removed@) =~= Seq::<Seq<u8>>::empty());
            assert(keys_view(removed@) + removed_keys(v) =~= removed_keys(v));
        }
        while self.entries.len() > 0
            invariant
                infos_wf(v),
                n == v.len(),
                self.entries@.len() <= n,
                self@ == v.take(self.entries@.len() as int),
                rev@.len() == n - self.entries@.len(),
                forall|m: int| 0 <= m < rev@.len() ==> entry_view(#[trigger] rev@[m]) == entry_retained(v[n - 1 - m]),
                keys_view(removed@) + removed_keys(v.take(self.entries@.len() as int)) == removed_keys(v),
            decreases self.entries@.len(),
        {
            let ghost t = self.entries@.len() as int;
            let ghost before = self@;
            let popped = self.entries.pop();
            match popped {
                Some(e) => {
                    let (cid, infos) = e;
                    proof {
                        assert(before[t - 1] == entry_view((cid, infos)));
                        assert(v.take(t)[t - 1] == v[t - 1]);
                        assert(infos_view(infos@).len() > 0);
                        assert(self@ =~= v.take(t - 1));
                    }
                    let (kept, mut rem) = retain_entry(infos);
                    let ghost old_removed = removed@;
                    removed.append(&mut rem);
                    proof {
                        let vt = v.take(t);
                        assert(vt.drop_last() =~= v.take(t - 1));
                        assert(vt.last() == v[t - 1]);
                        assert(removed_keys(vt) == entry_removed(v[t - 1].1) + removed_keys(v.take(t - 1)));
                        assert(keys_view(removed@) =~= keys_view(old_removed) + entry_removed(v[t - 1].1));
                        assert(keys_view(removed@) + removed_keys(v.take(t - 1)) =~= keys_view(old_removed)
                            + removed_keys(vt));
                        assert(entry_view((cid, kept)) == entry_retained(v[t - 1]));
                    }
                    rev.push((cid, kept));
                },
                None => {},
            }
        }
        proof {
            assert(v.take(0) =~= Seq::<ClientInfos>::empty());
            assert(keys_view(removed@) =~= removed_keys(v));
        }
        while rev.len() > 0
            invariant
                n == v.len(),
                rev@.len() + self.entries@.len() == n,
                forall|m: int| 0 <= m < rev@.len() ==> entry_view(#[trigger] rev@[m]) == entry_retained(v[n - 1 - m]),
                self@ == retained(v).take(self.entries@.len() as int),
            decreases rev@.len(),
        {
            let ghost t = self.entries@.len() as int;
            let ghost r = rev@.len() as int;
            let popped = rev.pop();
            match popped {
                Some(e) => {
                    proof {
                        assert(entry_view(e) == entry_retained(v[n - 1 - (r - 1)]));
                    }
                    self.entries.push(e);
                    proof {
                        assert(self@ =~= retained(v).take(t + 1));
                    }
                },
                None => {},
            }
        }
        proof {
            let w = retained(v);
            assert(self@ =~= w);
            assert forall|i: int, j: int| 0 <= i < j < w.len() implies (#[trigger] w[i]).0 != (#[trigger] w[j]).0 by {
                assert(v[i].0 != v[j].0);
            }
            assert forall|i: int| 0 <= i < w.len() implies (#[trigger] w[i]).1.len() > 0 by {
                assert(v[i].1.len() > 0);
            }
            assert forall|i: int, k: int|
                0 <= i < w.len() && 0 <= k < w[i].1.len() implies (#[trigger] w[i].1[k]).client_id == w[i].0 by {
                if v[i].1.len() > 1 {
                    let l = latest_of(v[i].1);
                    assert(is_latest(v[i].1, l)) by {
                        let s = v[i].1;
                        assert(exists|q: int| is_latest(s, q)) by {
                            lemma_latest_exists(s);
                        }
                    }
                    assert(v[i].1[l].client_id == v[i].0);
                }
            }
        }
        removed
    }
}

proof fn lemma_latest_exists(s: Seq<StoredSessionView>)
    requires
        s.len() > 0,
    ensures
        exists|q: int| is_latest(s, q),
    decreases s.len(),
{
    if s.len() == 1 {
        assert(is_latest(s, 0));
    } else {
        let p = s.drop_last();
        lemma_latest_exists(p);
        let q = choose|q: int| is_latest(p, q);
        if s.last().last_time >= s[q].last_time {
            assert forall|j: int| 0 <= j < s.len() implies (#[trigger] s[j]).last_time <= s[s.len() - 1].last_time by {
                if j < s.len() - 1 {
                    assert(p[j] == s[j]);
                    assert(p[j].last_time <= p[q].last_time);
                }
            }
            assert(is_latest(s, s.len() - 1));
        } else {
            assert forall|j: int| 0 <= j < s.len() implies (#[trigger] s[j]).last_time <= s[q].last_time by {
                if j < s.len() - 1 {
                    assert(p[j] == s[j]);
                }
            }
            assert forall|j: int| q < j < s.len() implies (#[trigger] s[j]).last_time < s[q].last_time by {
                if j < s.len() - 1 {
                    assert(p[j] == s[j]);
                }
            }
            assert(is_latest(s, q));
        }
    }
}

/// A session's records as read back from storage.
pub struct LoadedSession {
    /// The key the records were stored under.
    pub name: Vec<u8>,
    /// `None` when the basic info was missing or could not be read.
    pub basic: Option<SessionBasic>,
    pub last_time: Option<i64>,
    pub subs: Option<Vec<String>>,
    pub disconnect_info: Option<DisconnectState>,
    /// `None` when none were stored or they could not be read.
    pub inflight_messages: Option<Vec<InflightMessage>>,
}

/// A session's queued offline messages as read back from storage.
pub struct LoadedOffline {
    /// The key the list was stored under.
    pub name: Vec<u8>,
    /// `None` when the list could not be read.
    pub messages: Option<Vec<OfflineItem>>,
}

/// What loading decided: the sessions to restore, and the stored maps and
/// lists to delete.
pub struct LoadPlan {
    pub infos: StoredSessionInfos,
    pub map_removals: Vec<Vec<u8>>,
    pub list_removals: Vec<Vec<u8>>,
}

/// The session info made of a loaded session's records.
pub open spec fn loaded_info(l: LoadedSession) -> StoredSessionView {
    let b = l.basic->0;
    StoredSessionView {
        id_key: strip_prefix(l.name@, map_prefix()),
        client_id: b.client_id@,
        created_at: b.created_at,
        connected_at: b.connected_at,
        subs: match l.subs {
            Some(v) => Some(strings_view(v@)),
            None => None,
        },
        disconnected_at: match l.disconnect_info {
            Some(d) => Some(d.disconnected_at),
            None => None,
        },
        offline_messages: Seq::empty(),
        inflight_messages: match l.inflight_messages {
            Some(v) => inflight_view(v@),
            None => Seq::empty(),
        },
        last_time: match l.last_time {
            Some(t) => if b.connected_at < t {
                t
            } else {
                b.connected_at
            },
            None => b.connected_at,
        },
    }
}

/// `v` with every loaded session that has its basic info filed, in order.
pub open spec fn loaded_all(v: Seq<ClientInfos>, ls: Seq<LoadedSession>) -> Seq<ClientInfos>
    decreases ls.len(),
{
    if ls.len() == 0 {
        v
    } else {
        let v1 = loaded_all(v, ls.drop_last());
        if ls.last().basic is Some {
            added(v1, loaded_info(ls.last()))
        } else {
            v1
        }
    }
}

/// The keys of the loaded sessions without basic info, in order.
pub open spec fn dropped_maps(ls: Seq<LoadedSession>) -> Seq<Seq<u8>>
    decreases ls.len(),
{
    if ls.len() == 0 {
        Seq::empty()
    } else if ls.last().basic is None {
        dropped_maps(ls.drop_last()).push(ls.last().name@)
    } else {
        dropped_maps(ls.drop_last())
    }
}

/// `v` with every readable offline list queued on its session, in order.
pub open spec fn offline_all(v: Seq<ClientInfos>, os: Seq<LoadedOffline>) -> Seq<ClientInfos>
    decreases os.len(),
{
    if os.len() == 0 {
        v
    } else {
        let v1 = offline_all(v, os.drop_last());
        match os.last().messages {
            Some(ms) => apply_offline(v1, strip_prefix(os.last().name@, list_prefix()), offline_items_view(ms@)),
            None => v1,
        }
    }
}

/// The keys of the offline lists that could not be read or whose messages
/// found no session, in order.
pub open spec fn dropped_lists(v: Seq<ClientInfos>, os: Seq<LoadedOffline>) -> Seq<Seq<u8>>
    decreases os.len(),
{
    if os.len() == 0 {
        Seq::empty()
    } else {
        let d = dropped_lists(v, os.drop_last());
        match os.last().messages {
            Some(ms) => if any_lands(v, strip_prefix(os.last().name@, list_prefix()), offline_items_view(ms@)) {
                d
            } else {
                d.push(os.last().name@)
            },
            None => d.push(os.last().name@),
        }
    }
}

pub open spec fn prefixed_all(prefix: Seq<u8>, ks: Seq<Seq<u8>>) -> Seq<Seq<u8>> {
    Seq::new(ks.len(), |i: int| prefix + ks[i])
}

/// `v` in reverse order.
pub fn reversed<T>(v: Vec<T>) -> (r: Vec<T>)
    ensures
        r@ == v@.reverse(),
{
    let ghost orig = v@;
    let mut v = v;
    let mut r: Vec<T> = Vec::new();
    while v.len() > 0
        invariant
            v@ == orig.take(v@.len() as int),
            v@.len() <= orig.len(),
            r@ == orig.subrange(v@.len() as int, orig.len() as int).reverse(),
        decreases v@.len(),
    {
        let ghost t = v@.len() as int;
        let x = v.pop();
        match x {
            Some(e) => {
                r.push(e);
                proof {
                    assert(v@ =~= orig.take(t - 1));
                    assert(r@ =~= orig.subrange(t - 1, orig.len() as int).reverse());
                }
            },
            None => {},
        }
    }
    proof {
        assert(orig.subrange(0, orig.len() as int) =~= orig);
    }
    r
}

fn prefix_keys(prefix: &Vec<u8>, keys: &Vec<Vec<u8>>, out: &mut Vec<Vec<u8>>)
    ensures
        keys_view(final(out)@) == keys_view(old(out)@) + prefixed_all(prefix@, keys_view(keys@)),
{
    let ghost o = keys_view(out@);
    let mut i: usize = 0;
    while i < keys.len()
        invariant
            i <= keys@.len(),
            keys_view(out@) == o + prefixed_all(prefix@, keys_view(keys@)).take(i as int),
        decreases keys@.len() - i,
    {
        let k = prefixed(crate::message::copy_bytes(prefix), keys[i].as_slice());
        let ghost before = keys_view(out@);
        out.push(k);
        proof {
            let pa = prefixed_all(prefix@, keys_view(keys@));
            assert(keys_view(out@) =~= before.push(prefix@ + keys@[i as int]@));
            assert(pa[i as int] == prefix@ + keys@[i as int]@);
            assert(pa.take(i + 1) =~= pa.take(i as int).push(pa[i as int]));
        }
        i += 1;
    }
    proof {
        assert(prefixed_all(prefix@, keys_view(keys@)).take(keys@.len() as int) =~= prefixed_all(
            prefix@,
            keys_view(keys@),
        ));
    }
}

/// Rebuilds the session infos from what was read back from storage: each
/// session with its basic info is filed under its client, each readable
/// offline list is queued on its session, and each client keeps only its
/// latest session. Sessions without basic info, offline lists that could
/// not be read or found no session, and the sessions not kept, are to be
/// deleted.
pub fn load_session_infos(sessions: Vec<LoadedSession>, offline: Vec<LoadedOffline>) -> (plan: LoadPlan)
    ensures
        ({
            let v1 = loaded_all(Seq::empty(), sessions@);
            let v2 = offline_all(v1, offline@);
            &&& infos_wf(plan.infos@)
            &&& plan.infos@ == retained(v2)
            &&& keys_view(plan.map_removals@) == dropped_maps(sessions@) + prefixed_all(map_prefix(), removed_keys(v2))
            &&& keys_view(plan.list_removals@) == dropped_lists(v1, offline@) + prefixed_all(
                list_prefix(),
                removed_keys(v2),
            )
        }),
{
    let ghost ls = sessions@;
    let ghost os = offline@;
    let mut infos = StoredSessionInfos::new();
    let mut map_removals: Vec<Vec<u8>> = Vec::new();
    let mut list_removals: Vec<Vec<u8>> = Vec::new();
    proof {
        assert(infos@ =~= Seq::<ClientInfos>::empty());
        assert(keys_view(map_removals@) =~= Seq::<Seq<u8>>::empty());
    }
    let n: usize = sessions.len();
    let mut rest = reversed(sessions);
    let mut k: usize = 0;
    proof {
        assert(ls.subrange(0, ls.len() as int) =~= ls);
        assert(ls.take(0) =~= Seq::<LoadedSession>::empty());
    }
    while rest.len() > 0
        invariant
            k <= ls.len(),
            n == ls.len(),
            k + rest@.len() == ls.len(),
            rest@ == ls.subrange(k as int, ls.len() as int).reverse(),
            infos_wf(infos@),
            infos@ == loaded_all(Seq::empty(), ls.take(k as int)),
            keys_view(map_removals@) == dropped_maps(ls.take(k as int)),
        decreases rest@.len(),
    {
        let ghost before = infos@;
        let x = rest.pop();
        match x {
            Some(l) => {
                proof {
                    assert(ls.subrange(k as int, ls.len() as int).reverse().last() == ls[k as int]);
                    assert(l == ls[k as int]);
                    assert(rest@ =~= ls.subrange(k + 1, ls.len() as int).reverse());
                    assert(ls.take(k + 1).drop_last() =~= ls.take(k as int));
                    assert(ls.take(k + 1).last() == ls[k as int]);
                }
                let ghost lv = l;
                let LoadedSession { name, basic, last_time, subs, disconnect_info, inflight_messages } = l;
                match basic {
                    Some(b) => {
                        let id = map_stored_key_to_id_bytes(name.as_slice());
                        let id_key = crate::message::copy_bytes(&slice_to_vec_bytes(id));
                        let mut info = StoredSessionInfo::from(id_key, b);
                        match last_time {
                            Some(t) => info.set_last_time(t),
                            None => {},
                        }
                        match subs {
                            Some(v) => info.set_subs(v),
                            None => {},
                        }
                        match disconnect_info {
                            Some(d) => info.set_disconnect_info(d),
                            None => {},
                        }
                        match inflight_messages {
                            Some(v) => info.set_inflight_messages(v),
                            None => {},
                        }
                        proof {
                            let li = loaded_info(lv);
                            assert(info@.offline_messages =~= li.offline_messages);
                            assert(info@.inflight_messages =~= li.inflight_messages);
                            assert(info@.id_key == li.id_key);
                            assert(info@.subs == li.subs);
                            assert(info@.disconnected_at == li.disconnected_at);
                            assert(info@.last_time == li.last_time);
                            assert(info@ == li);
                        }
                        infos.add(info);
                    },
                    None => {
                        map_removals.push(name);
                        proof {
                            assert(keys_view(map_removals@) =~= dropped_maps(ls.take(k as int)).push(lv.name@));
                        }
                    },
                }
                k += 1;
            },
            None => {},
        }
    }
    proof {
        assert(ls.take(ls.len() as int) =~= ls);
    }
    let ghost v1 = infos@;
    let n: usize = offline.len();
    let mut rest = reversed(offline);
    let mut k: usize = 0;
    proof {
        assert(keys_view(list_removals@) =~= Seq::<Seq<u8>>::empty());
        assert(os.subrange(0, os.len() as int) =~= os);
        assert(os.take(0) =~= Seq::<LoadedOffline>::empty());
    }
    while rest.len() > 0
        invariant
            k <= os.len(),
            n == os.len(),
            k + rest@.len() == os.len(),
            rest@ == os.subrange(k as int, os.len() as int).reverse(),
            infos_wf(v1),
            infos_wf(infos@),
            same_shape(v1, infos@),
            infos@ == offline_all(v1, os.take(k as int)),
            keys_view(list_removals@) == dropped_lists(v1, os.take(k as int)),
        decreases rest@.len(),
    {
        let x = rest.pop();
        match x {
            Some(o) => {
                proof {
                    assert(os.subrange(k as int, os.len() as int).reverse().last() == os[k as int]);
                    assert(o == os[k as int]);
                    assert(rest@ =~= os.subrange(k + 1, os.len() as int).reverse());
                    assert(os.take(k + 1).drop_last() =~= os.take(k as int));
                    assert(os.take(k + 1).last() == os[k as int]);
                }
                let ghost ov = o;
                let ghost before = infos@;
                let LoadedOffline { name, messages } = o;
                match messages {
                    Some(ms) => {
                        let id = list_stored_key_to_id_bytes(name.as_slice());
                        let ghost key = id@;
                        let ghost msv = offline_items_view(ms@);
                        let ok = infos.set_offline_messages(id, ms);
                        proof {
                            lemma_apply_offline(before, key, msv);
                            assert(same_shape(v1, infos@)) by {
                                lemma_same_shape_trans(v1, before, infos@);
                            }
                            lemma_any_lands_shape(v1, before, key, msv);
                        }
                        if !ok {
                            list_removals.push(name);
                            proof {
                                assert(keys_view(list_removals@) =~= dropped_lists(v1, os.take(k as int)).push(
                                    ov.name@,
                                ));
                            }
                        }
                    },
                    None => {
                        list_removals.push(name);
                        proof {
                            assert(keys_view(list_removals@) =~= dropped_lists(v1, os.take(k as int)).push(ov.name@));
                        }
                    },
                }
                k += 1;
            },
            None => {},
        }
    }
    proof {
        assert(os.take(os.len() as int) =~= os);
    }
    let ghost v2 = infos@;
    let removed = infos.retain_latests();
    let mp = map_prefix_bytes();
    prefix_keys(&mp, &removed, &mut map_removals);
    let lp = list_prefix_bytes();
    prefix_keys(&lp, &removed, &mut list_removals);
    LoadPlan { infos, map_removals, list_removals }
}

fn slice_to_vec_bytes(s: &[u8]) -> (v: Vec<u8>)
    ensures
        v@ == s@,
{
    vstd::slice::slice_to_vec(s)
}

proof fn lemma_same_shape_trans(a: Seq<ClientInfos>, b: Seq<ClientInfos>, c: Seq<ClientInfos>)
    requires
        same_shape(a, b),
        same_shape(b, c),
    ensures
        same_shape(a, c),
{
    assert forall|i: int, k: int|
        0 <= i < a.len() && 0 <= k < a[i].1.len() implies (#[trigger] a[i].1[k]).id_key == c[i].1[k].id_key
            && a[i].1[k].client_id == c[i].1[k].client_id by {
        assert(b[i].1[k].id_key == c[i].1[k].id_key);
    }
}

proof fn lemma_any_lands_shape(
    a: Seq<ClientInfos>,
    b: Seq<ClientInfos>,
    key: Seq<u8>,
    ms: Seq<Option<(Seq<char>, MsgFromView, PublishView)>>,
)
    requires
        infos_wf(a),
        same_shape(a, b),
    ensures
        any_lands(a, key, ms) == any_lands(b, key, ms),
{
    if any_lands(a, key, ms) {
        let q = choose|q: int| 0 <= q < ms.len() && (#[trigger] ms[q]) is Some && lands(a, key, item_client(ms[q]));
        lemma_same_shape_lands(a, b, key, item_client(ms[q]));
    }
    if any_lands(b, key, ms) {
        let q = choose|q: int| 0 <= q < ms.len() && (#[trigger] ms[q]) is Some && lands(b, key, item_client(ms[q]));
        lemma_same_shape_lands(a, b, key, item_client(ms[q]));
    }
}

/// When the session went offline: its disconnect time when one was
/// recorded and positive, else its last activity.
pub open spec fn offline_since(disconnected_at: Option<i64>, last_time: i64) -> i64 {
    match disconnected_at {
        Some(d) => if d <= 0 {
            last_time
        } else {
            d
        },
        None => last_time,
    }
}

/// What is left of a session's expiry interval at `now`, in milliseconds.
pub open spec fn expiry_left(expiry_interval_ms: i64, disconnected_at: Option<i64>, last_time: i64, now: i64) -> int {
    expiry_interval_ms - (now - offline_since(disconnected_at, last_time))
}

/// What is left at `now` of a session's expiry interval (`expiry_interval_ms`,
/// as the listener's settings give it for the session), counted from when
/// it went offline.
pub fn session_expiry_interval(
    expiry_interval_ms: i64,
    disconnected_at: Option<i64>,
    last_time: i64,
    now: i64,
) -> (left: i64)
    requires
        i64::MIN <= now - offline_since(disconnected_at, last_time) <= i64::MAX,
        i64::MIN <= expiry_left(expiry_interval_ms, disconnected_at, last_time, now) <= i64::MAX,
    ensures
        left == expiry_left(expiry_interval_ms, disconnected_at, last_time, now),
{
    let d: i64 = match disconnected_at {
        Some(d) => d,
        None => 0,
    };
    let since: i64 = if d <= 0 {
        last_time
    } else {
        d
    };
    expiry_interval_ms - (now - since)
}

/// What restarting an offline session comes to.
pub enum RebuildAction {
    /// The listener the session came through is gone: leave it.
    NoListener,
    /// The session expired: delete its stored map and list.
    Expired { map_key: Vec<u8>, list_key: Vec<u8> },
    /// Restore it; it expires `expiry_interval_ms` from now, and counts as
    /// disconnected since `disconnected_at`. The restored session gets the
    /// stored subscriptions, its offline messages queued for delivery in
    /// order, and its in-flight messages back in flight in order.
    Restore {
        expiry_interval_ms: u64,
        disconnected_at: i64,
        subs: Vec<String>,
        offline_messages: Vec<(MsgFrom, Publish)>,
        inflight_messages: Vec<InflightMessage>,
    },
}

/// Decides, at `now`, what becomes of stored session `info` at startup.
/// `listener_found` says whether its listener still exists and
/// `expiry_interval_ms` is the expiry interval its settings give it. A
/// restored session takes its subscriptions, disconnect record, offline and
/// in-flight messages out of `info`.
pub fn rebuild_decision(info: &mut StoredSessionInfo, listener_found: bool, expiry_interval_ms: i64, now: i64) -> (r: RebuildAction)
    requires
        i64::MIN <= now - offline_since(old(info)@.disconnected_at, old(info)@.last_time) <= i64::MAX,
        i64::MIN <= expiry_left(expiry_interval_ms, old(info)@.disconnected_at, old(info)@.last_time, now) <= i64::MAX,
    ensures
        !listener_found ==> r is NoListener && final(info)@ == old(info)@,
        listener_found && expiry_left(expiry_interval_ms, old(info)@.disconnected_at, old(info)@.last_time, now) <= 0
            ==> final(info)@ == old(info)@ && match r {
            RebuildAction::Expired { map_key, list_key } => map_key@ == map_prefix() + old(info)@.id_key && list_key@
                == list_prefix() + old(info)@.id_key,
            _ => false,
        },
        listener_found && expiry_left(expiry_interval_ms, old(info)@.disconnected_at, old(info)@.last_time, now) > 0
            ==> final(info)@ == (StoredSessionView {
            subs: None,
            disconnected_at: None,
            offline_messages: Seq::empty(),
            inflight_messages: Seq::empty(),
            ..old(info)@
        }) && match r {
            RebuildAction::Restore {
                expiry_interval_ms: e,
                disconnected_at,
                subs,
                offline_messages,
                inflight_messages,
            } => e == expiry_left(expiry_interval_ms, old(info)@.disconnected_at, old(info)@.last_time, now)
                && disconnected_at == match old(info)@.disconnected_at {
                Some(d) => d,
                None => old(info)@.last_time,
            } && strings_view(subs@) == match old(info)@.subs {
                Some(v) => v,
                None => Seq::empty(),
            } && offline_view(offline_messages@) == old(info)@.offline_messages && inflight_view(inflight_messages@)
                == old(info)@.inflight_messages,
            _ => false,
        },
{
    if !listener_found {
        return RebuildAction::NoListener;
    }
    let left = session_expiry_interval(expiry_interval_ms, match &info.disconnect_info {
        Some(d) => Some(d.disconnected_at),
        None => None,
    }, info.last_time, now);
    if left <= 0 {
        let map_key = make_map_stored_key(info.id_key.as_slice());
        let list_key = make_list_stored_key(info.id_key.as_slice());
        RebuildAction::Expired { map_key, list_key }
    } else {
        let disconnected_at = match &info.disconnect_info {
            Some(d) => d.disconnected_at,
            None => info.last_time,
        };
        info.disconnect_info = None;
        let subs = match info.subs.take() {
            Some(v) => v,
            None => {
                let v: Vec<String> = Vec::new();
                assert(strings_view(v@) =~= Seq::<Seq<char>>::empty());
                v
            },
        };
        let mut offline_messages: Vec<(MsgFrom, Publish)> = Vec::new();
        std::mem::swap(&mut offline_messages, &mut info.offline_messages);
        let mut inflight_messages: Vec<InflightMessage> = Vec::new();
        std::mem::swap(&mut inflight_messages, &mut info.inflight_messages);
        proof {
            assert(info@.offline_messages =~= Seq::<(MsgFromView, PublishView)>::empty());
            assert(info@.inflight_messages =~= Seq::<InflightView>::empty());
        }
        RebuildAction::Restore {
            expiry_interval_ms: left as u64,
            disconnected_at,
            subs,
            offline_messages,
            inflight_messages,
        }
    }
}

/// Once only the latest sessions are kept, every client has exactly one.
pub proof fn law_retain_leaves_one_per_client(v: Seq<ClientInfos>)
    requires
        infos_wf(v),
    ensures
        forall|i: int| 0 <= i < retained(v).len() ==> (#[trigger] retained(v)[i]).1.len() == 1,
        retained(v).len() == v.len(),
        forall|i: int| 0 <= i < v.len() ==> (#[trigger] retained(v)[i]).0 == v[i].0,
{
    assert forall|i: int| 0 <= i < retained(v).len() implies (#[trigger] retained(v)[i]).1.len() == 1 by {
        assert(v[i].1.len() > 0);
    }
}

/// Whether a stored session has expired at `now`: its listener is gone, or
/// nothing is left of its expiry interval.
pub fn is_session_expiry(
    listener_found: bool,
    expiry_interval_ms: i64,
    disconnected_at: Option<i64>,
    last_time: i64,
    now: i64,
) -> (r: bool)
    requires
        i64::MIN <= now - offline_since(disconnected_at, last_time) <= i64::MAX,
        i64::MIN <= expiry_left(expiry_interval_ms, disconnected_at, last_time, now) <= i64::MAX,
    ensures
        r == (!listener_found || expiry_left(expiry_interval_ms, disconnected_at, last_time, now) <= 0),
{
    if !listener_found {
        return true;
    }
    session_expiry_interval(expiry_interval_ms, disconnected_at, last_time, now) <= 0
}

/// Why a stored record was refused.
#[derive(Debug, Clone, Copy, PartialEq, Eq, Structural)]
pub enum KeyError {
    /// The record's key is not valid UTF-8.
    InvalidKey,
}

/// `std::str::from_utf8`: the text `bytes` spell, when they are valid UTF-8.
#[verifier::external_body]
fn utf8_text(bytes: &[u8]) -> (r: Option<String>)
    ensures
        match r {
            Some(t) => vstd::utf8::valid_utf8(bytes@) && t@ == vstd::utf8::decode_utf8(bytes@),
            None => !vstd::utf8::valid_utf8(bytes@),
        },
{
    std::str::from_utf8(bytes).ok().map(|t| t.to_string())
}

/// `v` with `upd` applied to the session of client `cid` stored under `key`
/// (the first such), when there is one.
pub open spec fn session_update(
    v: Seq<ClientInfos>,
    cid: Seq<char>,
    key: Seq<u8>,
    upd: spec_fn(StoredSessionView) -> StoredSessionView,
) -> Seq<ClientInfos> {
    match client_index(v, cid) {
        Some(i) => match first_with_key(v[i].1, key) {
            Some(j) => v.update(i, (v[i].0, v[i].1.update(j, upd(v[i].1[j])))),
            None => v,
        },
        None => v,
    }
}

pub open spec fn later(a: i64, b: i64) -> i64 {
    if a < b {
        b
    } else {
        a
    }
}

impl StoredSessionInfo {
    /// A session info read back with its record's key and write time.
    pub fn from_meta(meta: crate::storage::Metadata, basic: SessionBasic) -> (r: Result<StoredSessionInfo, KeyError>)
        ensures
            match r {
                Ok(s) => vstd::utf8::valid_utf8(meta.key@) && s@ == (StoredSessionView {
                    id_key: meta.key@,
                    client_id: basic.client_id@,
                    created_at: basic.created_at,
                    connected_at: basic.connected_at,
                    subs: None,
                    disconnected_at: None,
                    offline_messages: Seq::empty(),
                    inflight_messages: Seq::empty(),
                    last_time: meta.time,
                }),
                Err(e) => !vstd::utf8::valid_utf8(meta.key@) && e == KeyError::InvalidKey,
            },
    {
        if utf8_text(meta.key.as_slice()).is_none() {
            return Err(KeyError::InvalidKey);
        }
        let s = StoredSessionInfo {
            id_key: meta.key,
            basic,
            subs: None,
            disconnect_info: None,
            offline_messages: Vec::new(),
            inflight_messages: Vec::new(),
            last_time: meta.time,
        };
        proof {
            assert(s@.offline_messages =~= Seq::<(MsgFromView, PublishView)>::empty());
            assert(s@.inflight_messages =~= Seq::<InflightView>::empty());
        }
        Ok(s)
    }
}

impl StoredSessionInfos {
    fn find_session(&self, cid: &str, key: &[u8]) -> (r: Option<(usize, usize)>)
        requires
            infos_wf(self@),
        ensures
            match r {
                Some((i, j)) => i < self@.len() && j < self@[i as int].1.len() && client_index(self@, cid@) == Some(
                    i as int,
                ) && first_with_key(self@[i as int].1, key@) == Some(j as int),
                None => client_index(self@, cid@) is None || first_with_key(
                    self@[client_index(self@, cid@)->0].1,
                    key@,
                ) is None,
            },
    {
        match self.find_client(cid) {
            Some(i) => match self.find_key(i, key) {
                Some(j) => Some((i, j)),
                None => None,
            },
            None => None,
        }
    }

    /// Records the subscriptions read back under `key` (written at `time`)
    /// on client `cid`'s session stored under that key; its last activity
    /// moves forward to `time`.
    pub fn add_subs(&mut self, cid: &str, key: &[u8], time: i64, subs: Vec<String>) -> (r: Result<(), KeyError>)
        requires
            infos_wf(old(self)@),
        ensures
            infos_wf(final(self)@),
            !vstd::utf8::valid_utf8(key@) ==> (r matches Err(e) && e == KeyError::InvalidKey) && final(self)@ == old(self)@,
            vstd::utf8::valid_utf8(key@) ==> r is Ok && final(self)@ == session_update(
                old(self)@,
                cid@,
                key@,
                (|x: StoredSessionView| StoredSessionView { subs: Some(strings_view(subs@)), last_time: later(x.last_time, time), ..x }),
            ),
    {
        if utf8_text(key).is_none() {
            return Err(KeyError::InvalidKey);
        }
        let ghost v = self@;
        match self.find_session(cid, key) {
            Some((i, j)) => {
                let ghost sv = strings_view(subs@);
                let (c, mut infos) = self.entries.remove(i);
                let mut info = infos.remove(j);
                info.set_subs(subs);
                info.set_last_time(time);
                infos.insert(j, info);
                self.entries.insert(i, (c, infos));
                proof {
                    let upd = |x: StoredSessionView| StoredSessionView { subs: Some(sv), last_time: later(x.last_time, time), ..x };
                    let target = v.update(i as int, (v[i as int].0, v[i as int].1.update(j as int, upd(v[i as int].1[j as int]))));
                    assert(infos_view(infos@) =~= target[i as int].1);
                    assert(self@ =~= target);
                    lemma_update_shape(v, i as int, j as int, upd(v[i as int].1[j as int]));
                }
            },
            None => {},
        }
        Ok(())
    }

    /// Records the disconnect record read back under `key` (written at
    /// `time`) on client `cid`'s session stored under that key; its last
    /// activity moves forward to `time`.
    pub fn add_disconnect_info(&mut self, cid: &str, key: &[u8], time: i64, d: DisconnectState) -> (r: Result<(), KeyError>)
        requires
            infos_wf(old(self)@),
        ensures
            infos_wf(final(self)@),
            !vstd::utf8::valid_utf8(key@) ==> (r matches Err(e) && e == KeyError::InvalidKey) && final(self)@ == old(self)@,
            vstd::utf8::valid_utf8(key@) ==> r is Ok && final(self)@ == session_update(
                old(self)@,
                cid@,
                key@,
                (|x: StoredSessionView| StoredSessionView { disconnected_at: Some(d.disconnected_at), last_time: later(x.last_time, time), ..x }),
            ),
    {
        if utf8_text(key).is_none() {
            return Err(KeyError::InvalidKey);
        }
        let ghost v = self@;
        let ghost da = d.disconnected_at;
        match self.find_session(cid, key) {
            Some((i, j)) => {
                let (c, mut infos) = self.entries.remove(i);
                let mut info = infos.remove(j);
                info.set_disconnect_info(d);
                info.set_last_time(time);
                infos.insert(j, info);
                self.entries.insert(i, (c, infos));
                proof {
                    let upd = |x: StoredSessionView| StoredSessionView { disconnected_at: Some(da), last_time: later(x.last_time, time), ..x };
                    let target = v.update(i as int, (v[i as int].0, v[i as int].1.update(j as int, upd(v[i as int].1[j as int]))));
                    assert(infos_view(infos@) =~= target[i as int].1);
                    assert(self@ =~= target);
                    lemma_update_shape(v, i as int, j as int, upd(v[i as int].1[j as int]));
                }
            },
            None => {},
        }
        Ok(())
    }

    /// Moves the last activity of client `cid`'s session stored under `key`
    /// forward to `last_time`.
    pub fn set_last_time(&mut self, cid: &str, key: &[u8], last_time: i64) -> (r: Result<(), KeyError>)
        requires
            infos_wf(old(self)@),
        ensures
            infos_wf(final(self)@),
            !vstd::utf8::valid_utf8(key@) ==> (r matches Err(e) && e == KeyError::InvalidKey) && final(self)@ == old(self)@,
            vstd::utf8::valid_utf8(key@) ==> r is Ok && final(self)@ == session_update(
                old(self)@,
                cid@,
                key@,
                (|x: StoredSessionView| StoredSessionView { last_time: later(x.last_time, last_time), ..x }),
            ),
    {
        if utf8_text(key).is_none() {
            return Err(KeyError::InvalidKey);
        }
        let ghost v = self@;
        match self.find_session(cid, key) {
            Some((i, j)) => {
                let (c, mut infos) = self.entries.remove(i);
                let mut info = infos.remove(j);
                info.set_last_time(last_time);
                infos.insert(j, info);
                self.entries.insert(i, (c, infos));
                proof {
                    let upd = |x: StoredSessionView| StoredSessionView { last_time: later(x.last_time, last_time), ..x };
                    let target = v.update(i as int, (v[i as int].0, v[i as int].1.update(j as int, upd(v[i as int].1[j as int]))));
                    assert(infos_view(infos@) =~= target[i as int].1);
                    assert(self@ =~= target);
                    lemma_update_shape(v, i as int, j as int, upd(v[i as int].1[j as int]));
                }
            },
            None => {},
        }
        Ok(())
    }
}

proof fn lemma_update_shape(v: Seq<ClientInfos>, i: int, j: int, x: StoredSessionView)
    requires
        infos_wf(v),
        0 <= i < v.len(),
        0 <= j < v[i].1.len(),
        x.id_key == v[i].1[j].id_key,
        x.client_id == v[i].1[j].client_id,
    ensures
        infos_wf(v.update(i, (v[i].0, v[i].1.update(j, x)))),
{
    let w = v.update(i, (v[i].0, v[i].1.update(j, x)));
    assert(same_shape(v, w)) by {
        assert forall|a: int, k: int| 0 <= a < v.len() && 0 <= k < v[a].1.len() implies (#[trigger] v[a].1[k]).id_key
            == w[a].1[k].id_key && v[a].1[k].client_id == w[a].1[k].client_id by {
            if a == i && k == j {
            }
        }
    }
    lemma_same_shape_lands(v, w, Seq::empty(), Seq::empty());
}

/// What creating a session comes to.
pub struct CreatePlan {
    /// The session is kept in storage (it did not ask for a clean start).
    pub persistent: bool,
    /// Save it now (it is connected).
    pub save_now: bool,
    /// The map and list keys of the session it replaces, to clear.
    pub clear_last: Option<(Vec<u8>, Vec<u8>)>,
}

/// Decides how a new session is kept: only one that does not start clean
/// is stored; a connected one is saved at once, and the stored records of
/// the session it replaces (`last_id`) are cleared.
pub fn create_plan(clean_start: bool, connected: bool, last_id: Option<&[u8]>) -> (p: CreatePlan)
    ensures
        p.persistent == !clean_start,
        p.save_now == (!clean_start && connected),
        match (p.clear_last, last_id) {
            (Some((m, l)), Some(id)) => !clean_start && connected && m@ == map_prefix() + id@ && l@ == list_prefix()
                + id@,
            (None, _) => clean_start || !connected || last_id is None,
            _ => false,
        },
{
    if clean_start {
        return CreatePlan { persistent: false, save_now: false, clear_last: None };
    }
    if !connected {
        return CreatePlan { persistent: true, save_now: false, clear_last: None };
    }
    let clear_last = match last_id {
        Some(id) => Some((make_map_stored_key(id), make_list_stored_key(id))),
        None => None,
    };
    CreatePlan { persistent: true, save_now: true, clear_last }
}

} // verus!
