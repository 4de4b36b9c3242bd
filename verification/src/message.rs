//! MQTT messages as the plugins see them: the publisher, the publish packet,
//! and the recipients a stored message was already forwarded to.
use vstd::prelude::*;
use crate::text::{owned, str_chars, string_from_chars};

verus! {

/// Who published a message: the node and the client id.
#[derive(Debug)]
pub struct MsgFrom {
    pub node_id: u64,
    pub client_id: String,
}

pub struct MsgFromView {
    pub node_id: u64,
    pub client_id: Seq<char>,
}

impl View for MsgFrom {
    type V = MsgFromView;

    open spec fn view(&self) -> MsgFromView {
        MsgFromView { node_id: self.node_id, client_id: self.client_id@ }
    }
}

/// A publish packet.
#[derive(Debug)]
pub struct Publish {
    pub dup: bool,
    pub retain: bool,
    pub qos: u8,
    pub topic: String,
    pub packet_id: Option<u16>,
    pub payload: Vec<u8>,
    /// Set on point-to-point messages: only this client may receive it.
    pub target_clientid: Option<String>,
    pub create_time: Option<i64>,
}

pub struct PublishView {
    pub dup: bool,
    pub retain: bool,
    pub qos: u8,
    pub topic: Seq<char>,
    pub packet_id: Option<u16>,
    pub payload: Seq<u8>,
    pub target_clientid: Option<Seq<char>>,
    pub create_time: Option<i64>,
}

impl View for Publish {
    type V = PublishView;

    open spec fn view(&self) -> PublishView {
        PublishView {
            dup: self.dup,
            retain: self.retain,
            qos: self.qos,
            topic: self.topic@,
            packet_id: self.packet_id,
            payload: self.payload@,
            target_clientid: match self.target_clientid {
                Some(t) => Some(t@),
                None => None,
            },
            create_time: self.create_time,
        }
    }
}

/// Copies a byte vector.
pub fn copy_bytes(v: &Vec<u8>) -> (r: Vec<u8>)
    ensures
        r@ == v@,
{
    let mut r: Vec<u8> = Vec::new();
    let mut i: usize = 0;
    while i < v.len()
        invariant
            i <= v@.len(),
            r@ == v@.take(i as int),
        decreases v@.len() - i,
    {
        r.push(v[i]);
        i += 1;
        proof {
            assert(v@.take(i as int) =~= v@.take(i - 1).push(v@[i - 1]));
        }
    }
    proof {
        assert(v@.take(v@.len() as int) =~= v@);
    }
    r
}

/// Copies a `String`.
pub fn copy_string(s: &String) -> (r: String)
    ensures
        r@ == s@,
{
    owned(s.as_str())
}

/// Copies an optional `String`.
pub fn copy_opt_string(s: &Option<String>) -> (r: Option<String>)
    ensures
        match (r, s) {
            (Some(a), Some(b)) => a@ == b@,
            (None, None) => true,
            _ => false,
        },
{
    match s {
        Some(t) => Some(copy_string(t)),
        None => None,
    }
}

impl MsgFrom {
    pub fn copy(&self) -> (r: MsgFrom)
        ensures
            r@ == self@,
    {
        MsgFrom { node_id: self.node_id, client_id: copy_string(&self.client_id) }
    }
}

impl Publish {
    pub fn copy(&self) -> (r: Publish)
        ensures
            r@ == self@,
    {
        let target_clientid = copy_opt_string(&self.target_clientid);
        let r = Publish {
            dup: self.dup,
            retain: self.retain,
            qos: self.qos,
            topic: copy_string(&self.topic),
            packet_id: self.packet_id,
            payload: copy_bytes(&self.payload),
            target_clientid,
            create_time: self.create_time,
        };
        proof {
            assert(r@.target_clientid == self@.target_clientid);
        }
        r
    }
}

/// A recipient of a forwarded message: its client id and, for a shared
/// subscription, the topic filter and the share group it came through.
pub type Recipient = (String, Option<(String, String)>);

/// The mathematical form of a [`Recipient`].
pub type RecipientView = (Seq<char>, Option<(Seq<char>, Seq<char>)>);

pub open spec fn recipient_view(r: Recipient) -> RecipientView {
    (r.0@, match r.1 {
        Some(p) => Some((p.0@, p.1@)),
        None => None,
    })
}

pub open spec fn recipients_view(rs: Seq<Recipient>) -> Seq<RecipientView> {
    Seq::new(rs.len(), |i: int| recipient_view(rs[i]))
}

/// Copies a recipient.
pub fn copy_recipient(r: &Recipient) -> (c: Recipient)
    ensures
        recipient_view(c) == recipient_view(*r),
{
    let shared = match &r.1 {
        Some(p) => Some((copy_string(&p.0), copy_string(&p.1))),
        None => None,
    };
    (copy_string(&r.0), shared)
}

/// Builds a recipient from string slices.
pub fn recipient(client_id: &str, shared: Option<(&str, &str)>) -> (r: Recipient)
    ensures
        r.0@ == client_id@,
        match (r.1, shared) {
            (Some(p), Some(q)) => p.0@ == q.0@ && p.1@ == q.1@,
            (None, None) => true,
            _ => false,
        },
{
    let s = match shared {
        Some(q) => Some((owned(q.0), owned(q.1))),
        None => None,
    };
    (owned(client_id), s)
}

/// Builds a `String` from a `Vec<char>` (re-exported for callers).
pub fn chars_to_string(v: &Vec<char>) -> (s: String)
    ensures
        s@ == v@,
{
    string_from_chars(v)
}

} // verus!
