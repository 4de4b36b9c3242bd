//! Stamping messages with their receive time: a JSON object payload gets an
//! `rts` field holding the message's creation time.
use vstd::prelude::*;
use crate::message::{Publish, PublishView};

verus! {

/// A JSON value of `serde_json`.
#[verifier::external_type_specification]
#[verifier::external_body]
pub struct ExJsonValue(serde_json::Value);

/// The JSON value `bytes` hold, if they parse (`serde_json::from_slice`).
pub uninterp spec fn json_parse(bytes: Seq<u8>) -> Option<serde_json::Value>;

/// `v` with number field `key` set to `n` when `v` is an object; `v` itself
/// otherwise.
pub uninterp spec fn json_with_field(v: serde_json::Value, key: Seq<char>, n: i64) -> serde_json::Value;

/// The JSON text of `v` (`serde_json::to_vec`), if it serializes.
pub uninterp spec fn json_text(v: serde_json::Value) -> Option<Seq<u8>>;

/// `serde_json::from_slice`: the JSON value `bytes` hold; `None` when they
/// do not parse.
#[verifier::external_body]
fn json_from_slice(bytes: &[u8]) -> (r: Option<serde_json::Value>)
    ensures
        r == json_parse(bytes@),
{
    serde_json::from_slice::<serde_json::Value>(bytes).ok()
}

/// `serde_json::Map::insert` on an object: sets field `key` to number `n`;
/// a value that is not an object is left as it is.
#[verifier::external_body]
fn json_insert_number(v: &mut serde_json::Value, key: &str, n: i64)
    ensures
        *final(v) == json_with_field(*old(v), key@, n),
{
    if let Some(obj) = v.as_object_mut() {
        obj.insert(key.to_string(), serde_json::Value::Number(serde_json::Number::from(n)));
    }
}

/// `serde_json::to_vec`: the value's JSON text; `None` if it fails.
#[verifier::external_body]
fn json_to_vec(v: &serde_json::Value) -> (r: Option<Vec<u8>>)
    ensures
        match r {
            Some(b) => json_text(*v) == Some(b@),
            None => json_text(*v) is None,
        },
{
    serde_json::to_vec(v).ok()
}

/// What stamping `payload` with `create_time` gives: `None` when it is not
/// JSON or does not serialize again; otherwise the text of the value with
/// its `rts` field set (when it is an object).
pub open spec fn stamped(payload: Seq<u8>, create_time: i64) -> Option<Seq<u8>> {
    match json_parse(payload) {
        None => None,
        Some(v) => json_text(json_with_field(v, seq!['r', 't', 's'], create_time)),
    }
}

/// The payload with an `rts` field set to `create_time` when it is a JSON
/// object (see [`stamped`]); `None` when it is not JSON (the message then
/// goes out unchanged).
pub fn inject_rts(payload: &[u8], create_time: i64) -> (r: Option<Vec<u8>>)
    ensures
        match r {
            Some(b) => stamped(payload@, create_time) == Some(b@),
            None => stamped(payload@, create_time) is None,
        },
{
    let mut v = match json_from_slice(payload) {
        Some(v) => v,
        None => return None,
    };
    let key = "rts";
    proof {
        reveal_strlit("rts");
        assert(key@ =~= seq!['r', 't', 's']);
    }
    json_insert_number(&mut v, key, create_time);
    json_to_vec(&v)
}

/// The message to publish in place of `p`: the same message with its
/// payload stamped (see [`stamped`]); `None` keeps `p` as it is, as for a
/// payload that is not JSON or a message without a creation time.
pub fn stamp_publish(p: &Publish) -> (r: Option<Publish>)
    ensures
        match p@.create_time {
            None => r is None,
            Some(t) => match stamped(p@.payload, t) {
                None => r is None,
                Some(b) => r matches Some(q) && q@ == (PublishView { payload: b, ..p@ }),
            },
        },
{
    match p.create_time {
        Some(t) => with_stamped_payload(p, inject_rts(p.payload.as_slice(), t)),
        None => None,
    }
}

/// `p` with its payload replaced by `payload`, when there is one.
pub fn with_stamped_payload(p: &Publish, payload: Option<Vec<u8>>) -> (r: Option<Publish>)
    ensures
        match payload {
            None => r is None,
            Some(b) => r matches Some(q) && q@ == (PublishView { payload: b@, ..p@ }),
        },
{
    match payload {
        Some(bytes) => {
            let mut q = p.copy();
            q.payload = bytes;
            Some(q)
        },
        None => None,
    }
}

} // verus!
