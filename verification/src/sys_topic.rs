//! `$SYS` topics: the topic a broker event is announced on.
use vstd::prelude::*;
use crate::text::{decimal, push_all, push_str, str_chars, string_from_chars, u64_decimal};

verus! {

/// A session or client event announced on a `$SYS` topic.
#[derive(Debug, Clone, Copy, PartialEq, Eq, Structural)]
pub enum SysEvent {
    SessionCreated,
    SessionTerminated,
    ClientConnected,
    ClientDisconnected,
    SessionSubscribed,
    SessionUnsubscribed,
}

/// The kind of the event's topic (`session` or `clients`) and its last level.
pub open spec fn event_words(e: SysEvent) -> (Seq<char>, Seq<char>) {
    match e {
        SysEvent::SessionCreated => ("session"@, "created"@),
        SysEvent::SessionTerminated => ("session"@, "terminated"@),
        SysEvent::ClientConnected => ("clients"@, "connected"@),
        SysEvent::ClientDisconnected => ("clients"@, "disconnected"@),
        SysEvent::SessionSubscribed => ("session"@, "subscribed"@),
        SysEvent::SessionUnsubscribed => ("session"@, "unsubscribed"@),
    }
}

/// `$SYS/brokers/{node}/{kind}/{clientid}/{event}`.
pub open spec fn sys_topic_spec(node: u64, client_id: Seq<char>, e: SysEvent) -> Seq<char> {
    "$SYS/brokers/"@ + decimal(node as nat) + seq!['/'] + event_words(e).0 + seq!['/'] + client_id + seq!['/']
        + event_words(e).1
}

fn event_kind(e: SysEvent) -> (r: &'static str)
    ensures
        r@ == event_words(e).0,
{
    match e {
        SysEvent::SessionCreated => "session",
        SysEvent::SessionTerminated => "session",
        SysEvent::ClientConnected => "clients",
        SysEvent::ClientDisconnected => "clients",
        SysEvent::SessionSubscribed => "session",
        SysEvent::SessionUnsubscribed => "session",
    }
}

fn event_name(e: SysEvent) -> (r: &'static str)
    ensures
        r@ == event_words(e).1,
{
    match e {
        SysEvent::SessionCreated => "created",
        SysEvent::SessionTerminated => "terminated",
        SysEvent::ClientConnected => "connected",
        SysEvent::ClientDisconnected => "disconnected",
        SysEvent::SessionSubscribed => "subscribed",
        SysEvent::SessionUnsubscribed => "unsubscribed",
    }
}

/// The topic an event of client `client_id` on node `node` is announced on.
pub fn sys_topic(node: u64, client_id: &str, e: SysEvent) -> (t: String)
    ensures
        t@ == sys_topic_spec(node, client_id@, e),
{
    let mut v = str_chars("$SYS/brokers/");
    let n = u64_decimal(node);
    push_all(&mut v, &n);
    v.push('/');
    push_str(&mut v, event_kind(e));
    v.push('/');
    push_str(&mut v, client_id);
    v.push('/');
    push_str(&mut v, event_name(e));
    string_from_chars(&v)
}

/// The topic of each event, written out: `$SYS/brokers/{node}/` then
/// `session/{client}/created`, `session/{client}/terminated`,
/// `clients/{client}/connected`, `clients/{client}/disconnected`,
/// `session/{client}/subscribed` or `session/{client}/unsubscribed`.
pub proof fn law_sys_topic_text(node: u64, client_id: Seq<char>)
    ensures
        sys_topic_spec(node, client_id, SysEvent::SessionCreated) == "$SYS/brokers/"@ + decimal(node as nat)
            + "/session/"@ + client_id + "/created"@,
        sys_topic_spec(node, client_id, SysEvent::SessionTerminated) == "$SYS/brokers/"@ + decimal(node as nat)
            + "/session/"@ + client_id + "/terminated"@,
        sys_topic_spec(node, client_id, SysEvent::ClientConnected) == "$SYS/brokers/"@ + decimal(node as nat)
            + "/clients/"@ + client_id + "/connected"@,
        sys_topic_spec(node, client_id, SysEvent::ClientDisconnected) == "$SYS/brokers/"@ + decimal(node as nat)
            + "/clients/"@ + client_id + "/disconnected"@,
        sys_topic_spec(node, client_id, SysEvent::SessionSubscribed) == "$SYS/brokers/"@ + decimal(node as nat)
            + "/session/"@ + client_id + "/subscribed"@,
        sys_topic_spec(node, client_id, SysEvent::SessionUnsubscribed) == "$SYS/brokers/"@ + decimal(node as nat)
            + "/session/"@ + client_id + "/unsubscribed"@,
{
    reveal_strlit("session");
    reveal_strlit("clients");
    reveal_strlit("created");
    reveal_strlit("terminated");
    reveal_strlit("connected");
    reveal_strlit("disconnected");
    reveal_strlit("subscribed");
    reveal_strlit("unsubscribed");
    reveal_strlit("/session/");
    reveal_strlit("/clients/");
    reveal_strlit("/created");
    reveal_strlit("/terminated");
    reveal_strlit("/connected");
    reveal_strlit("/disconnected");
    reveal_strlit("/subscribed");
    reveal_strlit("/unsubscribed");
    let a = "$SYS/brokers/"@ + decimal(node as nat);
    assert(sys_topic_spec(node, client_id, SysEvent::SessionCreated) =~= a + "/session/"@ + client_id + "/created"@);
    assert(sys_topic_spec(node, client_id, SysEvent::SessionTerminated) =~= a + "/session/"@ + client_id
        + "/terminated"@);
    assert(sys_topic_spec(node, client_id, SysEvent::ClientConnected) =~= a + "/clients/"@ + client_id + "/connected"@);
    assert(sys_topic_spec(node, client_id, SysEvent::ClientDisconnected) =~= a + "/clients/"@ + client_id
        + "/disconnected"@);
    assert(sys_topic_spec(node, client_id, SysEvent::SessionSubscribed) =~= a + "/session/"@ + client_id
        + "/subscribed"@);
    assert(sys_topic_spec(node, client_id, SysEvent::SessionUnsubscribed) =~= a + "/session/"@ + client_id
        + "/unsubscribed"@);
}

/// Different events of one client are announced on different topics.
pub proof fn law_sys_topics_distinct(node: u64, client_id: Seq<char>, e1: SysEvent, e2: SysEvent)
    requires
        e1 != e2,
    ensures
        sys_topic_spec(node, client_id, e1) != sys_topic_spec(node, client_id, e2),
{
    reveal_strlit("$SYS/brokers/");
    reveal_strlit("session");
    reveal_strlit("clients");
    reveal_strlit("created");
    reveal_strlit("terminated");
    reveal_strlit("connected");
    reveal_strlit("disconnected");
    reveal_strlit("subscribed");
    reveal_strlit("unsubscribed");
    let a = "$SYS/brokers/"@ + decimal(node as nat) + seq!['/'];
    let t1 = sys_topic_spec(node, client_id, e1);
    let t2 = sys_topic_spec(node, client_id, e2);
    let (k1, w1) = event_words(e1);
    let (k2, w2) = event_words(e2);
    assert(t1 =~= a + k1 + seq!['/'] + client_id + seq!['/'] + w1);
    assert(t2 =~= a + k2 + seq!['/'] + client_id + seq!['/'] + w2);
    assert(k1.len() == 7 && k2.len() == 7);
    if k1 != k2 {
        assert(k1[0] != k2[0]);
        assert(t1[a.len() as int] == k1[0]);
        assert(t2[a.len() as int] == k2[0]);
    } else {
        assert(w1.len() != w2.len() || w1[0] != w2[0]) by {
            match e1 {
                SysEvent::SessionCreated => {},
                SysEvent::SessionTerminated => {},
                SysEvent::ClientConnected => {},
                SysEvent::ClientDisconnected => {},
                SysEvent::SessionSubscribed => {},
                SysEvent::SessionUnsubscribed => {},
            }
            match e2 {
                SysEvent::SessionCreated => {},
                SysEvent::SessionTerminated => {},
                SysEvent::ClientConnected => {},
                SysEvent::ClientDisconnected => {},
                SysEvent::SessionSubscribed => {},
                SysEvent::SessionUnsubscribed => {},
            }
        }
        if w1.len() == w2.len() {
            assert(w1[0] != w2[0]);
            let b = (a.len() + 7 + 1 + client_id.len() + 1) as int;
            assert(t1[b] == w1[0]);
            assert(t2[b] == w2[0]);
        } else {
            assert(t1.len() != t2.len());
        }
    }
}

} // verus!
