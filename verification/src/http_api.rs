//! The HTTP API's logic: the messages exchanged between nodes, the client
//! search filter, and the keys and time buckets of the stats history.
use vstd::prelude::*;
use crate::text::{chars_contain, contains_run, decimal, push_all, str_chars, string_from_chars, u64_decimal};
use crate::ram_store::timestamp_millis;
use base64::Engine;

verus! {

/// The query of a client search; each field that is set must match.
/// Times are unix milliseconds.
pub struct ClientSearchParams {
    /// At most this many clients are returned.
    pub _limit: usize,
    pub clientid: Option<String>,
    pub username: Option<String>,
    pub ip_address: Option<String>,
    pub connected: Option<bool>,
    pub session_present: Option<bool>,
    pub clean_start: Option<bool>,
    pub proto_ver: Option<u8>,
    /// A substring the client id must contain.
    pub _like_clientid: Option<String>,
    /// A substring the username must contain.
    pub _like_username: Option<String>,
    pub _gte_created_at: Option<i64>,
    pub _lte_created_at: Option<i64>,
    pub _gte_connected_at: Option<i64>,
    pub _lte_connected_at: Option<i64>,
    /// Bounds on the length of the client's message queue.
    pub _gte_mqueue_len: Option<usize>,
    pub _lte_mqueue_len: Option<usize>,
}

/// A request one node sends another over the cluster's gRPC channel.
pub enum Message {
    BrokerInfo,
    NodeInfo,
    StateInfo,
    MetricsInfo,
    ClientSearch(ClientSearchParams),
    ClientGet { clientid: String },
}

/// What the client search reads of a connected or offline session.
pub struct ClientSnapshot {
    pub client_id: String,
    /// Empty when the client gave none.
    pub username: String,
    /// The peer's IP address as text, when known.
    pub ip_address: Option<String>,
    pub connected: bool,
    pub session_present: bool,
    pub clean_start: bool,
    pub proto_ver: u8,
    pub created_at: i64,
    pub connected_at: i64,
    pub mqueue_len: usize,
}

pub open spec fn opt_eq(q: Option<String>, v: Seq<char>) -> bool {
    match q {
        Some(s) => s@ == v,
        None => true,
    }
}

pub open spec fn opt_like(q: Option<String>, v: Seq<char>) -> bool {
    match q {
        Some(s) => contains_run(v, s@),
        None => true,
    }
}

pub open spec fn opt_same<T>(q: Option<T>, v: T) -> bool {
    match q {
        Some(x) => x == v,
        None => true,
    }
}

pub open spec fn opt_ge(q: Option<i64>, v: i64) -> bool {
    match q {
        Some(x) => v >= x,
        None => true,
    }
}

pub open spec fn opt_le(q: Option<i64>, v: i64) -> bool {
    match q {
        Some(x) => v <= x,
        None => true,
    }
}

/// Whether session `c` matches search `q`.
pub open spec fn matches_search(q: ClientSearchParams, c: ClientSnapshot) -> bool {
    &&& opt_eq(q.clientid, c.client_id@)
    &&& opt_eq(q.username, c.username@)
    &&& match q.ip_address {
        Some(ip) => match c.ip_address {
            Some(a) => a@ == ip@,
            None => false,
        },
        None => true,
    }
    &&& opt_same(q.connected, c.connected)
    &&& opt_same(q.session_present, c.session_present)
    &&& opt_same(q.clean_start, c.clean_start)
    &&& opt_same(q.proto_ver, c.proto_ver)
    &&& opt_like(q._like_clientid, c.client_id@)
    &&& opt_like(q._like_username, c.username@)
    &&& opt_ge(q._gte_created_at, c.created_at)
    &&& opt_le(q._lte_created_at, c.created_at)
    &&& opt_ge(q._gte_connected_at, c.connected_at)
    &&& opt_le(q._lte_connected_at, c.connected_at)
    &&& match q._gte_mqueue_len {
        Some(n) => c.mqueue_len >= n,
        None => true,
    }
    &&& match q._lte_mqueue_len {
        Some(n) => c.mqueue_len <= n,
        None => true,
    }
}

fn check_eq(q: &Option<String>, v: &str) -> (r: bool)
    ensures
        r == opt_eq(*q, v@),
{
    match q {
        Some(s) => crate::text::str_eq(s.as_str(), v),
        None => true,
    }
}

fn check_like(q: &Option<String>, v: &str) -> (r: bool)
    ensures
        r == opt_like(*q, v@),
{
    match q {
        Some(s) => {
            let hay = str_chars(v);
            let needle = str_chars(s.as_str());
            chars_contain(&hay, &needle)
        },
        None => true,
    }
}

/// Whether a session matches the search; a peer without a session never does.
pub fn filtering(q: &ClientSearchParams, entry: Option<&ClientSnapshot>) -> (r: bool)
    ensures
        r == match entry {
            Some(c) => matches_search(*q, *c),
            None => false,
        },
{
    let c = match entry {
        Some(c) => c,
        None => return false,
    };
    if !check_eq(&q.clientid, c.client_id.as_str()) {
        return false;
    }
    if !check_eq(&q.username, c.username.as_str()) {
        return false;
    }
    match &q.ip_address {
        Some(ip) => match &c.ip_address {
            Some(a) => {
                if !crate::text::str_eq(a.as_str(), ip.as_str()) {
                    return false;
                }
            },
            None => return false,
        },
        None => {},
    }
    match q.connected {
        Some(b) => if b != c.connected {
            return false;
        },
        None => {},
    }
    match q.session_present {
        Some(b) => if b != c.session_present {
            return false;
        },
        None => {},
    }
    match q.clean_start {
        Some(b) => if b != c.clean_start {
            return false;
        },
        None => {},
    }
    match q.proto_ver {
        Some(v) => if v != c.proto_ver {
            return false;
        },
        None => {},
    }
    if !check_like(&q._like_clientid, c.client_id.as_str()) {
        return false;
    }
    if !check_like(&q._like_username, c.username.as_str()) {
        return false;
    }
    match q._gte_created_at {
        Some(t) => if c.created_at < t {
            return false;
        },
        None => {},
    }
    match q._lte_created_at {
        Some(t) => if c.created_at > t {
            return false;
        },
        None => {},
    }
    match q._gte_connected_at {
        Some(t) => if c.connected_at < t {
            return false;
        },
        None => {},
    }
    match q._lte_connected_at {
        Some(t) => if c.connected_at > t {
            return false;
        },
        None => {},
    }
    match q._gte_mqueue_len {
        Some(n) => if c.mqueue_len < n {
            return false;
        },
        None => {},
    }
    match q._lte_mqueue_len {
        Some(n) => if c.mqueue_len > n {
            return false;
        },
        None => {},
    }
    true
}

/// How many of `cs[..k]` match `q`.
pub open spec fn match_count(q: ClientSearchParams, cs: Seq<Option<ClientSnapshot>>, k: int) -> nat
    decreases k,
{
    if k <= 0 {
        0
    } else {
        let m: nat = if cs[k - 1] matches Some(c) && matches_search(q, c) {
            1
        } else {
            0
        };
        match_count(q, cs, k - 1) + m
    }
}

pub open spec fn entry_matches(q: ClientSearchParams, e: Option<ClientSnapshot>) -> bool {
    match e {
        Some(c) => matches_search(q, c),
        None => false,
    }
}

/// The positions of the first `q._limit` sessions that match, in order.
pub fn search(q: &ClientSearchParams, entries: &Vec<Option<ClientSnapshot>>) -> (found: Vec<usize>)
    ensures
        found@.len() == if match_count(*q, entries@, entries@.len() as int) < q._limit {
            match_count(*q, entries@, entries@.len() as int)
        } else {
            q._limit as nat
        },
        forall|i: int, j: int| 0 <= i < j < found@.len() ==> found@[i] < found@[j],
        forall|i: int| 0 <= i < found@.len() ==> (#[trigger] found@[i]) < entries@.len() && entry_matches(*q, entries@[found@[i] as int]),
        forall|k: int|
            0 <= k < entries@.len() && entry_matches(*q, #[trigger] entries@[k]) && match_count(*q, entries@, k) < q._limit
                ==> found@.contains(k as usize),
{
    let mut found: Vec<usize> = Vec::new();
    let mut k: usize = 0;
    while k < entries.len()
        invariant
            k <= entries@.len(),
            found@.len() == if match_count(*q, entries@, k as int) < q._limit {
                match_count(*q, entries@, k as int)
            } else {
                q._limit as nat
            },
            forall|i: int, j: int| 0 <= i < j < found@.len() ==> found@[i] < found@[j],
            forall|i: int| 0 <= i < found@.len() ==> (#[trigger] found@[i]) < k && entry_matches(*q, entries@[found@[i] as int]),
            forall|m: int|
                0 <= m < k && entry_matches(*q, #[trigger] entries@[m]) && match_count(*q, entries@, m) < q._limit
                    ==> found@.contains(m as usize),
        decreases entries@.len() - k,
    {
        let ok = match &entries[k] {
            Some(c) => filtering(q, Some(c)),
            None => filtering(q, None),
        };
        let ghost old_found = found@;
        if ok && found.len() < q._limit {
            found.push(k);
            proof {
                assert(found@[found@.len() - 1] == k);
            }
        }
        proof {
            assert(match_count(*q, entries@, k + 1) == match_count(*q, entries@, k as int) + if entry_matches(
                *q,
                entries@[k as int],
            ) {
                1nat
            } else {
                0nat
            });
            assert forall|m: int|
                0 <= m < k + 1 && entry_matches(*q, #[trigger] entries@[m]) && match_count(*q, entries@, m) < q._limit
                    implies found@.contains(m as usize) by {
                if m == k {
                    assert(found@[found@.len() - 1] == k);
                } else {
                    assert(old_found.contains(m as usize));
                    let idx = choose|idx: int| 0 <= idx < old_found.len() && old_found[idx] == m as usize;
                    assert(found@[idx] == old_found[idx]);
                }
            }
        }
        k += 1;
    }
    found
}

/// The storage key of a history entry: `{prefix}:{node_id}:{ts}`.
pub open spec fn history_key(prefix: Seq<char>, node_id: u64, ts: u64) -> Seq<char> {
    prefix + seq![':'] + decimal(node_id as nat) + seq![':'] + decimal(ts as nat)
}

/// Builds the storage key of a history entry.
pub fn make_key(prefix: &str, node_id: u64, ts: u64) -> (k: String)
    ensures
        k@ == history_key(prefix@, node_id, ts),
{
    let mut v = str_chars(prefix);
    v.push(':');
    let n = u64_decimal(node_id);
    push_all(&mut v, &n);
    v.push(':');
    let t = u64_decimal(ts);
    push_all(&mut v, &t);
    string_from_chars(&v)
}

/// `ms` rounded down to a multiple of `interval_ms`.
pub fn round_down(ms: u64, interval_ms: u64) -> (r: u64)
    requires
        interval_ms > 0,
    ensures
        r == ms / interval_ms * interval_ms,
        r <= ms,
        ms - r < interval_ms,
        r % interval_ms == 0,
{
    let q = ms / interval_ms;
    proof {
        assert(q * interval_ms <= ms) by (nonlinear_arith)
            requires
                q == ms / interval_ms,
                interval_ms > 0,
        ;
        assert(ms - q * interval_ms < interval_ms) by (nonlinear_arith)
            requires
                q == ms / interval_ms,
                interval_ms > 0,
        ;
        assert((q * interval_ms) % (interval_ms as int) == 0) by (nonlinear_arith)
            requires
                interval_ms > 0,
        ;
    }
    q * interval_ms
}

/// The current time in unix milliseconds, rounded down to a multiple of
/// `interval_ms`, so that every history key lands on an interval boundary.
pub fn rounded_timestamp_ms(interval_ms: u64) -> (r: u64)
    requires
        interval_ms > 0,
    ensures
        r % interval_ms == 0,
{
    let now = timestamp_millis();
    let ms: u64 = if now < 0 {
        0
    } else {
        now as u64
    };
    round_down(ms, interval_ms)
}

/// What the HTTP API's gRPC hook does with a message received from
/// another node.
#[derive(Debug, Clone, Copy, PartialEq, Eq, Structural)]
pub enum GrpcRoute {
    /// Meant for another plugin: pass it on untouched.
    Pass,
    /// A request for this plugin: decode it, serve it and reply; no other
    /// handler sees it.
    Serve,
    /// A message of this plugin's type that carries no data: log it and
    /// pass it on.
    Unsupported,
}

/// Routes a gRPC message of type `msg_type` for a plugin registered as
/// `own_type`; `is_data` says whether it carries a request.
pub fn grpc_route(own_type: u64, msg_type: u64, is_data: bool) -> (r: GrpcRoute)
    ensures
        r == (if own_type != msg_type {
            GrpcRoute::Pass
        } else if is_data {
            GrpcRoute::Serve
        } else {
            GrpcRoute::Unsupported
        }),
{
    if own_type != msg_type {
        GrpcRoute::Pass
    } else if is_data {
        GrpcRoute::Serve
    } else {
        GrpcRoute::Unsupported
    }
}

/// Whether the hook chain goes on after a route: only a served request
/// stops it.
pub fn continues_after(r: GrpcRoute) -> (c: bool)
    ensures
        c == (r != GrpcRoute::Serve),
{
    match r {
        GrpcRoute::Serve => false,
        _ => true,
    }
}

/// The most rows a search returns when the query asks none or too many.
pub fn normalize_limit(limit: usize, max_row_limit: usize) -> (r: usize)
    ensures
        r == if limit == 0 || limit > max_row_limit {
            max_row_limit
        } else {
            limit
        },
{
    if limit == 0 || limit > max_row_limit {
        max_row_limit
    } else {
        limit
    }
}

/// A search for offline clients: the query with `connected` forced to
/// false and its limit normalized.
pub fn offline_query(q: ClientSearchParams, max_row_limit: usize) -> (r: ClientSearchParams)
    ensures
        r == (ClientSearchParams {
            connected: Some(false),
            _limit: if q._limit == 0 || q._limit > max_row_limit {
                max_row_limit
            } else {
                q._limit
            },
            ..q
        }),
{
    let limit = normalize_limit(q._limit, max_row_limit);
    ClientSearchParams { connected: Some(false), _limit: limit, ..q }
}

/// Whether a cluster search asks the next node, and with what limit, when
/// `collected` results are in hand and the query's limit is `limit`: it
/// asks while fewer than the limit are in hand, lowering the limit by what
/// is in hand.
pub fn next_search_limit(collected: usize, limit: usize) -> (r: Option<usize>)
    ensures
        r == if collected < limit {
            Some((limit - collected) as usize)
        } else {
            None
        },
{
    if collected < limit {
        Some(limit - collected)
    } else {
        None
    }
}

/// Whether `c` has the Unicode `White_Space` property, which is what
/// `char::is_whitespace` (and so `str::trim`) tests.
pub open spec fn is_white_space(c: char) -> bool {
    let u = c as u32;
    ||| 0x09 <= u <= 0x0D
    ||| u == 0x20
    ||| u == 0x85
    ||| u == 0xA0
    ||| u == 0x1680
    ||| 0x2000 <= u <= 0x200A
    ||| u == 0x2028
    ||| u == 0x2029
    ||| u == 0x202F
    ||| u == 0x205F
    ||| u == 0x3000
}

/// `s` without its leading whitespace.
pub open spec fn trim_start(s: Seq<char>) -> Seq<char>
    decreases s.len(),
{
    if s.len() > 0 && is_white_space(s[0]) {
        trim_start(s.drop_first())
    } else {
        s
    }
}

/// `s` without its trailing whitespace.
pub open spec fn trim_end(s: Seq<char>) -> Seq<char>
    decreases s.len(),
{
    if s.len() > 0 && is_white_space(s.last()) {
        trim_end(s.drop_last())
    } else {
        s
    }
}

/// What `str::trim` gives for `s`: `s` without its leading and trailing
/// whitespace.
pub open spec fn trimmed(s: Seq<char>) -> Seq<char> {
    trim_end(trim_start(s))
}

fn white_space(c: char) -> (r: bool)
    ensures
        r == is_white_space(c),
{
    let u = c as u32;
    (0x09 <= u && u <= 0x0D) || u == 0x20 || u == 0x85 || u == 0xA0 || u == 0x1680 || (0x2000 <= u && u
        <= 0x200A) || u == 0x2028 || u == 0x2029 || u == 0x202F || u == 0x205F || u == 0x3000
}

proof fn lemma_trim_start_skip(s: Seq<char>, k: int)
    requires
        0 <= k <= s.len(),
        forall|j: int| 0 <= j < k ==> is_white_space(#[trigger] s[j]),
    ensures
        trim_start(s) == trim_start(s.skip(k)),
    decreases k,
{
    if k > 0 {
        assert(s.drop_first().skip(k - 1) =~= s.skip(k));
        assert forall|j: int| 0 <= j < k - 1 implies is_white_space(#[trigger] s.drop_first()[j]) by {
            assert(s.drop_first()[j] == s[j + 1]);
        }
        lemma_trim_start_skip(s.drop_first(), k - 1);
        assert(is_white_space(s[0]));
    } else {
        assert(s.skip(0) =~= s);
    }
}

proof fn lemma_trim_end_take(s: Seq<char>, k: int)
    requires
        0 <= k <= s.len(),
        forall|j: int| k <= j < s.len() ==> is_white_space(#[trigger] s[j]),
    ensures
        trim_end(s) == trim_end(s.take(k)),
    decreases s.len() - k,
{
    if k < s.len() {
        assert(s.drop_last().take(k) =~= s.take(k));
        assert forall|j: int| k <= j < s.drop_last().len() implies is_white_space(#[trigger] s.drop_last()[j]) by {
            assert(s.drop_last()[j] == s[j]);
        }
        lemma_trim_end_take(s.drop_last(), k);
        assert(is_white_space(s.last()));
    } else {
        assert(s.take(k) =~= s);
    }
}

/// `s` without its leading and trailing whitespace (what `str::trim` does).
pub fn trim_chars(s: &Vec<char>) -> (r: Vec<char>)
    ensures
        r@ == trimmed(s@),
{
    let n = s.len();
    let mut i: usize = 0;
    while i < n && white_space(s[i])
        invariant
            n == s@.len(),
            i <= n,
            forall|j: int| 0 <= j < i ==> is_white_space(#[trigger] s@[j]),
        decreases n - i,
    {
        i += 1;
    }
    let mut j: usize = n;
    while j > i && white_space(s[j - 1])
        invariant
            n == s@.len(),
            i <= j <= n,
            forall|k: int| j <= k < n ==> is_white_space(#[trigger] s@[k]),
        decreases j - i,
    {
        j -= 1;
    }
    let mut r: Vec<char> = Vec::new();
    let mut k: usize = i;
    while k < j
        invariant
            i <= k <= j <= n,
            n == s@.len(),
            r@ == s@.subrange(i as int, k as int),
        decreases j - k,
    {
        r.push(s[k]);
        k += 1;
        proof {
            assert(s@.subrange(i as int, k as int) =~= s@.subrange(i as int, k - 1).push(s@[k - 1]));
        }
    }
    proof {
        lemma_trim_start_skip(s@, i as int);
        let t = s@.skip(i as int);
        assert(trim_start(t) == t);
        assert forall|q: int| j - i <= q < t.len() implies is_white_space(#[trigger] t[q]) by {
            assert(t[q] == s@[q + i]);
        }
        lemma_trim_end_take(t, j - i);
        let u = t.take(j - i);
        assert(u =~= s@.subrange(i as int, j as int));
        if u.len() > 0 {
            assert(u.last() == s@[j - 1]);
        }
        assert(trim_end(u) == u);
    }
    r
}

/// What `BASE64_STANDARD.decode` gives for `input`: the decoded bytes, or
/// `None` when the input is not valid standard base64.
pub uninterp spec fn base64_decoded(input: Seq<char>) -> Option<Seq<u8>>;

/// `base64::Engine::decode` with the standard alphabet; the contract names
/// the result.
#[verifier::external_body]
fn base64_decode(input: &str) -> (r: Option<Vec<u8>>)
    ensures
        match r {
            Some(v) => base64_decoded(input@) == Some(v@),
            None => base64_decoded(input@) is None,
        },
{
    base64::prelude::BASE64_STANDARD.decode(input).ok()
}

/// The parameters of a publish request.
pub struct PublishParams {
    /// Comma-separated topics.
    pub topics: Option<String>,
    pub topic: Option<String>,
    pub clientid: String,
    pub payload: String,
    /// `plain` or `base64`, in any case.
    pub encoding: String,
    pub qos: u8,
    pub retain: bool,
    /// The message expiry interval asked for, in seconds.
    pub message_expiry_interval: Option<u32>,
}

/// Why a publish request was refused.
#[derive(Debug, Clone, Copy, PartialEq, Eq, Structural)]
pub enum PublishError {
    /// Neither `topics` nor `topic` names a topic.
    EmptyTopics,
    /// The QoS is not 0, 1 or 2.
    Qos,
    /// The encoding is neither `plain` nor `base64`.
    Encoding,
    /// The payload is not valid base64.
    Base64,
}

/// What a publish request comes to: the message to send on each topic.
pub struct PublishPlan {
    pub topics: Vec<String>,
    pub qos: u8,
    pub payload: Vec<u8>,
    pub retain: bool,
    pub clientid: String,
    pub expiry_interval_ms: u64,
}

/// `s` split at every occurrence of `sep`.
pub open spec fn split_on(s: Seq<char>, sep: char) -> Seq<Seq<char>>
    decreases s.len(),
{
    if s.len() == 0 {
        seq![Seq::<char>::empty()]
    } else {
        let rest = split_on(s.drop_last(), sep);
        if s.last() == sep {
            rest.push(Seq::<char>::empty())
        } else {
            rest.update(rest.len() - 1, rest.last().push(s.last()))
        }
    }
}

proof fn lemma_split_on_nonempty(s: Seq<char>, sep: char)
    ensures
        split_on(s, sep).len() >= 1,
    decreases s.len(),
{
    if s.len() > 0 {
        lemma_split_on_nonempty(s.drop_last(), sep);
    }
}

/// The topics of a publish request: each comma-separated one, trimmed,
/// then the single topic, if given.
pub open spec fn publish_topics(topics: Option<Seq<char>>, topic: Option<Seq<char>>) -> Seq<Seq<char>> {
    let listed = match topics {
        Some(t) => Seq::new(split_on(t, ',').len(), |i: int| trimmed(split_on(t, ',')[i])),
        None => Seq::empty(),
    };
    match topic {
        Some(t) => listed.push(t),
        None => listed,
    }
}

pub open spec fn opt_string_view(o: Option<String>) -> Option<Seq<char>> {
    match o {
        Some(s) => Some(s@),
        None => None,
    }
}

/// The payload a request carries: its text as bytes for `plain`, its
/// decoding for `base64`.
pub open spec fn publish_payload(encoding: Seq<char>, payload: Seq<char>) -> Result<Seq<u8>, PublishError> {
    if crate::rewrite::eq_ignore_case(encoding, seq!['p', 'l', 'a', 'i', 'n']) {
        Ok(vstd::utf8::encode_utf8(payload))
    } else if crate::rewrite::eq_ignore_case(encoding, seq!['b', 'a', 's', 'e', '6', '4']) {
        match base64_decoded(payload) {
            Some(b) => Ok(b),
            None => Err(PublishError::Base64),
        }
    } else {
        Err(PublishError::Encoding)
    }
}

fn split_commas(s: &Vec<char>) -> (r: Vec<Vec<char>>)
    ensures
        crate::topic::levels_view(r@) == split_on(s@, ','),
{
    let mut parts: Vec<Vec<char>> = Vec::new();
    let mut cur: Vec<char> = Vec::new();
    let mut i: usize = 0;
    proof {
        assert(s@.take(0) =~= Seq::<char>::empty());
        assert(crate::topic::levels_view(parts@).push(cur@) =~= split_on(s@.take(0), ','));
    }
    while i < s.len()
        invariant
            i <= s@.len(),
            crate::topic::levels_view(parts@).push(cur@) == split_on(s@.take(i as int), ','),
        decreases s@.len() - i,
    {
        let c = s[i];
        let ghost prev = s@.take(i as int);
        proof {
            assert(s@.take(i + 1).drop_last() =~= prev);
            assert(s@.take(i + 1).last() == c);
            lemma_split_on_nonempty(prev, ',');
        }
        if c == ',' {
            let old_cur = cur;
            parts.push(old_cur);
            cur = Vec::new();
            proof {
                assert(crate::topic::levels_view(parts@).push(cur@) =~= split_on(prev, ',').push(Seq::<char>::empty()));
            }
        } else {
            cur.push(c);
            proof {
                let sp = split_on(prev, ',');
                assert(crate::topic::levels_view(parts@).push(cur@) =~= sp.update(sp.len() - 1, sp.last().push(c)));
            }
        }
        i += 1;
    }
    parts.push(cur);
    proof {
        assert(s@.take(s@.len() as int) =~= s@);
        assert(crate::topic::levels_view(parts@) =~= split_on(s@, ','));
    }
    parts
}

/// Checks a publish request and works out what to send: the topics (see
/// [`publish_topics`]), which must not be empty; the QoS, which must be 0,
/// 1 or 2; the payload (see [`publish_payload`]); and the expiry interval,
/// the one asked for or else `default_expiry_ms`.
pub fn publish_plan(params: &PublishParams, default_expiry_ms: u64) -> (r: Result<PublishPlan, PublishError>)
    ensures
        ({
            let ts = publish_topics(opt_string_view(params.topics), opt_string_view(params.topic));
            if ts.len() == 0 {
                r matches Err(e) && e == PublishError::EmptyTopics
            } else if params.qos > 2 {
                r matches Err(e) && e == PublishError::Qos
            } else {
                match publish_payload(params.encoding@, params.payload@) {
                    Err(e) => r matches Err(e2) && e2 == e,
                    Ok(b) => r matches Ok(p) && {
                        &&& crate::session_store::strings_view(p.topics@) == ts
                        &&& p.qos == params.qos
                        &&& p.payload@ == b
                        &&& p.retain == params.retain
                        &&& p.clientid@ == params.clientid@
                        &&& p.expiry_interval_ms == match params.message_expiry_interval {
                            Some(s) => s as int * 1000,
                            None => default_expiry_ms as int,
                        }
                    },
                }
            }
        }),
{
    let mut topics: Vec<String> = Vec::new();
    let ghost tv = opt_string_view(params.topics);
    match &params.topics {
        Some(t) => {
            let cs = str_chars(t.as_str());
            let parts = split_commas(&cs);
            let ghost sp = split_on(t@, ',');
            let mut i: usize = 0;
            while i < parts.len()
                invariant
                    i <= parts@.len(),
                    crate::topic::levels_view(parts@) == sp,
                    sp == split_on(t@, ','),
                    crate::session_store::strings_view(topics@) == Seq::new(
                        sp.len(),
                        |k: int| trimmed(sp[k]),
                    ).take(i as int),
                decreases parts@.len() - i,
            {
                let tr = string_from_chars(&trim_chars(&parts[i]));
                let ghost before = crate::session_store::strings_view(topics@);
                topics.push(tr);
                proof {
                    assert(sp[i as int] == parts@[i as int]@);
                    assert(crate::session_store::strings_view(topics@) =~= before.push(trimmed(sp[i as int])));
                    assert(Seq::new(sp.len(), |k: int| trimmed(sp[k])).take(i + 1) =~= Seq::new(
                        sp.len(),
                        |k: int| trimmed(sp[k]),
                    ).take(i as int).push(trimmed(sp[i as int])));
                }
                i += 1;
            }
            proof {
                assert(Seq::new(sp.len(), |k: int| trimmed(sp[k])).take(parts@.len() as int) =~= Seq::new(
                    sp.len(),
                    |k: int| trimmed(sp[k]),
                ));
            }
        },
        None => {
            proof {
                assert(crate::session_store::strings_view(topics@) =~= Seq::<Seq<char>>::empty());
            }
        },
    }
    match &params.topic {
        Some(t) => {
            let ghost before = crate::session_store::strings_view(topics@);
            topics.push(crate::message::copy_string(t));
            proof {
                assert(crate::session_store::strings_view(topics@) =~= before.push(t@));
            }
        },
        None => {},
    }
    let decoded = if topics.len() > 0 && params.qos <= 2 && payload_encoding(params.encoding.as_str())
        == PayloadEncoding::Base64 {
        base64_decode(params.payload.as_str())
    } else {
        None
    };
    plan_from_parts(params, topics, decoded, default_expiry_ms)
}

/// How a request's payload is encoded.
#[derive(PartialEq, Eq, Structural, Clone, Copy, Debug)]
pub enum PayloadEncoding {
    /// `plain`: the payload is its text.
    Plain,
    /// `base64`: the payload is the decoding of its text.
    Base64,
    /// Anything else, refused.
    Unknown,
}

/// The encoding a request names, in any letter case.
pub open spec fn encoding_of(encoding: Seq<char>) -> PayloadEncoding {
    if crate::rewrite::eq_ignore_case(encoding, seq!['p', 'l', 'a', 'i', 'n']) {
        PayloadEncoding::Plain
    } else if crate::rewrite::eq_ignore_case(encoding, seq!['b', 'a', 's', 'e', '6', '4']) {
        PayloadEncoding::Base64
    } else {
        PayloadEncoding::Unknown
    }
}

/// Reads a request's encoding (see [`encoding_of`]).
pub fn payload_encoding(encoding: &str) -> (e: PayloadEncoding)
    ensures
        e == encoding_of(encoding@),
{
    let enc = str_chars(encoding);
    let plain = str_chars("plain");
    let b64 = str_chars("base64");
    proof {
        reveal_strlit("plain");
        reveal_strlit("base64");
        assert(plain@ =~= seq!['p', 'l', 'a', 'i', 'n']);
        assert(b64@ =~= seq!['b', 'a', 's', 'e', '6', '4']);
    }
    if crate::rewrite::eq_ignore_case_chars(&enc, &plain) {
        PayloadEncoding::Plain
    } else if crate::rewrite::eq_ignore_case_chars(&enc, &b64) {
        PayloadEncoding::Base64
    } else {
        PayloadEncoding::Unknown
    }
}

/// The plan of a publish request once its topics are read (`topics`,
/// trimmed) and, for a base64 payload, decoded (`decoded`, `None` when the
/// text is not valid base64; not looked at otherwise): the request is
/// refused for no topics, then for a QoS over 2, then for its payload.
pub fn plan_from_parts(
    params: &PublishParams,
    topics: Vec<String>,
    decoded: Option<Vec<u8>>,
    default_expiry_ms: u64,
) -> (r: Result<PublishPlan, PublishError>)
    ensures
        if topics@.len() == 0 {
            r matches Err(e) && e == PublishError::EmptyTopics
        } else if params.qos > 2 {
            r matches Err(e) && e == PublishError::Qos
        } else {
            match encoding_of(params.encoding@) {
                PayloadEncoding::Unknown => r matches Err(e) && e == PublishError::Encoding,
                PayloadEncoding::Base64 if decoded is None => r matches Err(e) && e == PublishError::Base64,
                enc => r matches Ok(p) && {
                    &&& p.topics@ == topics@
                    &&& p.qos == params.qos
                    &&& p.payload@ == (if enc == PayloadEncoding::Plain {
                        vstd::utf8::encode_utf8(params.payload@)
                    } else {
                        decoded->0@
                    })
                    &&& p.retain == params.retain
                    &&& p.clientid@ == params.clientid@
                    &&& p.expiry_interval_ms == match params.message_expiry_interval {
                        Some(s) => s as int * 1000,
                        None => default_expiry_ms as int,
                    }
                },
            }
        },
{
    if topics.len() == 0 {
        return Err(PublishError::EmptyTopics);
    }
    if params.qos > 2 {
        return Err(PublishError::Qos);
    }
    let payload = match payload_encoding(params.encoding.as_str()) {
        PayloadEncoding::Plain => {
            let b = params.payload.as_str().as_bytes();
            vstd::slice::slice_to_vec(b)
        },
        PayloadEncoding::Base64 => match decoded {
            Some(v) => v,
            None => return Err(PublishError::Base64),
        },
        PayloadEncoding::Unknown => return Err(PublishError::Encoding),
    };
    let expiry_interval_ms: u64 = match params.message_expiry_interval {
        Some(s) => s as u64 * 1000,
        None => default_expiry_ms,
    };
    Ok(PublishPlan {
        topics,
        qos: params.qos,
        payload,
        retain: params.retain,
        clientid: crate::message::copy_string(&params.clientid),
        expiry_interval_ms,
    })
}

/// Where a request about one node is served.
#[derive(PartialEq, Eq, Structural, Clone, Copy, Debug)]
pub enum NodeTarget {
    /// This node answers it itself.
    Local,
    /// It is sent to that node over gRPC.
    Remote,
    /// No such node is known: the answer is 404.
    NotFound,
}

/// Where a request about node `id` goes, on node `this_id` that has gRPC
/// clients for the nodes `peers`.
pub fn node_target(id: u64, this_id: u64, peers: &Vec<u64>) -> (t: NodeTarget)
    ensures
        t == (if id == this_id {
            NodeTarget::Local
        } else if peers@.contains(id) {
            NodeTarget::Remote
        } else {
            NodeTarget::NotFound
        }),
{
    if id == this_id {
        return NodeTarget::Local;
    }
    let mut i: usize = 0;
    while i < peers.len()
        invariant
            i <= peers@.len(),
            id != this_id,
            forall|j: int| 0 <= j < i ==> peers@[j] != id,
        decreases peers@.len() - i,
    {
        if peers[i] == id {
            assert(peers@[i as int] == id);
            return NodeTarget::Remote;
        }
        i += 1;
    }
    NodeTarget::NotFound
}

/// What a (un)subscribe request for a client comes to.
#[derive(PartialEq, Eq, Structural, Clone, Copy, Debug)]
pub enum SessionRoute {
    /// The client has no session: 404, "session does not exist".
    NoSession,
    /// The session is offline: 503, "the session is offline".
    Offline,
    /// The session is online on this node: served here.
    Local,
    /// The session is online on node `0`: forwarded there.
    Remote(u64),
}

/// Routes a (un)subscribe request by the client's session status, given
/// as whether it is online and its node, on node `this_id`.
pub fn session_route(status: Option<(bool, u64)>, this_id: u64) -> (r: SessionRoute)
    ensures
        r == (match status {
            None => SessionRoute::NoSession,
            Some((online, node)) => if !online {
                SessionRoute::Offline
            } else if node == this_id {
                SessionRoute::Local
            } else {
                SessionRoute::Remote(node)
            },
        }),
{
    match status {
        None => SessionRoute::NoSession,
        Some((online, node)) => {
            if !online {
                SessionRoute::Offline
            } else if node == this_id {
                SessionRoute::Local
            } else {
                SessionRoute::Remote(node)
            }
        },
    }
}

/// The answer for one topic filter of a subscribe request.
#[derive(PartialEq, Eq, Debug)]
pub enum SubscribeReply {
    /// Whether the subscription was made.
    Done(bool),
    /// Why it was refused.
    Refused(String),
}

/// The answer for a topic filter that another node subscribed: its result,
/// unless it failed with a reason, which is then given instead.
pub fn remote_subscribe_reply(done: bool, reason: Option<String>) -> (r: SubscribeReply)
    ensures
        match reason {
            Some(why) => if done {
                r == SubscribeReply::Done(true)
            } else {
                r matches SubscribeReply::Refused(s) && s@ == why@
            },
            None => r == SubscribeReply::Done(done),
        },
{
    match reason {
        None => SubscribeReply::Done(done),
        Some(why) => {
            if done {
                SubscribeReply::Done(true)
            } else {
                SubscribeReply::Refused(why)
            }
        },
    }
}

/// The times a client search reports of a session, in unix seconds.
pub struct ResultTimes {
    pub connected_at: i64,
    pub disconnected_at: i64,
    pub created_at: i64,
    /// Seconds the session has left: its whole expiry interval while
    /// connected, less the time since it disconnected otherwise.
    pub expiry_interval: i64,
}

/// A millisecond timestamp in seconds (rounded toward zero), 0 when unknown.
pub open spec fn secs_of(ms: Option<i64>) -> int {
    match ms {
        Some(t) => crate::storage::div_trunc(t as int, 1000),
        None => 0,
    }
}

fn secs_of_ms(ms: Option<i64>) -> (r: i64)
    ensures
        r == secs_of(ms),
{
    match ms {
        Some(t) => t / 1000,
        None => 0,
    }
}

/// The times of a search result for a session (`connected` or not) with
/// the given millisecond timestamps and expiry interval, at `now_secs`.
pub fn result_times(
    connected: bool,
    connected_at_ms: Option<i64>,
    disconnected_at_ms: Option<i64>,
    created_at_ms: Option<i64>,
    expiry_interval_secs: i64,
    now_secs: i64,
) -> (r: ResultTimes)
    requires
        !connected ==> i64::MIN <= now_secs - secs_of(disconnected_at_ms) <= i64::MAX,
        !connected ==> i64::MIN <= expiry_interval_secs - (now_secs - secs_of(disconnected_at_ms)) <= i64::MAX,
    ensures
        r.connected_at == secs_of(connected_at_ms),
        r.disconnected_at == secs_of(disconnected_at_ms),
        r.created_at == secs_of(created_at_ms),
        r.expiry_interval == if connected {
            expiry_interval_secs as int
        } else {
            expiry_interval_secs - (now_secs - secs_of(disconnected_at_ms))
        },
{
    let connected_at = secs_of_ms(connected_at_ms);
    let disconnected_at = secs_of_ms(disconnected_at_ms);
    let created_at = secs_of_ms(created_at_ms);
    let expiry_interval = if connected {
        expiry_interval_secs
    } else {
        expiry_interval_secs - (now_secs - disconnected_at)
    };
    ResultTimes { connected_at, disconnected_at, created_at, expiry_interval }
}

/// Limits how often the Prometheus gauges are refreshed: at most once per
/// interval.
pub struct RefreshThrottle {
    /// When the gauges were last refreshed, in unix seconds (0: never).
    pub last_refresh_secs: i64,
}

impl RefreshThrottle {
    /// A throttle that has never refreshed.
    pub fn new() -> (t: RefreshThrottle)
        ensures
            t.last_refresh_secs == 0,
    {
        RefreshThrottle { last_refresh_secs: 0 }
    }

    /// Whether to refresh at `now_secs`: only once `interval_secs` have
    /// passed since the last refresh, which is then moved to now.
    pub fn refresh_enable(&mut self, now_secs: i64, interval_secs: i64) -> (r: bool)
        requires
            i64::MIN <= old(self).last_refresh_secs + interval_secs <= i64::MAX,
        ensures
            r == (now_secs > old(self).last_refresh_secs + interval_secs),
            final(self).last_refresh_secs == if r { now_secs } else { old(self).last_refresh_secs },
    {
        if now_secs > self.last_refresh_secs + interval_secs {
            self.last_refresh_secs = now_secs;
            true
        } else {
            false
        }
    }
}

/// Once the gauges are refreshed at `now1`, a request at `now2` no later
/// than one interval after is not refreshed again.
pub proof fn law_refresh_once_per_interval(last: i64, interval: i64, now1: i64, now2: i64)
    requires
        now1 > last + interval,
        now2 <= now1 + interval,
    ensures
        !(now2 > now1 + interval),
{
}

/// The `authorization` header a request must carry for token `token`:
/// `Bearer `, then the token.
pub open spec fn bearer_header(token: Seq<char>) -> Seq<u8> {
    seq![66u8, 101u8, 97u8, 114u8, 101u8, 114u8, 32u8] + vstd::utf8::encode_utf8(token)
}

/// Whether a request whose `authorization` header holds `header` (if any)
/// may use an API protected by `token`; otherwise it is answered 401.
pub fn bearer_ok(header: Option<&[u8]>, token: &str) -> (r: bool)
    ensures
        r == match header {
            Some(h) => h@ == bearer_header(token@),
            None => false,
        },
{
    let h = match header {
        Some(h) => h,
        None => return false,
    };
    let mut expected: Vec<u8> = Vec::new();
    expected.push(66u8);
    expected.push(101u8);
    expected.push(97u8);
    expected.push(114u8);
    expected.push(101u8);
    expected.push(114u8);
    expected.push(32u8);
    let t = token.as_bytes();
    let mut i: usize = 0;
    while i < t.len()
        invariant
            i <= t@.len(),
            t@ == vstd::utf8::encode_utf8(token@),
            expected@ == seq![66u8, 101u8, 97u8, 114u8, 101u8, 114u8, 32u8] + t@.take(i as int),
        decreases t@.len() - i,
    {
        expected.push(t[i]);
        i += 1;
        proof {
            assert(t@.take(i as int) =~= t@.take(i - 1).push(t@[i - 1]));
        }
    }
    proof {
        assert(t@.take(t@.len() as int) =~= t@);
    }
    crate::session_store::bytes_eq(h, expected.as_slice())
}

/// The HTTP API's settings that a reload compares.
pub struct ApiSettings {
    pub workers: usize,
    pub max_row_limit: usize,
    /// The listening address, as text.
    pub http_laddr: String,
    pub metrics_sample_interval_ms: u64,
    pub http_request_log: bool,
}

impl ApiSettings {
    /// Whether a reload to `other` changes anything the API uses.
    pub fn changed(&self, other: &ApiSettings) -> (r: bool)
        ensures
            r == (self.workers != other.workers || self.max_row_limit != other.max_row_limit
                || self.http_laddr@ != other.http_laddr@ || self.metrics_sample_interval_ms
                != other.metrics_sample_interval_ms || self.http_request_log != other.http_request_log),
    {
        self.workers != other.workers || self.max_row_limit != other.max_row_limit || !crate::text::str_eq(
            self.http_laddr.as_str(),
            other.http_laddr.as_str(),
        ) || self.metrics_sample_interval_ms != other.metrics_sample_interval_ms || self.http_request_log
            != other.http_request_log
    }

    /// Whether a reload to `other` needs the server restarted: a new worker
    /// count or listening address.
    pub fn restart_enable(&self, other: &ApiSettings) -> (r: bool)
        ensures
            r == (self.workers != other.workers || self.http_laddr@ != other.http_laddr@),
    {
        self.workers != other.workers || !crate::text::str_eq(self.http_laddr.as_str(), other.http_laddr.as_str())
    }
}

/// A search whose only criterion is `_like_username = s`.
pub open spec fn only_like_username(q: ClientSearchParams, s: Seq<char>) -> bool {
    &&& q._like_username matches Some(x) && x@ == s
    &&& q._like_clientid is None
    &&& no_other_criteria(q)
}

/// A search whose only criterion is `_like_clientid = s`.
pub open spec fn only_like_clientid(q: ClientSearchParams, s: Seq<char>) -> bool {
    &&& q._like_clientid matches Some(x) && x@ == s
    &&& q._like_username is None
    &&& no_other_criteria(q)
}

/// No criterion is set besides the fuzzy ones.
pub open spec fn no_other_criteria(q: ClientSearchParams) -> bool {
    &&& q.clientid is None
    &&& q.username is None
    &&& q.ip_address is None
    &&& q.connected is None
    &&& q.session_present is None
    &&& q.clean_start is None
    &&& q.proto_ver is None
    &&& q._gte_created_at is None
    &&& q._lte_created_at is None
    &&& q._gte_connected_at is None
    &&& q._lte_connected_at is None
    &&& q._gte_mqueue_len is None
    &&& q._lte_mqueue_len is None
}

/// The fuzzy username criterion looks at the username alone: a search for
/// sessions whose username contains `s` keeps exactly the sessions whose
/// username holds `s` as a contiguous run, whatever their client id; the
/// fuzzy client-id criterion likewise looks at the client id alone.
pub proof fn law_like_criteria(q: ClientSearchParams, s: Seq<char>, c: ClientSnapshot)
    ensures
        only_like_username(q, s) ==> (matches_search(q, c) <==> exists|i: int|
            0 <= i <= c.username@.len() - s.len() && #[trigger] c.username@.subrange(i, i + s.len()) == s),
        only_like_clientid(q, s) ==> (matches_search(q, c) <==> exists|i: int|
            0 <= i <= c.client_id@.len() - s.len() && #[trigger] c.client_id@.subrange(i, i + s.len()) == s),
{
}

} // verus!
