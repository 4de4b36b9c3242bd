//! Choosing the subscriber of a shared subscription (`$share/{group}/{filter}`).
//!
//! Every strategy serves an online subscriber when one exists. When none is
//! online, the message goes to the first subscriber on the publisher's node,
//! or else to the first subscriber (marked offline). The strategies differ in
//! which online subscriber they pick: at random, round robin over a global or
//! a per-group counter, the one bound to the publisher (sticky), one on the
//! publisher's node first (local), or by a hash of the publisher's client id
//! or of the topic.
//!
//! Whether a subscriber is online is decided by the broker's router; the
//! choice functions receive that status with each subscriber.
use vstd::prelude::*;
use crate::text::{owned, str_chars};
use crate::message::copy_string;
use std::hash::{Hash, Hasher};

verus! {

/// The strategy a shared subscription chooses its subscriber with.
#[derive(Debug, Clone, Copy, PartialEq, Eq, Structural)]
pub enum Strategy {
    Random,
    RoundRobin,
    RoundRobinPerGroup,
    Sticky,
    Local,
    HashClientId,
    HashTopic,
}

/// A subscriber of a share group.
#[derive(Debug)]
pub struct Subscriber {
    pub node_id: u64,
    pub client_id: String,
    pub is_online: bool,
}

pub struct SubscriberView {
    pub node_id: u64,
    pub client_id: Seq<char>,
    pub is_online: bool,
}

impl View for Subscriber {
    type V = SubscriberView;

    open spec fn view(&self) -> SubscriberView {
        SubscriberView { node_id: self.node_id, client_id: self.client_id@, is_online: self.is_online }
    }
}

pub open spec fn subs_view(v: Seq<Subscriber>) -> Seq<SubscriberView> {
    Seq::new(v.len(), |i: int| v[i]@)
}

/// A choice: the subscriber's index and whether it is online.
pub type Choice = Option<(usize, bool)>;

/// Some subscriber is online.
pub open spec fn any_online(ncs: Seq<SubscriberView>) -> bool {
    exists|i: int| 0 <= i < ncs.len() && (#[trigger] ncs[i]).is_online
}

/// Some subscriber is on `node`.
pub open spec fn any_on_node(ncs: Seq<SubscriberView>, node: u64) -> bool {
    exists|i: int| 0 <= i < ncs.len() && (#[trigger] ncs[i]).node_id == node
}

/// `i` is the first subscriber on `node`.
pub open spec fn first_on_node(ncs: Seq<SubscriberView>, node: u64, i: int) -> bool {
    0 <= i < ncs.len() && ncs[i].node_id == node && forall|j: int| 0 <= j < i ==> (#[trigger] ncs[j]).node_id != node
}

/// `i` is the first online subscriber.
pub open spec fn first_online(ncs: Seq<SubscriberView>, i: int) -> bool {
    0 <= i < ncs.len() && ncs[i].is_online && forall|j: int| 0 <= j < i ==> !(#[trigger] ncs[j]).is_online
}

/// `i` is the first online subscriber on `node`.
pub open spec fn first_online_on_node(ncs: Seq<SubscriberView>, node: u64, i: int) -> bool {
    0 <= i < ncs.len() && ncs[i].is_online && ncs[i].node_id == node && forall|j: int|
        0 <= j < i ==> !((#[trigger] ncs[j]).is_online && ncs[j].node_id == node)
}

/// The choice when nobody is online: the first subscriber on the
/// publisher's node, else the first subscriber, marked offline.
pub open spec fn fallback_choice(ncs: Seq<SubscriberView>, node: u64, r: Choice) -> bool {
    if any_on_node(ncs, node) {
        r matches Some((i, online)) && !online && first_on_node(ncs, node, i as int)
    } else if ncs.len() > 0 {
        r == Some((0usize, false))
    } else {
        r is None
    }
}

/// Index `start + o` taken round the list.
pub open spec fn ring(len: int, start: int, o: int) -> int {
    (start + o) % len
}

/// The round-robin choice from `start`: the first online subscriber at or
/// after `start` going round the list, else the fallback.
pub open spec fn ring_choice(ncs: Seq<SubscriberView>, start: int, node: u64, r: Choice) -> bool {
    if any_online(ncs) {
        exists|o: int|
            0 <= o < ncs.len() && r == Some((ring(ncs.len() as int, start, o) as usize, true)) && ncs[ring(
                ncs.len() as int,
                start,
                o,
            )].is_online && forall|p: int| 0 <= p < o ==> !(#[trigger] ncs[ring(ncs.len() as int, start, p)]).is_online
    } else {
        fallback_choice(ncs, node, r)
    }
}

/// Any online subscriber, else the fallback (what a random choice may give).
pub open spec fn some_online_choice(ncs: Seq<SubscriberView>, node: u64, r: Choice) -> bool {
    if any_online(ncs) {
        r matches Some((i, online)) && online && (i as int) < ncs.len() && ncs[i as int].is_online
    } else {
        fallback_choice(ncs, node, r)
    }
}

/// The local choice: an online subscriber on the publisher's node first,
/// then any online one, then one on the publisher's node, then the first.
pub open spec fn local_choice(ncs: Seq<SubscriberView>, node: u64, r: Choice) -> bool {
    if exists|i: int| 0 <= i < ncs.len() && (#[trigger] ncs[i]).is_online && ncs[i].node_id == node {
        r matches Some((i, online)) && online && first_online_on_node(ncs, node, i as int)
    } else if any_online(ncs) {
        r matches Some((i, online)) && online && first_online(ncs, i as int)
    } else {
        fallback_choice(ncs, node, r)
    }
}

/// The publisher's node first, else the first subscriber (no one online).
pub fn find_local_fallback(pub_node: u64, ncs: &Vec<Subscriber>) -> (r: Choice)
    ensures
        fallback_choice(subs_view(ncs@), pub_node, r),
{
    let ghost g = subs_view(ncs@);
    let mut i: usize = 0;
    while i < ncs.len()
        invariant
            g == subs_view(ncs@),
            i <= ncs@.len(),
            forall|j: int| 0 <= j < i ==> (#[trigger] g[j]).node_id != pub_node,
        decreases ncs@.len() - i,
    {
        if ncs[i].node_id == pub_node {
            proof {
                assert(g[i as int].node_id == pub_node);
            }
            return Some((i, false));
        }
        i += 1;
    }
    if ncs.len() > 0 {
        Some((0, false))
    } else {
        None
    }
}

/// A uniformly random number (`rand::random::<u64>()`).
#[verifier::external_body]
fn random_u64() -> u64 {
    rand::random::<u64>()
}

/// Random choice: subscribers are drawn at random without repetition until
/// an online one is found; with none online, the fallback.
pub fn choice_random(pub_node: u64, ncs: &Vec<Subscriber>) -> (r: Choice)
    ensures
        some_online_choice(subs_view(ncs@), pub_node, r),
{
    let ghost g = subs_view(ncs@);
    let mut tmp: Vec<usize> = Vec::new();
    let mut k: usize = 0;
    while k < ncs.len()
        invariant
            k <= ncs@.len(),
            tmp@.len() == k,
            forall|q: int| 0 <= q < k ==> tmp@[q] == q,
        decreases ncs@.len() - k,
    {
        tmp.push(k);
        k += 1;
    }
    proof {
        assert forall|i: int| 0 <= i < ncs@.len() && (#[trigger] g[i]).is_online implies tmp@.contains(i as usize) by {
            assert(tmp@[i] == i as usize);
        }
    }
    let n = ncs.len();
    while tmp.len() > 0
        invariant
            g == subs_view(ncs@),
            n == ncs@.len(),
            forall|q: int| 0 <= q < tmp@.len() ==> (#[trigger] tmp@[q]) < ncs@.len(),
            forall|i: int| 0 <= i < ncs@.len() && (#[trigger] g[i]).is_online ==> tmp@.contains(i as usize),
        decreases tmp@.len(),
    {
        let r_idx: usize = if tmp.len() == 1 { 0 } else { (random_u64() % (tmp.len() as u64)) as usize };
        let ghost before = tmp@;
        let idx = tmp.remove(r_idx);
        if ncs[idx].is_online {
            proof {
                assert(g[idx as int].is_online);
            }
            return Some((idx, true));
        }
        proof {
            assert(tmp@ == before.remove(r_idx as int));
            assert forall|i: int| 0 <= i < ncs@.len() && (#[trigger] g[i]).is_online implies tmp@.contains(i as usize) by {
                assert(before.contains(i as usize));
                let q = choose|q: int| 0 <= q < before.len() && before[q] == i as usize;
                if q < r_idx {
                    assert(tmp@[q] == before[q]);
                    assert(tmp@[q] == i as usize);
                } else if q > r_idx {
                    assert(tmp@[q - 1] == before[q]);
                    assert(tmp@[q - 1] == i as usize);
                } else {
                    assert(before[q] == idx);
                    assert(i == idx as int);
                    assert(!g[idx as int].is_online);
                }
            }
        }
    }
    proof {
        assert(!any_online(g));
    }
    find_local_fallback(pub_node, ncs)
}

/// The round-robin choice starting at `counter % len`.
pub fn choice_from_ring(counter: usize, pub_node: u64, ncs: &Vec<Subscriber>) -> (r: Choice)
    requires
        ncs@.len() > 0,
    ensures
        ring_choice(subs_view(ncs@), (counter as int) % (ncs@.len() as int), pub_node, r),
{
    let ghost g = subs_view(ncs@);
    let len = ncs.len();
    let start = counter % len;
    let mut offset: usize = 0;
    while offset < len
        invariant
            g == subs_view(ncs@),
            len == ncs@.len(),
            len > 0,
            start < len,
            start as int == (counter as int) % (len as int),
            offset <= len,
            forall|p: int| 0 <= p < offset ==> !(#[trigger] g[ring(len as int, start as int, p)]).is_online,
        decreases len - offset,
    {
        let idx = if offset < len - start { start + offset } else { offset - (len - start) };
        proof {
            assert(idx as int == ring(len as int, start as int, offset as int)) by (nonlinear_arith)
                requires
                    idx == (if offset < len - start { start + offset } else { offset - (len - start) }),
                    0 <= start < len,
                    0 <= offset < len,
            {
            }
        }
        if ncs[idx].is_online {
            proof {
                assert(g[idx as int].is_online);
                assert(any_online(g));
                let o = offset as int;
                assert(0 <= o < g.len() && Some((idx, true)) == Some((ring(len as int, start as int, o) as usize, true))
                    && g[ring(len as int, start as int, o)].is_online);
                assert((start as int) == (counter as int) % (ncs@.len() as int));
            }
            return Some((idx, true));
        }
        offset += 1;
    }
    proof {
        assert forall|i: int| 0 <= i < len implies !(#[trigger] g[i]).is_online by {
            let p = if i >= start { i - start } else { i + len - start };
            assert(0 <= p < len);
            assert(ring(len as int, start as int, p) == i) by (nonlinear_arith)
                requires
                    p == (if i >= start { i - start } else { i + len - start }),
                    0 <= i < len,
                    0 <= start < len,
            {
            }
        }
    }
    find_local_fallback(pub_node, ncs)
}

/// Round-robin choice with a global counter: the counter is read and
/// advanced by one (wrapping) per choice.
pub fn choice_round_robin(counter: &mut usize, pub_node: u64, ncs: &Vec<Subscriber>) -> (r: Choice)
    requires
        ncs@.len() > 0,
    ensures
        *final(counter) == old(counter).wrapping_add(1),
        ring_choice(subs_view(ncs@), (*old(counter) as int) % (ncs@.len() as int), pub_node, r),
{
    let c = *counter;
    *counter = c.wrapping_add(1);
    choice_from_ring(c, pub_node, ncs)
}

/// Local choice: prefers online subscribers on the publisher's node.
pub fn choice_local(pub_node: u64, ncs: &Vec<Subscriber>) -> (r: Choice)
    ensures
        local_choice(subs_view(ncs@), pub_node, r),
{
    let ghost g = subs_view(ncs@);
    let mut i: usize = 0;
    while i < ncs.len()
        invariant
            g == subs_view(ncs@),
            i <= ncs@.len(),
            forall|j: int| 0 <= j < i ==> !((#[trigger] g[j]).is_online && g[j].node_id == pub_node),
        decreases ncs@.len() - i,
    {
        if ncs[i].node_id == pub_node && ncs[i].is_online {
            proof {
                assert(g[i as int].is_online && g[i as int].node_id == pub_node);
            }
            return Some((i, true));
        }
        i += 1;
    }
    let mut j: usize = 0;
    while j < ncs.len()
        invariant
            g == subs_view(ncs@),
            j <= ncs@.len(),
            forall|q: int| 0 <= q < ncs@.len() ==> !((#[trigger] g[q]).is_online && g[q].node_id == pub_node),
            forall|q: int| 0 <= q < j ==> !(#[trigger] g[q]).is_online,
        decreases ncs@.len() - j,
    {
        if ncs[j].is_online {
            proof {
                assert(g[j as int].is_online);
            }
            return Some((j, true));
        }
        j += 1;
    }
    find_local_fallback(pub_node, ncs)
}

/// The hash of a string with std's `DefaultHasher` (as `Hash for str` feeds it).
pub uninterp spec fn default_hash(s: Seq<char>) -> u64;

/// `DefaultHasher::new()` fed with `s` (deterministic: every hasher made by
/// `new` is the same).
#[verifier::external_body]
fn hash_str(s: &str) -> (h: u64)
    ensures
        h == default_hash(s@),
{
    let mut hasher = std::collections::hash_map::DefaultHasher::new();
    s.hash(&mut hasher);
    hasher.finish()
}

/// The choice for hash value `hash`: subscriber `hash % len` when online,
/// otherwise a random online one (or the fallback).
pub fn choice_by_hash(hash: u64, pub_node: u64, ncs: &Vec<Subscriber>) -> (r: Choice)
    requires
        ncs@.len() > 0,
    ensures
        subs_view(ncs@)[(hash as int) % (ncs@.len() as int)].is_online ==> r == Some(
            ((hash as int % ncs@.len() as int) as usize, true),
        ),
        some_online_choice(subs_view(ncs@), pub_node, r),
{
    let ghost g = subs_view(ncs@);
    let idx = (hash % (ncs.len() as u64)) as usize;
    proof {
        assert(idx as int == hash as int % ncs@.len() as int);
    }
    if ncs[idx].is_online {
        proof {
            assert(g[idx as int].is_online);
        }
        return Some((idx, true));
    }
    choice_random(pub_node, ncs)
}

/// Hash by the publisher's client id.
pub fn choice_hash_clientid(publisher_client_id: &str, pub_node: u64, ncs: &Vec<Subscriber>) -> (r: Choice)
    requires
        ncs@.len() > 0,
    ensures
        subs_view(ncs@)[(default_hash(publisher_client_id@) as int) % (ncs@.len() as int)].is_online ==> r == Some(
            ((default_hash(publisher_client_id@) as int % ncs@.len() as int) as usize, true),
        ),
        some_online_choice(subs_view(ncs@), pub_node, r),
{
    let h = hash_str(publisher_client_id);
    choice_by_hash(h, pub_node, ncs)
}

/// Hash by the topic name.
pub fn choice_hash_topic(topic: &str, pub_node: u64, ncs: &Vec<Subscriber>) -> (r: Choice)
    requires
        ncs@.len() > 0,
    ensures
        subs_view(ncs@)[(default_hash(topic@) as int) % (ncs@.len() as int)].is_online ==> r == Some(
            ((default_hash(topic@) as int % ncs@.len() as int) as usize, true),
        ),
        some_online_choice(subs_view(ncs@), pub_node, r),
{
    let h = hash_str(topic);
    choice_by_hash(h, pub_node, ncs)
}

/// Per-group round-robin counters.
pub struct GroupCounters {
    entries: Vec<(String, usize)>,
}

/// The counter of group `g` (0 for a group not seen yet).
pub open spec fn counter_of(s: Seq<(Seq<char>, usize)>, g: Seq<char>) -> usize {
    if exists|i: int| 0 <= i < s.len() && (#[trigger] s[i]).0 == g {
        s[choose|i: int| 0 <= i < s.len() && (#[trigger] s[i]).0 == g].1
    } else {
        0
    }
}

pub open spec fn unique_groups(s: Seq<(Seq<char>, usize)>) -> bool {
    forall|i: int, j: int| 0 <= i < j < s.len() ==> (#[trigger] s[i]).0 != (#[trigger] s[j]).0
}

impl View for GroupCounters {
    type V = Seq<(Seq<char>, usize)>;

    closed spec fn view(&self) -> Seq<(Seq<char>, usize)> {
        Seq::new(self.entries@.len(), |i: int| (self.entries@[i].0@, self.entries@[i].1))
    }
}

impl GroupCounters {
    pub fn new() -> (c: GroupCounters)
        ensures
            c@.len() == 0,
    {
        let c = GroupCounters { entries: Vec::new() };
        proof {
            assert(c@ =~= Seq::<(Seq<char>, usize)>::empty());
        }
        c
    }

    /// Each group has one counter.
    pub closed spec fn wf(&self) -> bool {
        unique_groups(self@)
    }

    /// How many groups have a counter.
    pub fn len(&self) -> (n: usize)
        ensures
            n == self@.len(),
    {
        self.entries.len()
    }

    /// Reads the counter of `group` and advances it by one (wrapping).
    pub fn fetch_next(&mut self, group: &str) -> (c: usize)
        requires
            old(self).wf(),
        ensures
            final(self).wf(),
            c == counter_of(old(self)@, group@),
            counter_of(final(self)@, group@) == c.wrapping_add(1),
            forall|h: Seq<char>| h != group@ ==> counter_of(final(self)@, h) == counter_of(old(self)@, h),
    {
        let ghost s0 = self@;
        let mut i: usize = 0;
        while i < self.entries.len()
            invariant
                s0 == self@,
                s0 == old(self)@,
                unique_groups(s0),
                i <= self.entries@.len(),
                forall|k: int| 0 <= k < i ==> (#[trigger] s0[k]).0 != group@,
            decreases self.entries@.len() - i,
        {
            if crate::text::str_eq(self.entries[i].0.as_str(), group) {
                let c = self.entries[i].1;
                let name = copy_string(&self.entries[i].0);
                self.entries.set(i, (name, c.wrapping_add(1)));
                proof {
                    assert(s0[i as int].0 == group@);
                    let j = choose|j: int| 0 <= j < s0.len() && (#[trigger] s0[j]).0 == group@;
                    if j != i {
                        if j < i { assert(s0[j].0 != s0[i as int].0); } else { assert(s0[i as int].0 != s0[j].0); }
                    }
                    assert(self@ =~= s0.update(i as int, (group@, c.wrapping_add(1))));
                    lemma_counter_update(s0, i as int, group@, c.wrapping_add(1));
                    assert(s0[i as int].1 == c);
                    assert(counter_of(s0, group@) == c);
                }
                return c;
            }
            i += 1;
        }
        self.entries.push((owned(group), 1));
        proof {
            assert(self@ =~= s0.push((group@, 1usize)));
            lemma_counter_push(s0, group@, 1);
        }
        0
    }
}

proof fn lemma_counter_update(s: Seq<(Seq<char>, usize)>, i: int, g: Seq<char>, v: usize)
    requires
        unique_groups(s),
        0 <= i < s.len(),
        s[i].0 == g,
    ensures
        unique_groups(s.update(i, (g, v))),
        counter_of(s.update(i, (g, v)), g) == v,
        forall|h: Seq<char>| h != g ==> counter_of(s.update(i, (g, v)), h) == counter_of(s, h),
{
    let u = s.update(i, (g, v));
    assert forall|a: int, b: int| 0 <= a < b < u.len() implies (#[trigger] u[a]).0 != (#[trigger] u[b]).0 by {
        assert(s[a].0 != s[b].0);
    }
    assert(u[i].0 == g);
    let j = choose|j: int| 0 <= j < u.len() && (#[trigger] u[j]).0 == g;
    if j != i {
        if j < i { assert(u[j].0 != u[i].0); } else { assert(u[i].0 != u[j].0); }
    }
    assert forall|h: Seq<char>| h != g implies counter_of(u, h) == counter_of(s, h) by {
        if exists|k: int| 0 <= k < s.len() && (#[trigger] s[k]).0 == h {
            let k = choose|k: int| 0 <= k < s.len() && (#[trigger] s[k]).0 == h;
            assert(u[k].0 == h);
            let k2 = choose|k2: int| 0 <= k2 < u.len() && (#[trigger] u[k2]).0 == h;
            if k2 != k {
                if k2 < k { assert(s[k2].0 != s[k].0); } else { assert(s[k].0 != s[k2].0); }
            }
        } else {
            if exists|k: int| 0 <= k < u.len() && (#[trigger] u[k]).0 == h {
                let k = choose|k: int| 0 <= k < u.len() && (#[trigger] u[k]).0 == h;
                assert(s[k].0 == h);
            }
        }
    }
}

proof fn lemma_counter_push(s: Seq<(Seq<char>, usize)>, g: Seq<char>, v: usize)
    requires
        unique_groups(s),
        forall|k: int| 0 <= k < s.len() ==> (#[trigger] s[k]).0 != g,
    ensures
        unique_groups(s.push((g, v))),
        counter_of(s.push((g, v)), g) == v,
        forall|h: Seq<char>| h != g ==> counter_of(s.push((g, v)), h) == counter_of(s, h),
{
    let u = s.push((g, v));
    assert forall|a: int, b: int| 0 <= a < b < u.len() implies (#[trigger] u[a]).0 != (#[trigger] u[b]).0 by {
        if b < s.len() { assert(s[a].0 != s[b].0); } else { assert(s[a].0 != g); }
    }
    assert(u[s.len() as int].0 == g);
    let j = choose|j: int| 0 <= j < u.len() && (#[trigger] u[j]).0 == g;
    if j < s.len() {
        assert(s[j].0 != g);
    }
    assert forall|h: Seq<char>| h != g implies counter_of(u, h) == counter_of(s, h) by {
        if exists|k: int| 0 <= k < s.len() && (#[trigger] s[k]).0 == h {
            let k = choose|k: int| 0 <= k < s.len() && (#[trigger] s[k]).0 == h;
            assert(u[k].0 == h);
            let k2 = choose|k2: int| 0 <= k2 < u.len() && (#[trigger] u[k2]).0 == h;
            if k2 != k && k2 < s.len() {
                if k2 < k { assert(s[k2].0 != s[k].0); } else { assert(s[k].0 != s[k2].0); }
            }
        } else {
            if exists|k: int| 0 <= k < u.len() && (#[trigger] u[k]).0 == h {
                let k = choose|k: int| 0 <= k < u.len() && (#[trigger] u[k]).0 == h;
                if k < s.len() { assert(s[k].0 == h); }
            }
        }
    }
}

/// Per-group round robin: the group's counter is read and advanced.
pub fn choice_round_robin_per_group(
    counters: &mut GroupCounters,
    group: &str,
    pub_node: u64,
    ncs: &Vec<Subscriber>,
) -> (r: Choice)
    requires
        old(counters).wf(),
        ncs@.len() > 0,
    ensures
        final(counters).wf(),
        counter_of(final(counters)@, group@) == counter_of(old(counters)@, group@).wrapping_add(1),
        forall|h: Seq<char>| h != group@ ==> counter_of(final(counters)@, h) == counter_of(old(counters)@, h),
        ring_choice(
            subs_view(ncs@),
            (counter_of(old(counters)@, group@) as int) % (ncs@.len() as int),
            pub_node,
            r,
        ),
{
    let c = counters.fetch_next(group);
    choice_from_ring(c, pub_node, ncs)
}

/// What a sticky choice does to the publisher's binding.
#[derive(Debug, Clone, Copy, PartialEq, Eq, Structural)]
pub enum StickyUpdate {
    /// Leave the binding as it is.
    Keep,
    /// Bind the publisher to the chosen subscriber.
    Bind(usize),
    /// Drop the binding (its subscriber went offline).
    Unbind,
}

/// The subscriber that a binding to `b` points at: the first with that client id.
pub open spec fn first_with_client(ncs: Seq<SubscriberView>, b: Seq<char>, j: int) -> bool {
    0 <= j < ncs.len() && ncs[j].client_id == b && forall|k: int| 0 <= k < j ==> (#[trigger] ncs[k]).client_id != b
}

/// The sticky choice for a publisher bound to `binding`: the bound
/// subscriber while it is online; otherwise the first online subscriber,
/// which becomes the binding; with nobody online, the fallback, which also
/// becomes the binding.
pub open spec fn sticky_choice(
    ncs: Seq<SubscriberView>,
    binding: Option<Seq<char>>,
    node: u64,
    r: (Choice, StickyUpdate),
) -> bool {
    let bound_online = match binding {
        Some(b) => exists|j: int| first_with_client(ncs, b, j) && ncs[j].is_online,
        None => false,
    };
    if bound_online {
        &&& r.1 == StickyUpdate::Keep
        &&& r.0 matches Some((j, online)) && online && first_with_client(ncs, binding->0, j as int)
    } else if any_online(ncs) {
        r.0 matches Some((i, online)) && online && first_online(ncs, i as int) && r.1 == StickyUpdate::Bind(i)
    } else if ncs.len() > 0 {
        &&& fallback_choice(ncs, node, r.0)
        &&& r.0 matches Some((i, _)) && r.1 == StickyUpdate::Bind(i)
    } else {
        r.0 is None && r.1 == StickyUpdate::Keep
    }
}

/// The subscriber a binding points at, if it is in the list.
fn find_bound(ncs: &Vec<Subscriber>, b: &str) -> (r: Option<usize>)
    ensures
        match r {
            Some(j) => first_with_client(subs_view(ncs@), b@, j as int),
            None => forall|k: int| 0 <= k < ncs@.len() ==> (#[trigger] subs_view(ncs@)[k]).client_id != b@,
        },
{
    let ghost g = subs_view(ncs@);
    let mut j: usize = 0;
    while j < ncs.len()
        invariant
            g == subs_view(ncs@),
            j <= ncs@.len(),
            forall|k: int| 0 <= k < j ==> (#[trigger] g[k]).client_id != b@,
        decreases ncs@.len() - j,
    {
        if crate::text::str_eq(ncs[j].client_id.as_str(), b) {
            return Some(j);
        }
        j += 1;
    }
    None
}

/// Decides a sticky choice given the publisher's current binding.
pub fn sticky_decision(binding: Option<&str>, pub_node: u64, ncs: &Vec<Subscriber>) -> (r: (Choice, StickyUpdate))
    ensures
        sticky_choice(subs_view(ncs@), match binding { Some(b) => Some(b@), None => None }, pub_node, r),
{
    let ghost g = subs_view(ncs@);
    let ghost bv: Option<Seq<char>> = match binding { Some(b) => Some(b@), None => None };
    match binding {
        Some(b) => {
            match find_bound(ncs, b) {
                Some(j) => {
                    if ncs[j].is_online {
                        proof {
                            assert(first_with_client(g, b@, j as int) && g[j as int].is_online);
                        }
                        return (Some((j, true)), StickyUpdate::Keep);
                    }
                    proof {
                        assert forall|q: int| first_with_client(g, b@, q) implies !g[q].is_online by {
                            if q < j { assert(g[q].client_id != b@); }
                            if q > j { assert(g[j as int].client_id == b@); }
                        }
                    }
                },
                None => {
                    proof {
                        assert forall|q: int| first_with_client(g, b@, q) implies !g[q].is_online by {
                            assert(g[q].client_id != b@);
                        }
                    }
                },
            }
        },
        None => {},
    }
    let first = choice_local_first_online(ncs);
    match first {
        Some(i) => (Some((i, true)), StickyUpdate::Bind(i)),
        None => {
            match find_local_fallback(pub_node, ncs) {
                Some((i, online)) => (Some((i, online)), StickyUpdate::Bind(i)),
                None => (None, StickyUpdate::Keep),
            }
        },
    }
}

/// The first online subscriber, if any.
fn choice_local_first_online(ncs: &Vec<Subscriber>) -> (r: Option<usize>)
    ensures
        match r {
            Some(i) => first_online(subs_view(ncs@), i as int),
            None => !any_online(subs_view(ncs@)),
        },
{
    let ghost g = subs_view(ncs@);
    let mut j: usize = 0;
    while j < ncs.len()
        invariant
            g == subs_view(ncs@),
            j <= ncs@.len(),
            forall|q: int| 0 <= q < j ==> !(#[trigger] g[q]).is_online,
        decreases ncs@.len() - j,
    {
        if ncs[j].is_online {
            return Some(j);
        }
        j += 1;
    }
    None
}

/// The `lru` crate's cache, holding the sticky bindings.
#[verifier::external_type_specification]
#[verifier::external_body]
#[verifier::reject_recursive_types(K)]
#[verifier::reject_recursive_types(V)]
#[verifier::reject_recursive_types(S)]
pub struct ExLruCache<K, V, S>(lru::LruCache<K, V, S>);

/// The hasher the `lru` cache uses by default.
#[verifier::external_type_specification]
#[verifier::external_body]
pub struct ExLruDefaultHasher(lru::DefaultHasher);

/// The LRU cache of sticky bindings.
pub type StickyCache = lru::LruCache<(String, String), String>;

/// Sticky bindings held in the LRU cache: (share group, publisher client id)
/// to subscriber client id.
pub uninterp spec fn sticky_bindings(c: StickyCache) -> Map<(Seq<char>, Seq<char>), Seq<char>>;

/// The capacity the LRU cache was made with.
pub uninterp spec fn sticky_capacity(c: StickyCache) -> nat;

/// No bindings.
pub open spec fn empty_bindings() -> Map<(Seq<char>, Seq<char>), Seq<char>> {
    Map::empty()
}

/// The subscriber bound to `publisher` in `group`, if any.
pub open spec fn binding_for(
    m: Map<(Seq<char>, Seq<char>), Seq<char>>,
    group: Seq<char>,
    publisher: Seq<char>,
) -> Option<Seq<char>> {
    if m.contains_key((group, publisher)) {
        Some(m[(group, publisher)])
    } else {
        None
    }
}

/// A cache holds finitely many bindings, at most its capacity.
pub open spec fn sticky_sane(c: StickyCache) -> bool {
    sticky_bindings(c).dom().finite() && sticky_bindings(c).dom().len() <= sticky_capacity(c) && sticky_capacity(c) > 0
}

/// `LruCache::new`: an empty cache of capacity `cap`.
#[verifier::external_body]
fn sticky_new(cap: usize) -> (cache: StickyCache)
    requires
        cap > 0,
    ensures
        sticky_bindings(cache) == empty_bindings(),
        sticky_capacity(cache) == cap,
        sticky_sane(cache),
{
    lru::LruCache::new(std::num::NonZeroUsize::new(cap).unwrap())
}

/// `LruCache::get`: the binding of (group, publisher), if any; the bindings
/// stay the same (only their recency changes).
#[verifier::external_body]
fn sticky_get(c: &mut StickyCache, group: &str, publisher: &str) -> (r: Option<String>)
    requires
        sticky_sane(*old(c)),
    ensures
        sticky_bindings(*final(c)) == sticky_bindings(*old(c)),
        sticky_capacity(*final(c)) == sticky_capacity(*old(c)),
        sticky_sane(*final(c)),
        match r {
            Some(v) => sticky_bindings(*old(c)).contains_key((group@, publisher@)) && sticky_bindings(*old(c))[(group@, publisher@)] == v@,
            None => !sticky_bindings(*old(c)).contains_key((group@, publisher@)),
        },
{
    c.get(&(group.to_string(), publisher.to_string())).cloned()
}

/// `LruCache::put`: binds (group, publisher) to `subscriber`. When the key
/// is new and the cache is full, the least recently used binding (exactly
/// one) leaves.
#[verifier::external_body]
fn sticky_put(c: &mut StickyCache, group: &str, publisher: &str, subscriber: &str)
    requires
        sticky_sane(*old(c)),
    ensures
        sticky_capacity(*final(c)) == sticky_capacity(*old(c)),
        sticky_sane(*final(c)),
        sticky_bindings(*final(c)).contains_key((group@, publisher@)),
        sticky_bindings(*final(c))[(group@, publisher@)] == subscriber@,
        forall|k: (Seq<char>, Seq<char>)|
            k != (group@, publisher@) && #[trigger] sticky_bindings(*final(c)).contains_key(k) ==> sticky_bindings(*old(c)).contains_key(k)
                && sticky_bindings(*final(c))[k] == sticky_bindings(*old(c))[k],
        sticky_bindings(*old(c)).contains_key((group@, publisher@)) || sticky_bindings(*old(c)).dom().len()
            < sticky_capacity(*old(c)) ==> sticky_bindings(*final(c)) == sticky_bindings(*old(c)).insert(
            (group@, publisher@),
            subscriber@,
        ),
        !(sticky_bindings(*old(c)).contains_key((group@, publisher@)) || sticky_bindings(*old(c)).dom().len()
            < sticky_capacity(*old(c))) ==> exists|e: (Seq<char>, Seq<char>)| #[trigger] sticky_bindings(*old(c)).contains_key(e)
            && e != (group@, publisher@) && sticky_bindings(*final(c)) == sticky_bindings(*old(c)).remove(e).insert(
            (group@, publisher@),
            subscriber@,
        ),
{
    c.put((group.to_string(), publisher.to_string()), subscriber.to_string());
}

/// `LruCache::pop`: removes the binding of (group, publisher).
#[verifier::external_body]
fn sticky_pop(c: &mut StickyCache, group: &str, publisher: &str)
    requires
        sticky_sane(*old(c)),
    ensures
        sticky_capacity(*final(c)) == sticky_capacity(*old(c)),
        sticky_sane(*final(c)),
        sticky_bindings(*final(c)) == sticky_bindings(*old(c)).remove((group@, publisher@)),
{
    c.pop(&(group.to_string(), publisher.to_string()));
}

/// `LruCache::len`: how many bindings are held.
#[verifier::external_body]
fn sticky_len(c: &StickyCache) -> (n: usize)
    ensures
        n == sticky_bindings(*c).dom().len(),
{
    c.len()
}

/// The default strategy: round robin.
pub fn strategy_default() -> (s: Strategy)
    ensures
        s == Strategy::RoundRobin,
{
    Strategy::RoundRobin
}

/// The default number of sticky bindings kept.
pub fn sticky_cache_size_default() -> (n: usize)
    ensures
        n == 100000,
{
    100000
}

/// The shared-subscription chooser with its state: the global round-robin
/// counter, the per-group counters and the sticky bindings.
pub struct SharedSubscriptionImpl {
    strategy: Strategy,
    rr_counter: usize,
    rr_group_counters: GroupCounters,
    sticky_map: StickyCache,
}

impl SharedSubscriptionImpl {
    /// The state is consistent.
    pub closed spec fn wf(&self) -> bool {
        self.rr_group_counters.wf() && sticky_sane(self.sticky_map)
    }

    /// The configured strategy.
    pub closed spec fn mode(&self) -> Strategy {
        self.strategy
    }

    /// The configured strategy.
    pub fn strategy(&self) -> (s: Strategy)
        ensures
            s == self.mode(),
    {
        self.strategy
    }

    /// The global round-robin counter.
    pub closed spec fn counter(&self) -> usize {
        self.rr_counter
    }

    /// The per-group counters.
    pub closed spec fn group_counters(&self) -> Seq<(Seq<char>, usize)> {
        self.rr_group_counters@
    }

    /// The sticky bindings.
    pub closed spec fn bindings(&self) -> Map<(Seq<char>, Seq<char>), Seq<char>> {
        sticky_bindings(self.sticky_map)
    }

    /// A chooser with fresh counters and an empty sticky cache of
    /// `sticky_cache_size` bindings.
    pub fn new(strategy: Strategy, sticky_cache_size: usize) -> (s: SharedSubscriptionImpl)
        requires
            sticky_cache_size > 0,
        ensures
            s.wf(),
            s.mode() == strategy,
            s.counter() == 0,
            s.group_counters().len() == 0,
            s.bindings() == empty_bindings(),
    {
        SharedSubscriptionImpl {
            strategy,
            rr_counter: 0,
            rr_group_counters: GroupCounters::new(),
            sticky_map: sticky_new(sticky_cache_size),
        }
    }

    /// Every listener supports shared subscriptions.
    pub fn is_supported(&self) -> (r: bool)
        ensures
            r,
    {
        true
    }

    /// The global round-robin counter.
    pub fn rr_counter(&self) -> (r: usize)
        ensures
            r == self.counter(),
    {
        self.rr_counter
    }

    /// How many groups have a round-robin counter.
    pub fn rr_group_count(&self) -> (r: usize)
        ensures
            r == self.group_counters().len(),
    {
        self.rr_group_counters.len()
    }

    /// How many sticky bindings are held.
    pub fn sticky_binding_count(&self) -> (r: usize)
        ensures
            r == self.bindings().dom().len(),
    {
        sticky_len(&self.sticky_map)
    }

    /// Sticky choice for `publisher` in `group`, keeping the binding up to date.
    pub fn choice_sticky(&mut self, group: &str, publisher: &str, pub_node: u64, ncs: &Vec<Subscriber>) -> (r: Choice)
        requires
            old(self).wf(),
        ensures
            final(self).wf(),
            final(self).mode() == old(self).mode(),
            final(self).counter() == old(self).counter(),
            final(self).group_counters() == old(self).group_counters(),
            exists|u: StickyUpdate| {
                &&& #[trigger] sticky_choice(
                    subs_view(ncs@),
                    binding_for(old(self).bindings(), group@, publisher@),
                    pub_node,
                    (r, u),
                )
                &&& (u == StickyUpdate::Keep ==> final(self).bindings() == old(self).bindings())
                &&& (u matches StickyUpdate::Bind(i) ==> final(self).bindings().contains_key((group@, publisher@))
                    && final(self).bindings()[(group@, publisher@)] == subs_view(ncs@)[i as int].client_id)
            },
    {
        let binding = sticky_get(&mut self.sticky_map, group, publisher);
        let (r, u) = match &binding {
            Some(b) => sticky_decision(Some(b.as_str()), pub_node, ncs),
            None => sticky_decision(None, pub_node, ncs),
        };
        match u {
            StickyUpdate::Keep => {},
            StickyUpdate::Bind(i) => {
                if i < ncs.len() {
                    sticky_put(&mut self.sticky_map, group, publisher, ncs[i].client_id.as_str());
                }
            },
            StickyUpdate::Unbind => {
                sticky_pop(&mut self.sticky_map, group, publisher);
            },
        }
        proof {
            match u {
                StickyUpdate::Bind(i) => {
                    assert(i < ncs@.len());
                },
                _ => {},
            }
        }
        r
    }

    /// Chooses the subscriber of `group` for a message from `publisher`
    /// (client id, node) on `topic`, with the configured strategy.
    pub fn choice(
        &mut self,
        group: &str,
        publisher: &str,
        pub_node: u64,
        topic: &str,
        ncs: &Vec<Subscriber>,
    ) -> (r: Choice)
        requires
            old(self).wf(),
        ensures
            final(self).wf(),
            final(self).mode() == old(self).mode(),
            ncs@.len() == 0 ==> r is None && unchanged_state(*old(self), *final(self)),
            any_online(subs_view(ncs@)) ==> (r matches Some((i, online)) && online && (i as int) < ncs@.len()
                && ncs@[i as int].is_online),
            !any_online(subs_view(ncs@)) ==> fallback_choice(subs_view(ncs@), pub_node, r),
            ncs@.len() > 0 ==> match old(self).mode() {
                Strategy::Random => some_online_choice(subs_view(ncs@), pub_node, r) && unchanged_state(
                    *old(self),
                    *final(self),
                ),
                Strategy::RoundRobin => {
                    &&& final(self).counter() == old(self).counter().wrapping_add(1)
                    &&& ring_choice(subs_view(ncs@), (old(self).counter() as int) % (ncs@.len() as int), pub_node, r)
                    &&& final(self).group_counters() == old(self).group_counters()
                    &&& final(self).bindings() == old(self).bindings()
                },
                Strategy::RoundRobinPerGroup => {
                    &&& counter_of(final(self).group_counters(), group@) == counter_of(old(self).group_counters(), group@).wrapping_add(1)
                    &&& forall|h: Seq<char>| h != group@ ==> counter_of(final(self).group_counters(), h) == counter_of(
                        old(self).group_counters(),
                        h,
                    )
                    &&& ring_choice(
                        subs_view(ncs@),
                        (counter_of(old(self).group_counters(), group@) as int) % (ncs@.len() as int),
                        pub_node,
                        r,
                    )
                    &&& final(self).counter() == old(self).counter()
                    &&& final(self).bindings() == old(self).bindings()
                },
                Strategy::Sticky => {
                    &&& final(self).counter() == old(self).counter()
                    &&& final(self).group_counters() == old(self).group_counters()
                    &&& exists|u: StickyUpdate| {
                        &&& #[trigger] sticky_choice(
                            subs_view(ncs@),
                            binding_for(old(self).bindings(), group@, publisher@),
                            pub_node,
                            (r, u),
                        )
                        &&& (u == StickyUpdate::Keep ==> final(self).bindings() == old(self).bindings())
                        &&& (u matches StickyUpdate::Bind(i) ==> final(self).bindings().contains_key((group@, publisher@))
                            && final(self).bindings()[(group@, publisher@)] == subs_view(ncs@)[i as int].client_id)
                    }
                },
                Strategy::Local => local_choice(subs_view(ncs@), pub_node, r) && unchanged_state(*old(self), *final(self)),
                Strategy::HashClientId => {
                    &&& some_online_choice(subs_view(ncs@), pub_node, r)
                    &&& subs_view(ncs@)[(default_hash(publisher@) as int) % (ncs@.len() as int)].is_online ==> r == Some(
                        ((default_hash(publisher@) as int % ncs@.len() as int) as usize, true),
                    )
                    &&& unchanged_state(*old(self), *final(self))
                },
                Strategy::HashTopic => {
                    &&& some_online_choice(subs_view(ncs@), pub_node, r)
                    &&& subs_view(ncs@)[(default_hash(topic@) as int) % (ncs@.len() as int)].is_online ==> r == Some(
                        ((default_hash(topic@) as int % ncs@.len() as int) as usize, true),
                    )
                    &&& unchanged_state(*old(self), *final(self))
                },
            },
    {
        if ncs.len() == 0 {
            return None;
        }
        match self.strategy {
            Strategy::Random => choice_random(pub_node, ncs),
            Strategy::RoundRobin => choice_round_robin(&mut self.rr_counter, pub_node, ncs),
            Strategy::RoundRobinPerGroup => choice_round_robin_per_group(&mut self.rr_group_counters, group, pub_node, ncs),
            Strategy::Sticky => self.choice_sticky(group, publisher, pub_node, ncs),
            Strategy::Local => choice_local(pub_node, ncs),
            Strategy::HashClientId => choice_hash_clientid(publisher, pub_node, ncs),
            Strategy::HashTopic => choice_hash_topic(topic, pub_node, ncs),
        }
    }
}

/// The counters and the sticky bindings are as they were.
pub open spec fn unchanged_state(a: SharedSubscriptionImpl, b: SharedSubscriptionImpl) -> bool {
    &&& b.counter() == a.counter()
    &&& b.group_counters() == a.group_counters()
    &&& b.bindings() == a.bindings()
}

/// No two subscribers of the list share a client id.
pub open spec fn distinct_clients(ncs: Seq<SubscriberView>) -> bool {
    forall|i: int, j: int| 0 <= i < j < ncs.len() ==> (#[trigger] ncs[i]).client_id != (#[trigger] ncs[j]).client_id
}

/// Sticky sessions stick: while the subscriber a publisher is bound to is
/// online (and client ids are distinct), the publisher's messages keep
/// going to it and the binding is kept.
pub proof fn law_sticky_stays_bound(ncs: Seq<SubscriberView>, i: usize, node: u64, r: (Choice, StickyUpdate))
    requires
        0 <= i < ncs.len(),
        ncs[i as int].is_online,
        distinct_clients(ncs),
        sticky_choice(ncs, Some(ncs[i as int].client_id), node, r),
    ensures
        r.0 == Some((i, true)),
        r.1 == StickyUpdate::Keep,
{
    let b = ncs[i as int].client_id;
    assert forall|k: int| 0 <= k < i implies (#[trigger] ncs[k]).client_id != b by {
        assert(ncs[k].client_id != ncs[i as int].client_id);
    }
    assert(first_with_client(ncs, b, i as int) && ncs[i as int].is_online);
    let binding: Option<Seq<char>> = Some(b);
    assert(match binding {
        Some(bb) => exists|j: int| first_with_client(ncs, bb, j) && ncs[j].is_online,
        None => false,
    });
    assert(r.1 == StickyUpdate::Keep);
    match r.0 {
        Some((j, _)) => {
            assert(first_with_client(ncs, b, j as int));
            if (j as int) < (i as int) {
                assert(ncs[j as int].client_id != ncs[i as int].client_id);
            } else if (j as int) > (i as int) {
                assert(ncs[i as int].client_id != ncs[j as int].client_id);
            }
        },
        None => {},
    }
}

/// A newly bound publisher goes to the first online subscriber, and its
/// next message, with the subscribers unchanged, goes there too.
pub proof fn law_sticky_binds_then_stays(
    ncs: Seq<SubscriberView>,
    node: u64,
    r1: (Choice, StickyUpdate),
    r2: (Choice, StickyUpdate),
    i: usize,
)
    requires
        distinct_clients(ncs),
        any_online(ncs),
        sticky_choice(ncs, None, node, r1),
        r1.1 == StickyUpdate::Bind(i),
        0 <= i < ncs.len(),
        sticky_choice(ncs, Some(ncs[i as int].client_id), node, r2),
    ensures
        first_online(ncs, i as int),
        r2.0 == r1.0,
        r2.1 == StickyUpdate::Keep,
{
    assert(r1.0 matches Some((k, online)) && online && first_online(ncs, k as int) && r1.1 == StickyUpdate::Bind(k));
    law_sticky_stays_bound(ncs, i, node, r2);
}

/// Hashing by a key sends every message with that key to the same
/// subscriber while it is online: two choices meeting the hash contract
/// for the same key and subscribers agree.
pub proof fn law_hash_choice_stable(ncs: Seq<SubscriberView>, key: Seq<char>, r1: Choice, r2: Choice)
    requires
        ncs.len() > 0,
        ncs[(default_hash(key) as int) % (ncs.len() as int)].is_online,
        ncs[(default_hash(key) as int) % (ncs.len() as int)].is_online ==> r1 == Some(
            ((default_hash(key) as int % ncs.len() as int) as usize, true),
        ),
        ncs[(default_hash(key) as int) % (ncs.len() as int)].is_online ==> r2 == Some(
            ((default_hash(key) as int % ncs.len() as int) as usize, true),
        ),
    ensures
        r1 == r2,
        r1 == Some(((default_hash(key) as int % ncs.len() as int) as usize, true)),
{
}

/// Round robin takes turns: with every subscriber online, the choice from
/// ring position `start` is the subscriber at `start`, so successive
/// counter values pick successive subscribers.
pub proof fn law_round_robin_takes_turns(ncs: Seq<SubscriberView>, start: usize, node: u64, r: Choice)
    requires
        start < ncs.len(),
        forall|i: int| 0 <= i < ncs.len() ==> (#[trigger] ncs[i]).is_online,
        ring_choice(ncs, start as int, node, r),
    ensures
        r == Some((start, true)),
{
    let n = ncs.len() as int;
    vstd::arithmetic::div_mod::lemma_small_mod(start as nat, ncs.len());
    assert(ring(n, start as int, 0) == start);
    assert(ncs[start as int].is_online);
    assert(any_online(ncs));
    let o = choose|o: int|
        0 <= o < ncs.len() && r == Some((ring(n, start as int, o) as usize, true)) && ncs[ring(
            n,
            start as int,
            o,
        )].is_online && forall|p: int| 0 <= p < o ==> !(#[trigger] ncs[ring(n, start as int, p)]).is_online;
    if o > 0 {
        assert(!ncs[ring(n, start as int, 0)].is_online);
    }
}

} // verus!
