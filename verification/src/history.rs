//! The stats and metrics history: reading the time back out of a stored
//! key, and the warm-up that reloads stored entries oldest first and drops
//! those past retention.
use vstd::prelude::*;

verus! {

/// `b` after its last `:` (all of `b` when it has none).
pub open spec fn last_segment(b: Seq<u8>) -> Seq<u8>
    decreases b.len(),
{
    if b.len() == 0 {
        b
    } else if b.last() == 58u8 {
        Seq::empty()
    } else {
        last_segment(b.drop_last()).push(b.last())
    }
}

pub open spec fn is_ascii_digit(c: u8) -> bool {
    48u8 <= c && c <= 57u8
}

/// The number the ASCII digits `d` spell.
pub open spec fn digits_value(d: Seq<u8>) -> nat
    decreases d.len(),
{
    if d.len() == 0 {
        0
    } else {
        digits_value(d.drop_last()) * 10 + (d.last() - 48u8) as nat
    }
}

pub open spec fn strip_plus(s: Seq<u8>) -> Seq<u8> {
    if s.len() > 0 && s[0] == 43u8 {
        s.drop_first()
    } else {
        s
    }
}

pub open spec fn all_digits(d: Seq<u8>) -> bool {
    forall|i: int| 0 <= i < d.len() ==> is_ascii_digit(#[trigger] d[i])
}

/// What parsing `s` as a `u64` gives: an optional `+`, then one or more
/// decimal digits spelling a number that fits.
pub open spec fn parse_u64_spec(s: Seq<u8>) -> Option<u64> {
    if strip_plus(s).len() > 0 && all_digits(strip_plus(s)) && digits_value(strip_plus(s)) <= u64::MAX {
        Some(digits_value(strip_plus(s)) as u64)
    } else {
        None
    }
}

proof fn lemma_digits_prefix_le(d: Seq<u8>, k: int)
    requires
        0 <= k <= d.len(),
    ensures
        all_digits(d) ==> digits_value(d.take(k)) <= digits_value(d),
    decreases d.len() - k,
{
    if k < d.len() && all_digits(d) {
        lemma_digits_prefix_le(d, k + 1);
        assert(d.take(k + 1).drop_last() =~= d.take(k));
        assert(d.take(k + 1).last() == d[k]);
    } else if k == d.len() {
        assert(d.take(k) =~= d);
    }
}

/// Where the last segment of `b` starts.
fn segment_start(b: &[u8]) -> (i: usize)
    ensures
        i <= b@.len(),
        b@.subrange(i as int, b@.len() as int) == last_segment(b@),
{
    let mut i = b.len();
    proof {
        assert(b@.subrange(i as int, b@.len() as int) =~= Seq::<u8>::empty());
        assert(b@.take(i as int) =~= b@);
        assert(last_segment(b@) + Seq::<u8>::empty() =~= last_segment(b@));
    }
    while i > 0 && b[i - 1] != 58u8
        invariant
            i <= b@.len(),
            last_segment(b@) == last_segment(b@.take(i as int)) + b@.subrange(i as int, b@.len() as int),
        decreases i,
    {
        proof {
            let t = b@.take(i as int);
            assert(t.drop_last() =~= b@.take(i - 1));
            assert(t.last() == b@[i - 1]);
            assert(last_segment(t) == last_segment(b@.take(i - 1)).push(b@[i - 1]));
            assert(b@.subrange(i - 1, b@.len() as int) =~= seq![b@[i - 1]] + b@.subrange(i as int, b@.len() as int));
            assert(last_segment(b@.take(i - 1)) + b@.subrange(i - 1, b@.len() as int) =~= last_segment(
                b@.take(i - 1),
            ).push(b@[i - 1]) + b@.subrange(i as int, b@.len() as int));
        }
        i -= 1;
    }
    proof {
        if i == 0 {
            assert(b@.take(0) =~= Seq::<u8>::empty());
        } else {
            let t = b@.take(i as int);
            assert(t.last() == b@[i - 1]);
        }
        assert(Seq::<u8>::empty() + b@.subrange(i as int, b@.len() as int) =~= b@.subrange(i as int, b@.len() as int));
        if i == 0 {
            assert(b@.take(i as int) =~= Seq::<u8>::empty());
        }
    }
    proof {
        if i == 0 {
            assert(b@.subrange(0, b@.len() as int) =~= b@);
            assert(last_segment(b@) == last_segment(Seq::<u8>::empty()) + b@);
            assert(Seq::<u8>::empty() + b@ =~= b@);
        }
    }
    i
}

/// Parses the bytes of `b` from `from` on as a `u64` (see [`parse_u64_spec`]).
fn parse_u64(b: &[u8], from: usize) -> (r: Option<u64>)
    requires
        from <= b@.len(),
    ensures
        r == parse_u64_spec(b@.subrange(from as int, b@.len() as int)),
{
    let ghost t = b@.subrange(from as int, b@.len() as int);
    let mut i = from;
    if i < b.len() && b[i] == 43u8 {
        i += 1;
    }
    let ghost d = b@.subrange(i as int, b@.len() as int);
    proof {
        if t.len() > 0 && t[0] == 43u8 {
            assert(t.drop_first() =~= d);
        } else {
            assert(t =~= d);
        }
        assert(d == strip_plus(t));
    }
    if i == b.len() {
        return None;
    }
    let start = i;
    let mut n: u64 = 0;
    proof {
        assert(d.take(0) =~= Seq::<u8>::empty());
    }
    while i < b.len()
        invariant
            start <= i <= b@.len(),
            start < b@.len(),
            d == b@.subrange(start as int, b@.len() as int),
            d == strip_plus(t),
            t == b@.subrange(from as int, b@.len() as int),
            forall|k: int| 0 <= k < i - start ==> is_ascii_digit(#[trigger] d[k]),
            n == digits_value(d.take(i - start)),
        decreases b@.len() - i,
    {
        let c = b[i];
        proof {
            assert(d[i - start] == c);
        }
        if !(48u8 <= c && c <= 57u8) {
            proof {
                assert(!is_ascii_digit(d[i - start]));
                assert(!all_digits(d));
            }
            return None;
        }
        let dv = (c - 48u8) as u64;
        proof {
            assert(d.take(i - start + 1).drop_last() =~= d.take(i - start));
            assert(d.take(i - start + 1).last() == c);
            assert(digits_value(d.take(i - start + 1)) == n * 10 + dv);
        }
        match n.checked_mul(10) {
            Some(m) => match m.checked_add(dv) {
                Some(m2) => {
                    n = m2;
                },
                None => {
                    proof {
                        lemma_digits_prefix_le(d, i - start + 1);
                    }
                    return None;
                },
            },
            None => {
                proof {
                    lemma_digits_prefix_le(d, i - start + 1);
                }
                return None;
            },
        }
        i += 1;
    }
    proof {
        assert(d.take(d.len() as int) =~= d);
        assert(all_digits(d));
    }
    Some(n)
}

/// The time a history key ends with: the number after its last `:`.
pub fn key_timestamp(key: &[u8]) -> (r: Option<u64>)
    ensures
        r == parse_u64_spec(last_segment(key@)),
{
    let i = segment_start(key);
    parse_u64(key, i)
}

/// `(a, i)` comes before `(b, j)`: by time, then by position.
pub open spec fn lex_lt(a: u64, i: int, b: u64, j: int) -> bool {
    a < b || (a == b && i < j)
}

/// `perm` orders the positions of `ts` by time, keeping equal times in
/// the order they were given in.
pub open spec fn stable_order(ts: Seq<u64>, perm: Seq<usize>) -> bool {
    &&& perm.len() == ts.len()
    &&& forall|k: int| 0 <= k < perm.len() ==> (#[trigger] perm[k]) < ts.len()
    &&& forall|x: usize| x < ts.len() ==> #[trigger] perm.contains(x)
    &&& forall|k: int, l: int|
        0 <= k < l < perm.len() ==> lex_lt(ts[perm[k] as int], #[trigger] perm[k] as int, ts[perm[l] as int], #[trigger] perm[l] as int)
}

/// The positions of `ts` in stable time order (see [`stable_order`]).
pub fn stable_sort_positions(ts: &Vec<u64>) -> (perm: Vec<usize>)
    ensures
        stable_order(ts@, perm@),
{
    let mut perm: Vec<usize> = Vec::new();
    let mut i: usize = 0;
    while i < ts.len()
        invariant
            i <= ts@.len(),
            perm@.len() == i,
            forall|k: int| 0 <= k < perm@.len() ==> (#[trigger] perm@[k]) < i,
            forall|x: usize| x < i ==> #[trigger] perm@.contains(x),
            forall|k: int, l: int|
                0 <= k < l < perm@.len() ==> lex_lt(ts@[perm@[k] as int], #[trigger] perm@[k] as int, ts@[perm@[l] as int], #[trigger] perm@[l] as int),
        decreases ts@.len() - i,
    {
        let t = ts[i];
        let mut pos: usize = 0;
        while pos < perm.len() && ts[perm[pos]] <= t
            invariant
                pos <= perm@.len(),
                perm@.len() == i,
                i < ts@.len(),
                t == ts@[i as int],
                forall|k: int| 0 <= k < perm@.len() ==> (#[trigger] perm@[k]) < i,
                forall|k: int| 0 <= k < pos ==> ts@[(#[trigger] perm@[k]) as int] <= t,
            decreases perm@.len() - pos,
        {
            pos += 1;
        }
        let ghost old_perm = perm@;
        proof {
            if pos < perm@.len() {
                assert(ts@[perm@[pos as int] as int] > t);
                assert forall|k: int| pos <= k < old_perm.len() implies ts@[(#[trigger] old_perm[k]) as int] > t by {
                    if k > pos {
                        assert(lex_lt(ts@[old_perm[pos as int] as int], old_perm[pos as int] as int, ts@[old_perm[k] as int], old_perm[k] as int));
                    }
                }
            }
        }
        perm.insert(pos, i);
        proof {
            let np = perm@;
            assert(np == old_perm.insert(pos as int, i));
            assert forall|k: int| 0 <= k < np.len() implies (#[trigger] np[k]) < i + 1 by {
                if k < pos {
                    assert(np[k] == old_perm[k]);
                } else if k > pos {
                    assert(np[k] == old_perm[k - 1]);
                }
            }
            assert forall|x: usize| x < i + 1 implies #[trigger] np.contains(x) by {
                if x == i {
                    assert(np[pos as int] == i);
                } else {
                    assert(old_perm.contains(x));
                    let k = choose|k: int| 0 <= k < old_perm.len() && old_perm[k] == x;
                    if k < pos {
                        assert(np[k] == old_perm[k]);
                    } else {
                        assert(np[k + 1] == old_perm[k]);
                    }
                }
            }
            assert forall|k: int, l: int| 0 <= k < l < np.len() implies lex_lt(
                ts@[np[k] as int],
                #[trigger] np[k] as int,
                ts@[np[l] as int],
                #[trigger] np[l] as int,
            ) by {
                if k < pos && l < pos {
                    assert(np[k] == old_perm[k] && np[l] == old_perm[l]);
                } else if k < pos && l == pos {
                    assert(np[k] == old_perm[k]);
                    assert(ts@[old_perm[k] as int] <= t);
                    assert(old_perm[k] < i);
                } else if k < pos && l > pos {
                    assert(np[k] == old_perm[k] && np[l] == old_perm[l - 1]);
                } else if k == pos {
                    assert(np[l] == old_perm[l - 1]);
                    assert(ts@[old_perm[l - 1] as int] > t);
                } else {
                    assert(np[k] == old_perm[k - 1] && np[l] == old_perm[l - 1]);
                }
            }
        }
        i += 1;
    }
    perm
}

/// What the warm-up does with the stored history keys: reload those within
/// retention, oldest first, and delete those past it.
pub struct WarmupPlan {
    /// (time, key) of the entries to reload, in time order.
    pub load: Vec<(u64, Vec<u8>)>,
    /// The keys of the entries to delete.
    pub remove: Vec<Vec<u8>>,
}

/// The keys whose time parses, with their time, in the order given.
pub open spec fn timed_keys(keys: Seq<Vec<u8>>) -> Seq<(u64, Seq<u8>)>
    decreases keys.len(),
{
    if keys.len() == 0 {
        Seq::empty()
    } else {
        let rest = timed_keys(keys.drop_last());
        match parse_u64_spec(last_segment(keys.last()@)) {
            Some(t) => rest.push((t, keys.last()@)),
            None => rest,
        }
    }
}

pub open spec fn times_of(p: Seq<(u64, Seq<u8>)>) -> Seq<u64> {
    Seq::new(p.len(), |i: int| p[i].0)
}

pub open spec fn pairs_view(v: Seq<(u64, Vec<u8>)>) -> Seq<(u64, Seq<u8>)> {
    Seq::new(v.len(), |i: int| (v[i].0, v[i].1@))
}

/// The oldest time kept: `now_ms` less the retention, at least 0.
pub open spec fn cutoff(now_ms: u64, retention_ms: u64) -> u64 {
    if now_ms >= retention_ms {
        (now_ms - retention_ms) as u64
    } else {
        0
    }
}

/// `perm` puts the timed keys in stable time order, and the plan deletes
/// the leading ones older than the cutoff and reloads the rest in order.
pub open spec fn warmup_matches(
    keys: Seq<Vec<u8>>,
    now_ms: u64,
    retention_ms: u64,
    perm: Seq<usize>,
    remove: Seq<Vec<u8>>,
    load: Seq<(u64, Vec<u8>)>,
) -> bool {
    let tk = timed_keys(keys);
    let sorted = sorted_by(tk, perm);
    &&& stable_order(times_of(tk), perm)
    &&& remove.len() <= sorted.len()
    &&& forall|k: int| 0 <= k < remove.len() ==> (#[trigger] remove[k])@ == sorted[k].1 && sorted[k].0 < cutoff(now_ms, retention_ms)
    &&& pairs_view(load) == sorted.skip(remove.len() as int)
    &&& forall|k: int| remove.len() <= k < sorted.len() ==> (#[trigger] sorted[k]).0 >= cutoff(now_ms, retention_ms)
}

/// `tk` in the order `perm` gives.
pub open spec fn sorted_by(tk: Seq<(u64, Seq<u8>)>, perm: Seq<usize>) -> Seq<(u64, Seq<u8>)> {
    Seq::new(perm.len(), |k: int| tk[perm[k] as int])
}

/// Plans the warm-up at `now_ms`: the keys whose time parses are put in
/// stable time order; those older than the cutoff are deleted and the rest
/// reloaded in that order. Keys whose time does not parse are left alone.
pub fn warmup_plan(keys: &Vec<Vec<u8>>, now_ms: u64, retention_ms: u64) -> (plan: WarmupPlan)
    ensures
        exists|perm: Seq<usize>| #[trigger] warmup_matches(keys@, now_ms, retention_ms, perm, plan.remove@, plan.load@),
{
    let ghost tk = timed_keys(keys@);
    let mut pairs: Vec<(u64, Vec<u8>)> = Vec::new();
    let mut i: usize = 0;
    proof {
        assert(keys@.take(0) =~= Seq::<Vec<u8>>::empty());
        assert(pairs_view(pairs@) =~= Seq::<(u64, Seq<u8>)>::empty());
    }
    while i < keys.len()
        invariant
            i <= keys@.len(),
            pairs_view(pairs@) == timed_keys(keys@.take(i as int)),
        decreases keys@.len() - i,
    {
        proof {
            assert(keys@.take(i + 1).drop_last() =~= keys@.take(i as int));
            assert(keys@.take(i + 1).last() == keys@[i as int]);
        }
        match key_timestamp(keys[i].as_slice()) {
            Some(t) => {
                let ghost before = pairs_view(pairs@);
                pairs.push((t, crate::message::copy_bytes(&keys[i])));
                proof {
                    assert(pairs_view(pairs@) =~= before.push((t, keys@[i as int]@)));
                }
            },
            None => {},
        }
        i += 1;
    }
    proof {
        assert(keys@.take(keys@.len() as int) =~= keys@);
    }
    let mut ts: Vec<u64> = Vec::new();
    let mut j: usize = 0;
    while j < pairs.len()
        invariant
            j <= pairs@.len(),
            ts@ == times_of(pairs_view(pairs@)).take(j as int),
        decreases pairs@.len() - j,
    {
        ts.push(pairs[j].0);
        j += 1;
        proof {
            assert(ts@ =~= times_of(pairs_view(pairs@)).take(j as int));
        }
    }
    proof {
        assert(times_of(pairs_view(pairs@)).take(pairs@.len() as int) =~= times_of(pairs_view(pairs@)));
    }
    let perm = stable_sort_positions(&ts);
    let c: u64 = if now_ms >= retention_ms {
        now_ms - retention_ms
    } else {
        0
    };
    let ghost sorted = sorted_by(tk, perm@);
    let mut remove: Vec<Vec<u8>> = Vec::new();
    let mut load: Vec<(u64, Vec<u8>)> = Vec::new();
    let mut k: usize = 0;
    while k < perm.len() && pairs[perm[k]].0 < c
        invariant
            k <= perm@.len(),
            pairs_view(pairs@) == tk,
            stable_order(times_of(tk), perm@),
            sorted == sorted_by(tk, perm@),
            c == cutoff(now_ms, retention_ms),
            remove@.len() == k,
            forall|q: int| 0 <= q < k ==> (#[trigger] remove@[q])@ == sorted[q].1 && sorted[q].0 < c,
        decreases perm@.len() - k,
    {
        proof {
            assert(pairs_view(pairs@)[perm@[k as int] as int] == tk[perm@[k as int] as int]);
        }
        remove.push(crate::message::copy_bytes(&pairs[perm[k]].1));
        k += 1;
    }
    let m = k;
    proof {
        assert(load@.len() == 0);
        assert(pairs_view(load@) =~= sorted.skip(m as int).take(0));
    }
    while k < perm.len()
        invariant
            m <= k <= perm@.len(),
            pairs_view(pairs@) == tk,
            stable_order(times_of(tk), perm@),
            sorted == sorted_by(tk, perm@),
            c == cutoff(now_ms, retention_ms),
            m == perm@.len() || sorted[m as int].0 >= c,
            pairs_view(load@) == sorted.skip(m as int).take(k - m),
        decreases perm@.len() - k,
    {
        proof {
            assert(pairs_view(pairs@)[perm@[k as int] as int] == tk[perm@[k as int] as int]);
        }
        let ghost before = pairs_view(load@);
        load.push((pairs[perm[k]].0, crate::message::copy_bytes(&pairs[perm[k]].1)));
        k += 1;
        proof {
            assert(pairs_view(load@) =~= before.push(sorted[k - 1]));
            assert(sorted.skip(m as int).take(k - m) =~= sorted.skip(m as int).take(k - 1 - m).push(sorted[k - 1]));
        }
    }
    proof {
        assert(sorted.skip(m as int).take(perm@.len() - m) =~= sorted.skip(m as int));
        assert(remove@.len() == m);
        assert forall|q: int| m <= q < sorted.len() implies (#[trigger] sorted[q]).0 >= c by {
            if q > m {
                assert(lex_lt(times_of(tk)[perm@[m as int] as int], perm@[m as int] as int, times_of(tk)[perm@[q] as int], perm@[q] as int));
            }
        }
    }
    let plan = WarmupPlan { load, remove };
    proof {
        assert(warmup_matches(keys@, now_ms, retention_ms, perm@, plan.remove@, plan.load@));
    }
    plan
}

} // verus!
