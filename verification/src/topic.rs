//! MQTT topic names and filters: splitting into levels, validation and
//! wildcard matching (`+` one level, `#` the rest, `$`-topics isolated from
//! wildcards in the first level).
use vstd::prelude::*;
use crate::text::{chars_eq, has_char};

verus! {

/// Why a topic or topic filter was refused.
#[derive(Debug, Clone, Copy, PartialEq, Eq, Structural)]
pub enum TopicError {
    /// A level holds `+` or `#` next to other characters.
    InvalidLevel,
    /// `#` is not the last level, or a `$` level is not the first one.
    InvalidTopic,
    /// A topic name (not a filter) holds a wildcard level.
    WildcardInName,
}

/// The levels of a string split at every `/` (as `str::split('/')` yields them).
pub open spec fn split_levels(s: Seq<char>) -> Seq<Seq<char>>
    decreases s.len(),
{
    if s.len() == 0 {
        seq![Seq::<char>::empty()]
    } else {
        let rest = split_levels(s.drop_last());
        if s.last() == '/' {
            rest.push(Seq::<char>::empty())
        } else {
            rest.update(rest.len() - 1, rest.last().push(s.last()))
        }
    }
}

pub proof fn lemma_split_nonempty(s: Seq<char>)
    ensures
        split_levels(s).len() >= 1,
    decreases s.len(),
{
    if s.len() > 0 {
        lemma_split_nonempty(s.drop_last());
    }
}

/// The character sequences of a vector of levels.
pub open spec fn levels_view(v: Seq<Vec<char>>) -> Seq<Seq<char>> {
    Seq::new(v.len(), |i: int| v[i]@)
}

pub open spec fn is_plus(l: Seq<char>) -> bool {
    l == seq!['+']
}

pub open spec fn is_hash(l: Seq<char>) -> bool {
    l == seq!['#']
}

pub open spec fn is_wildcard(l: Seq<char>) -> bool {
    is_plus(l) || is_hash(l)
}

pub open spec fn has_wild_char(l: Seq<char>) -> bool {
    l.contains('+') || l.contains('#')
}

/// A `$`-level (such as `$SYS`).
pub open spec fn is_metadata(l: Seq<char>) -> bool {
    l.len() > 0 && l[0] == '$'
}

/// A level that parses: a lone wildcard, or text without wildcard characters.
pub open spec fn valid_level(l: Seq<char>) -> bool {
    is_wildcard(l) || !has_wild_char(l)
}

/// Levels that form a valid topic filter: every level parses, `#` only
/// last, `$` levels only first.
pub open spec fn valid_levels(ls: Seq<Seq<char>>) -> bool {
    &&& forall|i: int| 0 <= i < ls.len() ==> valid_level(#[trigger] ls[i])
    &&& forall|i: int| 0 <= i < ls.len() && is_hash(#[trigger] ls[i]) ==> i == ls.len() - 1
    &&& forall|i: int| 0 < i < ls.len() ==> !is_metadata(#[trigger] ls[i])
}

/// Levels without any wildcard level.
pub open spec fn no_wildcards(ls: Seq<Seq<char>>) -> bool {
    forall|i: int| 0 <= i < ls.len() ==> !is_wildcard(#[trigger] ls[i])
}

/// What parsing a topic filter gives: its levels, or the error.
pub open spec fn parse_filter_spec(s: Seq<char>) -> Result<Seq<Seq<char>>, TopicError> {
    let ls = split_levels(s);
    if !(forall|i: int| 0 <= i < ls.len() ==> valid_level(#[trigger] ls[i])) {
        Err(TopicError::InvalidLevel)
    } else if !valid_levels(ls) {
        Err(TopicError::InvalidTopic)
    } else {
        Ok(ls)
    }
}

/// What parsing a topic name gives: a valid filter without wildcard levels.
pub open spec fn parse_name_spec(s: Seq<char>) -> Result<Seq<Seq<char>>, TopicError> {
    match parse_filter_spec(s) {
        Err(e) => Err(e),
        Ok(ls) => if no_wildcards(ls) {
            Ok(ls)
        } else {
            Err(TopicError::WildcardInName)
        },
    }
}

/// Whether filter levels `f` match topic levels `t`; `root` says whether
/// `f` and `t` start at the first level of the topic.
pub open spec fn filter_matches(f: Seq<Seq<char>>, t: Seq<Seq<char>>, root: bool) -> bool
    decreases f.len(),
{
    if f.len() == 0 {
        t.len() == 0
    } else if is_hash(f[0]) {
        !(root && t.len() > 0 && is_metadata(t[0]))
    } else if t.len() == 0 {
        false
    } else if is_plus(f[0]) {
        !(root && is_metadata(t[0])) && filter_matches(f.drop_first(), t.drop_first(), false)
    } else {
        f[0] == t[0] && filter_matches(f.drop_first(), t.drop_first(), false)
    }
}

/// Whether the filter `f` matches the topic `t` (both as levels).
pub open spec fn topic_matches(f: Seq<Seq<char>>, t: Seq<Seq<char>>) -> bool {
    filter_matches(f, t, true)
}

/// Splits a topic at `/` into its levels.
pub fn split_topic(s: &Vec<char>) -> (r: Vec<Vec<char>>)
    ensures
        levels_view(r@) == split_levels(s@),
{
    let mut levels: Vec<Vec<char>> = Vec::new();
    let mut cur: Vec<char> = Vec::new();
    let mut i: usize = 0;
    proof {
        assert(s@.take(0) =~= Seq::<char>::empty());
        assert(levels_view(levels@).push(cur@) =~= split_levels(s@.take(0)));
    }
    while i < s.len()
        invariant
            i <= s@.len(),
            levels_view(levels@).push(cur@) == split_levels(s@.take(i as int)),
        decreases s@.len() - i,
    {
        let c = s[i];
        let ghost prev = s@.take(i as int);
        proof {
            assert(s@.take(i + 1).drop_last() =~= prev);
            assert(s@.take(i + 1).last() == c);
            lemma_split_nonempty(prev);
        }
        if c == '/' {
            let old_cur = cur;
            levels.push(old_cur);
            cur = Vec::new();
            proof {
                assert(levels_view(levels@).push(cur@) =~= split_levels(prev).push(Seq::<char>::empty()));
            }
        } else {
            cur.push(c);
            proof {
                let sp = split_levels(prev);
                assert(levels_view(levels@).push(cur@) =~= sp.update(sp.len() - 1, sp.last().push(c)));
            }
        }
        i += 1;
    }
    levels.push(cur);
    proof {
        assert(s@.take(s@.len() as int) =~= s@);
        assert(levels_view(levels@) =~= split_levels(s@));
    }
    levels
}

fn exec_is_plus(l: &Vec<char>) -> (r: bool)
    ensures
        r == is_plus(l@),
{
    let r = l.len() == 1 && l[0] == '+';
    proof {
        if r {
            assert(l@ =~= seq!['+']);
        }
    }
    r
}

fn exec_is_hash(l: &Vec<char>) -> (r: bool)
    ensures
        r == is_hash(l@),
{
    let r = l.len() == 1 && l[0] == '#';
    proof {
        if r {
            assert(l@ =~= seq!['#']);
        }
    }
    r
}

fn exec_is_metadata(l: &Vec<char>) -> (r: bool)
    ensures
        r == is_metadata(l@),
{
    l.len() > 0 && l[0] == '$'
}

/// Parses a topic filter into its levels (`Topic::from_str`).
pub fn parse_filter(s: &Vec<char>) -> (r: Result<Vec<Vec<char>>, TopicError>)
    ensures
        match (r, parse_filter_spec(s@)) {
            (Ok(v), Ok(ls)) => levels_view(v@) == ls,
            (Err(e), Err(e2)) => e == e2,
            _ => false,
        },
{
    let ls = split_topic(s);
    let ghost gl = levels_view(ls@);
    let n = ls.len();
    let mut i: usize = 0;
    while i < n
        invariant
            n == ls@.len(),
            gl == levels_view(ls@),
            gl == split_levels(s@),
            i <= n,
            forall|k: int| 0 <= k < i ==> valid_level(#[trigger] gl[k]),
        decreases n - i,
    {
        let lvl = &ls[i];
        let ok = exec_is_plus(lvl) || exec_is_hash(lvl) || !(has_char(lvl, '+') || has_char(lvl, '#'));
        if !ok {
            proof {
                assert(gl[i as int] == ls@[i as int]@);
                assert(!valid_level(gl[i as int]));
                assert(gl == split_levels(s@));
            }
            return Err(TopicError::InvalidLevel);
        }
        proof {
            assert(gl[i as int] == ls@[i as int]@);
        }
        i += 1;
    }
    let mut j: usize = 0;
    while j < n
        invariant
            n == ls@.len(),
            gl == levels_view(ls@),
            gl == split_levels(s@),
            j <= n,
            forall|k: int| 0 <= k < n ==> valid_level(#[trigger] gl[k]),
            forall|k: int| 0 <= k < j && is_hash(#[trigger] gl[k]) ==> k == n - 1,
            forall|k: int| 0 < k < j ==> !is_metadata(#[trigger] gl[k]),
        decreases n - j,
    {
        let lvl = &ls[j];
        proof {
            assert(gl[j as int] == ls@[j as int]@);
        }
        if exec_is_hash(lvl) && j + 1 != n {
            proof {
                assert(gl == split_levels(s@));
                assert(is_hash(gl[j as int]));
            }
            return Err(TopicError::InvalidTopic);
        }
        if j > 0 && exec_is_metadata(lvl) {
            proof {
                assert(gl == split_levels(s@));
                assert(is_metadata(gl[j as int]));
            }
            return Err(TopicError::InvalidTopic);
        }
        j += 1;
    }
    proof {
        assert(gl == split_levels(s@));
        assert(valid_levels(gl));
    }
    Ok(ls)
}

/// Parses a topic name: a valid topic without `+` or `#` levels.
pub fn parse_name(s: &Vec<char>) -> (r: Result<Vec<Vec<char>>, TopicError>)
    ensures
        match (r, parse_name_spec(s@)) {
            (Ok(v), Ok(ls)) => levels_view(v@) == ls,
            (Err(e), Err(e2)) => e == e2,
            _ => false,
        },
{
    let ls = parse_filter(s)?;
    let ghost gl = levels_view(ls@);
    let mut i: usize = 0;
    proof {
        assert(parse_filter_spec(s@) == Ok::<Seq<Seq<char>>, TopicError>(gl));
    }
    while i < ls.len()
        invariant
            gl == levels_view(ls@),
            parse_filter_spec(s@) == Ok::<Seq<Seq<char>>, TopicError>(gl),
            i <= ls@.len(),
            forall|k: int| 0 <= k < i ==> !is_wildcard(#[trigger] gl[k]),
        decreases ls@.len() - i,
    {
        proof {
            assert(gl[i as int] == ls@[i as int]@);
        }
        if exec_is_plus(&ls[i]) || exec_is_hash(&ls[i]) {
            proof {
                assert(is_wildcard(gl[i as int]));
            }
            return Err(TopicError::WildcardInName);
        }
        i += 1;
    }
    Ok(ls)
}

proof fn lemma_matches_step(f: Seq<Seq<char>>, t: Seq<Seq<char>>, i: int)
    requires
        0 <= i < f.len(),
        i < t.len(),
        !is_hash(f[i]),
    ensures
        filter_matches(f.skip(i), t.skip(i), i == 0) == (
            (if is_plus(f[i]) { !(i == 0 && is_metadata(t[i])) } else { f[i] == t[i] })
            && filter_matches(f.skip(i + 1), t.skip(i + 1), false)),
{
    assert(f.skip(i).drop_first() =~= f.skip(i + 1));
    assert(t.skip(i).drop_first() =~= t.skip(i + 1));
    assert(f.skip(i)[0] == f[i]);
    assert(t.skip(i)[0] == t[i]);
}

/// Whether the filter levels `f` match the topic levels `t`.
pub fn levels_match(f: &Vec<Vec<char>>, t: &Vec<Vec<char>>) -> (r: bool)
    ensures
        r == topic_matches(levels_view(f@), levels_view(t@)),
{
    let ghost gf = levels_view(f@);
    let ghost gt = levels_view(t@);
    let mut i: usize = 0;
    proof {
        assert(gf.skip(0) =~= gf);
        assert(gt.skip(0) =~= gt);
    }
    loop
        invariant
            gf == levels_view(f@),
            gt == levels_view(t@),
            i <= f@.len(),
            i <= t@.len(),
            topic_matches(gf, gt) == filter_matches(gf.skip(i as int), gt.skip(i as int), i == 0),
        decreases f@.len() - i,
    {
        if i == f.len() {
            proof {
                assert(gf.skip(i as int).len() == 0);
            }
            return i == t.len();
        }
        proof {
            assert(gf[i as int] == f@[i as int]@);
            assert(gf.skip(i as int)[0] == gf[i as int]);
        }
        if exec_is_hash(&f[i]) {
            if i == 0 && t.len() > 0 {
                proof {
                    assert(gt[0] == t@[0]@);
                    assert(gt.skip(0)[0] == gt[0]);
                }
                return !exec_is_metadata(&t[0]);
            }
            return true;
        }
        if i == t.len() {
            proof {
                assert(gt.skip(i as int).len() == 0);
            }
            return false;
        }
        proof {
            assert(gt[i as int] == t@[i as int]@);
            lemma_matches_step(gf, gt, i as int);
        }
        if exec_is_plus(&f[i]) {
            if i == 0 && exec_is_metadata(&t[i]) {
                return false;
            }
        } else if !chars_eq(&f[i], &t[i]) {
            return false;
        }
        i += 1;
    }
}

/// Whether level list `t` is empty or its first level is no `$` level.
pub open spec fn plain_start(t: Seq<Seq<char>>) -> bool {
    t.len() == 0 || !is_metadata(t[0])
}

proof fn lemma_hash_suffix(p: Seq<Seq<char>>, q: Seq<Seq<char>>, root: bool)
    requires
        no_wildcards(p),
        root ==> plain_start(p + q),
    ensures
        filter_matches(p.push(seq!['#']), p + q, root),
    decreases p.len(),
{
    let f = p.push(seq!['#']);
    let t = p + q;
    if p.len() == 0 {
        assert(f[0] == seq!['#']);
        assert(t =~= q);
    } else {
        assert(f[0] == p[0]);
        assert(t[0] == p[0]);
        assert(!is_wildcard(p[0]));
        assert(f.drop_first() =~= p.drop_first().push(seq!['#']));
        assert(t.drop_first() =~= p.drop_first() + q);
        assert forall|i: int| 0 <= i < p.drop_first().len() implies !is_wildcard(#[trigger] p.drop_first()[i]) by {
            assert(p.drop_first()[i] == p[i + 1]);
        }
        lemma_hash_suffix(p.drop_first(), q, false);
    }
}

/// A multi-level wildcard matches the level it stands on and all below:
/// the filter `p/#` matches the topic `p` itself and every topic under it
/// (`p/q...`), for any topic levels `p` (whose first level is no `$` level).
pub proof fn law_hash_matches_parent_and_below(p: Seq<Seq<char>>, q: Seq<Seq<char>>)
    requires
        no_wildcards(p),
        plain_start(p + q),
    ensures
        topic_matches(p.push(seq!['#']), p),
        topic_matches(p.push(seq!['#']), p + q),
{
    lemma_hash_suffix(p, q, true);
    assert(p + Seq::<Seq<char>>::empty() =~= p);
    if p.len() > 0 {
        assert((p + Seq::<Seq<char>>::empty())[0] == (p + q)[0]);
    }
    lemma_hash_suffix(p, Seq::<Seq<char>>::empty(), true);
}

proof fn lemma_self_match(t: Seq<Seq<char>>, root: bool)
    requires
        no_wildcards(t),
    ensures
        filter_matches(t, t, root),
    decreases t.len(),
{
    if t.len() > 0 {
        assert(!is_wildcard(t[0]));
        assert forall|i: int| 0 <= i < t.drop_first().len() implies !is_wildcard(#[trigger] t.drop_first()[i]) by {
            assert(t.drop_first()[i] == t[i + 1]);
        }
        lemma_self_match(t.drop_first(), false);
    }
}

/// A topic name used as a filter matches exactly itself: it matches its own
/// levels, and no topic of another length.
pub proof fn law_name_filter_matches_itself(t: Seq<Seq<char>>, u: Seq<Seq<char>>)
    requires
        no_wildcards(t),
        u.len() != t.len(),
    ensures
        topic_matches(t, t),
        !topic_matches(t, u),
{
    lemma_self_match(t, true);
    lemma_no_wild_len(t, u, true);
}

proof fn lemma_no_wild_len(f: Seq<Seq<char>>, u: Seq<Seq<char>>, root: bool)
    requires
        no_wildcards(f),
        u.len() != f.len(),
    ensures
        !filter_matches(f, u, root),
    decreases f.len(),
{
    if f.len() > 0 && u.len() > 0 {
        assert(!is_wildcard(f[0]));
        assert forall|i: int| 0 <= i < f.drop_first().len() implies !is_wildcard(#[trigger] f.drop_first()[i]) by {
            assert(f.drop_first()[i] == f[i + 1]);
        }
        lemma_no_wild_len(f.drop_first(), u.drop_first(), false);
    }
}

} // verus!
