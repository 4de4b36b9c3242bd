//! Point-to-point messaging: a message published on `p2p/{clientid}/{topic}`
//! (prefix mode) or `{topic}/p2p/{clientid}` (suffix mode) is delivered on
//! `{topic}` to client `{clientid}` only.
use vstd::prelude::*;
use crate::message::{Publish, PublishView};
use crate::text::{push_all, str_chars, string_from_chars};
use crate::topic::{levels_view, split_levels, split_topic};

verus! {

/// Where the `p2p` level stands in a point-to-point topic.
#[derive(Debug, Clone, Copy, PartialEq, Eq, Structural)]
pub enum Mode {
    /// `p2p/{clientid}/{topic}`.
    Prefix,
    /// `{topic}/p2p/{clientid}`.
    Suffix,
    /// Either form.
    Both,
}

/// Why a point-to-point topic was refused.
#[derive(Debug, Clone, Copy, PartialEq, Eq, Structural)]
pub enum P2PError {
    /// The client id level is empty.
    ClientIdNotFound,
    /// Nothing is left of the topic.
    SubTopicNotFound,
}

/// A point-to-point topic taken apart.
pub struct P2PMatch {
    pub clientid: String,
    pub topic: String,
}

/// The default mode.
pub fn mode_default() -> (m: Mode)
    ensures
        m == Mode::Prefix,
{
    Mode::Prefix
}

/// Reads a configured mode: `prefix`, `suffix` or `both`.
pub fn parse_mode(name: &str) -> (m: Option<Mode>)
    ensures
        m == (if name@ == seq!['p', 'r', 'e', 'f', 'i', 'x'] {
            Some(Mode::Prefix)
        } else if name@ == seq!['s', 'u', 'f', 'f', 'i', 'x'] {
            Some(Mode::Suffix)
        } else if name@ == seq!['b', 'o', 't', 'h'] {
            Some(Mode::Both)
        } else {
            None
        }),
{
    let s = str_chars(name);
    let p = str_chars("prefix");
    let x = str_chars("suffix");
    let b = str_chars("both");
    proof {
        reveal_strlit("prefix");
        reveal_strlit("suffix");
        reveal_strlit("both");
        assert(p@ =~= seq!['p', 'r', 'e', 'f', 'i', 'x']);
        assert(x@ =~= seq!['s', 'u', 'f', 'f', 'i', 'x']);
        assert(b@ =~= seq!['b', 'o', 't', 'h']);
    }
    if crate::text::chars_eq(&s, &p) {
        Some(Mode::Prefix)
    } else if crate::text::chars_eq(&s, &x) {
        Some(Mode::Suffix)
    } else if crate::text::chars_eq(&s, &b) {
        Some(Mode::Both)
    } else {
        None
    }
}

/// The name a mode is configured by.
pub fn mode_name(m: Mode) -> (r: &'static str)
    ensures
        r@ == match m {
            Mode::Prefix => "prefix"@,
            Mode::Suffix => "suffix"@,
            Mode::Both => "both"@,
        },
{
    match m {
        Mode::Prefix => "prefix",
        Mode::Suffix => "suffix",
        Mode::Both => "both",
    }
}

/// Levels joined with `/`.
pub open spec fn join_levels(ls: Seq<Seq<char>>) -> Seq<char>
    decreases ls.len(),
{
    if ls.len() == 0 {
        Seq::empty()
    } else if ls.len() == 1 {
        ls[0]
    } else {
        join_levels(ls.drop_last()) + seq!['/'] + ls.last()
    }
}

pub open spec fn p2p_level() -> Seq<char> {
    seq!['p', '2', 'p']
}

/// The (client id, topic) a point-to-point topic names in `mode`, if it is one.
pub open spec fn p2p_parts(mode: Mode, t: Seq<char>) -> Option<(Seq<char>, Seq<char>)> {
    let parts = split_levels(t);
    let n = parts.len();
    if mode != Mode::Suffix && n >= 3 && parts[0] == p2p_level() {
        Some((parts[1], join_levels(parts.skip(2))))
    } else if mode != Mode::Prefix && n >= 3 && parts[n - 2] == p2p_level() {
        Some((parts[n - 1], join_levels(parts.take(n - 2))))
    } else {
        None
    }
}

/// What parsing a point-to-point topic gives: `None` for an ordinary topic,
/// an error when the client id or the topic is empty.
pub open spec fn p2p_spec(mode: Mode, t: Seq<char>) -> Result<Option<(Seq<char>, Seq<char>)>, P2PError> {
    match p2p_parts(mode, t) {
        None => Ok(None),
        Some((c, topic)) => if c.len() == 0 {
            Err(P2PError::ClientIdNotFound)
        } else if topic.len() == 0 {
            Err(P2PError::SubTopicNotFound)
        } else {
            Ok(Some((c, topic)))
        },
    }
}

fn join(ls: &Vec<Vec<char>>, a: usize, b: usize) -> (r: Vec<char>)
    requires
        a <= b <= ls@.len(),
    ensures
        r@ == join_levels(levels_view(ls@).subrange(a as int, b as int)),
{
    let ghost lv = levels_view(ls@);
    let mut r: Vec<char> = Vec::new();
    let mut k = a;
    proof {
        assert(lv.subrange(a as int, a as int) =~= Seq::<Seq<char>>::empty());
    }
    while k < b
        invariant
            a <= k <= b,
            b <= ls@.len(),
            lv == levels_view(ls@),
            r@ == join_levels(lv.subrange(a as int, k as int)),
        decreases b - k,
    {
        let ghost prev = lv.subrange(a as int, k as int);
        proof {
            assert(lv.subrange(a as int, k + 1).drop_last() =~= prev);
            assert(lv.subrange(a as int, k + 1).last() == lv[k as int]);
            assert(lv[k as int] == ls@[k as int]@);
        }
        if k > a {
            r.push('/');
        }
        push_all(&mut r, &ls[k]);
        proof {
            if k > a {
                assert(r@ =~= join_levels(prev) + seq!['/'] + lv[k as int]);
            } else {
                assert(prev.len() == 0);
                assert(r@ =~= lv[k as int]);
                assert(lv.subrange(a as int, k + 1) =~= seq![lv[k as int]]);
            }
        }
        k += 1;
    }
    r
}

fn is_p2p(l: &Vec<char>) -> (r: bool)
    ensures
        r == (l@ == p2p_level()),
{
    let r = l.len() == 3 && l[0] == 'p' && l[1] == '2' && l[2] == 'p';
    proof {
        if r {
            assert(l@ =~= p2p_level());
        }
    }
    r
}

/// Takes a point-to-point topic apart (see [`p2p_spec`]).
pub fn parse_p2p_topic(mode: Mode, topic: &str) -> (r: Result<Option<P2PMatch>, P2PError>)
    ensures
        match p2p_spec(mode, topic@) {
            Ok(None) => r matches Ok(x) && x is None,
            Ok(Some((c, t))) => r matches Ok(x) && x matches Some(m) && m.clientid@ == c && m.topic@ == t,
            Err(e) => r matches Err(e2) && e2 == e,
        },
{
    let cs = str_chars(topic);
    let parts = split_topic(&cs);
    let ghost pv = split_levels(topic@);
    let n = parts.len();
    proof {
        assert(levels_view(parts@) == pv);
        assert(pv.len() == n);
        assert(levels_view(parts@).subrange(2, n as int) =~= pv.skip(2));
        assert(levels_view(parts@).subrange(0, n - 2) =~= pv.take(n - 2));
    }
    let prefix_ok = mode != Mode::Suffix && n >= 3 && is_p2p(&parts[0]);
    let m = if prefix_ok {
        proof {
            assert(pv[0] == parts@[0]@);
            assert(pv[1] == parts@[1]@);
        }
        let c = crate::message::chars_to_string(&parts[1]);
        let t = join(&parts, 2, n);
        Some((c, t))
    } else if mode != Mode::Prefix && n >= 3 && is_p2p(&parts[n - 2]) {
        proof {
            assert(pv[n - 2] == parts@[n - 2]@);
            assert(pv[n - 1] == parts@[n - 1]@);
            if mode != Mode::Suffix && n >= 3 {
                assert(pv[0] == parts@[0]@);
            }
        }
        let c = crate::message::chars_to_string(&parts[n - 1]);
        let t = join(&parts, 0, n - 2);
        Some((c, t))
    } else {
        proof {
            if mode != Mode::Suffix && n >= 3 {
                assert(pv[0] == parts@[0]@);
            }
            if mode != Mode::Prefix && n >= 3 {
                assert(pv[n - 2] == parts@[n - 2]@);
            }
        }
        None
    };
    match m {
        None => Ok(None),
        Some((c, t)) => {
            if c.as_str().unicode_len() == 0 {
                Err(P2PError::ClientIdNotFound)
            } else if t.len() == 0 {
                Err(P2PError::SubTopicNotFound)
            } else {
                Ok(Some(P2PMatch { clientid: c, topic: string_from_chars(&t) }))
            }
        },
    }
}

/// A published message rewritten for point-to-point delivery: sent on the
/// topic inside and only to the named client. `None` for an ordinary topic,
/// or one refused (the message then goes out unchanged).
pub fn p2p_publish(mode: Mode, p: &Publish) -> (r: Option<Publish>)
    ensures
        match p2p_spec(mode, p@.topic) {
            Ok(Some((c, t))) => r matches Some(q) && q@ == (PublishView { topic: t, target_clientid: Some(c), ..p@ }),
            _ => r is None,
        },
{
    match parse_p2p_topic(mode, p.topic.as_str()) {
        Ok(Some(m)) => {
            let mut q = p.copy();
            q.topic = m.topic;
            q.target_clientid = Some(m.clientid);
            Some(q)
        },
        _ => None,
    }
}

} // verus!
