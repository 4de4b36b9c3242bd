//! A stored session's state flags and its activity clock: whether it was
//! resumed, belongs to a superuser, is connected, and whether it is being
//! moved out to storage.
use vstd::prelude::*;

verus! {

/// The session was resumed from a previous one.
pub const SESSION_PRESENT: u8 = 1;
/// The client is a superuser.
pub const SUPERUSER: u8 = 2;
/// The client is connected.
pub const CONNECTED: u8 = 4;
/// The session is being saved to storage and dropped from memory.
pub const REMOVE_AND_SAVE: u8 = 8;

/// A set of flags, one per bit.
#[derive(Debug, Clone, Copy, PartialEq, Eq, Structural)]
pub struct StateFlags {
    pub bits: u8,
}

/// What `equal_exchange` makes of `v`: when the masked bits of `v` equal
/// those of `current`, those bits are cleared and the masked bits of `new`
/// set; otherwise nothing changes.
pub open spec fn exchanged(v: u8, current: u8, new: u8, mask: u8) -> Option<u8> {
    let flags = current & mask;
    if v & mask == flags {
        Some((v & !flags) | (new & mask))
    } else {
        None
    }
}

impl StateFlags {
    /// No flag set.
    pub fn empty() -> (f: StateFlags)
        ensures
            f.bits == 0,
    {
        StateFlags { bits: 0 }
    }

    /// Every flag set.
    pub fn all() -> (f: StateFlags)
        ensures
            f.bits == 0xff,
    {
        StateFlags { bits: 0xff }
    }

    /// The flags of a new session.
    pub fn initial(session_present: bool, superuser: bool, connected: bool) -> (f: StateFlags)
        ensures
            f.contains(SESSION_PRESENT) == session_present,
            f.contains(SUPERUSER) == superuser,
            f.contains(CONNECTED) == connected,
            !f.contains(REMOVE_AND_SAVE),
    {
        let x: u8 = if session_present {
            SESSION_PRESENT
        } else {
            0
        };
        let y: u8 = if superuser {
            SUPERUSER
        } else {
            0
        };
        let z: u8 = if connected {
            CONNECTED
        } else {
            0
        };
        let bits = x | y | z;
        proof {
            assert((bits & 1u8 == 1u8) == (x == 1u8) && (bits & 2u8 == 2u8) == (y == 2u8) && (bits & 4u8 == 4u8) == (z
                == 4u8) && (bits & 8u8 != 8u8)) by (bit_vector)
                requires
                    bits == x | y | z,
                    x == 1u8 || x == 0u8,
                    y == 2u8 || y == 0u8,
                    z == 4u8 || z == 0u8,
            ;
        }
        let f = StateFlags { bits };
        f
    }

    /// The flag bits.
    pub fn get(&self) -> (b: u8)
        ensures
            b == self.bits,
    {
        self.bits
    }

    /// Sets the flags in `other`.
    pub fn insert(&mut self, other: u8)
        ensures
            final(self).bits == old(self).bits | other,
    {
        self.bits = self.bits | other;
    }

    /// Whether all the flags in `other` are set.
    pub open spec fn contains(&self, other: u8) -> bool {
        self.bits & other == other
    }

    /// Whether all the flags in `other` are set.
    pub fn has(&self, other: u8) -> (r: bool)
        ensures
            r == self.contains(other),
    {
        self.bits & other == other
    }

    /// The flags set here and not in `other`.
    pub fn difference(&self, other: u8) -> (r: u8)
        ensures
            r == self.bits & !other,
    {
        self.bits & !other
    }

    /// Clears the flags in `other`.
    pub fn remove(&mut self, other: u8)
        ensures
            final(self).bits == old(self).bits & !other,
    {
        self.bits = self.difference(other);
    }

    /// Updates the masked flags from `current` to `new` when they are as in
    /// `current` (see [`exchanged`]): `Ok` with the previous bits then,
    /// `Err` with the bits, left unchanged, otherwise.
    pub fn equal_exchange(&mut self, current: u8, new: u8, mask: u8) -> (r: Result<u8, u8>)
        ensures
            match exchanged(old(self).bits, current, new, mask) {
                Some(b) => (r matches Ok(x) && x == old(self).bits) && final(self).bits == b,
                None => (r matches Err(x) && x == old(self).bits) && final(self).bits == old(self).bits,
            },
    {
        let v = self.bits;
        let flags = current & mask;
        if v & mask == flags {
            self.bits = (v & !flags) | (new & mask);
            Ok(v)
        } else {
            Err(v)
        }
    }
}

/// Setting flags makes them present.
pub proof fn law_insert_then_contains(b: u8, other: u8)
    ensures
        (b | other) & other == other,
{
    assert((b | other) & other == other) by (bit_vector);
}

/// Clearing a flag makes it absent, and leaves the others as they were.
pub proof fn law_remove_then_absent(b: u8, other: u8, keep: u8)
    requires
        other != 0,
        keep & other == 0,
    ensures
        (b & !other) & other != other,
        ((b & !other) & keep == keep) == (b & keep == keep),
{
    assert((b & !other) & other != other) by (bit_vector)
        requires
            other != 0,
    ;
    assert(((b & !other) & keep == keep) == (b & keep == keep)) by (bit_vector)
        requires
            keep & other == 0,
    ;
}

/// Moving a session out to storage happens once: the exchange that marks
/// it succeeds only while it is unmarked, and a second one then fails.
pub proof fn law_remove_and_save_once(b: u8)
    ensures
        exchanged(b, !REMOVE_AND_SAVE, REMOVE_AND_SAVE, REMOVE_AND_SAVE) is Some <==> b & REMOVE_AND_SAVE == 0,
        exchanged(b, !REMOVE_AND_SAVE, REMOVE_AND_SAVE, REMOVE_AND_SAVE) matches Some(b2) ==> b2 & REMOVE_AND_SAVE
            == REMOVE_AND_SAVE && exchanged(b2, !REMOVE_AND_SAVE, REMOVE_AND_SAVE, REMOVE_AND_SAVE) is None,
{
    assert((b & 8u8 == (!8u8) & 8u8) <==> b & 8u8 == 0) by (bit_vector);
    let b2 = (b & !((!8u8) & 8u8)) | (8u8 & 8u8);
    assert(b2 & 8u8 == 8u8) by (bit_vector)
        requires
            b2 == (b & !((!8u8) & 8u8)) | (8u8 & 8u8),
    ;
    assert(b2 & 8u8 != (!8u8) & 8u8) by (bit_vector)
        requires
            b2 & 8u8 == 8u8,
    ;
}

/// Whether the last activity time is to be saved: when asked to, or when
/// the last save is more than a minute old.
pub fn should_save_last_time(save_enable: bool, time: i64, old: i64) -> (r: bool)
    requires
        i64::MIN <= time - old <= i64::MAX,
    ensures
        r == (save_enable || time - old > 60_000),
{
    save_enable || (time - old) > 1000 * 60
}

/// Whether a session has been idle for more than three minutes at `now`.
pub fn is_inactive(now: i64, last_time: i64) -> (r: bool)
    requires
        i64::MIN <= now - last_time <= i64::MAX,
    ensures
        r == (now - last_time > 180_000),
{
    (now - last_time) > 1000 * 60 * 3
}

/// What a keep-alive does: on a ping from a session idle for more than
/// three minutes, the session is first moved out to storage; the last
/// activity time is then updated, and saved at once on a ping.
pub struct KeepalivePlan {
    pub remove_and_save: bool,
    pub save_last_time: bool,
}

/// Plans a keep-alive (`ping` or other activity) at `now` for a session
/// last active at `last_time`.
pub fn keepalive_plan(ping: bool, now: i64, last_time: i64) -> (p: KeepalivePlan)
    requires
        i64::MIN <= now - last_time <= i64::MAX,
    ensures
        p.remove_and_save == (ping && now - last_time > 180_000),
        p.save_last_time == ping,
{
    if ping {
        KeepalivePlan { remove_and_save: is_inactive(now, last_time), save_last_time: true }
    } else {
        KeepalivePlan { remove_and_save: false, save_last_time: false }
    }
}

/// How a session ended: when, why (each reason as text, in order), and the
/// MQTT DISCONNECT packet's reason, when the client sent one.
pub struct DisconnectInfo {
    pub disconnected_at: i64,
    pub reasons: Vec<String>,
    pub mqtt_disconnect: Option<String>,
}

pub open spec fn strings(v: Seq<String>) -> Seq<Seq<char>> {
    Seq::new(v.len(), |i: int| v[i]@)
}

pub open spec fn opt_text(o: Option<String>) -> Option<Seq<char>> {
    match o {
        Some(s) => Some(s@),
        None => None,
    }
}

/// `rs` with the optional reasons `d` and then `r` appended.
pub open spec fn with_reasons(rs: Seq<Seq<char>>, d: Option<Seq<char>>, r: Option<Seq<char>>) -> Seq<Seq<char>> {
    let a = match d {
        Some(x) => rs.push(x),
        None => rs,
    };
    match r {
        Some(y) => a.push(y),
        None => a,
    }
}

impl DisconnectInfo {
    /// Records that the session disconnected at `now`, the client having
    /// sent a DISCONNECT with reason `d` or not, for reason `reason` if
    /// given. Only the first disconnect of a connected session stamps the
    /// time and clears `CONNECTED`; the reasons always accumulate.
    pub fn disconnected_set(&mut self, flags: &mut StateFlags, now: i64, d: Option<String>, reason: Option<String>)
        ensures
            old(flags).contains(CONNECTED) ==> final(self).disconnected_at == now,
            old(flags).contains(CONNECTED) ==> final(flags).bits == old(flags).bits & !CONNECTED,
            !old(flags).contains(CONNECTED) ==> final(self).disconnected_at == old(self).disconnected_at,
            !old(flags).contains(CONNECTED) ==> final(flags).bits == old(flags).bits,
            strings(final(self).reasons@) == with_reasons(strings(old(self).reasons@), opt_text(d), opt_text(reason)),
            opt_text(final(self).mqtt_disconnect) == match d {
                Some(x) => Some(x@),
                None => opt_text(old(self).mqtt_disconnect),
            },
    {
        if flags.has(CONNECTED) {
            self.disconnected_at = now;
            flags.remove(CONNECTED);
        }
        let ghost r0 = strings(self.reasons@);
        match d {
            Some(x) => {
                self.reasons.push(crate::message::copy_string(&x));
                self.mqtt_disconnect = Some(x);
                proof {
                    assert(strings(self.reasons@) =~= r0.push(x@));
                }
            },
            None => {
                assert(strings(self.reasons@) =~= r0);
            },
        }
        let ghost r1 = strings(self.reasons@);
        match reason {
            Some(y) => {
                self.reasons.push(y);
                proof {
                    assert(strings(self.reasons@) =~= r1.push(y@));
                }
            },
            None => {},
        }
    }

    /// Adds a reason.
    pub fn reason_add(&mut self, r: String)
        ensures
            strings(final(self).reasons@) == strings(old(self).reasons@).push(r@),
            final(self).disconnected_at == old(self).disconnected_at,
            final(self).mqtt_disconnect == old(self).mqtt_disconnect,
    {
        let ghost r0 = strings(self.reasons@);
        self.reasons.push(r);
        proof {
            assert(strings(self.reasons@) =~= r0.push(r@));
        }
    }

    /// Takes all reasons, in order, leaving none.
    pub fn reason_take(&mut self) -> (r: Vec<String>)
        ensures
            r@ == old(self).reasons@,
            final(self).reasons@.len() == 0,
            final(self).disconnected_at == old(self).disconnected_at,
            final(self).mqtt_disconnect == old(self).mqtt_disconnect,
    {
        let mut out: Vec<String> = Vec::new();
        std::mem::swap(&mut out, &mut self.reasons);
        out
    }

    /// Whether any reason is recorded.
    pub fn reason_has(&self) -> (r: bool)
        ensures
            r == (self.reasons@.len() > 0),
    {
        self.reasons.len() > 0
    }
}

/// The reasons taken after adding one are those held before and then it.
pub proof fn law_take_returns_added(before: Seq<Seq<char>>, added: Seq<char>, taken: Seq<Seq<char>>)
    requires
        taken == before.push(added),
    ensures
        taken.len() == before.len() + 1,
        taken.last() == added,
        taken.drop_last() == before,
{
    assert(taken.drop_last() =~= before);
}

/// A session disconnects once: after the first disconnect it is no longer
/// `CONNECTED`, so a second one keeps the first time.
pub proof fn law_disconnect_stamped_once(bits: u8)
    ensures
        (bits & !CONNECTED) & CONNECTED != CONNECTED,
{
    assert((bits & !4u8) & 4u8 != 4u8) by (bit_vector);
}

} // verus!
