//! The embedded key-value storage: its configured kind, the metadata kept
//! with each entry, and the big-endian counters it increments in place.
use vstd::prelude::*;

verus! {

/// The storage backend.
#[derive(Debug, Clone, Copy, PartialEq, Eq, Structural)]
pub enum StorageType {
    /// sled, the embedded database.
    Sled,
}

/// Reads the configured backend. sled is the only one; any name selects it.
pub fn parse_storage_type(name: &str) -> (t: StorageType)
    ensures
        t == StorageType::Sled,
{
    StorageType::Sled
}

/// What is kept about each stored entry.
pub struct Metadata {
    pub key: Vec<u8>,
    /// When the entry was written, in unix milliseconds.
    pub time: i64,
    /// The size of the entry's data.
    pub size: usize,
}

impl Metadata {
    pub fn new(key: Vec<u8>, time: i64, size: usize) -> (m: Metadata)
        ensures
            m.key@ == key@,
            m.time == time,
            m.size == size,
    {
        Metadata { key, time, size }
    }
}

/// The number that bytes `b` spell in big-endian order.
pub open spec fn be_value(b: Seq<u8>) -> nat
    decreases b.len(),
{
    if b.len() == 0 {
        0
    } else {
        be_value(b.drop_last()) * 256 + b.last() as nat
    }
}

proof fn lemma_be8(b: Seq<u8>)
    requires
        b.len() == 8,
    ensures
        be_value(b) == ((((((b[0] as nat * 256 + b[1] as nat) * 256 + b[2] as nat) * 256 + b[3] as nat) * 256
            + b[4] as nat) * 256 + b[5] as nat) * 256 + b[6] as nat) * 256 + b[7] as nat,
{
    reveal_with_fuel(be_value, 9);
    assert(b.drop_last().drop_last().drop_last().drop_last().drop_last().drop_last().drop_last().drop_last()
        =~= Seq::<u8>::empty());
}

/// The 8 big-endian bytes of `n`.
pub fn to_be_bytes8(n: u64) -> (v: Vec<u8>)
    ensures
        v@.len() == 8,
        be_value(v@) == n,
{
    let b0 = ((n >> 56u64) & 0xffu64) as u8;
    let b1 = ((n >> 48u64) & 0xffu64) as u8;
    let b2 = ((n >> 40u64) & 0xffu64) as u8;
    let b3 = ((n >> 32u64) & 0xffu64) as u8;
    let b4 = ((n >> 24u64) & 0xffu64) as u8;
    let b5 = ((n >> 16u64) & 0xffu64) as u8;
    let b6 = ((n >> 8u64) & 0xffu64) as u8;
    let b7 = (n & 0xffu64) as u8;
    proof {
        assert(((n >> 56u64) & 0xffu64) < 256) by (bit_vector);
        assert(((n >> 48u64) & 0xffu64) < 256) by (bit_vector);
        assert(((n >> 40u64) & 0xffu64) < 256) by (bit_vector);
        assert(((n >> 32u64) & 0xffu64) < 256) by (bit_vector);
        assert(((n >> 24u64) & 0xffu64) < 256) by (bit_vector);
        assert(((n >> 16u64) & 0xffu64) < 256) by (bit_vector);
        assert(((n >> 8u64) & 0xffu64) < 256) by (bit_vector);
        assert((n & 0xffu64) < 256) by (bit_vector);
        assert(((((((((n >> 56u64) & 0xffu64) * 256 + ((n >> 48u64) & 0xffu64)) * 256 + ((n >> 40u64) & 0xffu64)) * 256
            + ((n >> 32u64) & 0xffu64)) * 256 + ((n >> 24u64) & 0xffu64)) * 256 + ((n >> 16u64) & 0xffu64)) * 256
            + ((n >> 8u64) & 0xffu64)) * 256 + (n & 0xffu64) == n) by (bit_vector);
    }
    let mut v: Vec<u8> = Vec::new();
    v.push(b0);
    v.push(b1);
    v.push(b2);
    v.push(b3);
    v.push(b4);
    v.push(b5);
    v.push(b6);
    v.push(b7);
    proof {
        lemma_be8(v@);
    }
    v
}

/// The number that 8 big-endian bytes spell.
pub fn from_be_bytes8(b: &[u8]) -> (n: u64)
    requires
        b@.len() == 8,
    ensures
        n == be_value(b@),
{
    let b0 = b[0] as u64;
    let b1 = b[1] as u64;
    let b2 = b[2] as u64;
    let b3 = b[3] as u64;
    let b4 = b[4] as u64;
    let b5 = b[5] as u64;
    let b6 = b[6] as u64;
    let b7 = b[7] as u64;
    proof {
        lemma_be8(b@);
        assert(b0 < 256 && b1 < 256 && b2 < 256 && b3 < 256 && b4 < 256 && b5 < 256 && b6 < 256 && b7 < 256);
        assert((b0 << 56u64) | (b1 << 48u64) | (b2 << 40u64) | (b3 << 32u64) | (b4 << 24u64) | (b5 << 16u64) | (b6
            << 8u64) | b7 == ((((((b0 * 256 + b1) * 256 + b2) * 256 + b3) * 256 + b4) * 256 + b5) * 256 + b6) * 256
            + b7) by (bit_vector)
            requires
                b0 < 256 && b1 < 256 && b2 < 256 && b3 < 256 && b4 < 256 && b5 < 256 && b6 < 256 && b7 < 256,
        ;
    }
    (b0 << 56u64) | (b1 << 48u64) | (b2 << 40u64) | (b3 << 32u64) | (b4 << 24u64) | (b5 << 16u64) | (b6 << 8u64) | b7
}

/// The counter's next value: one more than the 8-byte big-endian number
/// stored, or 1 when nothing, or something not 8 bytes long, is stored.
pub open spec fn incremented(old: Option<Seq<u8>>) -> nat {
    match old {
        Some(b) => if b.len() == 8 {
            be_value(b) + 1
        } else {
            1
        },
        None => 1,
    }
}

/// Increments a counter stored as 8 big-endian bytes.
pub fn increment(old: Option<&[u8]>) -> (r: Option<Vec<u8>>)
    requires
        old matches Some(b) ==> (b@.len() == 8 ==> be_value(b@) < u64::MAX),
    ensures
        r matches Some(v) && v@.len() == 8 && be_value(v@) == incremented(
            match old {
                Some(b) => Some(b@),
                None => None,
            },
        ),
{
    let number: u64 = match old {
        Some(bytes) => {
            if bytes.len() == 8 {
                from_be_bytes8(bytes) + 1
            } else {
                1
            }
        },
        None => 1,
    };
    Some(to_be_bytes8(number))
}

/// The longest key a lookup accepts.
pub const MAX_KEY_LEN: usize = 255;

/// The tree key an entry is stored under: the entry's key, its encoded
/// metadata, and the key's length as a last byte (modulo 256).
pub open spec fn frame_spec(key: Seq<u8>, meta: Seq<u8>) -> Seq<u8> {
    key + meta + seq![(key.len() % 256) as u8]
}

/// Builds the tree key of an entry (see [`frame_spec`]).
pub fn frame_key(key: &[u8], meta: &[u8]) -> (k: Vec<u8>)
    ensures
        k@ == frame_spec(key@, meta@),
{
    let mut k = vstd::slice::slice_to_vec(key);
    let mut i: usize = 0;
    while i < meta.len()
        invariant
            i <= meta@.len(),
            k@ == key@ + meta@.take(i as int),
        decreases meta@.len() - i,
    {
        k.push(meta[i]);
        i += 1;
        proof {
            assert(key@ + meta@.take(i as int) =~= (key@ + meta@.take(i - 1)).push(meta@[i - 1]));
        }
    }
    proof {
        assert(meta@.take(meta@.len() as int) =~= meta@);
    }
    let n = (key.len() % 256) as u8;
    k.push(n);
    proof {
        assert(k@ =~= frame_spec(key@, meta@));
    }
    k
}

/// Why a lookup was refused.
#[derive(Debug, Clone, Copy, PartialEq, Eq, Structural)]
pub enum FrameError {
    KeyTooLong,
}

/// Whether tree key `stored`, found under prefix `key`, is the frame of an
/// entry with exactly that key: its last byte is the key's length.
pub fn frame_matches(key: &[u8], stored: &[u8]) -> (r: Result<bool, FrameError>)
    requires
        stored@.len() > 0,
    ensures
        key@.len() > MAX_KEY_LEN ==> (r matches Err(e) && e == FrameError::KeyTooLong),
        key@.len() <= MAX_KEY_LEN ==> (r matches Ok(b) && b == (stored@.last() == key@.len())),
{
    if key.len() > MAX_KEY_LEN {
        return Err(FrameError::KeyTooLong);
    }
    Ok(stored[stored.len() - 1] as usize == key.len())
}

/// The encoded metadata inside the frame of an entry with a key of
/// `key_len` bytes.
pub fn frame_metadata(key_len: usize, stored: &[u8]) -> (m: &[u8])
    requires
        key_len < stored@.len(),
    ensures
        m@ == stored@.subrange(key_len as int, stored@.len() - 1),
{
    vstd::slice::slice_subrange(stored, key_len, stored.len() - 1)
}

/// Reading an entry's frame back gives the metadata it was built with, and
/// it matches the entry's key.
pub proof fn law_frame_roundtrip(key: Seq<u8>, meta: Seq<u8>)
    requires
        key.len() <= MAX_KEY_LEN,
    ensures
        frame_spec(key, meta).last() == key.len(),
        frame_spec(key, meta).subrange(key.len() as int, frame_spec(key, meta).len() - 1) == meta,
        frame_spec(key, meta).subrange(0, key.len() as int) == key,
{
    assert(frame_spec(key, meta).subrange(key.len() as int, frame_spec(key, meta).len() - 1) =~= meta);
    assert(frame_spec(key, meta).subrange(0, key.len() as int) =~= key);
}

/// `@count@`.
pub open spec fn count_prefix() -> Seq<u8> {
    seq![64u8, 99u8, 111u8, 117u8, 110u8, 116u8, 64u8]
}

/// `@content@`.
pub open spec fn content_prefix() -> Seq<u8> {
    seq![64u8, 99u8, 111u8, 110u8, 116u8, 101u8, 110u8, 116u8, 64u8]
}

fn frame_body(p: &[u8], key: &[u8]) -> (r: Vec<u8>)
    ensures
        r@ == p@ + key@,
{
    let mut k = vstd::slice::slice_to_vec(p);
    let mut i: usize = 0;
    while i < key.len()
        invariant
            i <= key@.len(),
            k@ == p@ + key@.take(i as int),
        decreases key@.len() - i,
    {
        k.push(key[i]);
        i += 1;
        proof {
            assert(p@ + key@.take(i as int) =~= (p@ + key@.take(i - 1)).push(key@[i - 1]));
        }
    }
    proof {
        assert(key@.take(key@.len() as int) =~= key@);
    }
    k
}

/// The key an array's window is stored under: `@count@` and the array's key.
pub fn array_key_count(key: &[u8]) -> (k: Vec<u8>)
    ensures
        k@ == count_prefix() + key@,
{
    let p: [u8; 7] = [64u8, 99u8, 111u8, 117u8, 110u8, 116u8, 64u8];
    proof {
        assert(p@ =~= count_prefix());
    }
    frame_body(p.as_slice(), key)
}

/// The key item `idx` of an array is stored under: `@content@`, the
/// array's key, and the index as 8 big-endian bytes.
pub fn array_key_content(key: &[u8], idx: u64) -> (k: Vec<u8>)
    ensures
        k@.len() == (content_prefix().len() + key@.len()) as int + 8,
        k@.subrange(0, (content_prefix().len() + key@.len()) as int) == content_prefix() + key@,
        be_value(k@.subrange((content_prefix().len() + key@.len()) as int, k@.len() as int)) == idx,
{
    let p: [u8; 9] = [64u8, 99u8, 111u8, 110u8, 116u8, 101u8, 110u8, 116u8, 64u8];
    proof {
        assert(p@ =~= content_prefix());
    }
    let head = frame_body(p.as_slice(), key);
    let tail = to_be_bytes8(idx);
    let k = frame_body(head.as_slice(), tail.as_slice());
    proof {
        assert(k@.subrange(0, (content_prefix().len() + key@.len()) as int) =~= content_prefix() + key@);
        assert(k@.subrange((content_prefix().len() + key@.len()) as int, k@.len() as int) =~= tail@);
    }
    k
}

/// The window of a stored array: its items are at indices `start + 1`
/// through `end`, oldest first.
#[derive(Debug, Clone, Copy, PartialEq, Eq, Structural)]
pub struct ArrayWindow {
    pub start: u64,
    pub end: u64,
}

/// Why an array operation was refused.
#[derive(Debug, Clone, Copy, PartialEq, Eq, Structural)]
pub enum ArrayError {
    /// The array holds its limit and may not drop its oldest item.
    IsFull,
    /// No item at that position.
    IndexOutOfBounds,
}

/// The result of pushing onto an array that may be full.
pub struct PushLimited {
    /// The index whose item is dropped first, when the oldest goes.
    pub removed: Option<u64>,
    /// The index the new item is stored at.
    pub index: u64,
}

impl ArrayWindow {
    /// The window is well formed.
    pub open spec fn wf(self) -> bool {
        self.start <= self.end
    }

    /// How many items the array holds.
    pub fn len(&self) -> (n: u64)
        requires
            self.wf(),
        ensures
            n == self.end - self.start,
    {
        self.end - self.start
    }

    /// Pushes an item: it goes at index `end + 1`.
    pub fn push(&mut self) -> (idx: u64)
        requires
            old(self).wf(),
            old(self).end < u64::MAX,
        ensures
            final(self).wf(),
            idx == old(self).end + 1,
            *final(self) == (ArrayWindow { start: old(self).start, end: idx }),
    {
        self.end = self.end + 1;
        self.end
    }

    /// Pushes an item onto an array of at most `limit` items: when it is
    /// full, its oldest item (at `start + 1`) goes first if
    /// `pop_front_if_limited`, else the push is refused.
    pub fn push_limit(&mut self, limit: u64, pop_front_if_limited: bool) -> (r: Result<PushLimited, ArrayError>)
        requires
            old(self).wf(),
            old(self).end < u64::MAX,
        ensures
            final(self).wf(),
            old(self).end - old(self).start < limit ==> (r matches Ok(p) && p.removed is None && p.index
                == old(self).end + 1 && *final(self) == (ArrayWindow { start: old(self).start, end: (old(self).end + 1) as u64 })),
            old(self).end - old(self).start >= limit && pop_front_if_limited ==> (r matches Ok(p) && p.removed == Some(
                (old(self).start + 1) as u64,
            ) && p.index == old(self).end + 1),
            old(self).end - old(self).start >= limit && !pop_front_if_limited ==> (r matches Err(e) && e
                == ArrayError::IsFull && *final(self) == *old(self)),
    {
        let count = self.end - self.start;
        if count < limit {
            let index = self.push();
            Ok(PushLimited { removed: None, index })
        } else if pop_front_if_limited {
            let removed = self.start + 1;
            let index = self.push();
            Ok(PushLimited { removed: Some(removed), index })
        } else {
            Err(ArrayError::IsFull)
        }
    }

    /// Records that the oldest item was found and dropped.
    pub fn front_dropped(&mut self)
        requires
            old(self).wf(),
            old(self).start < old(self).end,
        ensures
            final(self).wf(),
            *final(self) == (ArrayWindow { start: (old(self).start + 1) as u64, end: old(self).end }),
    {
        self.start = self.start + 1;
    }

    /// Where item `idx` (0 for the oldest) is stored.
    pub fn item_index(&self, idx: u64) -> (r: Result<u64, ArrayError>)
        requires
            self.wf(),
        ensures
            idx < self.end - self.start ==> (r matches Ok(i) && i == self.start + idx + 1),
            idx >= self.end - self.start ==> (r matches Err(e) && e == ArrayError::IndexOutOfBounds),
    {
        if idx < self.end - self.start {
            Ok(self.start + idx + 1)
        } else {
            Err(ArrayError::IndexOutOfBounds)
        }
    }

    /// Where the oldest item is, if there is one (what a pop takes).
    pub fn front_index(&self) -> (r: Option<u64>)
        requires
            self.wf(),
        ensures
            r == if self.start < self.end {
                Some((self.start + 1) as u64)
            } else {
                None
            },
    {
        if self.end - self.start > 0 {
            Some(self.start + 1)
        } else {
            None
        }
    }
}

/// Items leave an array in the order they came: the item pushed first sits
/// at the front, and after the front is dropped the next one is there.
pub proof fn law_array_fifo(w: ArrayWindow)
    requires
        w.wf(),
        w.end < u64::MAX - 1,
    ensures
        ({
            let w1 = ArrayWindow { start: w.start, end: (w.end + 1) as u64 };
            let w2 = ArrayWindow { start: w1.start, end: (w1.end + 1) as u64 };
            &&& w.start == w.end ==> (w2.start + 1 == w1.end)
            &&& w2.end - w2.start == w.end - w.start + 2
        }),
{
}

/// `a / b` rounded toward zero, as integer division does.
pub open spec fn div_trunc(a: int, b: int) -> int {
    if a >= 0 {
        a / b
    } else {
        -((-a) / b)
    }
}

/// Whether a session record written at `meta_time_ms` is kept by the
/// startup cleanup at `now_secs`: a record older than a day is kept only
/// while its session's basic info is still stored.
pub fn keep_record(now_secs: i64, meta_time_ms: i64, has_basic: bool) -> (keep: bool)
    requires
        i64::MIN <= now_secs - div_trunc(meta_time_ms as int, 1000) <= i64::MAX,
    ensures
        keep == (!(now_secs - div_trunc(meta_time_ms as int, 1000) > 86_400) || has_basic),
{
    let t = meta_time_ms / 1000;
    if now_secs - t > 24 * 60 * 60 {
        has_basic
    } else {
        true
    }
}

} // verus!
