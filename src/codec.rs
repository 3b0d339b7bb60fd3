//! Fixed-width little-endian encoding of the integers that make up an entry.

use vstd::prelude::*;

use crate::ring_buffer::{NsSinceEpoch, Record};
use crate::traits::{ThreadId, TraceKind};

verus! {

/// The four bytes of `x`, least significant first.
#[verifier::opaque]
pub open spec fn u32_le(x: u32) -> Seq<u8> {
    seq![
        (x & 0xff) as u8,
        ((x >> 8u32) & 0xff) as u8,
        ((x >> 16u32) & 0xff) as u8,
        ((x >> 24u32) & 0xff) as u8,
    ]
}

/// The integer whose little-endian bytes are the first four of `b`.
#[verifier::opaque]
pub open spec fn u32_from_le(b: Seq<u8>) -> u32 {
    (b[0] as u32) | ((b[1] as u32) << 8u32) | ((b[2] as u32) << 16u32) | ((b[3] as u32) << 24u32)
}

/// The eight bytes of `x`, least significant first.
#[verifier::opaque]
pub open spec fn u64_le(x: u64) -> Seq<u8> {
    seq![
        (x & 0xff) as u8,
        ((x >> 8u64) & 0xff) as u8,
        ((x >> 16u64) & 0xff) as u8,
        ((x >> 24u64) & 0xff) as u8,
        ((x >> 32u64) & 0xff) as u8,
        ((x >> 40u64) & 0xff) as u8,
        ((x >> 48u64) & 0xff) as u8,
        ((x >> 56u64) & 0xff) as u8,
    ]
}

/// The integer whose little-endian bytes are the first eight of `b`.
#[verifier::opaque]
pub open spec fn u64_from_le(b: Seq<u8>) -> u64 {
    (b[0] as u64) | ((b[1] as u64) << 8u64) | ((b[2] as u64) << 16u64) | ((b[3] as u64) << 24u64)
        | ((b[4] as u64) << 32u64) | ((b[5] as u64) << 40u64) | ((b[6] as u64) << 48u64) | ((b[7]
        as u64) << 56u64)
}

pub proof fn lemma_u32_round_trip(x: u32)
    ensures
        u32_le(x).len() == 4,
        u32_from_le(u32_le(x)) == x,
{
    reveal(u32_le);
    reveal(u32_from_le);
    assert(((x & 0xff) as u8) as u32 | ((((x >> 8u32) & 0xff) as u8) as u32) << 8u32 | ((((x
        >> 16u32) & 0xff) as u8) as u32) << 16u32 | ((((x >> 24u32) & 0xff) as u8) as u32)
        << 24u32 == x) by (bit_vector);
}

pub proof fn lemma_u64_round_trip(x: u64)
    ensures
        u64_le(x).len() == 8,
        u64_from_le(u64_le(x)) == x,
{
    reveal(u64_le);
    reveal(u64_from_le);
    assert(((x & 0xff) as u8) as u64 | ((((x >> 8u64) & 0xff) as u8) as u64) << 8u64 | ((((x
        >> 16u64) & 0xff) as u8) as u64) << 16u64 | ((((x >> 24u64) & 0xff) as u8) as u64)
        << 24u64 | ((((x >> 32u64) & 0xff) as u8) as u64) << 32u64 | ((((x >> 40u64) & 0xff)
        as u8) as u64) << 40u64 | ((((x >> 48u64) & 0xff) as u8) as u64) << 48u64 | ((((x
        >> 56u64) & 0xff) as u8) as u64) << 56u64 == x) by (bit_vector);
}

proof fn lemma_le_lengths()
    ensures
        forall|x: u32| #[trigger] u32_le(x).len() == 4,
        forall|x: u64| #[trigger] u64_le(x).len() == 8,
{
    reveal(u32_le);
    reveal(u64_le);
}

/// Appends the four little-endian bytes of `x` to `out`.
pub fn push_u32(out: &mut Vec<u8>, x: u32)
    ensures
        final(out)@ == old(out)@ + u32_le(x),
{
    reveal(u32_le);
    out.push((x & 0xff) as u8);
    out.push(((x >> 8u32) & 0xff) as u8);
    out.push(((x >> 16u32) & 0xff) as u8);
    out.push(((x >> 24u32) & 0xff) as u8);
    assert(out@ =~= old(out)@ + u32_le(x));
}

} // verus!

verus! {

/// Appends the eight little-endian bytes of `x` to `out`.
pub fn push_u64(out: &mut Vec<u8>, x: u64)
    ensures
        final(out)@ == old(out)@ + u64_le(x),
{
    reveal(u64_le);
    out.push((x & 0xff) as u8);
    out.push(((x >> 8u64) & 0xff) as u8);
    out.push(((x >> 16u64) & 0xff) as u8);
    out.push(((x >> 24u64) & 0xff) as u8);
    out.push(((x >> 32u64) & 0xff) as u8);
    out.push(((x >> 40u64) & 0xff) as u8);
    out.push(((x >> 48u64) & 0xff) as u8);
    out.push(((x >> 56u64) & 0xff) as u8);
    assert(out@ =~= old(out)@ + u64_le(x));
}

/// Reads the little-endian `u32` at offset `o` of `b`.
pub fn read_u32(b: &Vec<u8>, o: usize) -> (r: u32)
    requires
        o + 4 <= b.len(),
    ensures
        r == u32_at(b@, o as int),
{
    reveal(u32_from_le);
    (b[o] as u32) | ((b[o + 1] as u32) << 8u32) | ((b[o + 2] as u32) << 16u32) | ((b[o + 3]
        as u32) << 24u32)
}

/// Reads the little-endian `u64` at offset `o` of `b`.
pub fn read_u64(b: &Vec<u8>, o: usize) -> (r: u64)
    requires
        o + 8 <= b.len(),
    ensures
        r == u64_at(b@, o as int),
{
    reveal(u64_from_le);
    (b[o] as u64) | ((b[o + 1] as u64) << 8u64) | ((b[o + 2] as u64) << 16u64) | ((b[o + 3]
        as u64) << 24u64) | ((b[o + 4] as u64) << 32u64) | ((b[o + 5] as u64) << 40u64) | ((b[o
        + 6] as u64) << 48u64) | ((b[o + 7] as u64) << 56u64)
}

/// The number of bytes of one encoded entry.
///
/// Layout, offsets in bytes, integers little-endian, each presence flag a
/// 64-bit word holding 0 or 1:
///
/// | offset | width | field                                   |
/// |--------|-------|-----------------------------------------|
/// | 0      | 8     | `why` present                           |
/// | 8      | 8     | `why` thread present                    |
/// | 16     | 8     | `why` thread number                     |
/// | 24     | 4     | `why` id                                |
/// | 28     | 4     | reserved, zero                          |
/// | 32     | 8     | thread present                          |
/// | 40     | 8     | thread number                           |
/// | 48     | 4     | id                                      |
/// | 52     | 4     | tag                                     |
/// | 56     | 8     | timestamp                               |
/// | 64     | 1     | kind: 0 event, 1 start, 2 stop          |
pub const ENTRY_SIZE: usize = 65;

/// A presence flag.
pub open spec fn flag_le(present: bool) -> Seq<u8> {
    u64_le(if present { 1u64 } else { 0u64 })
}

/// An optional thread: its presence flag, then its number.
pub open spec fn thread_le(t: Option<ThreadId>) -> Seq<u8> {
    match t {
        Some(x) => flag_le(true) + u64_le(x.0 as u64),
        None => flag_le(false) + u64_le(0),
    }
}

/// The `why` field: its presence flag, its thread, its id and four reserved bytes.
pub open spec fn why_le(w: Option<(Option<ThreadId>, u32)>) -> Seq<u8> {
    match w {
        Some((t, n)) => flag_le(true) + thread_le(t) + u32_le(n) + u32_le(0),
        None => flag_le(false) + thread_le(None) + u32_le(0) + u32_le(0),
    }
}

pub open spec fn kind_byte(k: TraceKind) -> u8 {
    match k {
        TraceKind::Event => 0,
        TraceKind::Start => 1,
        TraceKind::Stop => 2,
    }
}

pub open spec fn kind_of_byte(b: u8) -> TraceKind {
    if b == 0 {
        TraceKind::Event
    } else if b == 1 {
        TraceKind::Start
    } else {
        TraceKind::Stop
    }
}

/// The bytes of an entry.
pub open spec fn encode(r: Record) -> Seq<u8> {
    why_le(r.why) + thread_le(r.thread) + u32_le(r.id) + u32_le(r.tag) + u64_le(r.timestamp.0)
        + seq![kind_byte(r.kind)]
}

pub open spec fn u32_at(s: Seq<u8>, o: int) -> u32 {
    u32_from_le(s.subrange(o, o + 4))
}

pub open spec fn u64_at(s: Seq<u8>, o: int) -> u64 {
    u64_from_le(s.subrange(o, o + 8))
}

/// The optional thread whose flag stands at offset `o`.
pub open spec fn thread_at(s: Seq<u8>, o: int) -> Option<ThreadId> {
    if u64_at(s, o) != 0 {
        Some(ThreadId(u64_at(s, o + 8) as usize))
    } else {
        None
    }
}

/// The entry whose bytes are `s`.
pub open spec fn decode(s: Seq<u8>) -> Record {
    Record {
        why: if u64_at(s, 0) != 0 {
            Some((thread_at(s, 8), u32_at(s, 24)))
        } else {
            None
        },
        thread: thread_at(s, 32),
        id: u32_at(s, 48),
        tag: u32_at(s, 52),
        timestamp: NsSinceEpoch(u64_at(s, 56)),
        kind: kind_of_byte(s[64]),
    }
}

proof fn lemma_thread_round_trip(t: Option<ThreadId>, s: Seq<u8>, o: int)
    requires
        0 <= o,
        o + 16 <= s.len(),
        s.subrange(o, o + 16) == thread_le(t),
    ensures
        thread_at(s, o) == t,
{
    let v: u64 = match t {
        Some(x) => x.0 as u64,
        None => 0,
    };
    lemma_u64_round_trip(if t is Some { 1u64 } else { 0u64 });
    lemma_u64_round_trip(v);
    lemma_le_lengths();
    assert(s.subrange(o, o + 8) =~= s.subrange(o, o + 16).subrange(0, 8));
    assert(s.subrange(o + 8, o + 16) =~= s.subrange(o, o + 16).subrange(8, 16));
    assert(thread_le(t).subrange(0, 8) =~= flag_le(t is Some));
    assert(thread_le(t).subrange(8, 16) =~= u64_le(v));
}

proof fn lemma_why_round_trip(w: Option<(Option<ThreadId>, u32)>, s: Seq<u8>)
    requires
        32 <= s.len(),
        s.subrange(0, 32) == why_le(w),
    ensures
        (if u64_at(s, 0) != 0 {
            Some((thread_at(s, 8), u32_at(s, 24)))
        } else {
            None
        }) == w,
{
    let (wt, wn): (Option<ThreadId>, u32) = match w {
        Some(p) => p,
        None => (None, 0),
    };
    lemma_le_lengths();
    lemma_u64_round_trip(if w is Some { 1u64 } else { 0u64 });
    lemma_u32_round_trip(wn);
    let f = flag_le(w is Some);
    let t = thread_le(wt);
    assert(f.len() == 8);
    assert(t.len() == 16);
    assert(why_le(w) =~= f + t + u32_le(wn) + u32_le(0));
    assert(s.subrange(0, 8) =~= f);
    let e = why_le(w);
    assert(e.subrange(8, 24) =~= t);
    assert(s.subrange(8, 24) =~= e.subrange(8, 24));
    assert(s.subrange(8, 24) =~= s.subrange(8, 24).subrange(0, 16));
    lemma_thread_round_trip(wt, s, 8);
    assert(e.subrange(24, 28) =~= u32_le(wn));
    assert(s.subrange(24, 28) =~= e.subrange(24, 28));
}

/// Decoding the bytes of an entry gives the entry back.
pub proof fn lemma_decode_encode(r: Record)
    ensures
        encode(r).len() == ENTRY_SIZE,
        decode(encode(r)) == r,
{
    let s = encode(r);
    lemma_le_lengths();
    lemma_u32_round_trip(r.id);
    lemma_u32_round_trip(r.tag);
    lemma_u64_round_trip(r.timestamp.0);
    lemma_u64_round_trip(0);
    lemma_u64_round_trip(1);
    lemma_u32_round_trip(0);
    let w = why_le(r.why);
    let t = thread_le(r.thread);
    assert(w.len() == 32);
    assert(t.len() == 16);
    assert(s =~= w + t + u32_le(r.id) + u32_le(r.tag) + u64_le(r.timestamp.0) + seq![kind_byte(r.kind)]);
    assert(s.len() == 65);
    assert(s.subrange(0, 32) =~= why_le(r.why));
    lemma_why_round_trip(r.why, s);
    assert(s.subrange(32, 48) =~= thread_le(r.thread));
    lemma_thread_round_trip(r.thread, s, 32);
    assert(s.subrange(48, 52) =~= u32_le(r.id));
    assert(s.subrange(52, 56) =~= u32_le(r.tag));
    assert(s.subrange(56, 64) =~= u64_le(r.timestamp.0));
    assert(s[64] == kind_byte(r.kind));
}

/// Appends the bytes of an optional thread to `out`.
fn push_thread(out: &mut Vec<u8>, t: Option<ThreadId>)
    ensures
        final(out)@ == old(out)@ + thread_le(t),
{
    match t {
        Some(x) => {
            push_u64(out, 1);
            push_u64(out, x.0 as u64);
        },
        None => {
            push_u64(out, 0);
            push_u64(out, 0);
        },
    }
    assert(out@ =~= old(out)@ + thread_le(t));
}

/// The bytes of an entry.
pub fn encode_entry(r: &Record) -> (out: Vec<u8>)
    ensures
        out@ == encode(*r),
        out@.len() == ENTRY_SIZE,
{
    let mut out: Vec<u8> = Vec::new();
    match r.why {
        Some((t, n)) => {
            push_u64(&mut out, 1);
            push_thread(&mut out, t);
            push_u32(&mut out, n);
            push_u32(&mut out, 0);
        },
        None => {
            push_u64(&mut out, 0);
            push_thread(&mut out, None);
            push_u32(&mut out, 0);
            push_u32(&mut out, 0);
        },
    }
    assert(out@ =~= why_le(r.why));
    push_thread(&mut out, r.thread);
    push_u32(&mut out, r.id);
    push_u32(&mut out, r.tag);
    push_u64(&mut out, r.timestamp.0);
    let k: u8 = match r.kind {
        TraceKind::Event => 0,
        TraceKind::Start => 1,
        TraceKind::Stop => 2,
    };
    out.push(k);
    assert(out@ =~= encode(*r));
    proof {
        lemma_decode_encode(*r);
    }
    out
}

fn read_thread(b: &Vec<u8>, o: usize) -> (t: Option<ThreadId>)
    requires
        o + 16 <= b.len(),
    ensures
        t == thread_at(b@, o as int),
{
    if read_u64(b, o) != 0 {
        Some(ThreadId(#[verifier::truncate] (read_u64(b, o + 8) as usize)))
    } else {
        None
    }
}

/// The entry whose bytes are `b`.
pub fn decode_entry(b: &Vec<u8>) -> (r: Record)
    requires
        b@.len() == ENTRY_SIZE,
    ensures
        r == decode(b@),
{
    let why = if read_u64(b, 0) != 0 {
        Some((read_thread(b, 8), read_u32(b, 24)))
    } else {
        None
    };
    let k = b[64];
    let kind = if k == 0 {
        TraceKind::Event
    } else if k == 1 {
        TraceKind::Start
    } else {
        TraceKind::Stop
    };
    Record {
        why,
        thread: read_thread(b, 32),
        id: read_u32(b, 48),
        tag: read_u32(b, 52),
        timestamp: NsSinceEpoch(read_u64(b, 56)),
        kind,
    }
}

} // verus!
