//! A fixed-capacity ring buffer of fixed-size binary entries.
//!
//! The buffer is one contiguous byte array. Entries are written one after
//! another, wrapping around its end (the seam); an entry may straddle the
//! seam. Once the buffer is full, each write evicts the oldest entry.

use core::marker::PhantomData;
use vstd::arithmetic::div_mod::{
    lemma_add_mod_noop_right, lemma_mod_add_multiples_vanish, lemma_mod_bound, lemma_small_mod,
};
use vstd::prelude::*;

use crate::codec::{decode, decode_entry, encode_entry, lemma_decode_encode, ENTRY_SIZE};
pub use crate::traits::TraceKind;
use crate::traits::{next_number, op_of, why_of, ThreadId, Trace, TraceId, TraceOp, TraceSink};

verus! {

/// A point in time, in nanoseconds since the Unix epoch.
#[derive(Copy, Clone, Debug, Eq, PartialEq)]
pub struct NsSinceEpoch(pub u64);

/// The nanoseconds since the epoch of the time `sec` seconds and `nsec`
/// nanoseconds after it: zero for a time before the epoch, `u64::MAX` for one
/// past what a `u64` holds.
pub open spec fn ns_of(sec: i64, nsec: i32) -> u64 {
    if sec < 0 {
        0
    } else if sec * 1_000_000_000 + nsec > u64::MAX {
        u64::MAX
    } else {
        (sec * 1_000_000_000 + nsec) as u64
    }
}

/// Relies on time::get_time: the current wall-clock time as seconds and
/// nanoseconds since the epoch. `Timespec::new` asserts that the nanoseconds
/// lie in `0..1_000_000_000`.
#[verifier::external_body]
fn wall_clock() -> (r: (i64, i32))
    ensures
        0 <= r.1 < 1_000_000_000,
{
    let t = time::get_time();
    (t.sec, t.nsec)
}

impl NsSinceEpoch {
    /// The time `sec` seconds and `nsec` nanoseconds after the epoch.
    pub fn from_sec_nsec(sec: i64, nsec: i32) -> (r: NsSinceEpoch)
        requires
            0 <= nsec < 1_000_000_000,
        ensures
            r.0 == ns_of(sec, nsec),
    {
        if sec < 0 {
            NsSinceEpoch(0)
        } else if sec as u64 > (u64::MAX - nsec as u64) / 1_000_000_000 {
            assert(sec * 1_000_000_000 + nsec > u64::MAX) by (nonlinear_arith)
                requires
                    sec > (u64::MAX - nsec) / 1_000_000_000,
                    0 <= nsec,
            ;
            NsSinceEpoch(u64::MAX)
        } else {
            assert(sec * 1_000_000_000 + nsec <= u64::MAX) by (nonlinear_arith)
                requires
                    0 <= sec <= (u64::MAX - nsec) / 1_000_000_000,
                    0 <= nsec < 1_000_000_000,
            ;
            NsSinceEpoch(sec as u64 * 1_000_000_000 + nsec as u64)
        }
    }

    /// The current time.
    pub fn now() -> NsSinceEpoch {
        let (sec, nsec) = wall_clock();
        NsSinceEpoch::from_sec_nsec(sec, nsec)
    }
}

/// The fields of one entry, whatever its trace type.
#[derive(Copy, Clone, Debug, Eq, PartialEq)]
pub struct Record {
    /// The id given as the cause of this trace: its thread and number.
    pub why: Option<(Option<ThreadId>, u32)>,
    /// The thread part of this trace's id.
    pub thread: Option<ThreadId>,
    /// The numeric part of this trace's id.
    pub id: u32,
    /// The tag of the traced value.
    pub tag: u32,
    /// When the trace was taken.
    pub timestamp: NsSinceEpoch,
    /// Whether it is an event, a start or a stop.
    pub kind: TraceKind,
}

/// The record of `op` taken at `timestamp`.
pub open spec fn record_of(op: TraceOp, timestamp: NsSinceEpoch) -> Record {
    Record { why: op.why, thread: op.thread, id: op.id, tag: op.tag, timestamp, kind: op.kind }
}

/// `entries` once `r` is inserted into a buffer with room for `slots`
/// entries: the oldest entry leaves when there is no room.
pub open spec fn inserted(entries: Seq<Record>, slots: nat, r: Record) -> Seq<Record> {
    if entries.len() < slots {
        entries.push(r)
    } else {
        entries.push(r).drop_first()
    }
}

/// The `ENTRY_SIZE` bytes of `data` from `start` on, wrapping around its end.
pub open spec fn window(data: Seq<u8>, start: int) -> Seq<u8> {
    Seq::new(ENTRY_SIZE as nat, |j: int| data[(start + j) % (data.len() as int)])
}

/// The `count` entries stored in `data` from `begin` on.
pub open spec fn entries_in(data: Seq<u8>, begin: int, count: nat) -> Seq<Record> {
    Seq::new(count, |i: int| decode(window(data, begin + i * ENTRY_SIZE)))
}

/// One recorded trace, copied out of a buffer.
#[derive(Copy, Debug, Eq, PartialEq)]
pub struct Entry<T> {
    record: Record,
    phantom: PhantomData<T>,
}

impl<T> Clone for Entry<T> {
    fn clone(&self) -> (r: Self)
        ensures
            r@ == self@,
    {
        Entry { record: self.record, phantom: PhantomData }
    }
}

impl<T> View for Entry<T> {
    type V = Record;

    closed spec fn view(&self) -> Record {
        self.record
    }
}

impl<T: Trace> Entry<T> {
    /// The label of this entry's tag.
    pub fn label(&self) -> (r: &'static str)
        requires
            T::has_label(self@.tag),
        ensures
            r@ == T::label_of(self@.tag),
    {
        T::label(self.record.tag)
    }
}

impl<T> Entry<T> {
    /// The tag of the traced value.
    pub fn tag(&self) -> (r: u32)
        ensures
            r == self@.tag,
    {
        self.record.tag
    }

    /// Whether this entry is an event, a start or a stop.
    pub fn kind(&self) -> (r: TraceKind)
        ensures
            r == self@.kind,
    {
        self.record.kind
    }

    /// When the trace was taken.
    pub fn timestamp(&self) -> (r: NsSinceEpoch)
        ensures
            r == self@.timestamp,
    {
        self.record.timestamp
    }

    /// The thread part of the trace's id.
    pub fn thread(&self) -> (r: Option<ThreadId>)
        ensures
            r == self@.thread,
    {
        self.record.thread
    }

    /// The numeric part of the trace's id.
    pub fn id(&self) -> (r: u32)
        ensures
            r == self@.id,
    {
        self.record.id
    }

    /// The id given as the cause of the trace, as its thread and number.
    pub fn why(&self) -> (r: Option<(Option<ThreadId>, u32)>)
        ensures
            r == self@.why,
    {
        self.record.why
    }

    /// All fields of the entry.
    pub fn record(&self) -> (r: Record)
        ensures
            r == self@,
    {
        self.record
    }

    /// The number of bytes an entry takes in a buffer.
    pub fn size() -> (r: usize)
        ensures
            r == ENTRY_SIZE,
    {
        ENTRY_SIZE
    }
}

/// A ring buffer of trace entries; it is also a sink.
#[derive(Debug)]
pub struct RingBuffer<T> {
    // The data itself.
    data: Vec<u8>,
    // Where valid data begins.
    begin: usize,
    // The number of bytes in the ring buffer that are valid.
    length: usize,
    // The numeric part of the next id this buffer allocates.
    next: u32,
    phantom: PhantomData<T>,
}

impl<T: Trace> Clone for RingBuffer<T> {
    fn clone(&self) -> (r: Self)
        ensures
            r@ == self@,
            r.capacity() == self.capacity(),
            r.next_id_spec() == self.next_id_spec(),
            self.inv() ==> r.inv(),
    {
        RingBuffer {
            data: self.data.clone(),
            begin: self.begin,
            length: self.length,
            next: self.next,
            phantom: PhantomData,
        }
    }
}

impl<T> View for RingBuffer<T> {
    type V = Seq<Record>;

    /// The entries held, oldest first.
    closed spec fn view(&self) -> Seq<Record> {
        entries_in(self.data@, self.begin as int, self.length as nat / ENTRY_SIZE as nat)
    }
}

proof fn lemma_mod_once(x: int, m: int)
    requires
        0 <= x < 2 * m,
    ensures
        x % m == if x < m {
            x
        } else {
            x - m
        },
{
    if x < m {
        lemma_small_mod(x as nat, m as nat);
    } else {
        lemma_mod_add_multiples_vanish(x - m, m);
        lemma_small_mod((x - m) as nat, m as nat);
    }
}

/// Dropping the oldest entry is moving `begin` on by one entry.
proof fn lemma_evict(data: Seq<u8>, begin: int, n: nat)
    requires
        data.len() > 0,
        n >= 1,
    ensures
        entries_in(data, (begin + ENTRY_SIZE) % (data.len() as int), (n - 1) as nat)
            =~= entries_in(data, begin, n).drop_first(),
{
    let cap = data.len() as int;
    assert forall|i: int| 0 <= i < n - 1 implies #[trigger] window(
        data,
        (begin + ENTRY_SIZE) % cap + i * ENTRY_SIZE,
    ) =~= window(data, begin + (i + 1) * ENTRY_SIZE) by {
        assert forall|j: int| 0 <= j < ENTRY_SIZE implies #[trigger] ((begin + ENTRY_SIZE) % cap
            + i * ENTRY_SIZE + j) % cap == (begin + (i + 1) * ENTRY_SIZE + j) % cap by {
            lemma_add_mod_noop_right(i * ENTRY_SIZE + j, begin + ENTRY_SIZE, cap);
        }
    }
}

/// Writing an entry's bytes just past the `n` entries from `begin` appends it
/// and leaves those entries as they were.
proof fn lemma_append(d: Seq<u8>, d2: Seq<u8>, begin: int, n: nat, bytes: Seq<u8>)
    requires
        d.len() > 0,
        d2.len() == d.len(),
        0 <= begin,
        (n + 1) * ENTRY_SIZE <= d.len(),
        bytes.len() == ENTRY_SIZE,
        forall|k: int|
            0 <= k < d.len() ==> #[trigger] d2[(begin + n * ENTRY_SIZE + k) % (d.len() as int)]
                == if k < ENTRY_SIZE {
                bytes[k]
            } else {
                d[(begin + n * ENTRY_SIZE + k) % (d.len() as int)]
            },
    ensures
        entries_in(d2, begin, n + 1) =~= entries_in(d, begin, n).push(decode(bytes)),
{
    let cap = d.len() as int;
    let base = begin + n * ENTRY_SIZE;
    assert forall|i: int| 0 <= i < n implies #[trigger] window(d2, begin + i * ENTRY_SIZE) =~= window(
        d,
        begin + i * ENTRY_SIZE,
    ) by {
        assert forall|j: int| 0 <= j < ENTRY_SIZE implies #[trigger] d2[(begin + i * ENTRY_SIZE + j) % cap]
            == d[(begin + i * ENTRY_SIZE + j) % cap] by {
            let k = cap - n * ENTRY_SIZE + i * ENTRY_SIZE + j;
            lemma_mod_add_multiples_vanish(begin + i * ENTRY_SIZE + j, cap);
            assert(base + k == cap + (begin + i * ENTRY_SIZE + j));
            assert(d2[(base + k) % cap] == d[(base + k) % cap]);
        }
    }
    assert(window(d2, base) =~= bytes) by {
        assert forall|j: int| 0 <= j < ENTRY_SIZE implies #[trigger] d2[(base + j) % cap] == bytes[j] by {
            assert(d2[(base + j) % cap] == bytes[j]);
        }
    }
}

/// A window depends on its start modulo the length of the data alone.
proof fn lemma_window_mod(data: Seq<u8>, start: int)
    requires
        data.len() > 0,
    ensures
        window(data, start % (data.len() as int)) =~= window(data, start),
{
    let cap = data.len() as int;
    assert forall|j: int| 0 <= j < ENTRY_SIZE implies #[trigger] ((start % cap) + j) % cap == (
    start + j) % cap by {
        lemma_add_mod_noop_right(j, start, cap);
    }
}

/// Positions `k` steps past `p` are distinct for distinct steps below `m`.
proof fn lemma_steps_distinct(p: int, a: int, b: int, m: int)
    requires
        0 <= p < m,
        0 <= a < m,
        0 <= b < m,
        a != b,
    ensures
        (p + a) % m != (p + b) % m,
{
    lemma_mod_once(p + a, m);
    lemma_mod_once(p + b, m);
}

impl<T: Trace> RingBuffer<T> {
    /// The number of bytes of the buffer.
    pub closed spec fn capacity(&self) -> nat {
        self.data@.len()
    }

    /// The number of entries the buffer holds at most.
    pub open spec fn slots(&self) -> nat {
        self.capacity() / ENTRY_SIZE as nat
    }

    /// Where the oldest entry begins, in bytes.
    pub closed spec fn begin_byte(&self) -> nat {
        self.begin as nat
    }

    /// The number of bytes the entries take.
    pub closed spec fn length_bytes(&self) -> nat {
        self.length as nat
    }

    /// The numeric part of the next id this buffer allocates.
    pub closed spec fn next_id_spec(&self) -> u32 {
        self.next
    }

    /// The buffer is well formed.
    pub closed spec fn inv(&self) -> bool {
        &&& ENTRY_SIZE < self.data@.len()
        &&& self.begin < self.data@.len()
        &&& self.length <= self.data@.len()
        &&& self.length % ENTRY_SIZE == 0
        &&& self.data@.len() % (ENTRY_SIZE as nat) == 0 ==> self.begin % ENTRY_SIZE == 0
        &&& forall|i: int| 0 <= i < self@.len() ==> T::has_label(#[trigger] self@[i].tag)
    }

    /// An empty buffer of `capacity` bytes.
    pub fn new(capacity: usize) -> (r: RingBuffer<T>)
        requires
            capacity > ENTRY_SIZE,
        ensures
            r.inv(),
            r@ == Seq::<Record>::empty(),
            r.capacity() == capacity,
            r.next_id_spec() == 0,
    {
        let r = RingBuffer { data: vec![0u8; capacity], begin: 0, length: 0, next: 0, phantom: PhantomData };
        assert(r@ =~= Seq::<Record>::empty());
        r
    }

    /// An empty buffer of 4096 bytes.
    pub fn default() -> (r: RingBuffer<T>)
        ensures
            r.inv(),
            r@ == Seq::<Record>::empty(),
            r.capacity() == 4096,
            r.next_id_spec() == 0,
    {
        Self::new(4096)
    }

    /// The byte just past the newest entry.
    fn end(&self) -> (r: usize)
        requires
            self.inv(),
        ensures
            r == (self.begin + self.length) % (self.data@.len() as int),
            r < self.data@.len(),
    {
        let capacity = self.data.len();
        proof {
            lemma_mod_once(self.begin + self.length, capacity as int);
        }
        if self.begin >= capacity - self.length {
            self.begin - (capacity - self.length)
        } else {
            self.begin + self.length
        }
    }

    /// Writes the bytes of one entry after the newest, evicting the oldest
    /// entry first when there is no room.
    fn write(&mut self, bytes: &Vec<u8>)
        requires
            old(self).inv(),
            bytes@.len() == ENTRY_SIZE,
            T::has_label(decode(bytes@).tag),
        ensures
            final(self).inv(),
            final(self)@ == inserted(old(self)@, old(self).slots(), decode(bytes@)),
            final(self).capacity() == old(self).capacity(),
            final(self).next == old(self).next,
    {
        let capacity = self.data.len();
        let ghost cap = capacity as int;
        let ghost n0 = self.length as nat / ENTRY_SIZE as nat;
        let ghost v0 = self@;
        let end = self.end();
        let ghost sum0 = self.begin + self.length;
        if capacity - self.length < ENTRY_SIZE {
            proof {
                lemma_evict(self.data@, self.begin as int, n0);
                lemma_mod_once(self.begin + ENTRY_SIZE, cap);
            }
            self.begin = if self.begin >= capacity - ENTRY_SIZE {
                self.begin - (capacity - ENTRY_SIZE)
            } else {
                self.begin + ENTRY_SIZE
            };
            self.length = self.length - ENTRY_SIZE;
            assert(self@ =~= v0.drop_first());
        }
        let ghost n1 = self.length as nat / ENTRY_SIZE as nat;
        let ghost d0 = self.data@;
        let ghost base = self.begin + self.length;
        proof {
            if base != sum0 {
                assert(base == sum0 - cap);
                lemma_mod_add_multiples_vanish(base, cap);
            }
        }
        assert(end == base % cap);
        assert(self.length == n1 * ENTRY_SIZE);
        assert((n1 + 1) * ENTRY_SIZE <= cap);
        let mut j: usize = 0;
        while j < ENTRY_SIZE
            invariant
                self.data@.len() == cap,
                self.begin as int + self.length as int == base,
                self.length == n1 * ENTRY_SIZE,
                self.begin < cap,
                self.next == old(self).next,
                cap == capacity,
                ENTRY_SIZE < cap,
                end < cap,
                j <= ENTRY_SIZE,
                bytes@.len() == ENTRY_SIZE,
                forall|k: int|
                    0 <= k < cap ==> #[trigger] self.data@[(end + k) % cap] == if k < j {
                        bytes@[k]
                    } else {
                        d0[(end + k) % cap]
                    },
            decreases ENTRY_SIZE - j,
        {
            proof {
                lemma_mod_once(end + j, cap);
            }
            let p = if end >= capacity - j {
                end - (capacity - j)
            } else {
                end + j
            };
            let ghost before = self.data@;
            self.data[p] = bytes[j];
            proof {
                assert forall|k: int| 0 <= k < cap implies #[trigger] self.data@[(end + k) % cap]
                    == if k < j + 1 {
                    bytes@[k]
                } else {
                    d0[(end + k) % cap]
                } by {
                    if k != j {
                        lemma_steps_distinct(end as int, k, j as int, cap);
                        lemma_mod_bound(end + k, cap);
                        assert(self.data@[(end + k) % cap] == before[(end + k) % cap]);
                    }
                }
            }
            j = j + 1;
        }
        proof {
            assert(base == self.begin + n1 * ENTRY_SIZE);
            assert forall|k: int| 0 <= k < cap implies #[trigger] self.data@[(self.begin + n1
                * ENTRY_SIZE + k) % (d0.len() as int)]
                == if k < ENTRY_SIZE {
                bytes@[k]
            } else {
                d0[(base + k) % cap]
            } by {
                lemma_add_mod_noop_right(k, base, cap);
                assert((base + k) % cap == (end + k) % cap);
                assert(self.data@[(end + k) % cap] == if k < ENTRY_SIZE {
                    bytes@[k]
                } else {
                    d0[(end + k) % cap]
                });
            }
            lemma_append(d0, self.data@, self.begin as int, n1, bytes@);
        }
        self.length = self.length + ENTRY_SIZE;
        assert(self.length as nat / ENTRY_SIZE as nat == n1 + 1);
        assert(self@ =~= entries_in(d0, self.begin as int, n1).push(decode(bytes@)));
    }

    /// The entry whose bytes begin at `idx`, reassembled across the seam
    /// where it straddles it.
    fn read_at(&self, idx: usize) -> (r: Record)
        requires
            self.inv(),
            idx < self.data@.len(),
        ensures
            r == decode(window(self.data@, idx as int)),
    {
        let capacity = self.data.len();
        let ghost w = window(self.data@, idx as int);
        let mut temp: Vec<u8> = Vec::new();
        let mut j: usize = 0;
        while j < ENTRY_SIZE
            invariant
                capacity == self.data@.len(),
                ENTRY_SIZE < capacity,
                idx < capacity,
                j <= ENTRY_SIZE,
                w == window(self.data@, idx as int),
                temp@ =~= w.subrange(0, j as int),
            decreases ENTRY_SIZE - j,
        {
            proof {
                lemma_mod_once(idx + j, capacity as int);
            }
            let p = if idx >= capacity - j {
                idx - (capacity - j)
            } else {
                idx + j
            };
            temp.push(self.data[p]);
            j = j + 1;
        }
        assert(temp@ =~= w);
        decode_entry(&temp)
    }

    /// Takes the numeric part of the next id from the counter.
    fn take_number(&mut self) -> (n: u32)
        requires
            old(self).inv(),
        ensures
            final(self).inv(),
            n == old(self).next,
            final(self).next == next_number(n),
            final(self)@ == old(self)@,
            final(self).capacity() == old(self).capacity(),
    {
        let n = self.next;
        self.next = if n == u32::MAX {
            0
        } else {
            n + 1
        };
        n
    }

    /// Records one entry taken now.
    fn put(&mut self, op: Ghost<TraceOp>, kind: TraceKind, tag: u32, why: Option<(Option<ThreadId>, u32)>, thread: Option<ThreadId>, id: u32)
        requires
            old(self).inv(),
            T::has_label(tag),
            op@ == (TraceOp { kind, tag, why, thread, id }),
        ensures
            final(self).inv(),
            final(self).capacity() == old(self).capacity(),
            final(self).next == old(self).next,
            final(self)@.len() > 0,
            final(self)@ == inserted(
                old(self)@,
                old(self).slots(),
                record_of(op@, final(self)@.last().timestamp),
            ),
    {
        let r = Record { why, thread, id, tag, timestamp: NsSinceEpoch::now(), kind };
        let bytes = encode_entry(&r);
        proof {
            lemma_decode_encode(r);
        }
        self.write(&bytes);
    }

    /// An iterator over the entries, oldest first.
    pub fn iter(&self) -> (r: RingBufferIter<'_, T>)
        requires
            self.inv(),
        ensures
            r.inv(),
            r.rest() == self@,
    {
        let r = RingBufferIter { buffer: self, idx: self.begin, done: self.length == 0, pos: Ghost(0) };
        proof {
            lemma_small_mod(self.begin as nat, self.data@.len());
        }
        assert(r.rest() =~= self@);
        r
    }

    /// The entries, oldest first.
    pub fn entries(&self) -> (r: Vec<Entry<T>>)
        requires
            self.inv(),
        ensures
            r@.len() == self@.len(),
            forall|i: int| 0 <= i < r@.len() ==> #[trigger] r@[i]@ == self@[i],
    {
        let mut it = self.iter();
        let mut r: Vec<Entry<T>> = Vec::new();
        loop
            invariant
                it.inv(),
                r@.len() + it.rest().len() == self@.len(),
                it.rest() =~= self@.subrange(r@.len() as int, self@.len() as int),
                forall|i: int| 0 <= i < r@.len() ==> #[trigger] r@[i]@ == self@[i],
            ensures
                r@.len() == self@.len(),
            decreases it.rest().len(),
        {
            match it.next() {
                Some(e) => r.push(e),
                None => break,
            }
        }
        r
    }
}

/// An iterator over the entries of a buffer, oldest first.
pub struct RingBufferIter<'a, T> {
    buffer: &'a RingBuffer<T>,
    // Where the next entry begins.
    idx: usize,
    // All entries have been handed out.
    done: bool,
    // How many entries have been handed out.
    pos: Ghost<nat>,
}

impl<'a, T: Trace> RingBufferIter<'a, T> {
    /// The iterator is well formed.
    pub closed spec fn inv(&self) -> bool {
        &&& self.buffer.inv()
        &&& self.pos@ <= self.buffer@.len()
        &&& self.done <==> self.pos@ == self.buffer@.len()
        &&& !self.done ==> self.idx as int == (self.buffer.begin + self.pos@ * ENTRY_SIZE) % (
        self.buffer.data@.len() as int)
    }

    /// The entries still to come.
    pub closed spec fn rest(&self) -> Seq<Record> {
        self.buffer@.subrange(self.pos@ as int, self.buffer@.len() as int)
    }

    /// The next entry, if any.
    pub fn next(&mut self) -> (r: Option<Entry<T>>)
        requires
            old(self).inv(),
        ensures
            final(self).inv(),
            old(self).rest().len() == 0 ==> r is None && final(self).rest() == old(self).rest(),
            old(self).rest().len() > 0 ==> r is Some && r->0@ == old(self).rest()[0]
                && final(self).rest() == old(self).rest().drop_first(),
    {
        if self.done {
            return None;
        }
        let buffer = self.buffer;
        let capacity = buffer.data.len();
        let ghost cap = capacity as int;
        let ghost pos = self.pos@;
        let ghost n = buffer.length as nat / ENTRY_SIZE as nat;
        proof {
            lemma_window_mod(buffer.data@, buffer.begin + pos * ENTRY_SIZE);
            lemma_mod_once(self.idx + ENTRY_SIZE, cap);
            lemma_add_mod_noop_right(ENTRY_SIZE as int, buffer.begin + pos * ENTRY_SIZE, cap);
        }
        let record = buffer.read_at(self.idx);
        let next_idx = if self.idx >= capacity - ENTRY_SIZE {
            self.idx - (capacity - ENTRY_SIZE)
        } else {
            self.idx + ENTRY_SIZE
        };
        assert(next_idx == (buffer.begin + (pos + 1) * ENTRY_SIZE) % cap);
        let end = buffer.end();
        proof {
            if pos + 1 < n {
                if buffer.length < capacity {
                    lemma_steps_distinct(
                        buffer.begin as int,
                        (pos + 1) * ENTRY_SIZE,
                        buffer.length as int,
                        cap,
                    );
                } else {
                    lemma_mod_add_multiples_vanish(buffer.begin as int, cap);
                    lemma_steps_distinct(buffer.begin as int, (pos + 1) * ENTRY_SIZE, 0, cap);
                    lemma_small_mod(buffer.begin as nat, cap as nat);
                }
            }
        }
        if next_idx == end {
            self.done = true;
        } else {
            self.idx = next_idx;
        }
        self.pos = Ghost(pos + 1);
        assert(self.rest() =~= old(self).rest().drop_first());
        Some(Entry { record, phantom: PhantomData })
    }
}

/// The tags of `entries`, in order.
pub open spec fn tags_of(entries: Seq<Record>) -> Seq<u32> {
    entries.map_values(|e: Record| e.tag)
}

/// The tags of a list of labels, in order.
pub open spec fn keys_of(labels: Seq<(u32, &'static str)>) -> Seq<u32> {
    labels.map_values(|p: (u32, &'static str)| p.0)
}

/// What an entry records of the id given as `why`.
fn cause_of<I: TraceId>(why: Option<I>) -> (r: Option<(Option<ThreadId>, u32)>)
    ensures
        r == why_of(why),
{
    match why {
        Some(i) => Some((i.thread(), i.u32())),
        None => None,
    }
}

impl<T: Trace> RingBuffer<T> {
    /// The label of each tag the entries carry: each such tag once, in the
    /// order in which the tags first occur.
    pub fn labels(&self) -> (r: Vec<(u32, &'static str)>)
        requires
            self.inv(),
        ensures
            forall|t: u32| tags_of(self@).contains(t) <==> keys_of(r@).contains(t),
            keys_of(r@).no_duplicates(),
            forall|i: int|
                0 <= i < r@.len() ==> #[trigger] r@[i].1@ == T::label_of(r@[i].0),
    {
        let entries = self.entries();
        let ghost v = self@;
        let mut r: Vec<(u32, &'static str)> = Vec::new();
        let mut i: usize = 0;
        while i < entries.len()
            invariant
                i <= entries@.len(),
                entries@.len() == v.len(),
                forall|m: int| 0 <= m < entries@.len() ==> #[trigger] entries@[m]@ == v[m],
                forall|m: int| 0 <= m < v.len() ==> T::has_label(#[trigger] v[m].tag),
                forall|t: u32| tags_of(v.subrange(0, i as int)).contains(t) <==> keys_of(r@).contains(t),
                keys_of(r@).no_duplicates(),
                forall|m: int| 0 <= m < r@.len() ==> #[trigger] r@[m].1@ == T::label_of(r@[m].0),
            decreases entries@.len() - i,
        {
            let tag = entries[i].tag();
            let mut seen = false;
            let mut k: usize = 0;
            while k < r.len()
                invariant
                    k <= r@.len(),
                    seen <==> exists|m: int| 0 <= m < k && #[trigger] r@[m].0 == tag,
                decreases r@.len() - k,
            {
                if r[k].0 == tag {
                    seen = true;
                }
                k = k + 1;
            }
            let ghost before = r@;
            assert(tags_of(v.subrange(0, i + 1)) =~= tags_of(v.subrange(0, i as int)).push(tag));
            if !seen {
                assert(T::has_label(v[i as int].tag));
                let label = T::label(tag);
                r.push((tag, label));
                assert(keys_of(r@) =~= keys_of(before).push(tag));
                assert forall|t: u32| tags_of(v.subrange(0, i + 1)).contains(t) <==> keys_of(
                    r@,
                ).contains(t) by {
                    if tags_of(v.subrange(0, i as int)).contains(t) {
                        let w = choose|w: int| 0 <= w < i && tags_of(v.subrange(0, i as int))[w] == t;
                        assert(tags_of(v.subrange(0, i + 1))[w] == t);
                    }
                    if keys_of(before).contains(t) {
                        let w = choose|w: int| 0 <= w < before.len() && keys_of(before)[w] == t;
                        assert(keys_of(r@)[w] == t);
                    }
                    if t == tag {
                        assert(tags_of(v.subrange(0, i + 1))[i as int] == t);
                        assert(keys_of(r@)[before.len() as int] == t);
                    }
                }
                assert forall|a: int, b: int|
                    0 <= a < keys_of(r@).len() && 0 <= b < keys_of(r@).len() && a != b implies keys_of(
                    r@,
                )[a] != keys_of(r@)[b] by {
                    if a == before.len() {
                        assert(before[b].0 == keys_of(before)[b]);
                    } else if b == before.len() {
                        assert(before[a].0 == keys_of(before)[a]);
                    } else {
                        assert(keys_of(before)[a] != keys_of(before)[b]);
                    }
                }
            } else {
                assert forall|t: u32| tags_of(v.subrange(0, i + 1)).contains(t) <==> keys_of(
                    r@,
                ).contains(t) by {
                    if tags_of(v.subrange(0, i as int)).contains(t) {
                        let w = choose|w: int| 0 <= w < i && tags_of(v.subrange(0, i as int))[w] == t;
                        assert(tags_of(v.subrange(0, i + 1))[w] == t);
                    }
                    if t == tag {
                        let m = choose|m: int| 0 <= m < r@.len() && #[trigger] r@[m].0 == tag;
                        assert(keys_of(r@)[m] == t);
                        assert(tags_of(v.subrange(0, i + 1))[i as int] == t);
                    }
                }
            }
            i = i + 1;
        }
        assert(v.subrange(0, v.len() as int) =~= v);
        r
    }
}

impl<T: Trace> TraceSink<T> for RingBuffer<T> {
    open spec fn well_formed(&self) -> bool {
        self.inv()
    }

    open spec fn next_id(&self) -> u32 {
        self.next_id_spec()
    }

    /// The entry of `op` was inserted, stamped with the time it was taken.
    open spec fn took(&self, after: &Self, op: TraceOp) -> bool {
        &&& after.capacity() == self.capacity()
        &&& after@.len() > 0
        &&& after@ == inserted(self@, self.slots(), record_of(op, after@.last().timestamp))
    }

    open spec fn holds_same(&self, after: &Self) -> bool {
        after.capacity() == self.capacity() && after@ == self@
    }

    proof fn lemma_holds_same_reflexive(&self) {
    }

    fn trace_event(&mut self, trace: T, why: Option<T::Id>) -> (id: T::Id) {
        let n = self.take_number();
        let id = T::Id::new_id(n);
        let ghost op = op_of(TraceKind::Event, trace, why, id);
        self.put(Ghost(op), TraceKind::Event, trace.tag(), cause_of(why), id.thread(), id.u32());
        id
    }

    fn trace_start(&mut self, trace: T, why: Option<T::Id>) -> (id: T::Id) {
        let n = self.take_number();
        let id = T::Id::new_id(n);
        let ghost op = op_of(TraceKind::Start, trace, why, id);
        self.put(Ghost(op), TraceKind::Start, trace.tag(), cause_of(why), id.thread(), id.u32());
        id
    }

    fn trace_stop(&mut self, id: T::Id, trace: T) {
        let ghost op = TraceOp {
            kind: TraceKind::Stop,
            tag: trace.tag_of(),
            why: None,
            thread: id.thread_of(),
            id: id.number(),
        };
        self.put(Ghost(op), TraceKind::Stop, trace.tag(), None, id.thread(), id.u32());
    }

    fn fresh_id(&mut self) -> (id: T::Id) {
        let n = self.take_number();
        T::Id::new_id(n)
    }
}

/// How many of `n` entries a buffer with room for `slots` entries keeps.
pub open spec fn kept(n: nat, slots: nat) -> nat {
    if n < slots {
        n
    } else {
        slots
    }
}

/// A buffer holds a whole number of entries, no more than it has room for;
/// where its capacity is a whole number of entries, its oldest entry begins
/// on an entry boundary.
pub proof fn lemma_aligned<T: Trace>(b: RingBuffer<T>)
    requires
        b.inv(),
    ensures
        b.length_bytes() % (ENTRY_SIZE as nat) == 0,
        b.length_bytes() == b@.len() * ENTRY_SIZE,
        b@.len() <= b.slots(),
        1 <= b.slots(),
        b.capacity() % (ENTRY_SIZE as nat) == 0 ==> b.begin_byte() % (ENTRY_SIZE as nat) == 0,
{
}

/// A buffer with room for one entry and a byte to spare holds just the
/// newest entry after each trace it takes in.
pub proof fn lemma_single_slot<T: Trace>(b: RingBuffer<T>, after: RingBuffer<T>, op: TraceOp)
    requires
        b.inv(),
        b.capacity() == ENTRY_SIZE + 1,
        b.took(&after, op),
    ensures
        after@.len() == 1,
        after@[0] == record_of(op, after@[0].timestamp),
{
    lemma_aligned(b);
}

/// A buffer that starts empty and takes in a sequence of traces holds the
/// newest of them, as many as it has room for, oldest first.
pub proof fn lemma_keeps_newest<T: Trace>(states: Seq<RingBuffer<T>>, ops: Seq<TraceOp>)
    requires
        states.len() == ops.len() + 1,
        states[0].inv(),
        states[0]@ == Seq::<Record>::empty(),
        forall|i: int| 0 <= i < ops.len() ==> #[trigger] states[i].took(&states[i + 1], ops[i]),
    ensures
        states.last().capacity() == states[0].capacity(),
        states.last()@.len() == kept(ops.len(), states[0].slots()),
        forall|j: int|
            0 <= j < states.last()@.len() ==> #[trigger] states.last()@[j] == record_of(
                ops[ops.len() - states.last()@.len() + j],
                states[ops.len() - states.last()@.len() + j + 1]@.last().timestamp,
            ),
    decreases ops.len(),
{
    lemma_aligned(states[0]);
    let n = ops.len() as int;
    if n > 0 {
        let ps = states.subrange(0, n);
        let po = ops.subrange(0, n - 1);
        assert forall|i: int| 0 <= i < po.len() implies #[trigger] ps[i].took(&ps[i + 1], po[i]) by {
            assert(states[i].took(&states[i + 1], ops[i]));
        }
        lemma_keeps_newest(ps, po);
        let prev = states[n - 1];
        let cur = states[n];
        assert(ps.last() == prev);
        assert(prev.took(&cur, ops[n - 1]));
        let slots = states[0].slots();
        let m = prev@.len();
        assert forall|j: int| 0 <= j < cur@.len() implies #[trigger] cur@[j] == record_of(
            ops[n - cur@.len() + j],
            states[n - cur@.len() + j + 1]@.last().timestamp,
        ) by {
            if m < slots {
                if j < m {
                    assert(cur@[j] == prev@[j]);
                    assert(ps[(n - 1) - m + j + 1] == states[(n - 1) - m + j + 1]);
                }
            } else {
                if j < m - 1 {
                    assert(cur@[j] == prev@[j + 1]);
                    assert(ps[(n - 1) - m + (j + 1) + 1] == states[(n - 1) - m + (j + 1) + 1]);
                }
            }
        }
    }
}

} // verus!
