//! The capabilities that trace types, trace ids and sinks provide.

use vstd::arithmetic::div_mod::{
    lemma_add_mod_noop_right, lemma_mod_bound, lemma_mod_self_0, lemma_small_mod,
};
use vstd::prelude::*;

verus! {

/// A unique identifier for a thread.
#[derive(Copy, Clone, Debug, Eq, PartialEq)]
pub struct ThreadId(pub usize);

/// Relies on thread_id::get: the number of the calling thread. Nothing is
/// stated of it: it depends on the thread that runs the call.
#[verifier::external_body]
fn current_thread_number() -> usize {
    thread_id::get()
}

impl ThreadId {
    /// The id of the calling thread.
    pub fn get() -> ThreadId {
        ThreadId(current_thread_number())
    }
}

/// The kind of a recorded trace.
#[derive(Copy, Clone, Debug, Eq, PartialEq)]
pub enum TraceKind {
    Event,
    Start,
    Stop,
}

/// The numeric part that follows `n` in an allocation counter: ids wrap
/// around after `u32::MAX`.
pub open spec fn next_number(n: u32) -> u32 {
    if n == u32::MAX {
        0
    } else {
        (n + 1) as u32
    }
}

/// A unique identifier for a traced event or start/stop pair.
///
/// The pair `(id.thread(), id.u32())` tells ids apart: either `u32()` is
/// unique and `thread()` is `None`, or `u32()` is unique within a thread and
/// `thread()` names that thread.
pub trait TraceId: Copy + Sized {
    /// The numeric part of the id.
    spec fn number(&self) -> u32;

    /// The thread that disambiguates the id, if any.
    spec fn thread_of(&self) -> Option<ThreadId>;

    /// The id whose numeric part is `n`, the value an allocation counter has
    /// handed out.
    fn new_id(n: u32) -> (r: Self)
        ensures
            r.number() == n,
    ;

    /// The numeric part of the id.
    fn u32(&self) -> (r: u32)
        ensures
            r == self.number(),
    ;

    /// The thread upon which this id was allocated, where the id carries one.
    fn thread(&self) -> (r: Option<ThreadId>)
        ensures
            r == self.thread_of(),
    ;
}

/// What an entry records of the id given as `why`.
pub open spec fn why_of<I: TraceId>(why: Option<I>) -> Option<(Option<ThreadId>, u32)> {
    match why {
        Some(i) => Some((i.thread_of(), i.number())),
        None => None,
    }
}

/// Metadata about a traced event or operation: usually an enumeration of the
/// things an application traces.
pub trait Trace: Copy + Sized {
    /// The type of id that tells traces of this type apart.
    type Id: TraceId;

    /// `tag` is one that some value of this type has.
    spec fn has_label(tag: u32) -> bool;

    /// The label of `tag`.
    spec fn label_of(tag: u32) -> Seq<char>;

    /// The tag of this value.
    spec fn tag_of(&self) -> u32;

    /// The label for the given tag.
    fn label(tag: u32) -> (r: &'static str)
        requires
            Self::has_label(tag),
        ensures
            r@ == Self::label_of(tag),
    ;

    /// The tag of this value.
    fn tag(&self) -> (r: u32)
        ensures
            r == self.tag_of(),
            Self::has_label(r),
    ;
}

/// One trace as a sink takes it in: everything but the time it was taken.
pub struct TraceOp {
    pub kind: TraceKind,
    pub tag: u32,
    pub why: Option<(Option<ThreadId>, u32)>,
    pub thread: Option<ThreadId>,
    pub id: u32,
}

/// The trace that `trace_event` or `trace_start` hands to a sink.
pub open spec fn op_of<T: Trace>(kind: TraceKind, trace: T, why: Option<T::Id>, id: T::Id) -> TraceOp {
    TraceOp {
        kind,
        tag: trace.tag_of(),
        why: why_of(why),
        thread: id.thread_of(),
        id: id.number(),
    }
}

/// A recipient of traces.
///
/// A sink allocates the ids of the traces it takes in from a counter of its
/// own, which wraps around after `u32::MAX`.
pub trait TraceSink<T: Trace>: Sized {
    /// The sink is well formed.
    spec fn well_formed(&self) -> bool;

    /// The numeric part of the next id this sink allocates.
    spec fn next_id(&self) -> u32;

    /// `after` is this sink once it has taken in `op`.
    spec fn took(&self, after: &Self, op: TraceOp) -> bool;

    /// `after` holds what this sink holds: nothing was taken in.
    spec fn holds_same(&self, after: &Self) -> bool;

    /// A sink holds what it holds.
    proof fn lemma_holds_same_reflexive(&self)
        ensures
            self.holds_same(self),
    ;

    /// Trace a one-off event.
    fn trace_event(&mut self, trace: T, why: Option<T::Id>) -> (id: T::Id)
        requires
            old(self).well_formed(),
        ensures
            final(self).well_formed(),
            id.number() == old(self).next_id(),
            final(self).next_id() == next_number(old(self).next_id()),
            old(self).took(final(self), op_of(TraceKind::Event, trace, why, id)),
    ;

    /// Trace the start of an operation; finish it by calling `trace_stop`
    /// with the returned id.
    fn trace_start(&mut self, trace: T, why: Option<T::Id>) -> (id: T::Id)
        requires
            old(self).well_formed(),
        ensures
            final(self).well_formed(),
            id.number() == old(self).next_id(),
            final(self).next_id() == next_number(old(self).next_id()),
            old(self).took(final(self), op_of(TraceKind::Start, trace, why, id)),
    ;

    /// Trace the end of the operation started with `id`.
    fn trace_stop(&mut self, id: T::Id, trace: T)
        requires
            old(self).well_formed(),
        ensures
            final(self).well_formed(),
            final(self).next_id() == old(self).next_id(),
            old(self).took(
                final(self),
                TraceOp {
                    kind: TraceKind::Stop,
                    tag: trace.tag_of(),
                    why: None,
                    thread: id.thread_of(),
                    id: id.number(),
                },
            ),
    ;

    /// Allocate an id without taking in a trace.
    fn fresh_id(&mut self) -> (id: T::Id)
        requires
            old(self).well_formed(),
        ensures
            final(self).well_formed(),
            id.number() == old(self).next_id(),
            final(self).next_id() == next_number(old(self).next_id()),
            old(self).holds_same(final(self)),
    ;
}

/// The number a counter that starts at `start` hands out at its `k`-th
/// allocation, counting from zero.
pub open spec fn nth_number(start: u32, k: nat) -> u32
    decreases k,
{
    if k == 0 {
        start
    } else {
        next_number(nth_number(start, (k - 1) as nat))
    }
}

proof fn lemma_nth_number(start: u32, k: nat)
    ensures
        nth_number(start, k) == (start + k) % 0x1_0000_0000,
    decreases k,
{
    if k > 0 {
        lemma_nth_number(start, (k - 1) as nat);
        let x = start + k - 1;
        lemma_add_mod_noop_right(1, x, 0x1_0000_0000);
        lemma_mod_bound(x, 0x1_0000_0000);
        let p = nth_number(start, (k - 1) as nat);
        assert(p == x % 0x1_0000_0000);
        assert((1 + x % 0x1_0000_0000) % 0x1_0000_0000 == (1 + x) % 0x1_0000_0000);
        if x % 0x1_0000_0000 + 1 < 0x1_0000_0000 {
            lemma_small_mod((x % 0x1_0000_0000 + 1) as nat, 0x1_0000_0000);
            assert(next_number(p) == p + 1);
        } else {
            lemma_mod_self_0(0x1_0000_0000);
            assert(next_number(p) == 0);
        }
        assert(nth_number(start, k) == next_number(p));
    }
}

/// Within a window of 2^32 allocations, a counter never hands out the same
/// number twice.
pub proof fn lemma_numbers_distinct(start: u32, i: nat, j: nat)
    requires
        i < j < 0x1_0000_0000,
    ensures
        nth_number(start, i) != nth_number(start, j),
{
    lemma_nth_number(start, i);
    lemma_nth_number(start, j);
}

/// A sink that allocates an id at each step hands out ids whose
/// `(thread, u32)` pairs are distinct within a window of 2^32 allocations:
/// their numbers already differ.
pub proof fn lemma_ids_distinct<T: Trace, S: TraceSink<T>>(states: Seq<S>, i: int, j: int)
    requires
        states.len() <= 0x1_0000_0000,
        forall|k: int|
            0 <= k < states.len() - 1 ==> #[trigger] states[k + 1].next_id() == next_number(
                states[k].next_id(),
            ),
        0 <= i < j < states.len(),
    ensures
        states[i].next_id() != states[j].next_id(),
{
    assert forall|k: int| 0 <= k < states.len() implies #[trigger] states[k].next_id()
        == nth_number(states[0].next_id(), k as nat) by {
        lemma_nth_of_steps(states, k);
    }
    lemma_numbers_distinct(states[0].next_id(), i as nat, j as nat);
}

proof fn lemma_nth_of_steps<T: Trace, S: TraceSink<T>>(states: Seq<S>, k: int)
    requires
        forall|m: int|
            0 <= m < states.len() - 1 ==> #[trigger] states[m + 1].next_id() == next_number(
                states[m].next_id(),
            ),
        0 <= k < states.len(),
    ensures
        states[k].next_id() == nth_number(states[0].next_id(), k as nat),
    decreases k,
{
    if k > 0 {
        lemma_nth_of_steps(states, k - 1);
        assert(states[(k - 1) + 1].next_id() == next_number(states[k - 1].next_id()));
    }
}

} // verus!
