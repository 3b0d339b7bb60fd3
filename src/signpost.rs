//! A sink that forwards traces to the host's signpost facility.
//!
//! The sink does not call the host itself: it queues each call, and the
//! embedding application hands the queued calls to the host with
//! `take_calls`.

use core::marker::PhantomData;
use vstd::prelude::*;

use crate::traits::{next_number, Trace, TraceId, TraceKind, TraceOp, TraceSink};

verus! {

/// Which of the host's signpost operations a call is.
#[derive(Copy, Clone, Debug, Eq, PartialEq)]
pub enum SignpostOp {
    /// A one-off signpost.
    Signpost,
    /// The start of an interval.
    Start,
    /// The end of an interval.
    End,
}

/// One call to make to the host's signpost facility.
#[derive(Copy, Clone, Debug, Eq, PartialEq)]
pub struct SignpostCall {
    pub op: SignpostOp,
    pub tag: u32,
    pub args: [usize; 4],
}

/// The host call that forwards `op`: the operation that matches its kind, its
/// tag and four zero arguments.
pub open spec fn call_of(op: TraceOp) -> (SignpostOp, u32, Seq<usize>) {
    (
        match op.kind {
            TraceKind::Event => SignpostOp::Signpost,
            TraceKind::Start => SignpostOp::Start,
            TraceKind::Stop => SignpostOp::End,
        },
        op.tag,
        seq![0usize, 0, 0, 0],
    )
}

/// The parts of a queued call.
pub open spec fn parts_of(c: SignpostCall) -> (SignpostOp, u32, Seq<usize>) {
    (c.op, c.tag, c.args@)
}

/// A sink that forwards each trace to the host's signpost facility.
#[derive(Debug)]
pub struct Signpost<T> {
    calls: Vec<SignpostCall>,
    next: u32,
    phantom: PhantomData<T>,
}

impl<T> Signpost<T> {
    /// The calls waiting to be made, oldest first.
    pub closed spec fn pending(&self) -> Seq<(SignpostOp, u32, Seq<usize>)> {
        self.calls@.map_values(|c: SignpostCall| parts_of(c))
    }

    /// The numeric part of the next id this sink allocates.
    pub closed spec fn next_id_spec(&self) -> u32 {
        self.next
    }

    /// A signpost sink with no call waiting.
    pub fn get() -> (r: Signpost<T>)
        ensures
            r.pending() == Seq::<(SignpostOp, u32, Seq<usize>)>::empty(),
            r.next_id_spec() == 0,
    {
        let r = Signpost { calls: Vec::new(), next: 0, phantom: PhantomData };
        assert(r.pending() =~= Seq::<(SignpostOp, u32, Seq<usize>)>::empty());
        r
    }

    /// Hands out the calls waiting to be made, oldest first, and forgets them.
    pub fn take_calls(&mut self) -> (r: Vec<SignpostCall>)
        ensures
            r@.map_values(|c: SignpostCall| parts_of(c)) == old(self).pending(),
            final(self).pending() == Seq::<(SignpostOp, u32, Seq<usize>)>::empty(),
            final(self).next_id_spec() == old(self).next_id_spec(),
    {
        let mut r: Vec<SignpostCall> = Vec::new();
        core::mem::swap(&mut r, &mut self.calls);
        assert(self.pending() =~= Seq::<(SignpostOp, u32, Seq<usize>)>::empty());
        r
    }

    fn take_number(&mut self) -> (n: u32)
        ensures
            n == old(self).next,
            final(self).next == next_number(n),
            final(self).calls == old(self).calls,
    {
        let n = self.next;
        self.next = if n == u32::MAX {
            0
        } else {
            n + 1
        };
        n
    }

    fn queue(&mut self, op: SignpostOp, tag: u32)
        ensures
            final(self).pending() == old(self).pending().push((op, tag, seq![0usize, 0, 0, 0])),
            final(self).next == old(self).next,
    {
        let c = SignpostCall { op, tag, args: [0usize, 0, 0, 0] };
        self.calls.push(c);
        assert(c.args@ =~= seq![0usize, 0, 0, 0]);
        assert(self.pending() =~= old(self).pending().push((op, tag, seq![0usize, 0, 0, 0])));
    }
}

impl<T: Trace> TraceSink<T> for Signpost<T> {
    open spec fn well_formed(&self) -> bool {
        true
    }

    open spec fn next_id(&self) -> u32 {
        self.next_id_spec()
    }

    /// The call that forwards `op` was queued.
    open spec fn took(&self, after: &Self, op: TraceOp) -> bool {
        after.pending() == self.pending().push(call_of(op))
    }

    open spec fn holds_same(&self, after: &Self) -> bool {
        after.pending() == self.pending()
    }

    proof fn lemma_holds_same_reflexive(&self) {
    }

    fn trace_event(&mut self, trace: T, why: Option<T::Id>) -> (id: T::Id) {
        self.queue(SignpostOp::Signpost, trace.tag());
        T::Id::new_id(self.take_number())
    }

    fn trace_start(&mut self, trace: T, why: Option<T::Id>) -> (id: T::Id) {
        self.queue(SignpostOp::Start, trace.tag());
        T::Id::new_id(self.take_number())
    }

    fn trace_stop(&mut self, id: T::Id, trace: T) {
        self.queue(SignpostOp::End, trace.tag());
    }

    fn fresh_id(&mut self) -> (id: T::Id) {
        T::Id::new_id(self.take_number())
    }
}

} // verus!
