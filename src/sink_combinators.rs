//! Combinators for building up `TraceSink` implementations from simple parts.

use vstd::prelude::*;

use crate::ring_buffer::RingBuffer;
use crate::traits::{Trace, TraceOp, TraceSink};

verus! {

/// A wrapper around another sink that can be enabled or disabled.
///
/// When it is disabled its `TraceSink` methods record nothing; `trace_event`
/// and `trace_start` still hand out a fresh id, taken from the wrapped sink's
/// counter. When it is enabled, it passes the traces through.
///
/// Like the sinks it wraps, a toggle has a single writer: `enable` and
/// `disable` take it by `&mut`, so a toggle shared between threads sits
/// behind a lock.
#[derive(Debug)]
pub struct ToggleSink<S> {
    enabled: bool,
    sink: S,
}

impl<S> ToggleSink<S> {
    /// The toggle passes traces through.
    pub closed spec fn is_on(&self) -> bool {
        self.enabled
    }

    /// The wrapped sink.
    pub closed spec fn inner(&self) -> S {
        self.sink
    }

    /// A toggle around `sink` that is initially enabled.
    pub fn new_enabled(sink: S) -> (r: ToggleSink<S>)
        ensures
            r.is_on(),
            r.inner() == sink,
    {
        ToggleSink { enabled: true, sink }
    }

    /// A toggle around `sink` that is initially disabled.
    pub fn new_disabled(sink: S) -> (r: ToggleSink<S>)
        ensures
            !r.is_on(),
            r.inner() == sink,
    {
        ToggleSink { enabled: false, sink }
    }

    /// Enable this toggle.
    pub fn enable(&mut self)
        ensures
            final(self).is_on(),
            final(self).inner() == old(self).inner(),
    {
        self.enabled = true;
    }

    /// Disable this toggle.
    pub fn disable(&mut self)
        ensures
            !final(self).is_on(),
            final(self).inner() == old(self).inner(),
    {
        self.enabled = false;
    }

    /// Whether this toggle is enabled.
    pub fn is_enabled(&self) -> (r: bool)
        ensures
            r == self.is_on(),
    {
        self.enabled
    }

    /// The wrapped sink.
    pub fn as_ref(&self) -> (r: &S)
        ensures
            *r == self.inner(),
    {
        &self.sink
    }

    /// The wrapped sink, for changing it.
    pub fn as_mut(&mut self) -> (r: &mut S)
        ensures
            *r == old(self).inner(),
            final(self).inner() == *final(r),
            final(self).is_on() == old(self).is_on(),
    {
        &mut self.sink
    }
}

impl<T: Trace, S: TraceSink<T>> TraceSink<T> for ToggleSink<S> {
    open spec fn well_formed(&self) -> bool {
        self.inner().well_formed()
    }

    open spec fn next_id(&self) -> u32 {
        self.inner().next_id()
    }

    /// When enabled the wrapped sink took `op`; when disabled it took nothing.
    open spec fn took(&self, after: &Self, op: TraceOp) -> bool {
        &&& after.is_on() == self.is_on()
        &&& if self.is_on() {
            self.inner().took(&after.inner(), op)
        } else {
            self.inner().holds_same(&after.inner())
        }
    }

    open spec fn holds_same(&self, after: &Self) -> bool {
        after.is_on() == self.is_on() && self.inner().holds_same(&after.inner())
    }

    proof fn lemma_holds_same_reflexive(&self) {
        self.sink.lemma_holds_same_reflexive();
    }

    fn trace_event(&mut self, trace: T, why: Option<T::Id>) -> (id: T::Id) {
        if self.enabled {
            self.sink.trace_event(trace, why)
        } else {
            self.sink.fresh_id()
        }
    }

    fn trace_start(&mut self, trace: T, why: Option<T::Id>) -> (id: T::Id) {
        if self.enabled {
            self.sink.trace_start(trace, why)
        } else {
            self.sink.fresh_id()
        }
    }

    fn trace_stop(&mut self, id: T::Id, trace: T) {
        if self.enabled {
            self.sink.trace_stop(id, trace);
        } else {
            proof {
                self.sink.lemma_holds_same_reflexive();
            }
        }
    }

    fn fresh_id(&mut self) -> (id: T::Id) {
        self.sink.fresh_id()
    }
}

/// A disabled toggle around a buffer leaves the buffer's entries as they
/// were, whatever traces it is handed.
pub proof fn lemma_disabled_keeps_entries<T: Trace>(
    states: Seq<ToggleSink<RingBuffer<T>>>,
    ops: Seq<TraceOp>,
)
    requires
        states.len() == ops.len() + 1,
        !states[0].is_on(),
        forall|i: int| 0 <= i < ops.len() ==> #[trigger] states[i].took(&states[i + 1], ops[i]),
    ensures
        forall|i: int|
            0 <= i < states.len() ==> !(#[trigger] states[i]).is_on() && states[i].inner()@
                == states[0].inner()@,
    decreases ops.len(),
{
    let n = ops.len() as int;
    if n > 0 {
        let ps = states.subrange(0, n);
        let po = ops.subrange(0, n - 1);
        assert forall|i: int| 0 <= i < po.len() implies #[trigger] ps[i].took(&ps[i + 1], po[i]) by {
            assert(states[i].took(&states[i + 1], ops[i]));
        }
        lemma_disabled_keeps_entries(ps, po);
        assert(ps[n - 1] == states[n - 1]);
        assert(states[n - 1].took(&states[n], ops[n - 1]));
        assert forall|i: int| 0 <= i < states.len() implies !(#[trigger] states[i]).is_on()
            && states[i].inner()@ == states[0].inner()@ by {
            if i < n {
                assert(ps[i] == states[i]);
            }
        }
    }
}

} // verus!
