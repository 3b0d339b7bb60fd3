//! A simple trace type for tests, benches, and to serve as an example.

use vstd::prelude::*;

use crate::ring_buffer::RingBuffer;
use crate::traits::{ThreadId, Trace, TraceId};

verus! {

/// A simple `Trace` type for tests, benches, and to serve as an example.
#[derive(Copy, Clone, Debug, Eq, PartialEq)]
pub enum SimpleTrace {
    FooEvent,
    OperationThing,
    OperationAnother,
}

impl Trace for SimpleTrace {
    type Id = SimpleTraceId;

    open spec fn has_label(tag: u32) -> bool {
        tag < 3
    }

    open spec fn label_of(tag: u32) -> Seq<char> {
        if tag == 0 {
            "Foo"@
        } else if tag == 1 {
            "Thing"@
        } else {
            "Another"@
        }
    }

    open spec fn tag_of(&self) -> u32 {
        match self {
            SimpleTrace::FooEvent => 0,
            SimpleTrace::OperationThing => 1,
            SimpleTrace::OperationAnother => 2,
        }
    }

    fn label(tag: u32) -> (r: &'static str) {
        if tag == 0 {
            "Foo"
        } else if tag == 1 {
            "Thing"
        } else {
            "Another"
        }
    }

    fn tag(&self) -> (r: u32) {
        match *self {
            SimpleTrace::FooEvent => 0,
            SimpleTrace::OperationThing => 1,
            SimpleTrace::OperationAnother => 2,
        }
    }
}

/// The id of a `SimpleTrace`: a number with no thread attached.
#[derive(Copy, Clone, Debug, Eq, PartialEq)]
pub struct SimpleTraceId(pub u32);

impl TraceId for SimpleTraceId {
    open spec fn number(&self) -> u32 {
        self.0
    }

    open spec fn thread_of(&self) -> Option<ThreadId> {
        None
    }

    fn new_id(n: u32) -> (r: Self) {
        SimpleTraceId(n)
    }

    fn u32(&self) -> (r: u32) {
        self.0
    }

    fn thread(&self) -> (r: Option<ThreadId>) {
        None
    }
}

/// A ring buffer of `SimpleTrace` entries.
pub type SimpleTraceBuffer = RingBuffer<SimpleTrace>;

} // verus!
