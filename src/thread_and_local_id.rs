use vstd::prelude::*;

use crate::traits::{ThreadId, TraceId};

verus! {

/// A `TraceId` made of the allocating thread and a counter value; ids
/// allocated on different threads differ in their thread part.
#[derive(Copy, Clone, Debug, Eq, PartialEq)]
pub struct ThreadAndLocalId(pub ThreadId, pub u32);

impl TraceId for ThreadAndLocalId {
    open spec fn number(&self) -> u32 {
        self.1
    }

    open spec fn thread_of(&self) -> Option<ThreadId> {
        Some(self.0)
    }

    /// The id of counter value `n` on the calling thread.
    fn new_id(n: u32) -> (r: Self) {
        ThreadAndLocalId(ThreadId::get(), n)
    }

    fn u32(&self) -> (r: u32) {
        self.1
    }

    fn thread(&self) -> (r: Option<ThreadId>) {
        Some(self.0)
    }
}

} // verus!
