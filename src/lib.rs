//! An embeddable in-process tracing library.
//!
//! Application code records events and start/stop pairs into a sink; the
//! primary sink is a fixed-capacity ring buffer of fixed-size binary entries.

pub mod codec;
pub mod traits;
pub mod ring_buffer;
pub mod simple_trace;
pub mod thread_and_local_id;
mod threaded_trace_id;
pub use threaded_trace_id::ThreadedTraceId;
pub mod sink_combinators;
pub mod signpost;
