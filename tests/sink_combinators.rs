use eep::ring_buffer::TraceKind;
use eep::simple_trace::{SimpleTrace, SimpleTraceBuffer};
use eep::sink_combinators::ToggleSink;
use eep::traits::TraceSink;

#[test]
fn does_not_trace_when_disabled() {
    let mut sink = ToggleSink::new_enabled(SimpleTraceBuffer::default());
    assert!(sink.is_enabled());

    sink.disable();
    assert!(!sink.is_enabled());

    sink.trace_event(SimpleTrace::FooEvent, None);

    assert_eq!(sink.as_ref().iter().next(), None);
}

#[test]
fn does_trace_when_enabled() {
    let mut sink = ToggleSink::new_disabled(SimpleTraceBuffer::default());
    assert!(!sink.is_enabled());

    sink.enable();
    assert!(sink.is_enabled());

    sink.trace_event(SimpleTrace::FooEvent, None);

    assert!(sink.as_ref().iter().next().is_some());
}

#[test]
fn reenabled_toggle_records_one_event() {
    let mut sink = ToggleSink::new_disabled(SimpleTraceBuffer::default());
    sink.enable();
    sink.trace_event(SimpleTrace::FooEvent, None);
    let entries = sink.as_ref().entries();
    assert_eq!(entries.len(), 1);
    assert_eq!(entries[0].tag(), 0);
    assert_eq!(entries[0].kind(), TraceKind::Event);
}

#[test]
fn disabled_toggle_keeps_entries_and_still_hands_out_ids() {
    let mut sink = ToggleSink::new_enabled(SimpleTraceBuffer::default());
    let first = sink.trace_event(SimpleTrace::FooEvent, None);
    let before = sink.as_ref().entries();
    sink.disable();
    let mut ids = vec![first.0];
    for _ in 0..5 {
        ids.push(sink.trace_event(SimpleTrace::FooEvent, None).0);
    }
    let started = sink.trace_start(SimpleTrace::OperationThing, None);
    sink.trace_stop(started, SimpleTrace::OperationThing);
    ids.push(started.0);
    assert_eq!(sink.as_ref().entries(), before);
    assert_eq!(ids, vec![0, 1, 2, 3, 4, 5, 6]);
    sink.enable();
    let next = sink.trace_event(SimpleTrace::OperationAnother, None);
    assert_eq!(next.0, 7);
    assert_eq!(sink.as_ref().entries().len(), 2);
}

#[test]
fn as_mut_reaches_the_wrapped_sink() {
    let mut sink = ToggleSink::new_disabled(SimpleTraceBuffer::default());
    sink.as_mut().trace_event(SimpleTrace::OperationThing, None);
    assert!(!sink.is_enabled());
    assert_eq!(sink.as_ref().entries().len(), 1);
    assert_eq!(sink.as_ref().entries()[0].tag(), 1);
}
