use eep::ring_buffer::{Entry, NsSinceEpoch, TraceKind};
use eep::simple_trace::{SimpleTrace, SimpleTraceBuffer, SimpleTraceId};
use eep::traits::{ThreadId, Trace, TraceId, TraceSink};
use eep::ThreadedTraceId;

type SimpleEntry = Entry<SimpleTrace>;

fn six_traces(buffer: &mut SimpleTraceBuffer) {
    buffer.trace_event(SimpleTrace::FooEvent, None);
    let thing_id = buffer.trace_start(SimpleTrace::OperationThing, None);
    let another_id = buffer.trace_start(SimpleTrace::OperationAnother, None);
    buffer.trace_event(SimpleTrace::FooEvent, None);
    buffer.trace_stop(thing_id, SimpleTrace::OperationThing);
    buffer.trace_stop(another_id, SimpleTrace::OperationAnother);
}

#[test]
fn ring_buffer_trace_entry_has_right_size() {
    assert_eq!(SimpleEntry::size(), 65);
}

#[test]
fn no_roll_over() {
    let mut buffer = SimpleTraceBuffer::new(100 * SimpleEntry::size());
    buffer.trace_event(SimpleTrace::FooEvent, None);
    let thing_id = buffer.trace_start(SimpleTrace::OperationThing, None);
    let another_id = buffer.trace_start(SimpleTrace::OperationAnother, None);
    buffer.trace_event(SimpleTrace::FooEvent, None);
    buffer.trace_stop(thing_id, SimpleTrace::OperationThing);
    buffer.trace_stop(another_id, SimpleTrace::OperationAnother);

    let mut iter = buffer.iter();

    let entry = iter.next().unwrap();
    assert_eq!(entry.tag(), SimpleTrace::FooEvent.tag());
    assert_eq!(entry.kind(), TraceKind::Event);
    assert_eq!(entry.label(), "Foo");

    let entry = iter.next().unwrap();
    assert_eq!(entry.tag(), SimpleTrace::OperationThing.tag());
    assert_eq!(entry.kind(), TraceKind::Start);
    assert_eq!(entry.label(), "Thing");

    let entry = iter.next().unwrap();
    assert_eq!(entry.tag(), SimpleTrace::OperationAnother.tag());
    assert_eq!(entry.kind(), TraceKind::Start);
    assert_eq!(entry.label(), "Another");

    let entry = iter.next().unwrap();
    assert_eq!(entry.tag(), SimpleTrace::FooEvent.tag());
    assert_eq!(entry.kind(), TraceKind::Event);
    assert_eq!(entry.label(), "Foo");

    let entry = iter.next().unwrap();
    assert_eq!(entry.tag(), SimpleTrace::OperationThing.tag());
    assert_eq!(entry.kind(), TraceKind::Stop);
    assert_eq!(entry.label(), "Thing");

    let entry = iter.next().unwrap();
    assert_eq!(entry.tag(), SimpleTrace::OperationAnother.tag());
    assert_eq!(entry.kind(), TraceKind::Stop);
    assert_eq!(entry.label(), "Another");

    assert_eq!(iter.next(), None);
}

#[test]
fn with_roll_over() {
    let mut buffer = SimpleTraceBuffer::new(5 * SimpleEntry::size());
    buffer.trace_event(SimpleTrace::FooEvent, None);
    let thing_id = buffer.trace_start(SimpleTrace::OperationThing, None);
    let another_id = buffer.trace_start(SimpleTrace::OperationAnother, None);
    buffer.trace_event(SimpleTrace::FooEvent, None);
    buffer.trace_stop(thing_id, SimpleTrace::OperationThing);
    buffer.trace_stop(another_id, SimpleTrace::OperationAnother);

    println!("buffer = {:#?}", buffer);

    let mut iter = buffer.iter();

    let entry = iter.next().unwrap();
    println!("entry = {:#?}", entry);
    assert_eq!(entry.tag(), SimpleTrace::OperationThing.tag());
    assert_eq!(entry.kind(), TraceKind::Start);
    assert_eq!(entry.label(), "Thing");

    let entry = iter.next().unwrap();
    println!("entry = {:#?}", entry);
    assert_eq!(entry.tag(), SimpleTrace::OperationAnother.tag());
    assert_eq!(entry.kind(), TraceKind::Start);
    assert_eq!(entry.label(), "Another");

    let entry = iter.next().unwrap();
    println!("entry = {:#?}", entry);
    assert_eq!(entry.tag(), SimpleTrace::FooEvent.tag());
    assert_eq!(entry.kind(), TraceKind::Event);
    assert_eq!(entry.label(), "Foo");

    let entry = iter.next().unwrap();
    println!("entry = {:#?}", entry);
    assert_eq!(entry.tag(), SimpleTrace::OperationThing.tag());
    assert_eq!(entry.kind(), TraceKind::Stop);
    assert_eq!(entry.label(), "Thing");

    let entry = iter.next().unwrap();
    println!("entry = {:#?}", entry);
    assert_eq!(entry.tag(), SimpleTrace::OperationAnother.tag());
    assert_eq!(entry.kind(), TraceKind::Stop);
    assert_eq!(entry.label(), "Another");

    assert_eq!(iter.next(), None);
}

#[test]
fn with_roll_over_and_does_not_divide_evenly() {
    let mut buffer = SimpleTraceBuffer::new(3 * SimpleEntry::size() + 1);
    buffer.trace_event(SimpleTrace::FooEvent, None);
    let thing_id = buffer.trace_start(SimpleTrace::OperationThing, None);
    let another_id = buffer.trace_start(SimpleTrace::OperationAnother, None);
    buffer.trace_event(SimpleTrace::FooEvent, None);
    buffer.trace_stop(thing_id, SimpleTrace::OperationThing);
    buffer.trace_stop(another_id, SimpleTrace::OperationAnother);

    println!("buffer = {:#?}", buffer);

    let mut iter = buffer.iter();

    let entry = iter.next().unwrap();
    println!("entry = {:#?}", entry);
    assert_eq!(entry.tag(), SimpleTrace::FooEvent.tag());
    assert_eq!(entry.kind(), TraceKind::Event);
    assert_eq!(entry.label(), "Foo");

    let entry = iter.next().unwrap();
    println!("entry = {:#?}", entry);
    assert_eq!(entry.tag(), SimpleTrace::OperationThing.tag());
    assert_eq!(entry.kind(), TraceKind::Stop);
    assert_eq!(entry.label(), "Thing");

    let entry = iter.next().unwrap();
    println!("entry = {:#?}", entry);
    assert_eq!(entry.tag(), SimpleTrace::OperationAnother.tag());
    assert_eq!(entry.kind(), TraceKind::Stop);
    assert_eq!(entry.label(), "Another");

    assert_eq!(iter.next(), None);
}

#[test]
fn why() {
    let mut buffer = SimpleTraceBuffer::default();

    let parent = buffer.trace_event(SimpleTrace::FooEvent, None);
    let child1 = buffer.trace_start(SimpleTrace::OperationThing, Some(parent));
    buffer.trace_stop(child1, SimpleTrace::OperationThing);
    let child2 = buffer.trace_start(SimpleTrace::OperationThing, None);
    buffer.trace_stop(child2, SimpleTrace::OperationThing);

    let mut iter = buffer.iter();

    let entry = iter.next().unwrap();
    println!("entry = {:#?}", entry);
    assert_eq!(entry.tag(), SimpleTrace::FooEvent.tag());
    assert_eq!(entry.kind(), TraceKind::Event);
    assert_eq!(entry.label(), "Foo");
    let parent = (entry.thread(), entry.id());

    let entry = iter.next().unwrap();
    println!("entry = {:#?}", entry);
    assert_eq!(entry.tag(), SimpleTrace::OperationThing.tag());
    assert_eq!(entry.kind(), TraceKind::Start);
    assert_eq!(entry.label(), "Thing");
    assert_eq!(entry.why(), Some(parent));

    let entry = iter.next().unwrap();
    println!("entry = {:#?}", entry);
    assert_eq!(entry.tag(), SimpleTrace::OperationThing.tag());
    assert_eq!(entry.kind(), TraceKind::Stop);
    assert_eq!(entry.label(), "Thing");
    assert_eq!(entry.why(), None);

    let entry = iter.next().unwrap();
    println!("entry = {:#?}", entry);
    assert_eq!(entry.tag(), SimpleTrace::OperationThing.tag());
    assert_eq!(entry.kind(), TraceKind::Start);
    assert_eq!(entry.label(), "Thing");
    assert_eq!(entry.why(), None);

    let entry = iter.next().unwrap();
    println!("entry = {:#?}", entry);
    assert_eq!(entry.tag(), SimpleTrace::OperationThing.tag());
    assert_eq!(entry.kind(), TraceKind::Stop);
    assert_eq!(entry.label(), "Thing");
    assert_eq!(entry.why(), None);
}

#[test]
fn empty_buffer_yields_nothing() {
    let buffer = SimpleTraceBuffer::default();
    assert!(buffer.iter().next().is_none());
    assert!(buffer.entries().is_empty());
    assert!(buffer.labels().is_empty());
}

#[test]
fn one_slot_buffer_keeps_only_the_newest() {
    let mut buffer = SimpleTraceBuffer::new(SimpleEntry::size() + 1);
    buffer.trace_event(SimpleTrace::FooEvent, None);
    let entries = buffer.entries();
    assert_eq!(entries.len(), 1);
    assert_eq!(entries[0].tag(), 0);
    let thing = buffer.trace_start(SimpleTrace::OperationThing, None);
    let entries = buffer.entries();
    assert_eq!(entries.len(), 1);
    assert_eq!(entries[0].tag(), 1);
    assert_eq!(entries[0].kind(), TraceKind::Start);
    buffer.trace_stop(thing, SimpleTrace::OperationThing);
    let entries = buffer.entries();
    assert_eq!(entries.len(), 1);
    assert_eq!(entries[0].kind(), TraceKind::Stop);
    assert_eq!(entries[0].id(), thing.0);
}

#[test]
fn many_inserts_keep_the_newest_in_order() {
    // 7 slots with 30 bytes to spare: entries straddle the seam at many offsets.
    let mut buffer = SimpleTraceBuffer::new(7 * SimpleEntry::size() + 30);
    let mut ids = Vec::new();
    for i in 0..50u32 {
        let trace = match i % 3 {
            0 => SimpleTrace::FooEvent,
            1 => SimpleTrace::OperationThing,
            _ => SimpleTrace::OperationAnother,
        };
        ids.push(buffer.trace_event(trace, None).0);
    }
    let entries = buffer.entries();
    assert_eq!(entries.len(), 7);
    for (k, entry) in entries.iter().enumerate() {
        let i = 43 + k as u32;
        assert_eq!(entry.tag(), i % 3);
        assert_eq!(entry.id(), ids[i as usize]);
        assert_eq!(entry.kind(), TraceKind::Event);
        assert_eq!(entry.why(), None);
        assert_eq!(entry.thread(), None);
    }
    let mut iter = buffer.iter();
    for entry in entries.iter() {
        assert_eq!(iter.next().as_ref(), Some(entry));
    }
    assert_eq!(iter.next(), None);
}

#[test]
fn timestamps_do_not_decrease() {
    let mut buffer = SimpleTraceBuffer::default();
    for _ in 0..10 {
        buffer.trace_event(SimpleTrace::FooEvent, None);
    }
    let entries = buffer.entries();
    for pair in entries.windows(2) {
        assert!(pair[0].timestamp().0 <= pair[1].timestamp().0);
    }
    assert!(entries[0].timestamp().0 > 0);
}

#[test]
fn ids_are_distinct_and_consecutive() {
    let mut buffer = SimpleTraceBuffer::default();
    let a = buffer.trace_event(SimpleTrace::FooEvent, None);
    let b = buffer.trace_start(SimpleTrace::OperationThing, None);
    buffer.trace_stop(b, SimpleTrace::OperationThing);
    let c = buffer.trace_start(SimpleTrace::OperationAnother, Some(a));
    assert_eq!((a.0, b.0, c.0), (0, 1, 2));
    let entries = buffer.entries();
    assert_eq!(entries[2].id(), b.0);
    assert_eq!(entries[3].why(), Some((None, a.0)));
}

#[test]
fn labels_name_each_observed_tag_once() {
    let mut buffer = SimpleTraceBuffer::new(10 * SimpleEntry::size());
    for _ in 0..10 {
        let event = buffer.trace_event(SimpleTrace::FooEvent, None);
        let child1 = buffer.trace_start(SimpleTrace::OperationThing, Some(event));
        let child2 = buffer.trace_start(SimpleTrace::OperationAnother, None);
        buffer.trace_stop(child2, SimpleTrace::OperationThing);
        buffer.trace_stop(child1, SimpleTrace::OperationAnother);
    }
    let entries = buffer.entries();
    assert_eq!(entries.len(), 10);
    let labels = buffer.labels();
    assert_eq!(labels, vec![(0, "Foo"), (1, "Thing"), (2, "Another")]);

    let mut small = SimpleTraceBuffer::new(2 * SimpleEntry::size());
    small.trace_event(SimpleTrace::FooEvent, None);
    small.trace_event(SimpleTrace::FooEvent, None);
    assert_eq!(small.labels(), vec![(0, "Foo")]);
}

#[test]
fn threaded_ids_carry_the_current_thread() {
    let id = ThreadedTraceId::new_id(5);
    assert_eq!(id.0, ThreadId(thread_id::get()));
    assert_eq!(id.0, ThreadId::get());
    assert_eq!(id.u32(), 5);
    assert_eq!(id.thread(), Some(ThreadId(thread_id::get())));
}

#[test]
fn time_from_seconds_and_nanoseconds() {
    assert_eq!(NsSinceEpoch::from_sec_nsec(0, 0), NsSinceEpoch(0));
    assert_eq!(NsSinceEpoch::from_sec_nsec(2, 5), NsSinceEpoch(2_000_000_005));
    assert_eq!(NsSinceEpoch::from_sec_nsec(-2, 800_000_000), NsSinceEpoch(0));
    assert_eq!(NsSinceEpoch::from_sec_nsec(i64::MAX, 999_999_999), NsSinceEpoch(u64::MAX));
    assert_eq!(
        NsSinceEpoch::from_sec_nsec(18_446_744_073, 709_551_615),
        NsSinceEpoch(u64::MAX)
    );
    assert_eq!(
        NsSinceEpoch::from_sec_nsec(18_446_744_073, 709_551_614),
        NsSinceEpoch(u64::MAX - 1)
    );
    assert!(NsSinceEpoch::now().0 > 1_600_000_000_000_000_000);
}

#[test]
fn simple_ids_have_no_thread() {
    let mut buffer = SimpleTraceBuffer::default();
    let id: SimpleTraceId = buffer.trace_event(SimpleTrace::FooEvent, None);
    assert_eq!(buffer.entries()[0].thread(), None);
    assert_eq!(buffer.entries()[0].id(), id.0);
}

#[test]
fn cloned_buffer_holds_the_same_entries() {
    let mut buffer = SimpleTraceBuffer::new(2 * SimpleEntry::size() + 7);
    for _ in 0..5 {
        buffer.trace_event(SimpleTrace::OperationThing, None);
    }
    let copy = buffer.clone();
    assert_eq!(copy.entries(), buffer.entries());
    let mut copy = copy;
    let next = copy.trace_event(SimpleTrace::FooEvent, None);
    assert_eq!(next.0, 5);
    assert_eq!(buffer.entries().len(), 2);
    assert_eq!(copy.entries()[1].tag(), 0);
}
