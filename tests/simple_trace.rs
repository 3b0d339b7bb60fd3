use eep::simple_trace::SimpleTrace;
use eep::traits::Trace;

#[test]
fn usize_is_big_enough() {
    // Pretty safe assumption here.
    assert!(std::mem::size_of::<usize>() >= std::mem::size_of::<u32>());
}

#[test]
fn simple_trace_tags_and_labels() {
    assert_eq!(SimpleTrace::FooEvent.tag(), 0);
    assert_eq!(SimpleTrace::OperationThing.tag(), 1);
    assert_eq!(SimpleTrace::OperationAnother.tag(), 2);
    assert_eq!(SimpleTrace::label(0), "Foo");
    assert_eq!(SimpleTrace::label(1), "Thing");
    assert_eq!(SimpleTrace::label(2), "Another");
}
