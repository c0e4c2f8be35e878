use dial9_trace_format::collector::CentralCollector;
use dial9_trace_format::events::RawEvent;

fn poll_end() -> RawEvent {
    RawEvent::PollEnd { timestamp_nanos: 1000, worker_id: 0 }
}

#[test]
fn test_collector_creation() {
    let mut collector = CentralCollector::new();
    assert_eq!(collector.drain().len(), 0);
}

#[test]
fn test_accept_flush() {
    let mut collector = CentralCollector::new();
    collector.accept_flush(vec![poll_end()]);
    let drained = collector.drain();
    assert_eq!(drained.len(), 1);
    assert_eq!(drained[0].len(), 1);
}

#[test]
fn test_drain_clears_buffers() {
    let mut collector = CentralCollector::new();
    collector.accept_flush(vec![poll_end()]);
    assert_eq!(collector.drain().len(), 1);
    assert_eq!(collector.drain().len(), 0);
}

#[test]
fn test_bounded_evicts_oldest_when_full() {
    let mut collector = CentralCollector::with_capacity(2);
    collector.accept_flush(vec![poll_end()]); // oldest — will be evicted
    collector.accept_flush(vec![poll_end(), poll_end()]);
    collector.accept_flush(vec![poll_end(), poll_end(), poll_end()]); // evicts first
    assert_eq!(collector.take_dropped_batches(), 1);
    let drained = collector.drain();
    assert_eq!(drained.len(), 2);
    // oldest (len=1) was evicted; remaining are len=2 and len=3
    assert_eq!(drained[0].len(), 2);
    assert_eq!(drained[1].len(), 3);
}

#[test]
fn next_takes_oldest_and_counters_reset() {
    let mut collector = CentralCollector::with_capacity(1);
    assert!(collector.is_empty());
    assert!(collector.next().is_none());
    collector.accept_flush(vec![poll_end()]);
    collector.accept_flush(vec![poll_end(), poll_end()]);
    assert_eq!(collector.len(), 1);
    assert_eq!(collector.take_dropped_batches(), 1);
    assert_eq!(collector.take_dropped_batches(), 0);
    assert_eq!(collector.next().map(|b| b.len()), Some(2));
    assert!(collector.is_empty());
}
