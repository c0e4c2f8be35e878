use dial9_trace_format::buffer::{ThreadLocalBuffer, DEFAULT_BATCH_SIZE};
use dial9_trace_format::decoder::{DecodedFrame, Decoder};
use dial9_trace_format::events::{CpuSampleData, CpuSampleSource, RawEvent, TaskId};
use dial9_trace_format::types::{FieldValue, InternedString};

fn poll_end_event() -> RawEvent {
    RawEvent::PollEnd { timestamp_nanos: 1000, worker_id: 0 }
}

#[test]
fn test_buffer_creation() {
    let buffer = ThreadLocalBuffer::new();
    assert_eq!(buffer.event_count(), 0);
    assert_eq!(buffer.batch_size(), DEFAULT_BATCH_SIZE);
}

#[test]
fn test_record_event() {
    let mut buffer = ThreadLocalBuffer::new();
    buffer.record_event(&poll_end_event()).unwrap();
    assert_eq!(buffer.event_count(), 1);
    assert!(buffer.bytes_written() > 0);
}

#[test]
fn test_should_flush_respects_batch_size() {
    // Use a tiny batch size so a single event triggers flush.
    let mut buffer = ThreadLocalBuffer::with_batch_size(1);
    assert!(!buffer.should_flush());
    buffer.record_event(&poll_end_event()).unwrap();
    assert!(buffer.should_flush());
}

#[test]
fn test_should_flush_default_batch_size() {
    let mut buffer = ThreadLocalBuffer::new();
    assert!(!buffer.should_flush());
    buffer.record_event(&poll_end_event()).unwrap();
    assert!(!buffer.should_flush());
}

#[test]
fn test_flush() {
    let mut buffer = ThreadLocalBuffer::new();
    buffer.record_event(&poll_end_event()).unwrap();
    let batch = buffer.flush();
    assert!(!batch.encoded_bytes.is_empty());
    assert_eq!(batch.event_count, 1);
    assert_eq!(buffer.event_count(), 0);
}

#[test]
fn flushed_batch_decodes_to_the_recorded_events() {
    let mut buffer = ThreadLocalBuffer::new();
    buffer
        .record_event(&RawEvent::PollStart {
            timestamp_nanos: 5_000,
            worker_id: 3,
            worker_local_queue_depth: 300,
            task_id: TaskId(42),
            location: "src/main.rs:10:5".to_string(),
        })
        .unwrap();
    buffer
        .record_event(&RawEvent::TaskSpawn {
            timestamp_nanos: 6_000,
            task_id: TaskId(43),
            location: "src/main.rs:10:5".to_string(),
        })
        .unwrap();
    let batch = buffer.flush();
    assert_eq!(batch.event_count, 2);
    let mut dec = Decoder::new(&batch.encoded_bytes).unwrap();
    let frames = dec.decode_all();
    let events: Vec<&DecodedFrame> = frames.iter().filter(|f| matches!(f, DecodedFrame::Event { .. })).collect();
    assert_eq!(events.len(), 2);
    match events[0] {
        DecodedFrame::Event { timestamp_ns, values, .. } => {
            assert_eq!(*timestamp_ns, Some(5_000));
            assert_eq!(
                values,
                &vec![
                    FieldValue::Varint(3),
                    FieldValue::Varint(300 % 256),
                    FieldValue::Varint(42),
                    FieldValue::PooledString(InternedString::from_raw(0)),
                ]
            );
        }
        _ => unreachable!(),
    }
    match events[1] {
        DecodedFrame::Event { timestamp_ns, values, .. } => {
            assert_eq!(*timestamp_ns, Some(6_000));
            assert_eq!(
                values,
                &vec![FieldValue::Varint(43), FieldValue::PooledString(InternedString::from_raw(0))]
            );
        }
        _ => unreachable!(),
    }
    assert_eq!(dec.string_pool().get(&0).map(|s| s.as_str()), Some("src/main.rs:10:5"));
}

#[test]
fn cpu_sample_without_thread_name_uses_placeholder() {
    let mut buffer = ThreadLocalBuffer::new();
    buffer
        .record_event(&RawEvent::CpuSample(Box::new(CpuSampleData {
            timestamp_nanos: 7,
            worker_id: 1,
            tid: 99,
            source: CpuSampleSource::SchedEvent,
            thread_name: None,
            callchain: vec![0x10, 0x20],
        })))
        .unwrap();
    let batch = buffer.flush();
    let mut dec = Decoder::new(&batch.encoded_bytes).unwrap();
    let frames = dec.decode_all();
    let ev = frames.iter().find(|f| matches!(f, DecodedFrame::Event { .. })).unwrap();
    match ev {
        DecodedFrame::Event { values, .. } => {
            assert_eq!(values[1], FieldValue::Varint(99));
            assert_eq!(values[2], FieldValue::Varint(1));
            assert_eq!(values[4], FieldValue::StackFrames(vec![0x10, 0x20]));
        }
        _ => unreachable!(),
    }
    assert_eq!(dec.string_pool().get(&0).map(|s| s.as_str()), Some("<no thread name>"));
}

#[test]
fn schemas_are_registered_once_per_batch() {
    let mut buffer = ThreadLocalBuffer::new();
    buffer.record_event(&poll_end_event()).unwrap();
    buffer.record_event(&poll_end_event()).unwrap();
    let batch = buffer.flush();
    let mut dec = Decoder::new(&batch.encoded_bytes).unwrap();
    let frames = dec.decode_all();
    let schemas = frames.iter().filter(|f| matches!(f, DecodedFrame::Schema(_))).count();
    assert_eq!(schemas, 1);
    // A new batch starts over with its own schema.
    buffer.record_event(&poll_end_event()).unwrap();
    let batch2 = buffer.flush();
    let mut dec2 = Decoder::new(&batch2.encoded_bytes).unwrap();
    assert_eq!(dec2.decode_all().iter().filter(|f| matches!(f, DecodedFrame::Schema(_))).count(), 1);
}

#[test]
fn each_event_kind_gets_its_own_schema() {
    let mut buffer = ThreadLocalBuffer::new();
    let events = vec![
        RawEvent::PollStart {
            timestamp_nanos: 1,
            worker_id: 0,
            worker_local_queue_depth: 2,
            task_id: TaskId(3),
            location: "src/lib.rs:1:1".to_string(),
        },
        RawEvent::PollEnd { timestamp_nanos: 2, worker_id: 0 },
        RawEvent::WorkerPark { timestamp_nanos: 3, worker_id: 0, worker_local_queue_depth: 0, cpu_time_nanos: 5 },
        RawEvent::WorkerUnpark {
            timestamp_nanos: 4,
            worker_id: 0,
            worker_local_queue_depth: 0,
            cpu_time_nanos: 6,
            sched_wait_delta_nanos: 7,
        },
        RawEvent::QueueSample { timestamp_nanos: 5, global_queue_depth: 8 },
        RawEvent::TaskSpawn { timestamp_nanos: 6, task_id: TaskId(9), location: "src/lib.rs:2:1".to_string() },
        RawEvent::TaskTerminate { timestamp_nanos: 7, task_id: TaskId(9) },
        RawEvent::WakeEvent { timestamp_nanos: 8, waker_task_id: TaskId(3), woken_task_id: TaskId(9), target_worker: 1 },
        RawEvent::CpuSample(Box::new(CpuSampleData {
            timestamp_nanos: 9,
            worker_id: 0,
            tid: 10,
            source: CpuSampleSource::SchedEvent,
            thread_name: None,
            callchain: vec![0x10],
        })),
    ];
    for ev in &events {
        buffer.record_event(ev).unwrap();
    }
    for ev in &events {
        buffer.record_event(ev).unwrap();
    }
    assert_eq!(buffer.event_count(), 18);
    let batch = buffer.flush();
    let mut dec = Decoder::new(&batch.encoded_bytes).unwrap();
    let frames = dec.decode_all();
    let schemas = frames.iter().filter(|f| matches!(f, DecodedFrame::Schema(_))).count();
    assert_eq!(schemas, 9);
    let events_seen = frames.iter().filter(|f| matches!(f, DecodedFrame::Event { .. })).count();
    assert_eq!(events_seen, 18);
}
