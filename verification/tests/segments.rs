use dial9_trace_format::encoder::Encoder;
use dial9_trace_format::schema::FieldDef;
use dial9_trace_format::segments::{
    creation_epoch_secs, parse_segment_index, parse_segment_timestamp, select_sealed_segments,
};
use dial9_trace_format::types::{FieldType, FieldValue};

fn names(list: &[&str]) -> Vec<String> {
    list.iter().map(|s| s.to_string()).collect()
}

struct SegmentMetadataEvent;
struct WorkerParkEvent;

fn now_nanos() -> u64 {
    std::time::SystemTime::now()
        .duration_since(std::time::UNIX_EPOCH)
        .unwrap()
        .as_nanos() as u64
}

/// A segment whose first event is a metadata event at `ts`, then a park event.
fn segment_with_metadata(ts: u64) -> Vec<u8> {
    let mut enc = Encoder::new();
    enc.register_schema_for_with_timestamp::<SegmentMetadataEvent>(
        "SegmentMetadataEvent",
        true,
        vec![FieldDef { name: "entries".into(), field_type: FieldType::String }],
    )
    .unwrap();
    enc.write_event_for::<SegmentMetadataEvent>(&[
        FieldValue::Varint(ts),
        FieldValue::String("test=value".into()),
    ])
    .unwrap();
    enc.register_schema_for_with_timestamp::<WorkerParkEvent>(
        "WorkerParkEvent",
        true,
        vec![FieldDef { name: "worker_id".into(), field_type: FieldType::Varint }],
    )
    .unwrap();
    enc.write_event_for::<WorkerParkEvent>(&[FieldValue::Varint(1_000_000_000), FieldValue::Varint(0)])
        .unwrap();
    enc.finish()
}

#[test]
fn finds_sealed_ignores_active() {
    let segments = select_sealed_segments(
        &names(&["trace.0.bin", "trace.1.bin", "trace.2.bin.active"]),
        "trace",
    );
    assert!(segments.len() == 2);
    assert!(segments[0].index == 0);
    assert!(segments[1].index == 1);
}

#[test]
fn sorted_oldest_first() {
    let segments = select_sealed_segments(&names(&["trace.5.bin", "trace.2.bin", "trace.9.bin"]), "trace");
    let indices: Vec<u32> = segments.iter().map(|s| s.index).collect();
    assert!(indices == [2, 5, 9]);
}

#[test]
fn ignores_unrelated_files() {
    let segments = select_sealed_segments(
        &names(&["trace.0.bin", "other.0.bin", "trace.txt", "readme.md"]),
        "trace",
    );
    assert!(segments.len() == 1);
    assert!(segments[0].index == 0);
    assert_eq!(segments[0].file_name, "trace.0.bin");
}

#[test]
fn empty_directory() {
    let segments = select_sealed_segments(&Vec::new(), "trace");
    assert!(segments.is_empty());
}

#[test]
fn parse_segment_index_valid() {
    assert!(parse_segment_index("trace.0.bin", "trace") == Some(0));
    assert!(parse_segment_index("trace.42.bin", "trace") == Some(42));
    assert!(parse_segment_index("my-app.100.bin", "my-app") == Some(100));
}

#[test]
fn parse_segment_index_invalid() {
    assert!(parse_segment_index("trace.0.bin.active", "trace") == None);
    assert!(parse_segment_index("trace.bin", "trace") == None);
    assert!(parse_segment_index("other.0.bin", "trace") == None);
    assert!(parse_segment_index("trace.abc.bin", "trace") == None);
}

#[test]
fn parse_segment_index_follows_u32_parsing() {
    assert_eq!(parse_segment_index("trace.+7.bin", "trace"), Some(7));
    assert_eq!(parse_segment_index("trace.007.bin", "trace"), Some(7));
    assert_eq!(parse_segment_index("trace.-1.bin", "trace"), None);
    assert_eq!(parse_segment_index("trace.4294967295.bin", "trace"), Some(u32::MAX));
    assert_eq!(parse_segment_index("trace.4294967296.bin", "trace"), None);
    assert_eq!(parse_segment_index("trace..bin", "trace"), None);
    assert_eq!(parse_segment_index("trace.+.bin", "trace"), None);
}

#[test]
fn equal_indices_are_all_kept() {
    let segments = select_sealed_segments(&names(&["trace.01.bin", "trace.0.bin", "trace.1.bin"]), "trace");
    let indices: Vec<u32> = segments.iter().map(|s| s.index).collect();
    assert_eq!(indices, vec![0, 1, 1]);
}

#[test]
fn test_parse_segment_timestamp() {
    let data = segment_with_metadata(now_nanos());
    let timestamp_nanos = parse_segment_timestamp(&data).unwrap();
    let diff = now_nanos().abs_diff(timestamp_nanos);
    assert!(diff < 60_000_000_000);
}

#[test]
fn parse_segment_timestamp_exact_value() {
    let data = segment_with_metadata(1_700_000_000_123_456_789);
    assert_eq!(parse_segment_timestamp(&data), Some(1_700_000_000_123_456_789));
}

#[test]
fn parse_segment_timestamp_gives_up_after_ten_events() {
    let mut enc = Encoder::new();
    enc.register_schema_for_with_timestamp::<WorkerParkEvent>(
        "WorkerParkEvent",
        true,
        vec![FieldDef { name: "worker_id".into(), field_type: FieldType::Varint }],
    )
    .unwrap();
    for i in 0..10u64 {
        enc.write_event_for::<WorkerParkEvent>(&[FieldValue::Varint(i), FieldValue::Varint(0)])
            .unwrap();
    }
    enc.register_schema_for_with_timestamp::<SegmentMetadataEvent>(
        "SegmentMetadataEvent",
        true,
        vec![FieldDef { name: "entries".into(), field_type: FieldType::String }],
    )
    .unwrap();
    enc.write_event_for::<SegmentMetadataEvent>(&[FieldValue::Varint(99), FieldValue::String(String::new())])
        .unwrap();
    assert_eq!(parse_segment_timestamp(&enc.finish()), None);
}

#[test]
fn test_creation_epoch_secs_uses_parsed_timestamp() {
    let data = segment_with_metadata(now_nanos());
    let (epoch_secs, header_valid) = creation_epoch_secs(&data, 0);
    assert!(header_valid);
    let expected_secs = now_nanos() / 1_000_000_000;
    assert!(expected_secs.abs_diff(epoch_secs) < 60);
}

#[test]
fn test_creation_epoch_secs_invalid_data_falls_back() {
    let now = now_nanos() / 1_000_000_000;
    let (epoch_secs, header_valid) = creation_epoch_secs(b"not a valid trace", now);
    assert!(!header_valid);
    assert!(now.abs_diff(epoch_secs) < 60);
}
