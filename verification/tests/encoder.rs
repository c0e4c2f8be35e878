use dial9_trace_format::codec::{
    decode_header, encode_header, SchemaInfo, HEADER_SIZE, TAG_TIMESTAMP_RESET,
};
use dial9_trace_format::decoder::{DecodedFrame, Decoder};
use dial9_trace_format::encoder::{EncodeError, Encoder};
use dial9_trace_format::schema::FieldDef;
use dial9_trace_format::types::{FieldType, FieldValue, InternedString, SymbolEntry};

struct TestEvent;

fn varint_field(name: &str) -> Vec<FieldDef> {
    vec![FieldDef {
        name: name.into(),
        field_type: FieldType::Varint,
    }]
}

#[test]
fn encoder_writes_header() {
    let enc = Encoder::new();
    let data = enc.finish();
    assert_eq!(&data[..5], &[0x54, 0x52, 0x43, 0x00, 1]);
}

#[test]
fn encoder_register_and_write_event() {
    let mut enc = Encoder::new();
    enc.register_schema_for::<TestEvent>("Ev", varint_field("v"))
        .unwrap();
    enc.write_event_for::<TestEvent>(&[FieldValue::Varint(42)])
        .unwrap();
    let data = enc.finish();
    assert!(data.len() > 5);
}

struct Unregistered;

#[test]
#[should_panic(expected = "type not registered")]
fn encoder_rejects_unregistered_type() {
    let mut enc = Encoder::new();
    enc.write_event_for::<Unregistered>(&[]).expect("type not registered");
}

#[test]
fn encoder_refuses_unregistered_type() {
    let mut enc = Encoder::new();
    let before = enc.bytes_written();
    assert_eq!(
        enc.write_event_for::<Unregistered>(&[]),
        Err(EncodeError::NotRegistered)
    );
    assert_eq!(enc.bytes_written(), before);
}

#[test]
fn idempotent_re_registration() {
    let mut enc = Encoder::new();
    let fields = varint_field("v");
    let id1 = enc
        .register_schema_for::<TestEvent>("Ev", fields.clone())
        .unwrap();
    let id2 = enc.register_schema_for::<TestEvent>("Ev", fields).unwrap();
    assert_eq!(id1, id2);
}

#[test]
fn re_registration_different_schema_errors() {
    let mut enc = Encoder::new();
    enc.register_schema_for::<TestEvent>("Ev", varint_field("v"))
        .unwrap();
    let result = enc.register_schema_for::<TestEvent>(
        "Ev",
        vec![FieldDef {
            name: "different".into(),
            field_type: FieldType::Bool,
        }],
    );
    assert!(result.is_err());
}

#[test]
fn encoder_intern_string_deduplicates() {
    let mut enc = Encoder::new();
    let id1 = enc.intern_string("hello").unwrap();
    let id2 = enc.intern_string("hello").unwrap();
    let id3 = enc.intern_string("world").unwrap();
    assert_eq!(id1, id2);
    assert_ne!(id1, id3);
}

#[test]
fn encoder_write_symbol_table() {
    let mut enc = Encoder::new();
    enc.write_symbol_table(&[SymbolEntry {
        base_addr: 0x1000,
        size: 64,
        symbol_id: 0,
    }])
    .unwrap();
    let data = enc.finish();
    assert!(data.len() > 5);
}

#[test]
fn timestamp_round_trip_write_event_for() {
    struct TS;
    let mut enc = Encoder::new();
    enc.register_schema_for_with_timestamp::<TS>("TS", true, varint_field("v"))
        .unwrap();

    let ts1 = 100_000u64;
    let ts2 = 50_000u64; // backwards
    let ts3 = 200_000_000u64; // big jump — triggers reset
    enc.write_event_for::<TS>(&[FieldValue::Varint(ts1), FieldValue::Varint(1)])
        .unwrap();
    enc.write_event_for::<TS>(&[FieldValue::Varint(ts2), FieldValue::Varint(2)])
        .unwrap();
    enc.write_event_for::<TS>(&[FieldValue::Varint(ts3), FieldValue::Varint(3)])
        .unwrap();
    // Now go backwards from ts3's reset base
    let ts4 = 100_000_000u64;
    enc.write_event_for::<TS>(&[FieldValue::Varint(ts4), FieldValue::Varint(4)])
        .unwrap();

    let bytes = enc.finish();
    let mut dec = Decoder::new(&bytes).unwrap();
    let events: Vec<_> = dec
        .decode_all()
        .into_iter()
        .filter_map(|f| match f {
            DecodedFrame::Event {
                timestamp_ns,
                values,
                ..
            } => Some((timestamp_ns, values)),
            _ => None,
        })
        .collect();

    assert_eq!(events.len(), 4);
    assert_eq!(events[0].0, Some(ts1));
    assert_eq!(events[0].1, vec![FieldValue::Varint(1)]);
    assert_eq!(events[1].0, Some(ts2));
    assert_eq!(events[1].1, vec![FieldValue::Varint(2)]);
    assert_eq!(events[2].0, Some(ts3));
    assert_eq!(events[2].1, vec![FieldValue::Varint(3)]);
    assert_eq!(
        events[3].0,
        Some(ts4),
        "backwards from reset base must be preserved"
    );
    assert_eq!(events[3].1, vec![FieldValue::Varint(4)]);
}

#[test]
fn encoder_new_to_writer() {
    let buf = Vec::new();
    let enc = Encoder::new_to(buf).unwrap();
    let buf = enc.into_inner();
    // Should at least have the header
    assert!(buf.len() >= 5);
    assert_eq!(&buf[..5], &[0x54, 0x52, 0x43, 0x00, 1]);
}

/// The encoder advances the timestamp base after each event, so consecutive
/// events carry inter-event deltas and need no reset frames.
#[test]
fn timestamp_base_advances_per_event() {
    struct Ev;
    let mut enc = Encoder::new();
    enc.register_schema_for_with_timestamp::<Ev>("Ev", true, varint_field("v"))
        .unwrap();

    let ts1 = 12_000_000u64; // 12ms
    let ts2 = 24_000_000u64; // 24ms (12ms after ts1)
    enc.write_event_for::<Ev>(&[FieldValue::Varint(ts1), FieldValue::Varint(1)])
        .unwrap();
    enc.write_event_for::<Ev>(&[FieldValue::Varint(ts2), FieldValue::Varint(2)])
        .unwrap();

    let bytes = enc.finish();

    let reset_count = bytes.iter().filter(|&&b| b == 0x05).count();
    assert_eq!(
        reset_count, 0,
        "base should advance per event, avoiding unnecessary resets"
    );

    let mut dec = Decoder::new(&bytes).unwrap();
    let events: Vec<_> = dec
        .decode_all()
        .into_iter()
        .filter_map(|f| match f {
            DecodedFrame::Event { timestamp_ns, .. } => timestamp_ns,
            _ => None,
        })
        .collect();
    assert_eq!(events, vec![ts1, ts2]);
}

#[test]
fn backwards_timestamp_emits_reset_frame() {
    struct Ev;
    let mut enc = Encoder::new();
    enc.register_schema_for_with_timestamp::<Ev>("Ev", true, varint_field("v"))
        .unwrap();
    enc.write_event_for::<Ev>(&[FieldValue::Varint(1000), FieldValue::Varint(1)])
        .unwrap();
    let before = HEADER_SIZE + enc.bytes_written() as usize;
    enc.write_event_for::<Ev>(&[FieldValue::Varint(500), FieldValue::Varint(2)])
        .unwrap();
    let bytes = enc.finish();
    // reset frame: tag 0x05, LEB128(500) = f4 03; then event with delta 0
    assert_eq!(&bytes[before..before + 3], &[TAG_TIMESTAMP_RESET, 0xf4, 0x03]);
    assert_eq!(&bytes[before + 3..], &[0x02, 0x00, 0x00, 0x00, 0x00, 0x00, 0x02]);
}

#[test]
fn exact_event_bytes() {
    struct Ev;
    let mut enc = Encoder::new();
    enc.register_schema_for_with_timestamp::<Ev>("Ev", true, varint_field("v"))
        .unwrap();
    let before = HEADER_SIZE + enc.bytes_written() as usize;
    enc.write_event_for::<Ev>(&[FieldValue::Varint(0x010203), FieldValue::Varint(300)])
        .unwrap();
    let bytes = enc.finish();
    assert_eq!(
        &bytes[before..],
        &[0x02, 0x00, 0x00, 0x03, 0x02, 0x01, 0xac, 0x02]
    );
}

#[test]
fn exact_schema_bytes() {
    let mut enc = Encoder::new();
    enc.register_schema_for::<TestEvent>("Ev", varint_field("v"))
        .unwrap();
    let bytes = enc.finish();
    assert_eq!(
        &bytes[5..],
        &[0x01, 0x00, 0x00, 0x02, b'E', b'v', 0x00, 0x01, 0x01, b'v', 0x00]
    );
}

#[test]
fn wrong_value_type_is_refused() {
    let mut enc = Encoder::new();
    enc.register_schema_for::<TestEvent>("Ev", varint_field("v"))
        .unwrap();
    let before = enc.bytes_written();
    assert_eq!(
        enc.write_event_for::<TestEvent>(&[FieldValue::Bool(true)]),
        Err(EncodeError::FieldMismatch)
    );
    assert_eq!(
        enc.write_event_for::<TestEvent>(&[]),
        Err(EncodeError::FieldMismatch)
    );
    assert_eq!(enc.bytes_written(), before);
}

#[test]
fn missing_timestamp_is_refused() {
    struct Ev;
    let mut enc = Encoder::new();
    enc.register_schema_for_with_timestamp::<Ev>("Ev", true, varint_field("v"))
        .unwrap();
    assert_eq!(
        enc.write_event_for::<Ev>(&[FieldValue::Bool(true), FieldValue::Varint(1)]),
        Err(EncodeError::TimestampMismatch)
    );
    assert_eq!(
        enc.write_event_for::<Ev>(&[]),
        Err(EncodeError::TimestampMismatch)
    );
}

#[test]
fn interned_ids_are_sequential() {
    let mut enc = Encoder::new();
    assert_eq!(enc.intern_string("a").unwrap(), InternedString(0));
    assert_eq!(enc.intern_string("b").unwrap(), InternedString(1));
    assert_eq!(enc.intern_string("a").unwrap(), InternedString(0));
    let before = enc.bytes_written();
    enc.intern_string("b").unwrap();
    assert_eq!(enc.bytes_written(), before, "known strings emit nothing");
}

#[test]
fn reset_starts_a_new_session() {
    let mut enc = Encoder::new();
    enc.register_schema_for::<TestEvent>("Ev", varint_field("v"))
        .unwrap();
    let old = enc.reset_to_infallible(Vec::new());
    assert!(old.len() > HEADER_SIZE);
    let id = enc
        .register_schema_for::<TestEvent>("Other", varint_field("w"))
        .unwrap();
    assert_eq!(id.0, 0);
    let fresh = enc.finish();
    assert_eq!(decode_header(&fresh), Some(1));
}

#[test]
fn header_round_trip() {
    let mut out = Vec::new();
    encode_header(&mut out);
    assert_eq!(out.len(), HEADER_SIZE);
    assert_eq!(decode_header(&out), Some(1));
    assert_eq!(decode_header(&out[..4]), None);
    let _ = SchemaInfo {
        field_types: vec![FieldType::Varint],
        has_timestamp: false,
    };
}
