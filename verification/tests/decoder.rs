use dial9_trace_format::codec::encode_header;
use dial9_trace_format::decoder::{DecodedFrame, DecodedFrameRef, Decoder};
use dial9_trace_format::encoder::Encoder;
use dial9_trace_format::schema::FieldDef;
use dial9_trace_format::types::{FieldType, FieldValue, FieldValueRef, PoolEntry, SymbolEntry};

struct Ev;

fn varint_field(name: &str) -> Vec<FieldDef> {
    vec![FieldDef {
        name: name.into(),
        field_type: FieldType::Varint,
    }]
}

#[test]
fn decode_empty_stream() {
    let enc = Encoder::new();
    let data = enc.finish();
    let mut dec = Decoder::new(&data).unwrap();
    assert_eq!(dec.version(), 1);
    assert!(dec.next_frame().unwrap().is_none());
}

#[test]
fn decode_schema_frame() {
    let mut enc = Encoder::new();
    enc.register_schema_for::<Ev>("Ev", varint_field("v")).unwrap();
    let data = enc.finish();
    let mut dec = Decoder::new(&data).unwrap();
    let frame = dec.next_frame().unwrap().unwrap();
    assert!(matches!(frame, DecodedFrame::Schema(s) if s.name == "Ev"));
}

#[test]
fn decode_event_after_schema() {
    let mut enc = Encoder::new();
    enc.register_schema_for::<Ev>("Ev", varint_field("v")).unwrap();
    enc.write_event_for::<Ev>(&[FieldValue::Varint(42)]).unwrap();
    let data = enc.finish();

    let mut dec = Decoder::new(&data).unwrap();
    let frames = dec.decode_all();
    assert_eq!(frames.len(), 2);
    if let DecodedFrame::Event { values, .. } = &frames[1] {
        assert_eq!(*values, vec![FieldValue::Varint(42)]);
    } else {
        panic!("expected event");
    }
}

#[test]
fn decode_string_pool_builds_map() {
    let mut enc = Encoder::new();
    let id = enc.intern_string("hello").unwrap();
    let data = enc.finish();

    let mut dec = Decoder::new(&data).unwrap();
    dec.decode_all();
    assert_eq!(dec.string_pool().get(&id.0), Some(&"hello".to_string()));
}

#[test]
fn decode_multiple_events() {
    let mut enc = Encoder::new();
    enc.register_schema_for::<Ev>("Ev", varint_field("v")).unwrap();
    for i in 0..10u64 {
        enc.write_event_for::<Ev>(&[FieldValue::Varint(i)]).unwrap();
    }
    let data = enc.finish();

    let mut dec = Decoder::new(&data).unwrap();
    let frames = dec.decode_all();
    assert_eq!(frames.len(), 11);
}

#[test]
fn bad_header_returns_none() {
    assert!(Decoder::new(&[0x00, 0x00, 0x00, 0x00, 1]).is_none());
}

#[test]
fn truncated_input_has_no_decoder() {
    assert!(Decoder::new(&[0x54, 0x52, 0x43, 0x00]).is_none());
}

#[test]
fn all_value_kinds_round_trip() {
    struct All;
    let mut enc = Encoder::new();
    let name = enc.intern_string("pooled").unwrap();
    enc.register_schema_for_with_timestamp::<All>(
        "All",
        true,
        vec![
            FieldDef { name: "a".into(), field_type: FieldType::Varint },
            FieldDef { name: "b".into(), field_type: FieldType::Bool },
            FieldDef { name: "c".into(), field_type: FieldType::String },
            FieldDef { name: "d".into(), field_type: FieldType::PooledString },
            FieldDef { name: "e".into(), field_type: FieldType::StackFrames },
        ],
    )
    .unwrap();
    let values = vec![
        FieldValue::Varint(u64::MAX),
        FieldValue::Bool(true),
        FieldValue::String("héllo".to_string()),
        FieldValue::PooledString(name),
        FieldValue::StackFrames(vec![0x1000, 0, u64::MAX]),
    ];
    let mut with_ts = vec![FieldValue::Varint(7)];
    with_ts.extend(values.iter().cloned());
    enc.write_event_for::<All>(&with_ts).unwrap();
    enc.write_string_pool(&[PoolEntry { pool_id: 9, data: b"raw".to_vec() }])
        .unwrap();
    enc.write_symbol_table(&[SymbolEntry { base_addr: 1, size: 2, symbol_id: 3 }])
        .unwrap();
    let data = enc.finish();

    let mut dec = Decoder::new(&data).unwrap();
    let frames = dec.decode_all();
    assert_eq!(frames.len(), 5);
    assert!(matches!(&frames[0], DecodedFrame::StringPool(es) if es[0].data == b"pooled"));
    assert!(matches!(&frames[1], DecodedFrame::Schema(s) if s.name == "All" && s.has_timestamp));
    assert_eq!(
        frames[2],
        DecodedFrame::Event {
            type_id: dial9_trace_format::types::WireTypeId(0),
            timestamp_ns: Some(7),
            values,
        }
    );
    assert_eq!(
        frames[4],
        DecodedFrame::SymbolTable(vec![SymbolEntry { base_addr: 1, size: 2, symbol_id: 3 }])
    );
    assert_eq!(dec.string_pool().get(&9), Some(&"raw".to_string()));

    let mut dec = Decoder::new(&data).unwrap();
    let frames = dec.decode_all_ref();
    assert_eq!(frames.len(), 5);
    if let DecodedFrameRef::Event { values, .. } = &frames[2] {
        assert_eq!(values[2], FieldValueRef::String("héllo"));
        assert_eq!(values[4], FieldValueRef::StackFrames(vec![0x1000, 0, u64::MAX]));
    } else {
        panic!("expected event");
    }
}

#[test]
fn conflicting_schema_is_an_error() {
    // Two segments concatenated without a header in between: type id 0 is
    // defined twice with different schemas.
    struct A;
    struct B;
    let mut e1 = Encoder::new();
    e1.register_schema_for::<A>("A", varint_field("x")).unwrap();
    let mut e2 = Encoder::new();
    e2.register_schema_for::<B>("B", varint_field("y")).unwrap();
    let mut data = e1.finish();
    data.extend_from_slice(&e2.finish()[5..]);
    let mut dec = Decoder::new(&data).unwrap();
    assert!(dec.next_frame().unwrap().is_some());
    let err = dec.next_frame().unwrap_err();
    assert_eq!(err.pos, data.len());
}

#[test]
fn unknown_tag_is_a_decode_error() {
    let mut data = Vec::new();
    encode_header(&mut data);
    data.push(0x77);
    let mut dec = Decoder::new(&data).unwrap();
    assert_eq!(dec.next_frame().unwrap_err().pos, 5);
    assert_eq!(dec.position(), 5);
    let mut dec = Decoder::new(&data).unwrap();
    assert!(dec.for_each_event(|_| {}).is_err());
}

#[test]
fn event_of_unknown_schema_ends_decoding() {
    let mut data = Vec::new();
    encode_header(&mut data);
    data.extend_from_slice(&[0x02, 0x00, 0x00, 0x01]);
    let mut dec = Decoder::new(&data).unwrap();
    assert!(dec.decode_all().is_empty());
}

#[test]
fn invalid_pool_string_is_skipped() {
    let mut enc = Encoder::new();
    enc.write_string_pool(&[
        PoolEntry { pool_id: 1, data: vec![0xff, 0xfe] },
        PoolEntry { pool_id: 2, data: b"ok".to_vec() },
    ])
    .unwrap();
    let data = enc.finish();
    let mut dec = Decoder::new(&data).unwrap();
    assert_eq!(dec.decode_all().len(), 1);
    assert_eq!(dec.string_pool().get(&1), None);
    assert_eq!(dec.string_pool().get(&2), Some(&"ok".to_string()));
}

#[test]
fn truncated_event_frame_is_a_decode_error() {
    let mut enc = Encoder::new();
    enc.register_schema_for::<Ev>("Ev", varint_field("v")).unwrap();
    enc.write_event_for::<Ev>(&[FieldValue::Varint(42)]).unwrap();
    let mut data = enc.finish();
    data.pop();
    let mut dec = Decoder::new(&data).unwrap();
    assert!(matches!(dec.next_frame_ref(), Ok(Some(DecodedFrameRef::Schema(_)))));
    assert!(dec.next_frame_ref().is_err());
    let mut dec = Decoder::new(&data).unwrap();
    assert!(matches!(dec.next_frame(), Ok(Some(DecodedFrame::Schema(_)))));
    assert!(dec.next_frame().is_err());
}
