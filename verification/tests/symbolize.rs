use dial9_trace_format::decoder::{DecodedFrame, Decoder};
use dial9_trace_format::encoder::Encoder;
use dial9_trace_format::schema::FieldDef;
use dial9_trace_format::symbolize::{
    partition_addresses, symbolize_trace_with_maps, write_placeholders, write_symbolized_batch,
    MapsEntry, ResolvedFrame, ResolvedSymbol, SourceLoc, SymbolTableEntry,
};
use dial9_trace_format::types::{FieldType, FieldValue, InternedString};
use dial9_trace_format::TraceEvent;

struct Ev;

fn frames_trace(frames: Vec<u64>) -> Vec<u8> {
    let mut enc = Encoder::new();
    enc.register_schema_for_with_timestamp::<Ev>(
        "Ev",
        true,
        vec![FieldDef { name: "frames".into(), field_type: FieldType::StackFrames }],
    )
    .unwrap();
    enc.write_event_for::<Ev>(&[FieldValue::Varint(0), FieldValue::StackFrames(frames)])
        .unwrap();
    enc.finish()
}

fn pool_strings(dec: &Decoder) -> Vec<String> {
    (0..100u32).filter_map(|i| dec.string_pool().get(&i).cloned()).collect()
}


fn marker_function() -> u64 {
    std::hint::black_box(42)
}

#[test]
fn symbolize_with_maps_produces_symbol_events() {
    let addr = marker_function as fn() -> u64 as usize as u64;
    // Where the running binary maps this address from.
    let normalizer = blazesym::normalize::Normalizer::new();
    let normalized = normalizer.normalize_user_addrs(blazesym::Pid::Slf, &[addr]).unwrap();
    let (file_offset, meta_idx) = normalized.outputs[0];
    let path = match &normalized.meta[meta_idx] {
        blazesym::normalize::UserMeta::Elf(elf) => elf.path.to_string_lossy().into_owned(),
        _ => panic!("expected an ELF mapping"),
    };
    let maps = vec![MapsEntry { start: addr, end: addr + 1, file_offset, path }];

    let buf = frames_trace(vec![addr]);
    let mut output = Vec::new();
    symbolize_trace_with_maps(&buf, &maps, &mut output).unwrap();
    assert!(!output.is_empty(), "expected symbol data to be written");

    let mut combined = buf.clone();
    combined.extend_from_slice(&output);
    let mut dec = Decoder::new(&combined).unwrap();
    let frames = dec.decode_all();
    let has_string_pool = frames.iter().any(|f| matches!(f, DecodedFrame::StringPool(_)));
    let has_symbol_schema = frames
        .iter()
        .any(|f| matches!(f, DecodedFrame::Schema(s) if s.name == SymbolTableEntry::event_name()));
    assert!(has_string_pool, "expected StringPool frame in output");
    assert!(has_symbol_schema, "expected SymbolTableEntry schema in output");
}

#[test]
fn symbol_table_event_round_trip() {
    let mut enc = Encoder::new();
    let sym_name = enc.intern_string("my_function").unwrap();
    let src_file = enc.intern_string("/src/lib.rs").unwrap();
    enc.write(&SymbolTableEntry {
        timestamp_ns: 0,
        addr: 0x1000,
        size: 256,
        symbol_name: sym_name,
        inline_depth: 0,
        source_file: src_file,
        source_line: 42,
    })
    .unwrap();
    let buf = enc.finish();

    let mut dec = Decoder::new(&buf).unwrap();
    let frames = dec.decode_all();
    // StringPool("my_function") + StringPool("/src/lib.rs") + Schema + Event
    assert_eq!(frames.len(), 4);
    if let DecodedFrame::Event { values, .. } = &frames[3] {
        assert_eq!(values[0], FieldValue::Varint(0x1000));
        assert_eq!(values[1], FieldValue::Varint(256));
        assert_eq!(values[2], FieldValue::PooledString(InternedString::from_raw(0)));
        assert_eq!(values[3], FieldValue::Varint(0));
        assert_eq!(values[4], FieldValue::PooledString(InternedString::from_raw(1)));
        assert_eq!(values[5], FieldValue::Varint(42));
    } else {
        panic!("expected event frame");
    }
    assert_eq!(dec.string_pool().get(&0).map(|s| s.as_str()), Some("my_function"));
}

#[test]
fn symbolize_empty_trace_writes_nothing() {
    let buf = Encoder::new().finish();
    let mut output = Vec::new();
    symbolize_trace_with_maps(&buf, &[], &mut output).unwrap();
    assert!(output.is_empty());
}

#[test]
fn symbolize_no_stack_frames_writes_nothing() {
    let mut enc = Encoder::new();
    enc.register_schema_for_with_timestamp::<Ev>(
        "Ev",
        true,
        vec![FieldDef { name: "count".into(), field_type: FieldType::Varint }],
    )
    .unwrap();
    enc.write_event_for::<Ev>(&[FieldValue::Varint(0), FieldValue::Varint(42)]).unwrap();
    let buf = enc.finish();

    let maps = vec![MapsEntry { start: 0x1000, end: 0x2000, file_offset: 0, path: "/bin/test".into() }];
    let mut output = Vec::new();
    symbolize_trace_with_maps(&buf, &maps, &mut output).unwrap();
    assert!(output.is_empty());
}

#[test]
fn symbolize_empty_maps_writes_nothing() {
    let buf = frames_trace(vec![0x1000]);
    let mut output = Vec::new();
    symbolize_trace_with_maps(&buf, &[], &mut output).unwrap();
    // Addresses exist but none match any mapping, so no symbols are emitted.
    assert!(output.is_empty());
}

#[test]
fn symbolize_emits_placeholders_when_elf_missing() {
    let addr: u64 = 0x1000;
    let fake_path = "/nonexistent/fake.so";
    let maps = vec![MapsEntry { start: 0x0, end: 0x2000, file_offset: 0, path: fake_path.to_string() }];
    let buf = frames_trace(vec![addr]);

    let mut output = Vec::new();
    symbolize_trace_with_maps(&buf, &maps, &mut output).unwrap();
    assert!(!output.is_empty(), "expected symbol data to be written");

    let mut combined = buf.clone();
    combined.extend_from_slice(&output);
    let mut dec = Decoder::new(&combined).unwrap();
    let frames = dec.decode_all();

    let has_symbol_schema = frames
        .iter()
        .any(|f| matches!(f, DecodedFrame::Schema(s) if s.name == SymbolTableEntry::event_name()));
    assert!(has_symbol_schema, "expected SymbolTableEntry schema in output");

    let event_count = frames.iter().filter(|f| matches!(f, DecodedFrame::Event { .. })).count();
    assert!(event_count >= 2, "expected at least 2 events (input + placeholder), got {}", event_count);

    let pool_strings = pool_strings(&dec);
    let has_placeholder = pool_strings
        .iter()
        .any(|s| s.starts_with("[symbolize-failed]") && s.contains(&format!("{:#x}", addr)));
    assert!(has_placeholder, "expected '[symbolize-failed] 0x1000' in string pool, got: {:?}", pool_strings);
    assert!(pool_strings.iter().any(|s| s == fake_path));
}

#[test]
fn invalid_header_is_refused() {
    let mut output = Vec::new();
    assert!(symbolize_trace_with_maps(b"nope", &[], &mut output).is_err());
    assert!(output.is_empty());
}

#[test]
fn partition_groups_by_first_mapping_and_kernel() {
    let maps = vec![
        MapsEntry { start: 0x1000, end: 0x2000, file_offset: 0x100, path: "/a".into() },
        MapsEntry { start: 0x1800, end: 0x3000, file_offset: 0, path: "/b".into() },
    ];
    let addrs = [0x10, 0x1000, 0x1900, 0x2000, 0xffff_8000_0000_0000];
    let (kernel, groups) = partition_addresses(&addrs, &maps);
    assert_eq!(kernel, vec![0xffff_8000_0000_0000]);
    assert_eq!(groups.len(), 2);
    assert_eq!(groups[0].map_index, 0);
    assert_eq!(groups[0].addrs, vec![0x1000, 0x1900]);
    assert_eq!(groups[0].offsets, vec![0x100, 0xa00]);
    assert_eq!(groups[1].map_index, 1);
    assert_eq!(groups[1].addrs, vec![0x2000]);
    assert_eq!(groups[1].offsets, vec![0x800]);
}

#[test]
fn batch_writes_inlined_frames_with_depth() {
    let mut enc = Encoder::new();
    let results = vec![
        Some(ResolvedSymbol {
            frame: ResolvedFrame {
                name: "outer".into(),
                code: Some(SourceLoc { path: "/src/a.rs".into(), line: Some(7) }),
            },
            inlined: vec![ResolvedFrame { name: "inner".into(), code: None }],
        }),
        None,
    ];
    write_symbolized_batch(&results, &[0x10, 0x20], &mut enc).unwrap();
    let buf = enc.finish();
    let mut dec = Decoder::new(&buf).unwrap();
    let frames = dec.decode_all();
    let events: Vec<&Vec<FieldValue>> = frames
        .iter()
        .filter_map(|f| match f {
            DecodedFrame::Event { values, .. } => Some(values),
            _ => None,
        })
        .collect();
    assert_eq!(events.len(), 2);
    assert_eq!(events[0][0], FieldValue::Varint(0x10));
    assert_eq!(events[0][3], FieldValue::Varint(0));
    assert_eq!(events[0][5], FieldValue::Varint(7));
    assert_eq!(events[1][3], FieldValue::Varint(1));
    assert_eq!(events[1][5], FieldValue::Varint(0));
    let pool = pool_strings(&dec);
    assert!(pool.contains(&"outer".to_string()));
    assert!(pool.contains(&"inner".to_string()));
    assert!(pool.contains(&"/src/a.rs".to_string()));
    assert!(pool.contains(&String::new()));
}

#[test]
fn placeholder_names_are_hexadecimal() {
    let mut enc = Encoder::new();
    write_placeholders(&[0, 0xabc], "[kernel]", "kernel", &mut enc).unwrap();
    let buf = enc.finish();
    let mut dec = Decoder::new(&buf).unwrap();
    dec.decode_all();
    let pool = pool_strings(&dec);
    assert!(pool.contains(&"[kernel] 0x0".to_string()));
    assert!(pool.contains(&"[kernel] 0xabc".to_string()));
    assert!(pool.contains(&"kernel".to_string()));
}
