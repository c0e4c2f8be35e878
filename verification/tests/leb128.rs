use dial9_trace_format::leb128::{decode_unsigned, encode_unsigned};

#[test]
fn unsigned_zero() {
    let mut buf = Vec::new();
    encode_unsigned(0, &mut buf);
    assert_eq!(buf, [0x00]);
    assert_eq!(decode_unsigned(&buf), Some((0, 1)));
}

#[test]
fn unsigned_small_values_compact() {
    // worker_id = 3 should be 1 byte
    let mut buf = Vec::new();
    encode_unsigned(3, &mut buf);
    assert_eq!(buf.len(), 1);
    assert_eq!(decode_unsigned(&buf).unwrap().0, 3);

    // 127 fits in 1 byte
    buf.clear();
    encode_unsigned(127, &mut buf);
    assert_eq!(buf.len(), 1);

    // 128 needs 2 bytes
    buf.clear();
    encode_unsigned(128, &mut buf);
    assert_eq!(buf.len(), 2);
    assert_eq!(decode_unsigned(&buf).unwrap().0, 128);
}

#[test]
fn unsigned_timestamp_compact() {
    // 50,000 ns (typical poll duration) should be 3 bytes
    let mut buf = Vec::new();
    encode_unsigned(50_000, &mut buf);
    assert!(
        buf.len() <= 3,
        "50k should fit in 3 bytes, got {}",
        buf.len()
    );
    assert_eq!(decode_unsigned(&buf).unwrap().0, 50_000);
}

#[test]
fn unsigned_round_trip_extremes() {
    for val in [0u64, 1, 127, 128, 16383, 16384, u32::MAX as u64, u64::MAX] {
        let mut buf = Vec::new();
        encode_unsigned(val, &mut buf);
        let (decoded, consumed) = decode_unsigned(&buf).unwrap();
        assert_eq!(decoded, val, "failed for {val}");
        assert_eq!(consumed, buf.len());
    }
}

#[test]
fn leb128_exact_bytes() {
    let mut buf = Vec::new();
    encode_unsigned(300, &mut buf);
    assert_eq!(buf, [0xac, 0x02]);
    buf.clear();
    encode_unsigned(u64::MAX, &mut buf);
    assert_eq!(buf.len(), 10);
    assert_eq!(buf[9], 0x01);
}

#[test]
fn leb128_appends_to_existing_bytes() {
    let mut buf = vec![0xff];
    encode_unsigned(1, &mut buf);
    assert_eq!(buf, [0xff, 0x01]);
}

#[test]
fn leb128_decode_truncated_is_none() {
    assert_eq!(decode_unsigned(&[]), None);
    assert_eq!(decode_unsigned(&[0x80]), None);
    assert_eq!(decode_unsigned(&[0xff, 0xff]), None);
}

#[test]
fn leb128_decode_too_long_is_none() {
    assert_eq!(decode_unsigned(&[0x80; 10]), None);
    assert_eq!(decode_unsigned(&[0x80; 11]), None);
}

#[test]
fn leb128_decode_tenth_byte_keeps_lowest_bit() {
    let mut data = [0xffu8; 10];
    data[9] = 0x7f;
    assert_eq!(decode_unsigned(&data), Some((u64::MAX, 10)));
}

#[test]
fn leb128_decode_ignores_trailing_bytes() {
    assert_eq!(decode_unsigned(&[0x05, 0xff, 0xff]), Some((5, 1)));
}
