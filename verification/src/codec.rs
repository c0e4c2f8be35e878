//! Wire layout of the trace format: the file header, the primitive
//! encodings, field values and frames. Every `encode_*` function appends the
//! bytes of a spec function; every `decode_*` function reads at a position and
//! agrees with a spec parser.

use crate::leb128::{decode_unsigned, encode_unsigned, spec_decode_unsigned, spec_encode_unsigned};
use crate::schema::{fields_view, FieldDef, FieldDefV, SchemaEntry, SchemaV};
use crate::types::{
    values_ref_view, values_view, WireTypeId, spec_field_type_code, spec_field_type_from_code, FieldType, FieldVal, FieldValue,
    FieldValueRef, InternedString, PoolEntry, PoolEntryRef, PoolEntryV, SymbolEntry,
};
use std::collections::HashMap;
use vstd::prelude::*;
use vstd::utf8::{decode_utf8, encode_utf8, valid_utf8};

verus! {

/// First byte of the file header (also the tag of a header met mid-stream).
pub const HEADER_TAG: u8 = 0x54;

/// Format version written by this library.
pub const VERSION: u8 = 1;

/// Size of the file header in bytes.
pub const HEADER_SIZE: usize = 5;

pub const TAG_SCHEMA: u8 = 0x01;

pub const TAG_EVENT: u8 = 0x02;

pub const TAG_STRING_POOL: u8 = 0x03;

pub const TAG_SYMBOL_TABLE: u8 = 0x04;

pub const TAG_TIMESTAMP_RESET: u8 = 0x05;

/// Largest timestamp delta an event can carry (24 bits).
pub const MAX_TIMESTAMP_DELTA: u32 = 0xff_ffff;

// ---------------------------------------------------------------------------
// Byte layouts
// ---------------------------------------------------------------------------

/// The file header: the magic `TRC\0` followed by the version byte.
pub open spec fn spec_header_bytes(version: u8) -> Seq<u8> {
    seq![0x54u8, 0x52u8, 0x43u8, 0x00u8, version]
}

pub open spec fn spec_leb(v: u64) -> Seq<u8> {
    spec_encode_unsigned(v as nat)
}

pub open spec fn spec_u16_le(x: u16) -> Seq<u8> {
    seq![(x % 256) as u8, (x / 256) as u8]
}

pub open spec fn spec_u24_le(x: u32) -> Seq<u8> {
    seq![(x % 256) as u8, ((x / 256) % 256) as u8, ((x / 65536) % 256) as u8]
}

/// A length-prefixed byte string.
pub open spec fn spec_bytes_field(b: Seq<u8>) -> Seq<u8> {
    spec_leb(b.len() as u64) + b
}

/// A length-prefixed UTF-8 string.
pub open spec fn spec_str_bytes(c: Seq<char>) -> Seq<u8> {
    spec_bytes_field(encode_utf8(c))
}

/// Addresses of a stack-frames value, each as LEB128.
pub open spec fn spec_addrs_bytes(fs: Seq<u64>) -> Seq<u8>
    decreases fs.len(),
{
    if fs.len() == 0 {
        Seq::empty()
    } else {
        spec_addrs_bytes(fs.drop_last()) + spec_leb(fs.last())
    }
}

/// The bytes of one field value.
pub open spec fn spec_value_bytes(v: FieldVal) -> Seq<u8> {
    match v {
        FieldVal::Varint(x) => spec_leb(x),
        FieldVal::Bool(b) => seq![if b { 1u8 } else { 0u8 }],
        FieldVal::Str(c) => spec_str_bytes(c),
        FieldVal::Pooled(id) => spec_leb(id as u64),
        FieldVal::Frames(fs) => spec_leb(fs.len() as u64) + spec_addrs_bytes(fs),
    }
}

/// The bytes of a sequence of field values, one after the other.
pub open spec fn spec_values_bytes(vs: Seq<FieldVal>) -> Seq<u8>
    decreases vs.len(),
{
    if vs.len() == 0 {
        Seq::empty()
    } else {
        spec_values_bytes(vs.drop_last()) + spec_value_bytes(vs.last())
    }
}

// ---------------------------------------------------------------------------
// Parsers (positions are absolute offsets into `d`)
// ---------------------------------------------------------------------------

pub open spec fn spec_parse_leb(d: Seq<u8>, p: nat) -> Option<(u64, nat)> {
    if p <= d.len() {
        match spec_decode_unsigned(d.skip(p as int)) {
            Some((v, n)) => Some((v, p + n)),
            None => None,
        }
    } else {
        None
    }
}

pub open spec fn spec_parse_u16(d: Seq<u8>, p: nat) -> Option<(u16, nat)> {
    if p + 2 <= d.len() {
        Some(((d[p as int] + 256 * d[p + 1 as int]) as u16, p + 2))
    } else {
        None
    }
}

pub open spec fn spec_parse_u24(d: Seq<u8>, p: nat) -> Option<(u32, nat)> {
    if p + 3 <= d.len() {
        Some(((d[p as int] + 256 * d[p + 1 as int] + 65536 * d[p + 2 as int]) as u32, p + 3))
    } else {
        None
    }
}

pub open spec fn spec_parse_bytes(d: Seq<u8>, p: nat) -> Option<(Seq<u8>, nat)> {
    match spec_parse_leb(d, p) {
        Some((len, q)) => if q + len <= d.len() {
            Some((d.subrange(q as int, (q + len) as int), (q + len) as nat))
        } else {
            None
        },
        None => None,
    }
}

pub open spec fn spec_parse_str(d: Seq<u8>, p: nat) -> Option<(Seq<char>, nat)> {
    match spec_parse_bytes(d, p) {
        Some((b, q)) => if valid_utf8(b) {
            Some((decode_utf8(b), q))
        } else {
            None
        },
        None => None,
    }
}

/// `n` LEB128 addresses starting at `p`.
pub open spec fn spec_parse_addrs(d: Seq<u8>, p: nat, n: nat) -> Option<(Seq<u64>, nat)>
    decreases n,
{
    if n == 0 {
        Some((Seq::empty(), p))
    } else {
        match spec_parse_addrs(d, p, (n - 1) as nat) {
            Some((fs, q)) => match spec_parse_leb(d, q) {
                Some((a, r)) => Some((fs.push(a), r)),
                None => None,
            },
            None => None,
        }
    }
}

/// A field value of type `t` at `p`.
pub open spec fn spec_parse_value(t: FieldType, d: Seq<u8>, p: nat) -> Option<(FieldVal, nat)> {
    match t {
        FieldType::Varint => match spec_parse_leb(d, p) {
            Some((x, q)) => Some((FieldVal::Varint(x), q)),
            None => None,
        },
        FieldType::Bool => if p < d.len() && d[p as int] <= 1 {
            Some((FieldVal::Bool(d[p as int] == 1), p + 1))
        } else {
            None
        },
        FieldType::String => match spec_parse_str(d, p) {
            Some((c, q)) => Some((FieldVal::Str(c), q)),
            None => None,
        },
        FieldType::PooledString => match spec_parse_leb(d, p) {
            Some((x, q)) => if x <= u32::MAX {
                Some((FieldVal::Pooled(x as u32), q))
            } else {
                None
            },
            None => None,
        },
        FieldType::StackFrames => match spec_parse_leb(d, p) {
            Some((n, q)) => match spec_parse_addrs(d, q, n as nat) {
                Some((fs, r)) => Some((FieldVal::Frames(fs), r)),
                None => None,
            },
            None => None,
        },
    }
}

/// Values of the given types, one after the other, starting at `p`.
pub open spec fn spec_parse_values(ts: Seq<FieldType>, d: Seq<u8>, p: nat) -> Option<
    (Seq<FieldVal>, nat),
>
    decreases ts.len(),
{
    if ts.len() == 0 {
        Some((Seq::empty(), p))
    } else {
        match spec_parse_values(ts.drop_last(), d, p) {
            Some((vs, q)) => match spec_parse_value(ts.last(), d, q) {
                Some((v, r)) => Some((vs.push(v), r)),
                None => None,
            },
            None => None,
        }
    }
}

// ---------------------------------------------------------------------------
// Primitive encoders and decoders
// ---------------------------------------------------------------------------

/// Append `bytes` to `out`.
pub fn append_bytes(out: &mut Vec<u8>, bytes: &[u8])
    ensures
        final(out)@ == old(out)@ + bytes@,
{
    out.extend_from_slice(bytes);
    assert(out@ =~= old(out)@ + bytes@);
}

/// Write the file header.
pub fn encode_header(out: &mut Vec<u8>)
    ensures
        final(out)@ == old(out)@ + spec_header_bytes(VERSION),
{
    out.push(0x54);
    out.push(0x52);
    out.push(0x43);
    out.push(0x00);
    out.push(VERSION);
    assert(out@ =~= old(out)@ + spec_header_bytes(VERSION));
}

/// The format version, if `data` starts with the file header's magic.
pub open spec fn spec_decode_header(d: Seq<u8>) -> Option<u8> {
    if d.len() >= 5 && d[0] == 0x54 && d[1] == 0x52 && d[2] == 0x43 && d[3] == 0x00 {
        Some(d[4])
    } else {
        None
    }
}

/// Read the file header: the version when `data` starts with the magic.
pub fn decode_header(data: &[u8]) -> (r: Option<u8>)
    ensures
        r == spec_decode_header(data@),
{
    if data.len() >= 5 && data[0] == 0x54 && data[1] == 0x52 && data[2] == 0x43 && data[3]
        == 0x00 {
        Some(data[4])
    } else {
        None
    }
}

pub fn encode_u16_le(x: u16, out: &mut Vec<u8>)
    ensures
        final(out)@ == old(out)@ + spec_u16_le(x),
{
    out.push((x % 256) as u8);
    out.push((x / 256) as u8);
    assert(out@ =~= old(out)@ + spec_u16_le(x));
}

/// Write the low 24 bits of `x`, little-endian.
pub fn encode_u24_le(x: u32, out: &mut Vec<u8>)
    ensures
        final(out)@ == old(out)@ + spec_u24_le(x),
{
    out.push((x % 256) as u8);
    out.push(((x / 256) % 256) as u8);
    out.push(((x / 65536) % 256) as u8);
    assert(out@ =~= old(out)@ + spec_u24_le(x));
}

pub fn decode_u16_le(data: &[u8], pos: usize) -> (r: Option<(u16, usize)>)
    ensures
        r matches Some((x, q)) ==> spec_parse_u16(data@, pos as nat) == Some((x, q as nat)),
        r is None ==> spec_parse_u16(data@, pos as nat) is None,
{
    if pos <= data.len() && data.len() - pos >= 2 {
        Some(((data[pos] as u16) + 256 * (data[pos + 1] as u16), pos + 2))
    } else {
        None
    }
}

/// Read a 24-bit little-endian value at `pos`.
pub fn decode_u24_le(data: &[u8], pos: usize) -> (r: Option<(u32, usize)>)
    ensures
        r matches Some((x, q)) ==> spec_parse_u24(data@, pos as nat) == Some((x, q as nat)),
        r is None ==> spec_parse_u24(data@, pos as nat) is None,
{
    if pos <= data.len() && data.len() - pos >= 3 {
        Some(
            (
                (data[pos] as u32) + 256 * (data[pos + 1] as u32) + 65536 * (data[pos + 2] as u32),
                pos + 3,
            ),
        )
    } else {
        None
    }
}

pub fn decode_leb(data: &[u8], pos: usize) -> (r: Option<(u64, usize)>)
    ensures
        r matches Some((x, q)) ==> spec_parse_leb(data@, pos as nat) == Some((x, q as nat)),
        r is None ==> spec_parse_leb(data@, pos as nat) is None,
        r matches Some((_, q)) ==> pos < q <= data.len(),
{
    if pos > data.len() {
        return None;
    }
    let rest = vstd::slice::slice_subrange(data, pos, data.len());
    assert(rest@ == data@.skip(pos as int));
    match decode_unsigned(rest) {
        Some((v, n)) => {
            proof {
                crate::leb128::lemma_decode_len(rest@);
            }
            Some((v, pos + n))
        },
        None => None,
    }
}

pub fn encode_leb(x: u64, out: &mut Vec<u8>)
    ensures
        final(out)@ == old(out)@ + spec_leb(x),
{
    encode_unsigned(x, out);
}

/// Write a length-prefixed string.
pub fn encode_str(s: &str, out: &mut Vec<u8>)
    ensures
        final(out)@ == old(out)@ + spec_str_bytes(s@),
        encode_utf8(s@).len() <= u64::MAX,
{
    let b = s.as_bytes();
    encode_leb(b.len() as u64, out);
    append_bytes(out, b);
    assert(out@ =~= old(out)@ + spec_str_bytes(s@));
}

/// The bytes `[start, end)` of `data`, when `start <= end <= data.len()`.
fn read_range<'a>(data: &'a [u8], start: usize, len: u64) -> (r: Option<(&'a [u8], usize)>)
    requires
        start <= data.len(),
    ensures
        match r {
            Some((b, q)) => start + len <= data.len() && q == start + len && b@ == data@.subrange(
                start as int,
                start + len,
            ),
            None => start + len > data.len(),
        },
{
    if len > (data.len() - start) as u64 {
        None
    } else {
        let end = start + len as usize;
        Some((vstd::slice::slice_subrange(data, start, end), end))
    }
}

/// Read a length-prefixed byte string at `pos`.
pub fn decode_bytes<'a>(data: &'a [u8], pos: usize) -> (r: Option<(&'a [u8], usize)>)
    ensures
        r matches Some((b, q)) ==> spec_parse_bytes(data@, pos as nat) == Some((b@, q as nat)),
        r is None ==> spec_parse_bytes(data@, pos as nat) is None,
        r matches Some((_, q)) ==> pos < q <= data.len(),
{
    match decode_leb(data, pos) {
        Some((len, q)) => {
            let r = read_range(data, q, len);
            proof {
                if let Some((b, e)) = r {
                    assert(spec_parse_leb(data@, pos as nat) == Some((len, q as nat)));
                    assert(b@ == data@.subrange(q as int, (q + len) as int));
                }
            }
            r
        },
        None => None,
    }
}

/// `String` from UTF-8 bytes, or `None` when they are not UTF-8.
///
/// Calls `String::from_utf8`, whose documentation promises an error exactly
/// when the bytes are not valid UTF-8; the contract states that, and that the
/// resulting string holds the characters those bytes encode.
#[verifier::external_body]
pub(crate) fn utf8_to_string(bytes: Vec<u8>) -> (r: Option<String>)
    ensures
        r is Some <==> valid_utf8(bytes@),
        r matches Some(s) ==> s@ == decode_utf8(bytes@),
{
    String::from_utf8(bytes).ok()
}

/// `&str` view of UTF-8 bytes, or `None` when they are not UTF-8.
///
/// Calls `std::str::from_utf8`, whose documentation promises an error exactly
/// when the bytes are not valid UTF-8; the contract states that, and that the
/// resulting string holds the characters those bytes encode.
#[verifier::external_body]
fn utf8_to_str<'a>(bytes: &'a [u8]) -> (r: Option<&'a str>)
    ensures
        r is Some <==> valid_utf8(bytes@),
        r matches Some(s) ==> s@ == decode_utf8(bytes@),
{
    std::str::from_utf8(bytes).ok()
}

/// Copy of a byte slice.
pub fn bytes_to_vec(b: &[u8]) -> (r: Vec<u8>)
    ensures
        r@ == b@,
{
    let mut v: Vec<u8> = Vec::new();
    append_bytes(&mut v, b);
    assert(v@ =~= b@);
    v
}

/// Read a length-prefixed UTF-8 string at `pos` into an owned `String`.
pub fn decode_string(data: &[u8], pos: usize) -> (r: Option<(String, usize)>)
    ensures
        r matches Some((s, q)) ==> spec_parse_str(data@, pos as nat) == Some((s@, q as nat)),
        r is None ==> spec_parse_str(data@, pos as nat) is None,
        r matches Some((_, q)) ==> pos < q <= data.len(),
{
    match decode_bytes(data, pos) {
        Some((b, q)) => match utf8_to_string(bytes_to_vec(b)) {
            Some(s) => Some((s, q)),
            None => None,
        },
        None => None,
    }
}

/// Read a length-prefixed UTF-8 string at `pos`, borrowing it from `data`.
pub fn decode_str<'a>(data: &'a [u8], pos: usize) -> (r: Option<(&'a str, usize)>)
    ensures
        r matches Some((s, q)) ==> spec_parse_str(data@, pos as nat) == Some((s@, q as nat)),
        r is None ==> spec_parse_str(data@, pos as nat) is None,
        r matches Some((_, q)) ==> pos < q <= data.len(),
{
    match decode_bytes(data, pos) {
        Some((b, q)) => match utf8_to_str(b) {
            Some(s) => Some((s, q)),
            None => None,
        },
        None => None,
    }
}


// ---------------------------------------------------------------------------
// Field values
// ---------------------------------------------------------------------------

/// Write one field value.
pub fn encode_value(v: &FieldValue, out: &mut Vec<u8>)
    ensures
        final(out)@ == old(out)@ + spec_value_bytes(v@),
        crate::roundtrip::value_wf(v@),
{
    match v {
        FieldValue::Varint(x) => encode_leb(*x, out),
        FieldValue::Bool(b) => {
            out.push(if *b { 1u8 } else { 0u8 });
            assert(out@ =~= old(out)@ + spec_value_bytes(v@));
        },
        FieldValue::String(s) => encode_str(s.as_str(), out),
        FieldValue::PooledString(i) => encode_leb(i.0 as u64, out),
        FieldValue::StackFrames(fs) => {
            encode_leb(fs.len() as u64, out);
            let ghost start = out@;
            let mut i: usize = 0;
            while i < fs.len()
                invariant
                    i <= fs.len(),
                    out@ == start + spec_addrs_bytes(fs@.take(i as int)),
                decreases fs.len() - i,
            {
                encode_leb(fs[i], out);
                assert(fs@.take(i + 1).drop_last() =~= fs@.take(i as int));
                assert(out@ =~= start + spec_addrs_bytes(fs@.take(i + 1)));
                i += 1;
            }
            assert(fs@.take(i as int) =~= fs@);
            assert(out@ =~= old(out)@ + spec_value_bytes(v@));
        },
    }
}

/// Write field values one after the other.
pub fn encode_values(vs: &[FieldValue], out: &mut Vec<u8>)
    ensures
        final(out)@ == old(out)@ + spec_values_bytes(crate::types::values_view(vs@)),
        crate::roundtrip::values_wf(crate::types::values_view(vs@)),
{
    let mut i: usize = 0;
    while i < vs.len()
        invariant
            i <= vs.len(),
            out@ == old(out)@ + spec_values_bytes(crate::types::values_view(vs@.take(i as int))),
            forall|j: int| 0 <= j < i ==> crate::roundtrip::value_wf(#[trigger] vs@[j]@),
        decreases vs.len() - i,
    {
        encode_value(&vs[i], out);
        assert(crate::types::values_view(vs@.take(i + 1)).drop_last() =~= crate::types::values_view(
            vs@.take(i as int),
        ));
        assert(out@ =~= old(out)@ + spec_values_bytes(crate::types::values_view(vs@.take(i + 1))));
        i += 1;
    }
    assert(vs@.take(i as int) =~= vs@);
    assert forall|j: int| 0 <= j < crate::types::values_view(vs@).len() implies crate::roundtrip::value_wf(
        #[trigger] crate::types::values_view(vs@)[j],
    ) by {
        assert(crate::types::values_view(vs@)[j] == vs@[j]@);
    }
}

proof fn lemma_parse_addrs_fails_after(d: Seq<u8>, p: nat, k: nat, m: nat)
    requires
        k < m,
        spec_parse_addrs(d, p, k) matches Some((_, q)) ==> spec_parse_leb(d, q) is None,
    ensures
        spec_parse_addrs(d, p, m) is None,
    decreases m,
{
    if m - 1 > k {
        lemma_parse_addrs_fails_after(d, p, k, (m - 1) as nat);
    }
}

/// Read `n` addresses at `pos`.
pub fn decode_addrs(data: &[u8], pos: usize, n: u64) -> (r: Option<(Vec<u64>, usize)>)
    ensures
        r matches Some((fs, q)) ==> spec_parse_addrs(data@, pos as nat, n as nat) == Some(
            (fs@, q as nat),
        ),
        r is None ==> spec_parse_addrs(data@, pos as nat, n as nat) is None,
        r matches Some((_, q)) ==> pos <= q <= data.len() || n == 0,
{
    let mut fs: Vec<u64> = Vec::new();
    let mut q: usize = pos;
    let mut i: u64 = 0;
    while i < n
        invariant
            i <= n,
            spec_parse_addrs(data@, pos as nat, i as nat) == Some((fs@, q as nat)),
            i > 0 ==> pos < q <= data.len(),
        decreases n - i,
    {
        match decode_leb(data, q) {
            Some((a, r)) => {
                fs.push(a);
                q = r;
                i += 1;
            },
            None => {
                proof {
                    lemma_parse_addrs_fails_after(data@, pos as nat, i as nat, n as nat);
                }
                return None;
            },
        }
    }
    Some((fs, q))
}

proof fn lemma_parse_values_fails_after(ts: Seq<FieldType>, d: Seq<u8>, p: nat, k: nat)
    requires
        k < ts.len(),
        spec_parse_values(ts.take(k as int), d, p) matches Some((_, q)) ==> spec_parse_value(
            ts[k as int],
            d,
            q,
        ) is None,
    ensures
        spec_parse_values(ts, d, p) is None,
    decreases ts.len(),
{
    if k + 1 < ts.len() {
        assert(ts.drop_last().take(k as int) =~= ts.take(k as int));
        assert(ts.drop_last()[k as int] == ts[k as int]);
        lemma_parse_values_fails_after(ts.drop_last(), d, p, k);
    } else {
        assert(ts.drop_last() =~= ts.take(k as int));
    }
}

/// Read a value of type `t` at `pos` into an owned value.
pub fn decode_value(t: FieldType, data: &[u8], pos: usize) -> (r: Option<(FieldValue, usize)>)
    ensures
        r matches Some((v, q)) ==> spec_parse_value(t, data@, pos as nat) == Some((v@, q as nat)),
        r is None ==> spec_parse_value(t, data@, pos as nat) is None,
        r matches Some((_, q)) ==> pos < q <= data.len(),
{
    match t {
        FieldType::Varint => match decode_leb(data, pos) {
            Some((x, q)) => Some((FieldValue::Varint(x), q)),
            None => None,
        },
        FieldType::Bool => {
            if pos < data.len() && data[pos] <= 1 {
                Some((FieldValue::Bool(data[pos] == 1), pos + 1))
            } else {
                None
            }
        },
        FieldType::String => match decode_string(data, pos) {
            Some((s, q)) => Some((FieldValue::String(s), q)),
            None => None,
        },
        FieldType::PooledString => match decode_leb(data, pos) {
            Some((x, q)) => {
                if x <= u32::MAX as u64 {
                    Some((FieldValue::PooledString(InternedString(x as u32)), q))
                } else {
                    None
                }
            },
            None => None,
        },
        FieldType::StackFrames => match decode_leb(data, pos) {
            Some((n, q)) => match decode_addrs(data, q, n) {
                Some((fs, r)) => Some((FieldValue::StackFrames(fs), r)),
                None => None,
            },
            None => None,
        },
    }
}

/// Read a value of type `t` at `pos`, borrowing string data from `data`.
pub fn decode_value_ref<'a>(t: FieldType, data: &'a [u8], pos: usize) -> (r: Option<
    (FieldValueRef<'a>, usize),
>)
    ensures
        r matches Some((v, q)) ==> spec_parse_value(t, data@, pos as nat) == Some((v@, q as nat)),
        r is None ==> spec_parse_value(t, data@, pos as nat) is None,
        r matches Some((_, q)) ==> pos < q <= data.len(),
{
    match t {
        FieldType::Varint => match decode_leb(data, pos) {
            Some((x, q)) => Some((FieldValueRef::Varint(x), q)),
            None => None,
        },
        FieldType::Bool => {
            if pos < data.len() && data[pos] <= 1 {
                Some((FieldValueRef::Bool(data[pos] == 1), pos + 1))
            } else {
                None
            }
        },
        FieldType::String => match decode_str(data, pos) {
            Some((s, q)) => Some((FieldValueRef::String(s), q)),
            None => None,
        },
        FieldType::PooledString => match decode_leb(data, pos) {
            Some((x, q)) => {
                if x <= u32::MAX as u64 {
                    Some((FieldValueRef::PooledString(InternedString(x as u32)), q))
                } else {
                    None
                }
            },
            None => None,
        },
        FieldType::StackFrames => match decode_leb(data, pos) {
            Some((n, q)) => match decode_addrs(data, q, n) {
                Some((fs, r)) => Some((FieldValueRef::StackFrames(fs), r)),
                None => None,
            },
            None => None,
        },
    }
}

/// Read values of the given types one after the other.
pub fn decode_values(types: &[FieldType], data: &[u8], pos: usize) -> (r: Option<
    (Vec<FieldValue>, usize),
>)
    ensures
        r matches Some((vs, q)) ==> spec_parse_values(types@, data@, pos as nat) == Some(
            (crate::types::values_view(vs@), q as nat),
        ),
        r is None ==> spec_parse_values(types@, data@, pos as nat) is None,
        r matches Some((_, q)) ==> pos <= q <= data.len() || types.len() == 0,
{
    let mut vs: Vec<FieldValue> = Vec::new();
    let mut q: usize = pos;
    let mut i: usize = 0;
    while i < types.len()
        invariant
            i <= types.len(),
            spec_parse_values(types@.take(i as int), data@, pos as nat) == Some(
                (crate::types::values_view(vs@), q as nat),
            ),
            i > 0 ==> pos < q <= data.len(),
        decreases types.len() - i,
    {
        assert(types@.take(i + 1).drop_last() =~= types@.take(i as int));
        match decode_value(types[i], data, q) {
            Some((v, r)) => {
                vs.push(v);
                q = r;
                assert(crate::types::values_view(vs@) =~= crate::types::values_view(
                    vs@.drop_last(),
                ).push(v@));
                i += 1;
            },
            None => {
                proof {
                    lemma_parse_values_fails_after(types@, data@, pos as nat, i as nat);
                }
                return None;
            },
        }
    }
    assert(types@.take(i as int) =~= types@);
    Some((vs, q))
}

/// Read values of the given types, borrowing string data from `data`.
pub fn decode_values_ref<'a>(types: &[FieldType], data: &'a [u8], pos: usize) -> (r: Option<
    (Vec<FieldValueRef<'a>>, usize),
>)
    ensures
        r matches Some((vs, q)) ==> spec_parse_values(types@, data@, pos as nat) == Some(
            (crate::types::values_ref_view(vs@), q as nat),
        ),
        r is None ==> spec_parse_values(types@, data@, pos as nat) is None,
        r matches Some((_, q)) ==> pos <= q <= data.len() || types.len() == 0,
{
    let mut vs: Vec<FieldValueRef<'a>> = Vec::new();
    let mut q: usize = pos;
    let mut i: usize = 0;
    while i < types.len()
        invariant
            i <= types.len(),
            spec_parse_values(types@.take(i as int), data@, pos as nat) == Some(
                (crate::types::values_ref_view(vs@), q as nat),
            ),
            i > 0 ==> pos < q <= data.len(),
        decreases types.len() - i,
    {
        assert(types@.take(i + 1).drop_last() =~= types@.take(i as int));
        match decode_value_ref(types[i], data, q) {
            Some((v, r)) => {
                vs.push(v);
                q = r;
                assert(crate::types::values_ref_view(vs@) =~= crate::types::values_ref_view(
                    vs@.drop_last(),
                ).push(v@));
                i += 1;
            },
            None => {
                proof {
                    lemma_parse_values_fails_after(types@, data@, pos as nat, i as nat);
                }
                return None;
            },
        }
    }
    assert(types@.take(i as int) =~= types@);
    Some((vs, q))
}

// ---------------------------------------------------------------------------
// Frames
// ---------------------------------------------------------------------------

pub open spec fn spec_field_def_bytes(f: FieldDefV) -> Seq<u8> {
    spec_str_bytes(f.name) + seq![spec_field_type_code(f.field_type)]
}

pub open spec fn spec_field_defs_bytes(fs: Seq<FieldDefV>) -> Seq<u8>
    decreases fs.len(),
{
    if fs.len() == 0 {
        Seq::empty()
    } else {
        spec_field_defs_bytes(fs.drop_last()) + spec_field_def_bytes(fs.last())
    }
}

/// Everything of a schema frame after its tag and type id.
pub open spec fn spec_schema_body_bytes(s: SchemaV) -> Seq<u8> {
    spec_str_bytes(s.name) + seq![if s.has_timestamp { 1u8 } else { 0u8 }] + spec_leb(
        s.fields.len() as u64,
    ) + spec_field_defs_bytes(s.fields)
}

pub open spec fn spec_pool_entry_bytes(e: PoolEntryV) -> Seq<u8> {
    spec_leb(e.pool_id as u64) + spec_bytes_field(e.data)
}

pub open spec fn spec_pool_entries_bytes(es: Seq<PoolEntryV>) -> Seq<u8>
    decreases es.len(),
{
    if es.len() == 0 {
        Seq::empty()
    } else {
        spec_pool_entries_bytes(es.drop_last()) + spec_pool_entry_bytes(es.last())
    }
}

pub open spec fn spec_symbol_entry_bytes(e: SymbolEntry) -> Seq<u8> {
    spec_leb(e.base_addr) + spec_leb(e.size) + spec_leb(e.symbol_id as u64)
}

pub open spec fn spec_symbol_entries_bytes(es: Seq<SymbolEntry>) -> Seq<u8>
    decreases es.len(),
{
    if es.len() == 0 {
        Seq::empty()
    } else {
        spec_symbol_entries_bytes(es.drop_last()) + spec_symbol_entry_bytes(es.last())
    }
}

/// The contents of a frame as it stands on the wire.
pub enum FrameV {
    /// A file header met in the stream (`TRC\0` and a version).
    Header(u8),
    Schema { type_id: u16, entry: SchemaV },
    /// An event; `delta` is the 24-bit offset from the timestamp base, present
    /// exactly when the schema has a timestamp.
    Event { type_id: u16, delta: Option<u32>, values: Seq<FieldVal> },
    StringPool(Seq<PoolEntryV>),
    SymbolTable(Seq<SymbolEntry>),
    /// Sets the timestamp base to an absolute value.
    TimestampReset(u64),
}

pub open spec fn spec_event_header_bytes(type_id: u16, delta: Option<u32>) -> Seq<u8> {
    seq![TAG_EVENT] + spec_u16_le(type_id) + match delta {
        Some(x) => spec_u24_le(x),
        None => Seq::empty(),
    }
}

/// The bytes of a frame.
pub open spec fn spec_frame_bytes(f: FrameV) -> Seq<u8> {
    match f {
        FrameV::Header(v) => spec_header_bytes(v),
        FrameV::Schema { type_id, entry } => seq![TAG_SCHEMA] + spec_u16_le(type_id)
            + spec_schema_body_bytes(entry),
        FrameV::Event { type_id, delta, values } => spec_event_header_bytes(type_id, delta)
            + spec_values_bytes(values),
        FrameV::StringPool(es) => seq![TAG_STRING_POOL] + spec_leb(es.len() as u64)
            + spec_pool_entries_bytes(es),
        FrameV::SymbolTable(es) => seq![TAG_SYMBOL_TABLE] + spec_leb(es.len() as u64)
            + spec_symbol_entries_bytes(es),
        FrameV::TimestampReset(ts) => seq![TAG_TIMESTAMP_RESET] + spec_leb(ts),
    }
}

/// What a reader needs to know of a schema to read its events.
pub struct Shape {
    pub field_types: Seq<FieldType>,
    pub has_timestamp: bool,
}

pub open spec fn spec_parse_field_def(d: Seq<u8>, p: nat) -> Option<(FieldDefV, nat)> {
    match spec_parse_str(d, p) {
        Some((name, q)) => if q < d.len() {
            match spec_field_type_from_code(d[q as int]) {
                Some(t) => Some((FieldDefV { name, field_type: t }, q + 1)),
                None => None,
            }
        } else {
            None
        },
        None => None,
    }
}

pub open spec fn spec_parse_field_defs(d: Seq<u8>, p: nat, n: nat) -> Option<
    (Seq<FieldDefV>, nat),
>
    decreases n,
{
    if n == 0 {
        Some((Seq::empty(), p))
    } else {
        match spec_parse_field_defs(d, p, (n - 1) as nat) {
            Some((fs, q)) => match spec_parse_field_def(d, q) {
                Some((f, r)) => Some((fs.push(f), r)),
                None => None,
            },
            None => None,
        }
    }
}

pub open spec fn spec_parse_schema_body(d: Seq<u8>, p: nat) -> Option<(SchemaV, nat)> {
    match spec_parse_str(d, p) {
        Some((name, q)) => if q < d.len() && d[q as int] <= 1 {
            match spec_parse_leb(d, q + 1) {
                Some((n, r)) => match spec_parse_field_defs(d, r, n as nat) {
                    Some((fs, e)) => Some(
                        (SchemaV { name, has_timestamp: d[q as int] == 1, fields: fs }, e),
                    ),
                    None => None,
                },
                None => None,
            }
        } else {
            None
        },
        None => None,
    }
}

pub open spec fn spec_parse_pool_entry(d: Seq<u8>, p: nat) -> Option<(PoolEntryV, nat)> {
    match spec_parse_leb(d, p) {
        Some((id, q)) => if id <= u32::MAX {
            match spec_parse_bytes(d, q) {
                Some((b, r)) => Some((PoolEntryV { pool_id: id as u32, data: b }, r)),
                None => None,
            }
        } else {
            None
        },
        None => None,
    }
}

pub open spec fn spec_parse_pool_entries(d: Seq<u8>, p: nat, n: nat) -> Option<
    (Seq<PoolEntryV>, nat),
>
    decreases n,
{
    if n == 0 {
        Some((Seq::empty(), p))
    } else {
        match spec_parse_pool_entries(d, p, (n - 1) as nat) {
            Some((es, q)) => match spec_parse_pool_entry(d, q) {
                Some((e, r)) => Some((es.push(e), r)),
                None => None,
            },
            None => None,
        }
    }
}

pub open spec fn spec_parse_symbol_entry(d: Seq<u8>, p: nat) -> Option<(SymbolEntry, nat)> {
    match spec_parse_leb(d, p) {
        Some((base, q)) => match spec_parse_leb(d, q) {
            Some((size, r)) => match spec_parse_leb(d, r) {
                Some((id, e)) => if id <= u32::MAX {
                    Some((SymbolEntry { base_addr: base, size, symbol_id: id as u32 }, e))
                } else {
                    None
                },
                None => None,
            },
            None => None,
        },
        None => None,
    }
}

pub open spec fn spec_parse_symbol_entries(d: Seq<u8>, p: nat, n: nat) -> Option<
    (Seq<SymbolEntry>, nat),
>
    decreases n,
{
    if n == 0 {
        Some((Seq::empty(), p))
    } else {
        match spec_parse_symbol_entries(d, p, (n - 1) as nat) {
            Some((es, q)) => match spec_parse_symbol_entry(d, q) {
                Some((e, r)) => Some((es.push(e), r)),
                None => None,
            },
            None => None,
        }
    }
}

/// The event frame at `p` (whose tag has been read), given the schemas the
/// reader knows.
pub open spec fn spec_parse_event(d: Seq<u8>, p: nat, cache: Map<u16, Shape>) -> Option<
    (FrameV, nat),
> {
    match spec_parse_u16(d, p + 1) {
        Some((id, q)) => if cache.contains_key(id) {
            let shape = cache[id];
            if shape.has_timestamp {
                match spec_parse_u24(d, q) {
                    Some((delta, r)) => match spec_parse_values(shape.field_types, d, r) {
                        Some((vs, e)) => Some(
                            (FrameV::Event { type_id: id, delta: Some(delta), values: vs }, e),
                        ),
                        None => None,
                    },
                    None => None,
                }
            } else {
                match spec_parse_values(shape.field_types, d, q) {
                    Some((vs, e)) => Some(
                        (FrameV::Event { type_id: id, delta: None, values: vs }, e),
                    ),
                    None => None,
                }
            }
        } else {
            None
        },
        None => None,
    }
}

/// The frame at `p`, given the schemas the reader knows.
pub open spec fn spec_parse_frame(d: Seq<u8>, p: nat, cache: Map<u16, Shape>) -> Option<
    (FrameV, nat),
> {
    if p >= d.len() {
        None
    } else {
        let tag = d[p as int];
        if tag == HEADER_TAG {
            if p + 5 <= d.len() && d[p + 1 as int] == 0x52 && d[p + 2 as int] == 0x43 && d[p
                + 3 as int] == 0x00 {
                Some((FrameV::Header(d[p + 4 as int]), p + 5))
            } else {
                None
            }
        } else if tag == TAG_SCHEMA {
            match spec_parse_u16(d, p + 1) {
                Some((id, q)) => match spec_parse_schema_body(d, q) {
                    Some((s, e)) => Some((FrameV::Schema { type_id: id, entry: s }, e)),
                    None => None,
                },
                None => None,
            }
        } else if tag == TAG_EVENT {
            spec_parse_event(d, p, cache)
        } else if tag == TAG_STRING_POOL {
            match spec_parse_leb(d, p + 1) {
                Some((n, q)) => match spec_parse_pool_entries(d, q, n as nat) {
                    Some((es, e)) => Some((FrameV::StringPool(es), e)),
                    None => None,
                },
                None => None,
            }
        } else if tag == TAG_SYMBOL_TABLE {
            match spec_parse_leb(d, p + 1) {
                Some((n, q)) => match spec_parse_symbol_entries(d, q, n as nat) {
                    Some((es, e)) => Some((FrameV::SymbolTable(es), e)),
                    None => None,
                },
                None => None,
            }
        } else if tag == TAG_TIMESTAMP_RESET {
            match spec_parse_leb(d, p + 1) {
                Some((ts, e)) => Some((FrameV::TimestampReset(ts), e)),
                None => None,
            }
        } else {
            None
        }
    }
}

// ---------------------------------------------------------------------------
// Frame encoders
// ---------------------------------------------------------------------------

/// Write a schema frame.
pub fn encode_schema(type_id: WireTypeId, entry: &SchemaEntry, out: &mut Vec<u8>)
    ensures
        final(out)@ == old(out)@ + spec_frame_bytes(
            FrameV::Schema { type_id: type_id.0, entry: entry@ },
        ),
        crate::roundtrip::schema_wf(entry@),
{
    out.push(TAG_SCHEMA);
    encode_u16_le(type_id.0, out);
    encode_str(entry.name.as_str(), out);
    out.push(if entry.has_timestamp { 1u8 } else { 0u8 });
    encode_leb(entry.fields.len() as u64, out);
    let ghost start = out@;
    let mut i: usize = 0;
    while i < entry.fields.len()
        invariant
            i <= entry.fields.len(),
            out@ == start + spec_field_defs_bytes(fields_view(entry.fields@.take(i as int))),
            forall|j: int| 0 <= j < i ==> crate::roundtrip::field_def_wf(#[trigger] entry.fields@[j]@),
        decreases entry.fields.len() - i,
    {
        let f = &entry.fields[i];
        encode_str(f.name.as_str(), out);
        out.push(f.field_type.code());
        assert(fields_view(entry.fields@.take(i + 1)).drop_last() =~= fields_view(
            entry.fields@.take(i as int),
        ));
        assert(out@ =~= start + spec_field_defs_bytes(fields_view(entry.fields@.take(i + 1))));
        i += 1;
    }
    assert(entry.fields@.take(i as int) =~= entry.fields@);
    assert forall|j: int| 0 <= j < entry@.fields.len() implies crate::roundtrip::field_def_wf(
        #[trigger] entry@.fields[j],
    ) by {
        assert(entry@.fields[j] == entry.fields@[j]@);
    }
    assert(out@ =~= old(out)@ + spec_frame_bytes(
        FrameV::Schema { type_id: type_id.0, entry: entry@ },
    ));
}

/// Write the start of an event frame: tag, type id and, when given, the
/// timestamp delta.
pub fn encode_event_header(type_id: WireTypeId, delta: Option<u32>, out: &mut Vec<u8>)
    ensures
        final(out)@ == old(out)@ + spec_event_header_bytes(type_id.0, delta),
{
    out.push(TAG_EVENT);
    encode_u16_le(type_id.0, out);
    match delta {
        Some(x) => encode_u24_le(x, out),
        None => {},
    }
    assert(out@ =~= old(out)@ + spec_event_header_bytes(type_id.0, delta));
}

pub open spec fn pool_entries_view(es: Seq<PoolEntry>) -> Seq<PoolEntryV> {
    es.map_values(|e: PoolEntry| e@)
}

pub open spec fn pool_entries_ref_view<'a>(es: Seq<PoolEntryRef<'a>>) -> Seq<PoolEntryV> {
    es.map_values(|e: PoolEntryRef<'a>| e@)
}

/// Write a string-pool frame.
pub fn encode_string_pool(entries: &[PoolEntry], out: &mut Vec<u8>)
    ensures
        final(out)@ == old(out)@ + spec_frame_bytes(
            FrameV::StringPool(pool_entries_view(entries@)),
        ),
        crate::roundtrip::pool_entries_wf(pool_entries_view(entries@)),
{
    out.push(TAG_STRING_POOL);
    encode_leb(entries.len() as u64, out);
    let ghost start = out@;
    let mut i: usize = 0;
    while i < entries.len()
        invariant
            i <= entries.len(),
            out@ == start + spec_pool_entries_bytes(pool_entries_view(entries@.take(i as int))),
            forall|j: int| 0 <= j < i ==> (#[trigger] entries@[j]).data@.len() <= u64::MAX,
        decreases entries.len() - i,
    {
        let e = &entries[i];
        encode_leb(e.pool_id as u64, out);
        encode_leb(e.data.len() as u64, out);
        append_bytes(out, e.data.as_slice());
        assert(pool_entries_view(entries@.take(i + 1)).drop_last() =~= pool_entries_view(
            entries@.take(i as int),
        ));
        assert(out@ =~= start + spec_pool_entries_bytes(pool_entries_view(entries@.take(i + 1))));
        i += 1;
    }
    assert(entries@.take(i as int) =~= entries@);
    assert forall|j: int| 0 <= j < pool_entries_view(entries@).len() implies (
    #[trigger] pool_entries_view(entries@)[j]).data.len() <= u64::MAX by {
        assert(pool_entries_view(entries@)[j] == entries@[j]@);
    }
    assert(out@ =~= old(out)@ + spec_frame_bytes(FrameV::StringPool(pool_entries_view(entries@))));
}

/// Write a symbol-table frame.
pub fn encode_symbol_table(entries: &[SymbolEntry], out: &mut Vec<u8>)
    ensures
        final(out)@ == old(out)@ + spec_frame_bytes(FrameV::SymbolTable(entries@)),
        entries@.len() <= u64::MAX,
{
    out.push(TAG_SYMBOL_TABLE);
    encode_leb(entries.len() as u64, out);
    let ghost start = out@;
    let mut i: usize = 0;
    while i < entries.len()
        invariant
            i <= entries.len(),
            out@ == start + spec_symbol_entries_bytes(entries@.take(i as int)),
        decreases entries.len() - i,
    {
        let e = entries[i];
        encode_leb(e.base_addr, out);
        encode_leb(e.size, out);
        encode_leb(e.symbol_id as u64, out);
        assert(entries@.take(i + 1).drop_last() =~= entries@.take(i as int));
        assert(out@ =~= start + spec_symbol_entries_bytes(entries@.take(i + 1)));
        i += 1;
    }
    assert(entries@.take(i as int) =~= entries@);
    assert(out@ =~= old(out)@ + spec_frame_bytes(FrameV::SymbolTable(entries@)));
}

/// Write a timestamp-reset frame.
pub fn encode_timestamp_reset(ts: u64, out: &mut Vec<u8>)
    ensures
        final(out)@ == old(out)@ + spec_frame_bytes(FrameV::TimestampReset(ts)),
{
    out.push(TAG_TIMESTAMP_RESET);
    encode_leb(ts, out);
    assert(out@ =~= old(out)@ + spec_frame_bytes(FrameV::TimestampReset(ts)));
}

proof fn lemma_field_defs_fails_after(d: Seq<u8>, p: nat, k: nat, m: nat)
    requires
        k < m,
        spec_parse_field_defs(d, p, k) matches Some((_, q)) ==> spec_parse_field_def(d, q) is None,
    ensures
        spec_parse_field_defs(d, p, m) is None,
    decreases m,
{
    if m - 1 > k {
        lemma_field_defs_fails_after(d, p, k, (m - 1) as nat);
    }
}

proof fn lemma_pool_entries_fails_after(d: Seq<u8>, p: nat, k: nat, m: nat)
    requires
        k < m,
        spec_parse_pool_entries(d, p, k) matches Some((_, q)) ==> spec_parse_pool_entry(d, q) is None,
    ensures
        spec_parse_pool_entries(d, p, m) is None,
    decreases m,
{
    if m - 1 > k {
        lemma_pool_entries_fails_after(d, p, k, (m - 1) as nat);
    }
}

proof fn lemma_symbol_entries_fails_after(d: Seq<u8>, p: nat, k: nat, m: nat)
    requires
        k < m,
        spec_parse_symbol_entries(d, p, k) matches Some((_, q)) ==> spec_parse_symbol_entry(d, q) is None,
    ensures
        spec_parse_symbol_entries(d, p, m) is None,
    decreases m,
{
    if m - 1 > k {
        lemma_symbol_entries_fails_after(d, p, k, (m - 1) as nat);
    }
}

/// What the reader knows of a schema: its field types and timestamp flag.
pub struct SchemaInfo {
    pub field_types: Vec<FieldType>,
    pub has_timestamp: bool,
}

impl View for SchemaInfo {
    type V = Shape;

    open spec fn view(&self) -> Shape {
        Shape { field_types: self.field_types@, has_timestamp: self.has_timestamp }
    }
}

pub open spec fn cache_view(m: Map<u16, SchemaInfo>) -> Map<u16, Shape> {
    m.map_values(|i: SchemaInfo| i@)
}

/// A decoded frame that owns its data.
pub enum Frame {
    Header(u8),
    Schema { type_id: WireTypeId, entry: SchemaEntry },
    Event { type_id: WireTypeId, delta: Option<u32>, values: Vec<FieldValue> },
    StringPool(Vec<PoolEntry>),
    SymbolTable(Vec<SymbolEntry>),
    TimestampReset(u64),
}

impl View for Frame {
    type V = FrameV;

    open spec fn view(&self) -> FrameV {
        match self {
            Frame::Header(v) => FrameV::Header(*v),
            Frame::Schema { type_id, entry } => FrameV::Schema { type_id: type_id.0, entry: entry@ },
            Frame::Event { type_id, delta, values } => FrameV::Event {
                type_id: type_id.0,
                delta: *delta,
                values: values_view(values@),
            },
            Frame::StringPool(es) => FrameV::StringPool(pool_entries_view(es@)),
            Frame::SymbolTable(es) => FrameV::SymbolTable(es@),
            Frame::TimestampReset(ts) => FrameV::TimestampReset(*ts),
        }
    }
}

/// A decoded frame that borrows string and pool data from the input.
pub enum FrameRef<'a> {
    Header(u8),
    Schema { type_id: WireTypeId, entry: SchemaEntry },
    Event { type_id: WireTypeId, delta: Option<u32>, values: Vec<FieldValueRef<'a>> },
    StringPool(Vec<PoolEntryRef<'a>>),
    SymbolTable(Vec<SymbolEntry>),
    TimestampReset(u64),
}

impl<'a> View for FrameRef<'a> {
    type V = FrameV;

    open spec fn view(&self) -> FrameV {
        match self {
            FrameRef::Header(v) => FrameV::Header(*v),
            FrameRef::Schema { type_id, entry } => FrameV::Schema {
                type_id: type_id.0,
                entry: entry@,
            },
            FrameRef::Event { type_id, delta, values } => FrameV::Event {
                type_id: type_id.0,
                delta: *delta,
                values: values_ref_view(values@),
            },
            FrameRef::StringPool(es) => FrameV::StringPool(pool_entries_ref_view(es@)),
            FrameRef::SymbolTable(es) => FrameV::SymbolTable(es@),
            FrameRef::TimestampReset(ts) => FrameV::TimestampReset(*ts),
        }
    }
}

fn decode_field_def(data: &[u8], pos: usize) -> (r: Option<(FieldDef, usize)>)
    ensures
        r matches Some((f, q)) ==> spec_parse_field_def(data@, pos as nat) == Some((f@, q as nat)),
        r is None ==> spec_parse_field_def(data@, pos as nat) is None,
        r matches Some((_, q)) ==> pos < q <= data.len(),
{
    match decode_string(data, pos) {
        Some((name, q)) => {
            if q < data.len() {
                match FieldType::from_code(data[q]) {
                    Some(t) => Some((FieldDef { name, field_type: t }, q + 1)),
                    None => None,
                }
            } else {
                None
            }
        },
        None => None,
    }
}

fn decode_field_defs(data: &[u8], pos: usize, n: u64) -> (r: Option<(Vec<FieldDef>, usize)>)
    ensures
        r matches Some((fs, q)) ==> spec_parse_field_defs(data@, pos as nat, n as nat) == Some(
            (fields_view(fs@), q as nat),
        ),
        r is None ==> spec_parse_field_defs(data@, pos as nat, n as nat) is None,
        r matches Some((_, q)) ==> pos <= q <= data.len() || n == 0,
{
    let mut fs: Vec<FieldDef> = Vec::new();
    let mut q: usize = pos;
    let mut i: u64 = 0;
    while i < n
        invariant
            i <= n,
            spec_parse_field_defs(data@, pos as nat, i as nat) == Some((fields_view(fs@), q as nat)),
            i > 0 ==> pos < q <= data.len(),
        decreases n - i,
    {
        match decode_field_def(data, q) {
            Some((f, r)) => {
                let ghost fv = f@;
                fs.push(f);
                assert(fields_view(fs@) =~= fields_view(fs@.drop_last()).push(fv));
                q = r;
                i += 1;
            },
            None => {
                proof {
                    lemma_field_defs_fails_after(data@, pos as nat, i as nat, n as nat);
                }
                return None;
            },
        }
    }
    Some((fs, q))
}

fn decode_schema_body(data: &[u8], pos: usize) -> (r: Option<(SchemaEntry, usize)>)
    ensures
        r matches Some((s, q)) ==> spec_parse_schema_body(data@, pos as nat) == Some(
            (s@, q as nat),
        ),
        r is None ==> spec_parse_schema_body(data@, pos as nat) is None,
        r matches Some((_, q)) ==> pos < q <= data.len(),
{
    match decode_string(data, pos) {
        Some((name, q)) => {
            if q < data.len() && data[q] <= 1 {
                let has_timestamp = data[q] == 1;
                match decode_leb(data, q + 1) {
                    Some((n, r)) => match decode_field_defs(data, r, n) {
                        Some((fields, e)) => Some((SchemaEntry { name, has_timestamp, fields }, e)),
                        None => None,
                    },
                    None => None,
                }
            } else {
                None
            }
        },
        None => None,
    }
}

fn decode_pool_entry(data: &[u8], pos: usize) -> (r: Option<(PoolEntry, usize)>)
    ensures
        r matches Some((e, q)) ==> spec_parse_pool_entry(data@, pos as nat) == Some((e@, q as nat)),
        r is None ==> spec_parse_pool_entry(data@, pos as nat) is None,
        r matches Some((_, q)) ==> pos < q <= data.len(),
{
    match decode_leb(data, pos) {
        Some((id, q)) => {
            if id <= u32::MAX as u64 {
                match decode_bytes(data, q) {
                    Some((b, r)) => Some((PoolEntry { pool_id: id as u32, data: bytes_to_vec(b) }, r)),
                    None => None,
                }
            } else {
                None
            }
        },
        None => None,
    }
}

fn decode_pool_entry_ref<'a>(data: &'a [u8], pos: usize) -> (r: Option<(PoolEntryRef<'a>, usize)>)
    ensures
        r matches Some((e, q)) ==> spec_parse_pool_entry(data@, pos as nat) == Some((e@, q as nat)),
        r is None ==> spec_parse_pool_entry(data@, pos as nat) is None,
        r matches Some((_, q)) ==> pos < q <= data.len(),
{
    match decode_leb(data, pos) {
        Some((id, q)) => {
            if id <= u32::MAX as u64 {
                match decode_bytes(data, q) {
                    Some((b, r)) => Some((PoolEntryRef { pool_id: id as u32, data: b }, r)),
                    None => None,
                }
            } else {
                None
            }
        },
        None => None,
    }
}

fn decode_pool_entries(data: &[u8], pos: usize, n: u64) -> (r: Option<(Vec<PoolEntry>, usize)>)
    ensures
        r matches Some((es, q)) ==> spec_parse_pool_entries(data@, pos as nat, n as nat) == Some(
            (pool_entries_view(es@), q as nat),
        ),
        r is None ==> spec_parse_pool_entries(data@, pos as nat, n as nat) is None,
        r matches Some((_, q)) ==> pos <= q <= data.len() || n == 0,
{
    let mut es: Vec<PoolEntry> = Vec::new();
    let mut q: usize = pos;
    let mut i: u64 = 0;
    while i < n
        invariant
            i <= n,
            spec_parse_pool_entries(data@, pos as nat, i as nat) == Some(
                (pool_entries_view(es@), q as nat),
            ),
            i > 0 ==> pos < q <= data.len(),
        decreases n - i,
    {
        match decode_pool_entry(data, q) {
            Some((e, r)) => {
                let ghost ev = e@;
                es.push(e);
                assert(pool_entries_view(es@) =~= pool_entries_view(es@.drop_last()).push(ev));
                q = r;
                i += 1;
            },
            None => {
                proof {
                    lemma_pool_entries_fails_after(data@, pos as nat, i as nat, n as nat);
                }
                return None;
            },
        }
    }
    Some((es, q))
}

fn decode_pool_entries_ref<'a>(data: &'a [u8], pos: usize, n: u64) -> (r: Option<
    (Vec<PoolEntryRef<'a>>, usize),
>)
    ensures
        r matches Some((es, q)) ==> spec_parse_pool_entries(data@, pos as nat, n as nat) == Some(
            (pool_entries_ref_view(es@), q as nat),
        ),
        r is None ==> spec_parse_pool_entries(data@, pos as nat, n as nat) is None,
        r matches Some((_, q)) ==> pos <= q <= data.len() || n == 0,
{
    let mut es: Vec<PoolEntryRef<'a>> = Vec::new();
    let mut q: usize = pos;
    let mut i: u64 = 0;
    while i < n
        invariant
            i <= n,
            spec_parse_pool_entries(data@, pos as nat, i as nat) == Some(
                (pool_entries_ref_view(es@), q as nat),
            ),
            i > 0 ==> pos < q <= data.len(),
        decreases n - i,
    {
        match decode_pool_entry_ref(data, q) {
            Some((e, r)) => {
                let ghost ev = e@;
                es.push(e);
                assert(pool_entries_ref_view(es@) =~= pool_entries_ref_view(es@.drop_last()).push(
                    ev,
                ));
                q = r;
                i += 1;
            },
            None => {
                proof {
                    lemma_pool_entries_fails_after(data@, pos as nat, i as nat, n as nat);
                }
                return None;
            },
        }
    }
    Some((es, q))
}

fn decode_symbol_entry(data: &[u8], pos: usize) -> (r: Option<(SymbolEntry, usize)>)
    ensures
        r matches Some((e, q)) ==> spec_parse_symbol_entry(data@, pos as nat) == Some((e, q as nat)),
        r is None ==> spec_parse_symbol_entry(data@, pos as nat) is None,
        r matches Some((_, q)) ==> pos < q <= data.len(),
{
    match decode_leb(data, pos) {
        Some((base, q)) => match decode_leb(data, q) {
            Some((size, r)) => match decode_leb(data, r) {
                Some((id, e)) => {
                    if id <= u32::MAX as u64 {
                        Some((SymbolEntry { base_addr: base, size, symbol_id: id as u32 }, e))
                    } else {
                        None
                    }
                },
                None => None,
            },
            None => None,
        },
        None => None,
    }
}

fn decode_symbol_entries(data: &[u8], pos: usize, n: u64) -> (r: Option<(Vec<SymbolEntry>, usize)>)
    ensures
        r matches Some((es, q)) ==> spec_parse_symbol_entries(data@, pos as nat, n as nat) == Some(
            (es@, q as nat),
        ),
        r is None ==> spec_parse_symbol_entries(data@, pos as nat, n as nat) is None,
        r matches Some((_, q)) ==> pos <= q <= data.len() || n == 0,
{
    let mut es: Vec<SymbolEntry> = Vec::new();
    let mut q: usize = pos;
    let mut i: u64 = 0;
    while i < n
        invariant
            i <= n,
            spec_parse_symbol_entries(data@, pos as nat, i as nat) == Some((es@, q as nat)),
            i > 0 ==> pos < q <= data.len(),
        decreases n - i,
    {
        match decode_symbol_entry(data, q) {
            Some((e, r)) => {
                es.push(e);
                q = r;
                i += 1;
            },
            None => {
                proof {
                    lemma_symbol_entries_fails_after(data@, pos as nat, i as nat, n as nat);
                }
                return None;
            },
        }
    }
    Some((es, q))
}

/// Decode the frame at `pos`. `None` when the bytes there do not form a
/// complete frame known to the reader (unknown tag, truncated data, an event
/// of an unknown schema, invalid UTF-8 or out-of-range values).
pub fn decode_frame<'a>(data: &'a [u8], pos: usize, cache: &HashMap<u16, SchemaInfo>) -> (r: Option<
    (Frame, usize),
>)
    ensures
        r matches Some((f, q)) ==> spec_parse_frame(data@, pos as nat, cache_view(cache@))
            == Some((f@, q as nat)),
        r is None ==> spec_parse_frame(data@, pos as nat, cache_view(cache@)) is None,
        r matches Some((_, q)) ==> pos < q <= data.len(),
{
    if pos >= data.len() {
        return None;
    }
    let tag = data[pos];
    if tag == HEADER_TAG {
        if data.len() - pos >= 5 && data[pos + 1] == 0x52 && data[pos + 2] == 0x43 && data[pos
            + 3] == 0x00 {
            Some((Frame::Header(data[pos + 4]), pos + 5))
        } else {
            None
        }
    } else if tag == TAG_SCHEMA {
        match decode_u16_le(data, pos + 1) {
            Some((id, q)) => match decode_schema_body(data, q) {
                Some((entry, e)) => Some((Frame::Schema { type_id: WireTypeId(id), entry }, e)),
                None => None,
            },
            None => None,
        }
    } else if tag == TAG_EVENT {
        match decode_u16_le(data, pos + 1) {
            Some((id, q)) => {
                proof {
                    broadcast use vstd::std_specs::hash::group_hash_axioms;

                }
                match cache.get(&id) {
                    Some(info) => {
                        if info.has_timestamp {
                            match decode_u24_le(data, q) {
                                Some((delta, r)) => match decode_values(
                                    info.field_types.as_slice(),
                                    data,
                                    r,
                                ) {
                                    Some((values, e)) => Some(
                                        (
                                            Frame::Event {
                                                type_id: WireTypeId(id),
                                                delta: Some(delta),
                                                values,
                                            },
                                            e,
                                        ),
                                    ),
                                    None => None,
                                },
                                None => None,
                            }
                        } else {
                            match decode_values(info.field_types.as_slice(), data, q) {
                                Some((values, e)) => Some(
                                    (
                                        Frame::Event { type_id: WireTypeId(id), delta: None, values },
                                        e,
                                    ),
                                ),
                                None => None,
                            }
                        }
                    },
                    None => None,
                }
            },
            None => None,
        }
    } else if tag == TAG_STRING_POOL {
        match decode_leb(data, pos + 1) {
            Some((n, q)) => match decode_pool_entries(data, q, n) {
                Some((es, e)) => Some((Frame::StringPool(es), e)),
                None => None,
            },
            None => None,
        }
    } else if tag == TAG_SYMBOL_TABLE {
        match decode_leb(data, pos + 1) {
            Some((n, q)) => match decode_symbol_entries(data, q, n) {
                Some((es, e)) => Some((Frame::SymbolTable(es), e)),
                None => None,
            },
            None => None,
        }
    } else if tag == TAG_TIMESTAMP_RESET {
        match decode_leb(data, pos + 1) {
            Some((ts, e)) => Some((Frame::TimestampReset(ts), e)),
            None => None,
        }
    } else {
        None
    }
}

/// Decode the frame at `pos`, borrowing strings and pool data from `data`. `None` when the bytes there do not form a
/// complete frame known to the reader (unknown tag, truncated data, an event
/// of an unknown schema, invalid UTF-8 or out-of-range values).
pub fn decode_frame_ref<'a>(data: &'a [u8], pos: usize, cache: &HashMap<u16, SchemaInfo>) -> (r: Option<
    (FrameRef<'a>, usize),
>)
    ensures
        r matches Some((f, q)) ==> spec_parse_frame(data@, pos as nat, cache_view(cache@))
            == Some((f@, q as nat)),
        r is None ==> spec_parse_frame(data@, pos as nat, cache_view(cache@)) is None,
        r matches Some((_, q)) ==> pos < q <= data.len(),
{
    if pos >= data.len() {
        return None;
    }
    let tag = data[pos];
    if tag == HEADER_TAG {
        if data.len() - pos >= 5 && data[pos + 1] == 0x52 && data[pos + 2] == 0x43 && data[pos
            + 3] == 0x00 {
            Some((FrameRef::Header(data[pos + 4]), pos + 5))
        } else {
            None
        }
    } else if tag == TAG_SCHEMA {
        match decode_u16_le(data, pos + 1) {
            Some((id, q)) => match decode_schema_body(data, q) {
                Some((entry, e)) => Some((FrameRef::Schema { type_id: WireTypeId(id), entry }, e)),
                None => None,
            },
            None => None,
        }
    } else if tag == TAG_EVENT {
        match decode_u16_le(data, pos + 1) {
            Some((id, q)) => {
                proof {
                    broadcast use vstd::std_specs::hash::group_hash_axioms;

                }
                match cache.get(&id) {
                    Some(info) => {
                        if info.has_timestamp {
                            match decode_u24_le(data, q) {
                                Some((delta, r)) => match decode_values_ref(
                                    info.field_types.as_slice(),
                                    data,
                                    r,
                                ) {
                                    Some((values, e)) => Some(
                                        (
                                            FrameRef::Event {
                                                type_id: WireTypeId(id),
                                                delta: Some(delta),
                                                values,
                                            },
                                            e,
                                        ),
                                    ),
                                    None => None,
                                },
                                None => None,
                            }
                        } else {
                            match decode_values_ref(info.field_types.as_slice(), data, q) {
                                Some((values, e)) => Some(
                                    (
                                        FrameRef::Event { type_id: WireTypeId(id), delta: None, values },
                                        e,
                                    ),
                                ),
                                None => None,
                            }
                        }
                    },
                    None => None,
                }
            },
            None => None,
        }
    } else if tag == TAG_STRING_POOL {
        match decode_leb(data, pos + 1) {
            Some((n, q)) => match decode_pool_entries_ref(data, q, n) {
                Some((es, e)) => Some((FrameRef::StringPool(es), e)),
                None => None,
            },
            None => None,
        }
    } else if tag == TAG_SYMBOL_TABLE {
        match decode_leb(data, pos + 1) {
            Some((n, q)) => match decode_symbol_entries(data, q, n) {
                Some((es, e)) => Some((FrameRef::SymbolTable(es), e)),
                None => None,
            },
            None => None,
        }
    } else if tag == TAG_TIMESTAMP_RESET {
        match decode_leb(data, pos + 1) {
            Some((ts, e)) => Some((FrameRef::TimestampReset(ts), e)),
            None => None,
        }
    } else {
        None
    }
}
} // verus!
