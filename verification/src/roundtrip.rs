//! Reading back what was written, frame by frame: every well-formed frame
//! parses from its own bytes, whatever follows them.

use crate::codec::{
    spec_addrs_bytes, spec_bytes_field, spec_field_def_bytes, spec_field_defs_bytes,
    spec_frame_bytes, spec_leb, spec_parse_addrs, spec_parse_bytes, spec_parse_field_defs,
    spec_parse_frame, spec_parse_leb, spec_parse_pool_entries, spec_parse_schema_body,
    spec_parse_str, spec_parse_symbol_entries, spec_parse_u16, spec_parse_u24, spec_parse_value,
    spec_parse_values, spec_pool_entries_bytes, spec_pool_entry_bytes, spec_schema_body_bytes,
    spec_str_bytes, spec_symbol_entries_bytes, spec_symbol_entry_bytes, spec_u16_le,
    spec_u24_le, spec_value_bytes, spec_values_bytes, FrameV, Shape, MAX_TIMESTAMP_DELTA,
    TAG_EVENT, TAG_SCHEMA, TAG_STRING_POOL, TAG_SYMBOL_TABLE, TAG_TIMESTAMP_RESET,
};
use crate::leb128::lemma_round_trip;
use crate::schema::{FieldDefV, SchemaV};
use crate::types::{spec_field_type_code, spec_type_of, FieldType, FieldVal, PoolEntryV, SymbolEntry};
use vstd::prelude::*;
use vstd::utf8::{encode_utf8, encode_utf8_decode_utf8, encode_utf8_valid_utf8};

verus! {

/// `b` stands in `d` at position `p`.
pub open spec fn bytes_at(d: Seq<u8>, p: nat, b: Seq<u8>) -> bool {
    p + b.len() <= d.len() && d.subrange(p as int, (p + b.len()) as int) == b
}

proof fn lemma_at_split(d: Seq<u8>, p: nat, a: Seq<u8>, b: Seq<u8>)
    requires
        bytes_at(d, p, a + b),
    ensures
        bytes_at(d, p, a),
        bytes_at(d, p + a.len(), b),
{
    let whole = d.subrange(p as int, (p + a.len() + b.len()) as int);
    assert(whole == a + b);
    assert(d.subrange(p as int, (p + a.len()) as int) =~= whole.subrange(0, a.len() as int));
    assert(whole.subrange(0, a.len() as int) =~= a);
    assert(d.subrange((p + a.len()) as int, (p + a.len() + b.len()) as int) =~= whole.subrange(
        a.len() as int,
        (a.len() + b.len()) as int,
    ));
    assert(whole.subrange(a.len() as int, (a.len() + b.len()) as int) =~= b);
}

proof fn lemma_at_split3(d: Seq<u8>, p: nat, a: Seq<u8>, b: Seq<u8>, c: Seq<u8>)
    requires
        bytes_at(d, p, a + b + c),
    ensures
        bytes_at(d, p, a),
        bytes_at(d, p + a.len(), b),
        bytes_at(d, p + a.len() + b.len(), c),
{
    lemma_at_split(d, p, a + b, c);
    lemma_at_split(d, p, a, b);
}

proof fn lemma_leb_rt(v: u64, d: Seq<u8>, p: nat)
    requires
        bytes_at(d, p, spec_leb(v)),
    ensures
        spec_parse_leb(d, p) == Some((v, p + spec_leb(v).len())),
{
    let b = spec_leb(v);
    let rest = d.skip((p + b.len()) as int);
    assert(d.skip(p as int) =~= b + rest);
    lemma_round_trip(v, rest);
}

proof fn lemma_u16_rt(x: u16, d: Seq<u8>, p: nat)
    requires
        bytes_at(d, p, spec_u16_le(x)),
    ensures
        spec_parse_u16(d, p) == Some((x, p + 2)),
{
    assert(d[p as int] == spec_u16_le(x)[0]);
    assert(d[p + 1 as int] == spec_u16_le(x)[1]);
}

proof fn lemma_u24_rt(x: u32, d: Seq<u8>, p: nat)
    requires
        x <= MAX_TIMESTAMP_DELTA,
        bytes_at(d, p, spec_u24_le(x)),
    ensures
        spec_parse_u24(d, p) == Some((x, p + 3)),
{
    assert(d[p as int] == spec_u24_le(x)[0]);
    assert(d[p + 1 as int] == spec_u24_le(x)[1]);
    assert(d[p + 2 as int] == spec_u24_le(x)[2]);
}

proof fn lemma_bytes_rt(b: Seq<u8>, d: Seq<u8>, p: nat)
    requires
        b.len() <= u64::MAX,
        bytes_at(d, p, spec_bytes_field(b)),
    ensures
        spec_parse_bytes(d, p) == Some((b, p + spec_bytes_field(b).len())),
{
    lemma_at_split(d, p, spec_leb(b.len() as u64), b);
    lemma_leb_rt(b.len() as u64, d, p);
}

proof fn lemma_str_rt(c: Seq<char>, d: Seq<u8>, p: nat)
    requires
        encode_utf8(c).len() <= u64::MAX,
        bytes_at(d, p, spec_str_bytes(c)),
    ensures
        spec_parse_str(d, p) == Some((c, p + spec_str_bytes(c).len())),
{
    lemma_bytes_rt(encode_utf8(c), d, p);
    encode_utf8_valid_utf8(c);
    encode_utf8_decode_utf8(c);
}

/// Lengths that a length prefix can carry.
pub open spec fn value_wf(v: FieldVal) -> bool {
    match v {
        FieldVal::Str(c) => encode_utf8(c).len() <= u64::MAX,
        FieldVal::Frames(fs) => fs.len() <= u64::MAX,
        _ => true,
    }
}

proof fn lemma_addrs_rt(fs: Seq<u64>, d: Seq<u8>, p: nat)
    requires
        bytes_at(d, p, spec_addrs_bytes(fs)),
    ensures
        spec_parse_addrs(d, p, fs.len()) == Some((fs, p + spec_addrs_bytes(fs).len())),
    decreases fs.len(),
{
    if fs.len() > 0 {
        lemma_at_split(d, p, spec_addrs_bytes(fs.drop_last()), spec_leb(fs.last()));
        lemma_addrs_rt(fs.drop_last(), d, p);
        lemma_leb_rt(fs.last(), d, p + spec_addrs_bytes(fs.drop_last()).len());
        assert(fs.drop_last().push(fs.last()) =~= fs);
    }
}

proof fn lemma_value_rt(v: FieldVal, d: Seq<u8>, p: nat)
    requires
        value_wf(v),
        bytes_at(d, p, spec_value_bytes(v)),
    ensures
        spec_parse_value(spec_type_of(v), d, p) == Some((v, p + spec_value_bytes(v).len())),
{
    match v {
        FieldVal::Varint(x) => lemma_leb_rt(x, d, p),
        FieldVal::Bool(b) => {
            assert(d[p as int] == spec_value_bytes(v)[0]);
        },
        FieldVal::Str(c) => lemma_str_rt(c, d, p),
        FieldVal::Pooled(id) => lemma_leb_rt(id as u64, d, p),
        FieldVal::Frames(fs) => {
            lemma_at_split(d, p, spec_leb(fs.len() as u64), spec_addrs_bytes(fs));
            lemma_leb_rt(fs.len() as u64, d, p);
            lemma_addrs_rt(fs, d, p + spec_leb(fs.len() as u64).len());
        },
    }
}

/// The types of a sequence of values.
pub open spec fn types_of(vs: Seq<FieldVal>) -> Seq<FieldType> {
    vs.map_values(|v: FieldVal| spec_type_of(v))
}

pub open spec fn values_wf(vs: Seq<FieldVal>) -> bool {
    forall|i: int| 0 <= i < vs.len() ==> value_wf(#[trigger] vs[i])
}

proof fn lemma_values_rt(vs: Seq<FieldVal>, d: Seq<u8>, p: nat)
    requires
        values_wf(vs),
        bytes_at(d, p, spec_values_bytes(vs)),
    ensures
        spec_parse_values(types_of(vs), d, p) == Some((vs, p + spec_values_bytes(vs).len())),
    decreases vs.len(),
{
    if vs.len() > 0 {
        let init = vs.drop_last();
        lemma_at_split(d, p, spec_values_bytes(init), spec_value_bytes(vs.last()));
        assert(values_wf(init)) by {
            assert forall|i: int| 0 <= i < init.len() implies value_wf(#[trigger] init[i]) by {
                assert(init[i] == vs[i]);
            }
        }
        lemma_values_rt(init, d, p);
        assert(value_wf(vs[vs.len() - 1]));
        lemma_value_rt(vs.last(), d, p + spec_values_bytes(init).len());
        assert(types_of(vs).drop_last() =~= types_of(init));
        assert(init.push(vs.last()) =~= vs);
    } else {
        assert(types_of(vs) =~= Seq::<FieldType>::empty());
    }
}

pub open spec fn field_def_wf(f: FieldDefV) -> bool {
    encode_utf8(f.name).len() <= u64::MAX
}

/// Lengths of a schema that its length prefixes can carry.
pub open spec fn schema_wf(s: SchemaV) -> bool {
    &&& encode_utf8(s.name).len() <= u64::MAX
    &&& s.fields.len() <= u64::MAX
    &&& forall|i: int| 0 <= i < s.fields.len() ==> field_def_wf(#[trigger] s.fields[i])
}

proof fn lemma_field_defs_rt(fs: Seq<FieldDefV>, d: Seq<u8>, p: nat)
    requires
        forall|i: int| 0 <= i < fs.len() ==> field_def_wf(#[trigger] fs[i]),
        bytes_at(d, p, spec_field_defs_bytes(fs)),
    ensures
        spec_parse_field_defs(d, p, fs.len()) == Some((fs, p + spec_field_defs_bytes(fs).len())),
    decreases fs.len(),
{
    if fs.len() > 0 {
        let init = fs.drop_last();
        let f = fs.last();
        lemma_at_split(d, p, spec_field_defs_bytes(init), spec_field_def_bytes(f));
        assert forall|i: int| 0 <= i < init.len() implies field_def_wf(#[trigger] init[i]) by {
            assert(init[i] == fs[i]);
        }
        lemma_field_defs_rt(init, d, p);
        let q = p + spec_field_defs_bytes(init).len();
        assert(field_def_wf(fs[fs.len() - 1]));
        lemma_at_split(d, q, spec_str_bytes(f.name), seq![spec_field_type_code(f.field_type)]);
        lemma_str_rt(f.name, d, q);
        let r = q + spec_str_bytes(f.name).len();
        assert(d[r as int] == spec_field_type_code(f.field_type)) by {
            assert(d.subrange(r as int, (r + 1) as int)[0] == d[r as int]);
        }
        assert(init.push(f) =~= fs);
    }
}

proof fn lemma_schema_body_rt(s: SchemaV, d: Seq<u8>, p: nat)
    requires
        schema_wf(s),
        bytes_at(d, p, spec_schema_body_bytes(s)),
    ensures
        spec_parse_schema_body(d, p) == Some((s, p + spec_schema_body_bytes(s).len())),
{
    let a = spec_str_bytes(s.name);
    let b = seq![if s.has_timestamp { 1u8 } else { 0u8 }];
    let c = spec_leb(s.fields.len() as u64);
    let e = spec_field_defs_bytes(s.fields);
    assert(spec_schema_body_bytes(s) == a + b + c + e);
    lemma_at_split(d, p, a + b + c, e);
    lemma_at_split3(d, p, a, b, c);
    lemma_str_rt(s.name, d, p);
    let q = p + a.len();
    assert(d[q as int] == b[0]) by {
        assert(d.subrange(q as int, (q + 1) as int)[0] == d[q as int]);
    }
    lemma_leb_rt(s.fields.len() as u64, d, q + 1);
    lemma_field_defs_rt(s.fields, d, q + 1 + c.len());
}

pub open spec fn pool_entries_wf(es: Seq<PoolEntryV>) -> bool {
    &&& es.len() <= u64::MAX
    &&& forall|i: int| 0 <= i < es.len() ==> (#[trigger] es[i]).data.len() <= u64::MAX
}

proof fn lemma_pool_entries_rt(es: Seq<PoolEntryV>, d: Seq<u8>, p: nat)
    requires
        forall|i: int| 0 <= i < es.len() ==> (#[trigger] es[i]).data.len() <= u64::MAX,
        bytes_at(d, p, spec_pool_entries_bytes(es)),
    ensures
        spec_parse_pool_entries(d, p, es.len()) == Some(
            (es, p + spec_pool_entries_bytes(es).len()),
        ),
    decreases es.len(),
{
    if es.len() > 0 {
        let init = es.drop_last();
        let e = es.last();
        lemma_at_split(d, p, spec_pool_entries_bytes(init), spec_pool_entry_bytes(e));
        assert forall|i: int| 0 <= i < init.len() implies (#[trigger] init[i]).data.len()
            <= u64::MAX by {
            assert(init[i] == es[i]);
        }
        lemma_pool_entries_rt(init, d, p);
        let q = p + spec_pool_entries_bytes(init).len();
        assert(es[es.len() - 1].data.len() <= u64::MAX);
        lemma_at_split(d, q, spec_leb(e.pool_id as u64), spec_bytes_field(e.data));
        lemma_leb_rt(e.pool_id as u64, d, q);
        lemma_bytes_rt(e.data, d, q + spec_leb(e.pool_id as u64).len());
        assert(init.push(e) =~= es);
    }
}

proof fn lemma_symbol_entries_rt(es: Seq<SymbolEntry>, d: Seq<u8>, p: nat)
    requires
        bytes_at(d, p, spec_symbol_entries_bytes(es)),
    ensures
        spec_parse_symbol_entries(d, p, es.len()) == Some(
            (es, p + spec_symbol_entries_bytes(es).len()),
        ),
    decreases es.len(),
{
    if es.len() > 0 {
        let init = es.drop_last();
        let e = es.last();
        lemma_at_split(d, p, spec_symbol_entries_bytes(init), spec_symbol_entry_bytes(e));
        lemma_symbol_entries_rt(init, d, p);
        let q = p + spec_symbol_entries_bytes(init).len();
        let a = spec_leb(e.base_addr);
        let b = spec_leb(e.size);
        let c = spec_leb(e.symbol_id as u64);
        lemma_at_split3(d, q, a, b, c);
        lemma_leb_rt(e.base_addr, d, q);
        lemma_leb_rt(e.size, d, q + a.len());
        lemma_leb_rt(e.symbol_id as u64, d, q + a.len() + b.len());
        assert(init.push(e) =~= es);
    }
}

/// A frame that a reader knowing the schemas `cache` can read back: events
/// name a known schema, carry a delta exactly when it has a timestamp, and
/// hold values of its field types; lengths fit their prefixes.
pub open spec fn frame_wf(f: FrameV, cache: Map<u16, Shape>) -> bool {
    match f {
        FrameV::Header(_) => true,
        FrameV::Schema { type_id, entry } => schema_wf(entry),
        FrameV::Event { type_id, delta, values } => {
            &&& cache.contains_key(type_id)
            &&& cache[type_id].has_timestamp == delta is Some
            &&& (delta matches Some(x) ==> x <= MAX_TIMESTAMP_DELTA)
            &&& types_of(values) == cache[type_id].field_types
            &&& values_wf(values)
        },
        FrameV::StringPool(es) => pool_entries_wf(es),
        FrameV::SymbolTable(es) => es.len() <= u64::MAX,
        FrameV::TimestampReset(_) => true,
    }
}

/// Every well-formed frame is read back from its bytes, whatever follows
/// them, and exactly its bytes are consumed.
#[verifier::spinoff_prover]
#[verifier::rlimit(40)]
pub proof fn lemma_frame_round_trip(f: FrameV, cache: Map<u16, Shape>, d: Seq<u8>, p: nat)
    requires
        frame_wf(f, cache),
        bytes_at(d, p, spec_frame_bytes(f)),
    ensures
        spec_parse_frame(d, p, cache) == Some((f, p + spec_frame_bytes(f).len())),
{
    let b = spec_frame_bytes(f);
    assert(d[p as int] == b[0]) by {
        assert(d.subrange(p as int, (p + b.len()) as int)[0] == d[p as int]);
    }
    match f {
        FrameV::Header(v) => {
            assert(d.subrange(p as int, (p + 5) as int) =~= b);
            assert(d[p + 1 as int] == b[1]);
            assert(d[p + 2 as int] == b[2]);
            assert(d[p + 3 as int] == b[3]);
            assert(d[p + 4 as int] == b[4]);
        },
        FrameV::Schema { type_id, entry } => {
            lemma_at_split3(d, p, seq![TAG_SCHEMA], spec_u16_le(type_id), spec_schema_body_bytes(
                entry,
            ));
            lemma_u16_rt(type_id, d, p + 1);
            lemma_schema_body_rt(entry, d, p + 3);
        },
        FrameV::Event { type_id, delta, values } => {
            let dl = match delta {
                Some(x) => spec_u24_le(x),
                None => Seq::empty(),
            };
            assert(b == seq![TAG_EVENT] + spec_u16_le(type_id) + dl + spec_values_bytes(values));
            lemma_at_split(d, p, seq![TAG_EVENT] + spec_u16_le(type_id) + dl, spec_values_bytes(
                values,
            ));
            lemma_at_split3(d, p, seq![TAG_EVENT], spec_u16_le(type_id), dl);
            lemma_u16_rt(type_id, d, p + 1);
            if let Some(x) = delta {
                lemma_u24_rt(x, d, p + 3);
            }
            lemma_values_rt(values, d, p + 3 + dl.len());
        },
        FrameV::StringPool(es) => {
            lemma_at_split3(d, p, seq![TAG_STRING_POOL], spec_leb(es.len() as u64),
                spec_pool_entries_bytes(es));
            lemma_leb_rt(es.len() as u64, d, p + 1);
            lemma_pool_entries_rt(es, d, p + 1 + spec_leb(es.len() as u64).len());
        },
        FrameV::SymbolTable(es) => {
            lemma_at_split3(d, p, seq![TAG_SYMBOL_TABLE], spec_leb(es.len() as u64),
                spec_symbol_entries_bytes(es));
            lemma_leb_rt(es.len() as u64, d, p + 1);
            lemma_symbol_entries_rt(es, d, p + 1 + spec_leb(es.len() as u64).len());
        },
        FrameV::TimestampReset(ts) => {
            lemma_at_split(d, p, seq![TAG_TIMESTAMP_RESET], spec_leb(ts));
            lemma_leb_rt(ts, d, p + 1);
        },
    }
}

} // verus!
