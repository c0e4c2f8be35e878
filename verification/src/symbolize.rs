//! Offline symbolization: the stack-frame addresses of a trace are resolved
//! against the process's memory mappings and written, as `SymbolTableEntry`
//! events, to a trace of their own.

use crate::decoder::Decoder;
use crate::growth::{
    events_in, events_of, grows, lemma_grows_refl, lemma_grows_trans, lemma_intern_grows,
    lemma_register_grows,
};
use crate::encoder::{
    intern_spec, key_lookup, lemma_key_registered, lemma_registered_after, logical, register_spec,
    type_key, EncodeError, Encoder, EncoderV, TraceEvent,
};
use crate::codec::{spec_decode_header, FrameV, HEADER_SIZE};
use crate::schema::{FieldDef, FieldDefV, SchemaEntry, SchemaV};
use crate::stream::{event_run, event_step, fresh_state, lemma_event_step_advances, DecodedV, EventOutcome};
use crate::types::{values_ref_view, FieldType, FieldVal, FieldValue, FieldValueRef, InternedString};
use blazesym::symbolize::source::{Elf, Kernel, Source};
use blazesym::symbolize::{CodeInfo, Input, Symbolized, Symbolizer};
use std::any::TypeId;
use std::collections::BTreeSet;
use vstd::prelude::*;
use vstd::string::StringExecFns;

verus! {

/// Addresses at or above this are kernel addresses.
pub const USER_ADDR_LIMIT: u64 = 0x0000_8000_0000_0000;

/// One line of `/proc/self/maps`: the address range `[start, end)` maps the
/// file `path` from `file_offset` on.
#[derive(Debug, Clone, PartialEq, Eq)]
pub struct MapsEntry {
    pub start: u64,
    pub end: u64,
    pub file_offset: u64,
    pub path: String,
}

/// A source location: the file's path and its line, when known.
#[derive(Debug, Clone)]
pub struct SourceLoc {
    pub path: String,
    pub line: Option<u32>,
}

/// A resolved function: its name and source location.
#[derive(Debug, Clone)]
pub struct ResolvedFrame {
    pub name: String,
    pub code: Option<SourceLoc>,
}

/// A resolved address: the outermost function and the functions inlined
/// into it, outermost first.
#[derive(Debug, Clone)]
pub struct ResolvedSymbol {
    pub frame: ResolvedFrame,
    pub inlined: Vec<ResolvedFrame>,
}

/// An event mapping an instruction address to a symbol name; inlined
/// callees share the address with an increasing `inline_depth`.
#[derive(Debug, Clone, Copy, PartialEq, Eq)]
pub struct SymbolTableEntry {
    pub timestamp_ns: u64,
    pub addr: u64,
    pub size: u64,
    pub symbol_name: InternedString,
    /// 0 = outermost function, 1+ = inlined callee depth.
    pub inline_depth: u64,
    pub source_file: InternedString,
    /// Source line number, or 0 if unavailable.
    pub source_line: u64,
}

/// The schema of [`SymbolTableEntry`] events.
pub open spec fn symbol_schema() -> SchemaV {
    SchemaV {
        name: "SymbolTableEntry"@,
        has_timestamp: true,
        fields: seq![
            FieldDefV { name: "addr"@, field_type: FieldType::Varint },
            FieldDefV { name: "size"@, field_type: FieldType::Varint },
            FieldDefV { name: "symbol_name"@, field_type: FieldType::PooledString },
            FieldDefV { name: "inline_depth"@, field_type: FieldType::Varint },
            FieldDefV { name: "source_file"@, field_type: FieldType::PooledString },
            FieldDefV { name: "source_line"@, field_type: FieldType::Varint },
        ],
    }
}

fn field(name: &str, t: FieldType) -> (r: FieldDef)
    ensures
        r@ == (FieldDefV { name: name@, field_type: t }),
{
    FieldDef { name: name.to_owned(), field_type: t }
}

/// The schema of [`SymbolTableEntry`] events.
pub fn symbol_schema_entry() -> (r: SchemaEntry)
    ensures
        r@ == symbol_schema(),
{
    let fields = vec![
        field("addr", FieldType::Varint),
        field("size", FieldType::Varint),
        field("symbol_name", FieldType::PooledString),
        field("inline_depth", FieldType::Varint),
        field("source_file", FieldType::PooledString),
        field("source_line", FieldType::Varint),
    ];
    let r = SchemaEntry { name: "SymbolTableEntry".to_owned(), has_timestamp: true, fields };
    assert(r@.fields =~= symbol_schema().fields);
    r
}

impl TraceEvent for SymbolTableEntry {
    fn event_name() -> (r: &'static str)
        ensures
            r@ == "SymbolTableEntry"@,
    {
        "SymbolTableEntry"
    }

    fn schema_entry() -> (r: SchemaEntry)
        ensures
            r@ == symbol_schema(),
    {
        symbol_schema_entry()
    }

    fn timestamp(&self) -> (r: Option<u64>)
        ensures
            r == Some(self.timestamp_ns),
    {
        Some(self.timestamp_ns)
    }

    fn field_values(&self) -> (r: Vec<FieldValue>)
        ensures
            crate::types::values_view(r@) == seq![
                FieldVal::Varint(self.addr),
                FieldVal::Varint(self.size),
                FieldVal::Pooled(self.symbol_name.0),
                FieldVal::Varint(self.inline_depth),
                FieldVal::Pooled(self.source_file.0),
                FieldVal::Varint(self.source_line),
            ],
    {
        let r = vec![
            FieldValue::Varint(self.addr),
            FieldValue::Varint(self.size),
            FieldValue::PooledString(self.symbol_name),
            FieldValue::Varint(self.inline_depth),
            FieldValue::PooledString(self.source_file),
            FieldValue::Varint(self.source_line),
        ];
        assert(crate::types::values_view(r@) =~= seq![
            FieldVal::Varint(self.addr),
            FieldVal::Varint(self.size),
            FieldVal::Pooled(self.symbol_name.0),
            FieldVal::Varint(self.inline_depth),
            FieldVal::Pooled(self.source_file.0),
            FieldVal::Varint(self.source_line),
        ]);
        r
    }
}

/// One symbol-table row: an address, an inline depth, the symbol's name and
/// the source file and line.
pub struct SymbolRow {
    pub addr: u64,
    pub depth: u64,
    pub name: Seq<char>,
    pub file: Seq<char>,
    pub line: u64,
}

pub open spec fn row_values(r: SymbolRow, n: u32, f: u32) -> Seq<FieldVal> {
    seq![
        FieldVal::Varint(r.addr),
        FieldVal::Varint(0),
        FieldVal::Pooled(n),
        FieldVal::Varint(r.depth),
        FieldVal::Pooled(f),
        FieldVal::Varint(r.line),
    ]
}

/// `e` is the event of row `r`: a `SymbolTableEntry` event at time 0 whose
/// name and file resolve through `pool` to the row's.
pub open spec fn row_event_ok(e: DecodedV, r: SymbolRow, reg: Map<u16, SchemaV>, pool: Seq<Seq<char>>) -> bool {
    &&& e matches DecodedV::Event { type_id, timestamp_ns, values } && reg.contains_key(type_id)
        && reg[type_id] == symbol_schema() && timestamp_ns == Some(0u64) && exists|n: u32, f: u32|
        #![trigger row_values(r, n, f)]
        values == row_values(r, n, f) && n < pool.len() && pool[n as int] == r.name && f < pool.len()
            && pool[f as int] == r.file
}

/// The events after the first `k` match the rows.
pub open spec fn events_match_rows(e: EncoderV, k: nat, rows: Seq<SymbolRow>) -> bool {
    let evs = events_of(e).skip(k as int);
    &&& k <= events_of(e).len()
    &&& evs.len() == rows.len()
    &&& forall|i: int| 0 <= i < rows.len() ==> row_event_ok(#[trigger] evs[i], rows[i], e.registry, e.pool)
}

/// A row event stays a row event as the encoder grows.
proof fn lemma_row_ok_grows(e: DecodedV, r: SymbolRow, a: EncoderV, b: EncoderV)
    requires
        grows(a, b),
        row_event_ok(e, r, a.registry, a.pool),
    ensures
        row_event_ok(e, r, b.registry, b.pool),
{
    if let DecodedV::Event { type_id, timestamp_ns, values } = e {
        let (n, f) = choose|n: u32, f: u32|
            #![trigger row_values(r, n, f)]
            values == row_values(r, n, f) && n < a.pool.len() && a.pool[n as int] == r.name && f
                < a.pool.len() && a.pool[f as int] == r.file;
        assert(b.pool.take(a.pool.len() as int)[n as int] == a.pool[n as int]);
        assert(b.pool.take(a.pool.len() as int)[f as int] == a.pool[f as int]);
        assert(values == row_values(r, n, f));
    }
}

/// Appending the event of one more row keeps the rows matched.
proof fn lemma_rows_step(a: EncoderV, b: EncoderV, k: nat, rows: Seq<SymbolRow>, r: SymbolRow)
    requires
        grows(a, b),
        events_match_rows(a, k, rows),
        events_of(b).len() == events_of(a).len() + 1,
        row_event_ok(events_of(b).last(), r, b.registry, b.pool),
    ensures
        events_match_rows(b, k, rows.push(r)),
{
    let ea = events_of(a);
    let eb = events_of(b);
    assert forall|i: int| 0 <= i < rows.len() + 1 implies row_event_ok(
        #[trigger] eb.skip(k as int)[i],
        rows.push(r)[i],
        b.registry,
        b.pool,
    ) by {
        if i < rows.len() {
            assert(eb.take(ea.len() as int)[k + i] == ea[k + i]);
            assert(eb.skip(k as int)[i] == ea.skip(k as int)[i]);
            lemma_row_ok_grows(ea.skip(k as int)[i], rows[i], a, b);
        } else {
            assert(eb.skip(k as int)[i] == eb.last());
        }
    }
}

/// Nothing matched yet.
proof fn lemma_rows_start(a: EncoderV)
    ensures
        events_match_rows(a, events_of(a).len(), Seq::empty()),
{
}

/// Every registered schema is the symbol schema, and there is room to
/// register it under `key` unless it is registered under `key` already.
pub open spec fn symbol_registry(e: EncoderV, key: TypeId) -> bool {
    &&& forall|id: u16| #[trigger] e.registry.contains_key(id) ==> e.registry[id] == symbol_schema()
    &&& key_lookup(e.keys, key) is Some || e.registry.len() < 65536
}

/// Every registered schema is the symbol schema, with room for one more.
pub open spec fn only_symbol_schemas(e: EncoderV) -> bool {
    &&& forall|id: u16| #[trigger] e.registry.contains_key(id) ==> e.registry[id] == symbol_schema()
    &&& e.registry.len() < 65536
}

/// Registering the symbol schema under `key` succeeds and keeps the
/// registry as [`symbol_registry`] says.
proof fn lemma_symbol_register(
    o: EncoderV,
    key: TypeId,
    r: Result<crate::types::WireTypeId, EncodeError>,
    n: EncoderV,
)
    requires
        crate::encoder::encoder_inv(o),
        symbol_registry(o, key),
        register_spec(o, key, symbol_schema(), r, n),
    ensures
        r is Ok,
        symbol_registry(n, key),
{
    if key_lookup(o.keys, key) is Some {
        lemma_key_registered(o, key);
    } else {
        let id = o.registry.len() as u16;
        assert(!o.registry.contains_key(id));
        assert forall|i: u16| #[trigger] n.registry.contains_key(i) implies n.registry[i] == symbol_schema() by {
            if i != id {
                assert(o.registry.contains_key(i));
            }
        }
        lemma_registered_after(o, key, symbol_schema(), r->Ok_0, n);
    }
}

/// Interning a string leaves the schemas and type keys as they are, and
/// fails only when the pool is full.
proof fn lemma_intern_keeps_registry(
    o: EncoderV,
    s: Seq<char>,
    r: Result<InternedString, EncodeError>,
    n: EncoderV,
    key: TypeId,
)
    requires
        intern_spec(o, s, r, n),
    ensures
        symbol_registry(o, key) ==> symbol_registry(n, key),
        r matches Err(e) ==> e == EncodeError::PoolFull,
        r is Err ==> o.pool.len() > u32::MAX,
        n.pool.len() <= o.pool.len() + 1,
{
    assert(n.registry == o.registry && n.keys == o.keys);
}

/// Write the event of one row: the name and file are interned and the
/// schema registered under `key` on first use.
#[verifier::spinoff_prover]
#[verifier::rlimit(40)]
fn write_row(
    enc: &mut Encoder,
    key: TypeId,
    addr: u64,
    depth: u64,
    name: &str,
    file: &str,
    line: u64,
) -> (r: Result<(), EncodeError>)
    requires
        old(enc).wf(),
    ensures
        final(enc).wf(),
        grows(old(enc)@, final(enc)@),
        r is Ok ==> events_of(final(enc)@).len() == events_of(old(enc)@).len() + 1 && row_event_ok(
            events_of(final(enc)@).last(),
            SymbolRow { addr, depth, name: name@, file: file@, line },
            final(enc)@.registry,
            final(enc)@.pool,
        ),
        r is Err ==> events_of(final(enc)@) == events_of(old(enc)@),
        symbol_registry(old(enc)@, key) ==> symbol_registry(final(enc)@, key) && (r matches Err(e)
            ==> e == EncodeError::PoolFull),
        final(enc)@.pool.len() <= old(enc)@.pool.len() + 2,
        symbol_registry(old(enc)@, key) && r is Err ==> old(enc)@.pool.len() + 1 > u32::MAX,
{
    let ghost o = enc@;
    let n = match enc.intern_string(name) {
        Ok(id) => id,
        Err(e) => {
            proof {
                lemma_intern_grows(o, name@, Err(e), enc@);
                lemma_intern_keeps_registry(o, name@, Err(e), enc@, key);
            }
            return Err(e);
        },
    };
    let ghost m1 = enc@;
    proof {
        lemma_intern_grows(o, name@, Ok(n), m1);
        lemma_intern_keeps_registry(o, name@, Ok(n), m1, key);
    }
    let f = match enc.intern_string(file) {
        Ok(id) => id,
        Err(e) => {
            proof {
                lemma_intern_grows(m1, file@, Err(e), enc@);
                lemma_intern_keeps_registry(m1, file@, Err(e), enc@, key);
                lemma_grows_trans(o, m1, enc@);
            }
            return Err(e);
        },
    };
    let ghost m2 = enc@;
    proof {
        lemma_intern_grows(m1, file@, Ok(f), m2);
        lemma_intern_keeps_registry(m1, file@, Ok(f), m2, key);
        lemma_grows_trans(o, m1, m2);
        assert(m2.pool.take(m1.pool.len() as int)[n.0 as int] == m1.pool[n.0 as int]);
    }
    let entry = symbol_schema_entry();
    let id = match enc.register_with_key(key, entry) {
        Ok(id) => id,
        Err(e) => {
            proof {
                if symbol_registry(o, key) {
                    lemma_symbol_register(m2, key, Err(e), enc@);
                }
                lemma_register_grows(m2, key, entry@, Err(e), enc@);
                lemma_grows_trans(o, m2, enc@);
                assert(enc@.pool == m2.pool);
            }
            return Err(e);
        },
    };
    let ghost m3 = enc@;
    proof {
        if symbol_registry(o, key) {
            lemma_symbol_register(m2, key, Ok(id), m3);
        }
        lemma_register_grows(m2, key, entry@, Ok(id), m3);
        assert(m3.pool == m2.pool);
        lemma_grows_trans(o, m2, m3);
        lemma_registered_after(m2, key, entry@, id, m3);
    }
    let values = vec![
        FieldValue::Varint(addr),
        FieldValue::Varint(0),
        FieldValue::PooledString(n),
        FieldValue::Varint(depth),
        FieldValue::PooledString(f),
        FieldValue::Varint(line),
    ];
    let ghost row = SymbolRow { addr, depth, name: name@, file: file@, line };
    proof {
        assert(crate::types::values_view(values@) =~= row_values(row, n.0, f.0));
        assert(crate::roundtrip::types_of(row_values(row, n.0, f.0)) =~= crate::schema::spec_field_types(
            symbol_schema(),
        ));
    }
    let r = enc.write_event_with_id(id, Some(0), values.as_slice());
    proof {
        let m4 = enc@;
        assert(r is Ok);
        let ev = DecodedV::Event {
            type_id: id.0,
            timestamp_ns: Some(0u64),
            values: row_values(row, n.0, f.0),
        };
        assert(logical(m4.frames) == logical(m3.frames).push(ev));
        assert(logical(m4.frames).drop_last() =~= logical(m3.frames));
        assert(events_of(m4) == events_of(m3).push(ev));
        assert(events_of(m4).take(events_of(m3).len() as int) =~= events_of(m3));
        assert(m4.pool =~= m3.pool);
        assert(m4.registry == m3.registry && m4.keys == m3.keys);
        assert(m4.pool.take(m3.pool.len() as int) =~= m3.pool);
        let fs = crate::encoder::event_frames(m3.base, id.0, Some(0u64), row_values(row, n.0, f.0));
        crate::growth::lemma_appended(m3, m4, fs, crate::encoder::spec_frames_bytes(fs));
        lemma_grows_trans(o, m3, m4);
        assert(row_event_ok(ev, row, m4.registry, m4.pool));
    }
    r
}

/// The row of a resolved function at `addr`: its file and line when known,
/// else an empty file and line 0.
pub open spec fn frame_row(addr: u64, depth: u64, fr: ResolvedFrame) -> SymbolRow {
    SymbolRow {
        addr,
        depth,
        name: fr.name@,
        file: match fr.code {
            Some(c) => c.path@,
            None => Seq::empty(),
        },
        line: match fr.code {
            Some(c) => match c.line {
                Some(l) => l as u64,
                None => 0,
            },
            None => 0,
        },
    }
}

/// The rows of a resolved address: the outermost function at depth 0, then
/// each inlined callee one deeper.
pub open spec fn symbol_rows(addr: u64, s: ResolvedSymbol) -> Seq<SymbolRow> {
    seq![frame_row(addr, 0, s.frame)] + Seq::new(
        s.inlined@.len(),
        |j: int| frame_row(addr, (j + 1) as u64, s.inlined@[j]),
    )
}

/// The rows of the first `n` results, each at its address; unresolved
/// addresses have none.
pub open spec fn batch_rows(results: Seq<Option<ResolvedSymbol>>, addrs: Seq<u64>, n: nat) -> Seq<
    SymbolRow,
>
    decreases n,
{
    if n == 0 {
        Seq::empty()
    } else {
        batch_rows(results, addrs, (n - 1) as nat) + match results[n - 1] {
            Some(s) => symbol_rows(addrs[n - 1], s),
            None => Seq::empty(),
        }
    }
}

/// Write the row of a resolved function.
fn write_frame_row(enc: &mut Encoder, key: TypeId, addr: u64, depth: u64, fr: &ResolvedFrame) -> (r:
    Result<(), EncodeError>)
    requires
        old(enc).wf(),
    ensures
        final(enc).wf(),
        grows(old(enc)@, final(enc)@),
        r is Ok ==> events_of(final(enc)@).len() == events_of(old(enc)@).len() + 1 && row_event_ok(
            events_of(final(enc)@).last(),
            frame_row(addr, depth, *fr),
            final(enc)@.registry,
            final(enc)@.pool,
        ),
        r is Err ==> events_of(final(enc)@) == events_of(old(enc)@),
        symbol_registry(old(enc)@, key) ==> symbol_registry(final(enc)@, key) && (r matches Err(e)
            ==> e == EncodeError::PoolFull),
        final(enc)@.pool.len() <= old(enc)@.pool.len() + 2,
        symbol_registry(old(enc)@, key) && r is Err ==> old(enc)@.pool.len() + 1 > u32::MAX,
{
    let (file, line) = match &fr.code {
        Some(c) => (
            c.path.as_str(),
            match c.line {
                Some(l) => l as u64,
                None => 0,
            },
        ),
        None => ("", 0),
    };
    proof {
        reveal_strlit("");
        assert(file@ == frame_row(addr, depth, *fr).file);
    }
    write_row(enc, key, addr, depth, fr.name.as_str(), file, line)
}

/// The rows of all results, `results[i]` being the result for `addrs[i]`.
pub open spec fn resolved_rows(results: Seq<Option<ResolvedSymbol>>, addrs: Seq<u64>) -> Seq<SymbolRow> {
    batch_rows(results, addrs, if results.len() < addrs.len() { results.len() } else { addrs.len() })
}

/// Strings needed beyond the pool's room before some rows are still
/// needed beyond it before all rows.
proof fn lemma_overflow_bound(start: nat, used: nat, rows: nat, total: nat, before: nat)
    requires
        before <= start + 2 * used,
        before + 2 * rows > u32::MAX,
        used + rows <= total,
    ensures
        start + 2 * total > u32::MAX,
{
}

/// The rows of more results are at least as many.
proof fn lemma_batch_rows_mono(results: Seq<Option<ResolvedSymbol>>, addrs: Seq<u64>, i: nat, n: nat)
    requires
        i <= n,
    ensures
        batch_rows(results, addrs, i).len() <= batch_rows(results, addrs, n).len(),
    decreases n,
{
    if i < n {
        lemma_batch_rows_mono(results, addrs, i, (n - 1) as nat);
    }
}

/// Rows matched after the first `k` events, then more rows after them, are
/// all matched after the first `k`.
proof fn lemma_rows_concat_at(a: EncoderV, b: EncoderV, k: nat, rows1: Seq<SymbolRow>, rows2: Seq<SymbolRow>)
    requires
        grows(a, b),
        events_match_rows(a, k, rows1),
        events_match_rows(b, events_of(a).len(), rows2),
    ensures
        events_match_rows(b, k, rows1 + rows2),
{
    let ea = events_of(a);
    let eb = events_of(b);
    let rows = rows1 + rows2;
    assert forall|i: int| 0 <= i < rows.len() implies row_event_ok(
        #[trigger] eb.skip(k as int)[i],
        rows[i],
        b.registry,
        b.pool,
    ) by {
        if i < rows1.len() {
            assert(eb.take(ea.len() as int)[k + i] == ea[k + i]);
            assert(ea.skip(k as int)[i] == ea[k + i]);
            lemma_row_ok_grows(ea[k + i], rows1[i], a, b);
        } else {
            assert(eb.skip(ea.len() as int)[i - rows1.len()] == eb[k + i]);
        }
    }
}

/// Write the rows of one resolved address: its function, then each inlined
/// callee one deeper.
#[verifier::spinoff_prover]
fn write_symbol_rows(enc: &mut Encoder, key: TypeId, addr: u64, sym: &ResolvedSymbol) -> (r: Result<(), EncodeError>)
    requires
        old(enc).wf(),
    ensures
        final(enc).wf(),
        grows(old(enc)@, final(enc)@),
        r is Ok ==> events_match_rows(final(enc)@, events_of(old(enc)@).len(), symbol_rows(addr, *sym)),
        final(enc)@.pool.len() <= old(enc)@.pool.len() + 2 * symbol_rows(addr, *sym).len(),
        symbol_registry(old(enc)@, key) ==> symbol_registry(final(enc)@, key) && (r matches Err(e)
            ==> e == EncodeError::PoolFull),
        symbol_registry(old(enc)@, key) && r is Err ==> old(enc)@.pool.len() + 2 * symbol_rows(addr, *sym).len()
            > u32::MAX,
{
    let ghost o = enc@;
    let ghost k = events_of(o).len();
    let ghost rows = symbol_rows(addr, *sym);
    proof {
        lemma_grows_refl(o);
        lemma_rows_start(o);
    }
    let ghost e0 = enc@;
    match write_frame_row(enc, key, addr, 0, &sym.frame) {
        Ok(()) => {},
        Err(e) => {
            proof {
                lemma_grows_trans(o, e0, enc@);
            }
            return Err(e);
        },
    }
    proof {
        lemma_grows_trans(o, e0, enc@);
        lemma_rows_step(e0, enc@, k, Seq::empty(), rows[0]);
        assert(Seq::<SymbolRow>::empty().push(rows[0]) =~= rows.take(1));
    }
    let mut j: usize = 0;
    while j < sym.inlined.len()
        invariant
            j <= sym.inlined.len(),
            rows == symbol_rows(addr, *sym),
            rows.len() == sym.inlined.len() + 1,
            enc.wf(),
            o == old(enc)@,
            k == events_of(o).len(),
            grows(o, enc@),
            symbol_registry(o, key) ==> symbol_registry(enc@, key),
            events_match_rows(enc@, k, rows.take(j + 1)),
            enc@.pool.len() <= o.pool.len() + 2 * (j + 1),
        decreases sym.inlined.len() - j,
    {
        let ghost e1 = enc@;
        match write_frame_row(enc, key, addr, (j as u64) + 1, &sym.inlined[j]) {
            Ok(()) => {},
            Err(e) => {
                proof {
                    lemma_grows_trans(o, e1, enc@);
                }
                return Err(e);
            },
        }
        proof {
            lemma_grows_trans(o, e1, enc@);
            assert(rows[j + 1] == frame_row(addr, ((j as u64) + 1) as u64, sym.inlined@[j as int]));
            lemma_rows_step(e1, enc@, k, rows.take(j + 1), rows[j + 1]);
            assert(rows.take(j + 1).push(rows[j + 1]) =~= rows.take(j + 2));
        }
        j += 1;
    }
    assert(rows.take(sym.inlined.len() + 1) =~= rows);
    Ok(())
}

/// [`write_symbolized_batch`], with the symbol schema registered under `key`.
#[verifier::spinoff_prover]
#[verifier::rlimit(100)]
fn write_batch_keyed(
    key: TypeId,
    results: &[Option<ResolvedSymbol>],
    addrs: &[u64],
    encoder: &mut Encoder,
) -> (r: Result<(), EncodeError>)
    requires
        old(encoder).wf(),
    ensures
        final(encoder).wf(),
        grows(old(encoder)@, final(encoder)@),
        r is Ok ==> events_match_rows(final(encoder)@, events_of(old(encoder)@).len(), resolved_rows(results@, addrs@)),
        symbol_registry(old(encoder)@, key) ==> symbol_registry(final(encoder)@, key) && (r matches Err(
            e,
        ) ==> e == EncodeError::PoolFull),
        final(encoder)@.pool.len() <= old(encoder)@.pool.len() + 2 * resolved_rows(results@, addrs@).len(),
        resolved_rows(results@, addrs@).len() == 0 ==> r is Ok && final(encoder)@ == old(encoder)@,
        symbol_registry(old(encoder)@, key) && r is Err ==> old(encoder)@.pool.len() + 2 * resolved_rows(
            results@,
            addrs@,
        ).len() > u32::MAX,
{
    let n = if results.len() < addrs.len() {
        results.len()
    } else {
        addrs.len()
    };
    let ghost o = encoder@;
    let ghost k = events_of(o).len();
    let ghost total = batch_rows(results@, addrs@, n as nat);
    proof {
        lemma_grows_refl(o);
        lemma_rows_start(o);
    }
    let ghost mut used: nat = 0;
    let mut i: usize = 0;
    while i < n
        invariant
            n <= results.len(),
            n <= addrs.len(),
            i <= n,
            total == batch_rows(results@, addrs@, n as nat),
            total == resolved_rows(results@, addrs@),
            encoder.wf(),
            o == old(encoder)@,
            k == events_of(o).len(),
            grows(o, encoder@),
            symbol_registry(o, key) ==> symbol_registry(encoder@, key),
            events_match_rows(encoder@, k, batch_rows(results@, addrs@, i as nat)),
            used == batch_rows(results@, addrs@, i as nat).len(),
            encoder@.pool.len() <= o.pool.len() + 2 * used,
            used == 0 ==> encoder@ == o,
            used <= total.len(),
        decreases n - i,
    {
        let addr = addrs[i];
        let ghost base = batch_rows(results@, addrs@, i as nat);
        proof {
            lemma_batch_rows_mono(results@, addrs@, (i + 1) as nat, n as nat);
        }
        match &results[i] {
            None => {
                assert(batch_rows(results@, addrs@, (i + 1) as nat) =~= base);
            },
            Some(sym) => {
                let ghost e0 = encoder@;
                let ghost rows = symbol_rows(addr, *sym);
                assert(batch_rows(results@, addrs@, (i + 1) as nat) == base + rows);
                match write_symbol_rows(encoder, key, addr, sym) {
                    Ok(()) => {},
                    Err(e) => {
                        proof {
                            lemma_grows_trans(o, e0, encoder@);
                            assert(used + rows.len() <= total.len());
                            if symbol_registry(o, key) {
                                lemma_overflow_bound(o.pool.len(), used, rows.len(), total.len(), e0.pool.len());
                            }
                        }
                        return Err(e);
                    },
                }
                proof {
                    lemma_grows_trans(o, e0, encoder@);
                    lemma_rows_concat_at(e0, encoder@, k, base, rows);
                    assert(used + rows.len() == batch_rows(results@, addrs@, (i + 1) as nat).len());
                    used = used + rows.len();
                }
            },
        }
        i += 1;
    }
    Ok(())
}

/// Write the rows of symbolization results, `results[i]` being the result
/// for `addrs[i]`: for each resolved address its function and then its
/// inlined callees, with increasing depth; unresolved ones are skipped.
pub fn write_symbolized_batch(
    results: &[Option<ResolvedSymbol>],
    addrs: &[u64],
    encoder: &mut Encoder,
) -> (r: Result<(), EncodeError>)
    requires
        old(encoder).wf(),
    ensures
        final(encoder).wf(),
        grows(old(encoder)@, final(encoder)@),
        r is Ok ==> events_match_rows(
            final(encoder)@,
            events_of(old(encoder)@).len(),
            batch_rows(
                results@,
                addrs@,
                if results.len() < addrs.len() {
                    results.len() as nat
                } else {
                    addrs.len() as nat
                },
            ),
        ),
        final(encoder)@.pool.len() <= old(encoder)@.pool.len() + 2 * resolved_rows(results@, addrs@).len(),
        resolved_rows(results@, addrs@).len() == 0 ==> r is Ok && final(encoder)@ == old(encoder)@,
        only_symbol_schemas(old(encoder)@) && old(encoder)@.pool.len() + 2 * resolved_rows(results@, addrs@).len()
            <= u32::MAX ==> r is Ok,
{
    write_batch_keyed(type_key::<SymbolTableEntry>(), results, addrs, encoder)
}

/// The name of an address that could not be resolved: the prefix, a space
/// and the address as `0x` and lowercase hexadecimal digits.
pub open spec fn placeholder_name(prefix: Seq<char>, addr: u64) -> Seq<char> {
    prefix + " 0x"@ + crate::profiling::hex_digits(addr as nat)
}

/// `prefix`, a space and `addr` in `{:#x}` form.
fn format_placeholder(prefix: &str, addr: u64) -> (r: String)
    ensures
        r@ == placeholder_name(prefix@, addr),
{
    let mut r = prefix.to_owned();
    r.append(" ");
    let hex = crate::profiling::format_hex(addr);
    r.append(hex.as_str());
    proof {
        reveal_strlit(" ");
        reveal_strlit("0x");
        reveal_strlit(" 0x");
        assert(" "@ + "0x"@ =~= " 0x"@);
        assert(r@ =~= prefix@ + " 0x"@ + crate::profiling::hex_digits(addr as nat));
    }
    r
}

/// The rows of addresses that could not be resolved: a placeholder name,
/// the given source file, depth and line 0.
pub open spec fn placeholder_rows(prefix: Seq<char>, source: Seq<char>, addrs: Seq<u64>) -> Seq<SymbolRow> {
    Seq::new(
        addrs.len(),
        |i: int| SymbolRow { addr: addrs[i], depth: 0, name: placeholder_name(prefix, addrs[i]), file: source, line: 0 },
    )
}

/// [`write_placeholders`], with the symbol schema registered under `key`.
fn write_placeholders_keyed(key: TypeId, addrs: &[u64], prefix: &str, source: &str, encoder: &mut Encoder) -> (r:
    Result<(), EncodeError>)
    requires
        old(encoder).wf(),
    ensures
        final(encoder).wf(),
        grows(old(encoder)@, final(encoder)@),
        r is Ok ==> events_match_rows(
            final(encoder)@,
            events_of(old(encoder)@).len(),
            placeholder_rows(prefix@, source@, addrs@),
        ),
        symbol_registry(old(encoder)@, key) ==> symbol_registry(final(encoder)@, key) && (r matches Err(
            e,
        ) ==> e == EncodeError::PoolFull),
        final(encoder)@.pool.len() <= old(encoder)@.pool.len() + 2 * addrs@.len(),
        addrs@.len() == 0 ==> r is Ok && final(encoder)@ == old(encoder)@,
        symbol_registry(old(encoder)@, key) && r is Err ==> old(encoder)@.pool.len() + 2 * addrs@.len()
            > u32::MAX,
{
    let ghost o = encoder@;
    let ghost k = events_of(o).len();
    proof {
        lemma_grows_refl(o);
        lemma_rows_start(o);
    }
    let mut i: usize = 0;
    while i < addrs.len()
        invariant
            i <= addrs.len(),
            encoder.wf(),
            o == old(encoder)@,
            k == events_of(o).len(),
            grows(o, encoder@),
            symbol_registry(o, key) ==> symbol_registry(encoder@, key),
            events_match_rows(encoder@, k, placeholder_rows(prefix@, source@, addrs@.take(i as int))),
            encoder@.pool.len() <= o.pool.len() + 2 * i,
            i == 0 ==> encoder@ == o,
        decreases addrs.len() - i,
    {
        let name = format_placeholder(prefix, addrs[i]);
        let ghost e0 = encoder@;
        match write_row(encoder, key, addrs[i], 0, name.as_str(), source, 0) {
            Ok(()) => {},
            Err(e) => {
                proof {
                    lemma_grows_trans(o, e0, encoder@);
                    if symbol_registry(o, key) {
                        lemma_overflow_bound(o.pool.len(), i as nat, 1, addrs@.len(), e0.pool.len());
                    }
                }
                return Err(e);
            },
        }
        proof {
            lemma_grows_trans(o, e0, encoder@);
            let row = SymbolRow { addr: addrs@[i as int], depth: 0, name: name@, file: source@, line: 0 };
            lemma_rows_step(e0, encoder@, k, placeholder_rows(prefix@, source@, addrs@.take(i as int)), row);
            assert(placeholder_rows(prefix@, source@, addrs@.take(i as int)).push(row) =~= placeholder_rows(
                prefix@,
                source@,
                addrs@.take(i + 1),
            ));
        }
        i += 1;
    }
    assert(addrs@.take(addrs.len() as int) =~= addrs@);
    Ok(())
}

/// Write a placeholder row for each address.
pub fn write_placeholders(addrs: &[u64], prefix: &str, source: &str, encoder: &mut Encoder) -> (r:
    Result<(), EncodeError>)
    requires
        old(encoder).wf(),
    ensures
        final(encoder).wf(),
        grows(old(encoder)@, final(encoder)@),
        r is Ok ==> events_match_rows(
            final(encoder)@,
            events_of(old(encoder)@).len(),
            placeholder_rows(prefix@, source@, addrs@),
        ),
        final(encoder)@.pool.len() <= old(encoder)@.pool.len() + 2 * addrs@.len(),
        addrs@.len() == 0 ==> r is Ok && final(encoder)@ == old(encoder)@,
        only_symbol_schemas(old(encoder)@) && old(encoder)@.pool.len() + 2 * addrs@.len() <= u32::MAX ==> r
            is Ok,
{
    write_placeholders_keyed(type_key::<SymbolTableEntry>(), addrs, prefix, source, encoder)
}

#[verifier::external_type_specification]
#[verifier::external_body]
pub struct ExSymbolizer(Symbolizer);

#[verifier::external_type_specification]
#[verifier::external_body]
pub struct ExSymbolized<'src>(Symbolized<'src>);

/// A symbolizer with default settings.
///
/// Calls `blazesym::symbolize::Symbolizer::new`; nothing is claimed of it.
#[verifier::external_body]
fn symbolizer_new() -> (r: Symbolizer) {
    Symbolizer::new()
}

/// Resolve kernel addresses through the kernel's symbols (`kallsyms`,
/// no KASLR offset, no debug symbols).
///
/// Calls `Symbolizer::symbolize` with a kernel source and absolute
/// addresses; `None` when it fails. Its documentation promises exactly one
/// result per input address, in order, which the contract states; what the
/// results are depends on the running system.
#[verifier::external_body]
fn symbolize_kernel<'a>(symbolizer: &'a Symbolizer, addrs: &[u64]) -> (r: Option<Vec<Symbolized<'a>>>)
    ensures
        r matches Some(v) ==> v@.len() == addrs@.len(),
{
    let src = Source::Kernel(Kernel {
        kallsyms: blazesym::MaybeDefault::Default,
        vmlinux: blazesym::MaybeDefault::None,
        kaslr_offset: Some(0),
        debug_syms: false,
        _non_exhaustive: (),
    });
    symbolizer.symbolize(&src, Input::AbsAddr(addrs)).ok()
}

/// Resolve file offsets in the ELF file at `path`.
///
/// Calls `Symbolizer::symbolize` with an ELF source and file offsets;
/// `None` when it fails. One result per offset, in order, as documented;
/// what the results are depends on the file.
#[verifier::external_body]
fn symbolize_elf<'a>(symbolizer: &'a Symbolizer, path: &str, offsets: &[u64]) -> (r: Option<
    Vec<Symbolized<'a>>,
>)
    ensures
        r matches Some(v) ==> v@.len() == offsets@.len(),
{
    let src = Source::Elf(Elf::new(path));
    symbolizer.symbolize(&src, Input::FileOffset(offsets)).ok()
}

/// The resolved function and inlined callees of a result, or `None` for an
/// unknown address.
///
/// Calls `Symbolized::as_sym` and copies out each function's name and its
/// source path (`CodeInfo::to_path`, directory joined with file) and line;
/// nothing is claimed of the values.
#[verifier::external_body]
fn resolved_of(s: &Symbolized) -> (r: Option<ResolvedSymbol>) {
    let sym = s.as_sym()?;
    let loc = |ci: &CodeInfo| SourceLoc { path: ci.to_path().to_string_lossy().into_owned(), line: ci.line };
    let frame = ResolvedFrame { name: sym.name.to_string(), code: sym.code_info.as_deref().map(loc) };
    let inlined = sym.inlined.iter().map(
        |f| ResolvedFrame { name: f.name.to_string(), code: f.code_info.as_ref().map(loc) },
    ).collect();
    Some(ResolvedSymbol { frame, inlined })
}

/// The plain values of a batch of results, in order.
fn resolved_all(results: &Vec<Symbolized>) -> (r: Vec<Option<ResolvedSymbol>>)
    ensures
        r@.len() == results@.len(),
{
    let mut r: Vec<Option<ResolvedSymbol>> = Vec::new();
    let mut i: usize = 0;
    while i < results.len()
        invariant
            i <= results.len(),
            r@.len() == i,
        decreases results.len() - i,
    {
        r.push(resolved_of(&results[i]));
        i += 1;
    }
    r
}

/// The first mapping, from index `i` on, whose range holds `a`.
pub open spec fn owner_from(a: u64, maps: Seq<MapsEntry>, i: int) -> Option<int>
    decreases maps.len() - i,
{
    if i < 0 || i >= maps.len() {
        None
    } else if maps[i].start <= a < maps[i].end {
        Some(i)
    } else {
        owner_from(a, maps, i + 1)
    }
}

/// The first mapping whose range holds `a`.
pub open spec fn owner(a: u64, maps: Seq<MapsEntry>) -> Option<int> {
    owner_from(a, maps, 0)
}

/// The file offsets of every mapping fit in a `u64`.
pub open spec fn maps_ok(maps: Seq<MapsEntry>) -> bool {
    forall|i: int|
        0 <= i < maps.len() && (#[trigger] maps[i]).start < maps[i].end ==> maps[i].end - maps[i].start
            + maps[i].file_offset <= u64::MAX
}

/// The file offset of `a` in mapping `e`.
pub open spec fn map_offset(a: u64, e: MapsEntry) -> u64 {
    (a - e.start + e.file_offset) as u64
}

/// The kernel addresses among `addrs`, in order.
pub open spec fn kernel_addrs(addrs: Seq<u64>) -> Seq<u64> {
    addrs.filter(|a: u64| a >= USER_ADDR_LIMIT)
}

/// The user addresses among `addrs` whose first mapping is `i`, in order.
pub open spec fn group_addrs(addrs: Seq<u64>, maps: Seq<MapsEntry>, i: int) -> Seq<u64> {
    addrs.filter(|a: u64| a < USER_ADDR_LIMIT && owner(a, maps) == Some(i))
}

/// The addresses of one mapping and their offsets in its file.
#[derive(Debug, Clone)]
pub struct UserGroup {
    pub map_index: usize,
    pub offsets: Vec<u64>,
    pub addrs: Vec<u64>,
}

/// The groups of the first `n` mappings, in order, leaving out mappings
/// that hold none of the addresses.
pub open spec fn groups_upto(addrs: Seq<u64>, maps: Seq<MapsEntry>, n: nat) -> Seq<(usize, Seq<u64>, Seq<u64>)>
    decreases n,
{
    if n == 0 {
        Seq::empty()
    } else {
        let g = group_addrs(addrs, maps, n - 1);
        let rest = groups_upto(addrs, maps, (n - 1) as nat);
        if g.len() == 0 {
            rest
        } else {
            rest.push(((n - 1) as usize, g.map_values(|a: u64| map_offset(a, maps[n - 1])), g))
        }
    }
}

pub open spec fn group_view(g: UserGroup) -> (usize, Seq<u64>, Seq<u64>) {
    (g.map_index, g.offsets@, g.addrs@)
}

/// The first mapping whose range holds `a`.
fn find_owner(a: u64, maps: &[MapsEntry]) -> (r: Option<usize>)
    ensures
        match r {
            Some(i) => owner(a, maps@) == Some(i as int),
            None => owner(a, maps@) is None,
        },
{
    let mut i: usize = 0;
    while i < maps.len()
        invariant
            i <= maps.len(),
            owner(a, maps@) == owner_from(a, maps@, i as int),
        decreases maps.len() - i,
    {
        if maps[i].start <= a && a < maps[i].end {
            return Some(i);
        }
        i += 1;
    }
    None
}

/// Kernel addresses (at or above [`USER_ADDR_LIMIT`]) in order, and the
/// other addresses grouped by the first mapping that holds them, mappings
/// in order, with their file offsets; addresses no mapping holds are left
/// out.
pub fn partition_addresses(addrs: &[u64], maps: &[MapsEntry]) -> (r: (Vec<u64>, Vec<UserGroup>))
    requires
        maps_ok(maps@),
    ensures
        r.0@ == kernel_addrs(addrs@),
        r.1@.map_values(|g: UserGroup| group_view(g)) == groups_upto(addrs@, maps@, maps@.len()),
{
    let mut kernel: Vec<u64> = Vec::new();
    let mut owners: Vec<Option<usize>> = Vec::new();
    let mut i: usize = 0;
    while i < addrs.len()
        invariant
            i <= addrs.len(),
            kernel@ == kernel_addrs(addrs@.take(i as int)),
            owners@.len() == i,
            forall|j: int| 0 <= j < i ==> match #[trigger] owners@[j] {
                Some(m) => owner(addrs@[j], maps@) == Some(m as int),
                None => owner(addrs@[j], maps@) is None,
            },
        decreases addrs.len() - i,
    {
        let a = addrs[i];
        proof {
            assert(addrs@.take(i + 1).drop_last() =~= addrs@.take(i as int));
            reveal_with_fuel(vstd::seq::Seq::filter, 1);
        }
        if a >= USER_ADDR_LIMIT {
            kernel.push(a);
        }
        owners.push(find_owner(a, maps));
        proof {
            assert(kernel_addrs(addrs@.take(i + 1)) == if a >= USER_ADDR_LIMIT {
                kernel_addrs(addrs@.take(i as int)).push(a)
            } else {
                kernel_addrs(addrs@.take(i as int))
            });
        }
        i += 1;
    }
    assert(addrs@.take(addrs.len() as int) =~= addrs@);
    let mut groups: Vec<UserGroup> = Vec::new();
    let mut m: usize = 0;
    while m < maps.len()
        invariant
            m <= maps.len(),
            owners@.len() == addrs.len(),
            maps_ok(maps@),
            forall|j: int| 0 <= j < addrs.len() ==> match #[trigger] owners@[j] {
                Some(x) => owner(addrs@[j], maps@) == Some(x as int),
                None => owner(addrs@[j], maps@) is None,
            },
            groups@.map_values(|g: UserGroup| group_view(g)) == groups_upto(addrs@, maps@, m as nat),
        decreases maps.len() - m,
    {
        let mut offsets: Vec<u64> = Vec::new();
        let mut members: Vec<u64> = Vec::new();
        let mut j: usize = 0;
        while j < addrs.len()
            invariant
                j <= addrs.len(),
                m < maps.len(),
                owners@.len() == addrs.len(),
                maps_ok(maps@),
                forall|k: int| 0 <= k < addrs.len() ==> match #[trigger] owners@[k] {
                    Some(x) => owner(addrs@[k], maps@) == Some(x as int),
                    None => owner(addrs@[k], maps@) is None,
                },
                members@ == group_addrs(addrs@.take(j as int), maps@, m as int),
                offsets@ == members@.map_values(|a: u64| map_offset(a, maps@[m as int])),
            decreases addrs.len() - j,
        {
            let a = addrs[j];
            proof {
                assert(addrs@.take(j + 1).drop_last() =~= addrs@.take(j as int));
                reveal_with_fuel(vstd::seq::Seq::filter, 1);
            }
            let belongs = match owners[j] {
                Some(x) => a < USER_ADDR_LIMIT && x == m,
                None => false,
            };
            if belongs {
                proof {
                    lemma_owner_holds(a, maps@, 0);
                    assert(maps@[m as int].start <= a < maps@[m as int].end);
                }
                let e = &maps[m];
                let off = a - e.start + e.file_offset;
                members.push(a);
                offsets.push(off);
                proof {
                    assert(offsets@ =~= members@.map_values(|a: u64| map_offset(a, maps@[m as int])));
                }
            }
            proof {
                assert(group_addrs(addrs@.take(j + 1), maps@, m as int) == if belongs {
                    group_addrs(addrs@.take(j as int), maps@, m as int).push(a)
                } else {
                    group_addrs(addrs@.take(j as int), maps@, m as int)
                });
            }
            j += 1;
        }
        assert(addrs@.take(addrs.len() as int) =~= addrs@);
        if members.len() > 0 {
            let ghost before = groups@.map_values(|g: UserGroup| group_view(g));
            let g = UserGroup { map_index: m, offsets, addrs: members };
            groups.push(g);
            assert(groups@.map_values(|g: UserGroup| group_view(g)) =~= before.push(group_view(g)));
        }
        m += 1;
    }
    (kernel, groups)
}

/// The mapping found holds the address.
proof fn lemma_owner_holds(a: u64, maps: Seq<MapsEntry>, i: int)
    requires
        0 <= i,
    ensures
        owner_from(a, maps, i) matches Some(k) ==> i <= k < maps.len() && maps[k].start <= a
            < maps[k].end,
    decreases maps.len() - i,
{
    if i < maps.len() && !(maps[i].start <= a < maps[i].end) {
        lemma_owner_holds(a, maps, i + 1);
    }
}

/// The non-zero stack-frame addresses among field values.
pub open spec fn values_addrs(vs: Seq<FieldVal>) -> Set<u64>
    decreases vs.len(),
{
    if vs.len() == 0 {
        Set::empty()
    } else {
        values_addrs(vs.drop_last()).union(
            match vs.last() {
                FieldVal::Frames(fs) => fs.to_set().remove(0),
                _ => Set::empty(),
            },
        )
    }
}

/// The non-zero stack-frame addresses of the events read.
pub open spec fn outcomes_addrs(outs: Seq<EventOutcome>) -> Set<u64>
    decreases outs.len(),
{
    if outs.len() == 0 {
        Set::empty()
    } else {
        outcomes_addrs(outs.drop_first()).union(
            match outs[0] {
                EventOutcome::Event { values, .. } => values_addrs(values),
                _ => Set::empty(),
            },
        )
    }
}

/// Add the non-zero stack-frame addresses of `values` to `addresses`.
pub fn collect_stack_frame_addresses(values: &[FieldValueRef], addresses: &mut BTreeSet<u64>)
    ensures
        forall|x: u64|
            final(addresses)@.contains(x) <==> (old(addresses)@.contains(x) || values_addrs(
                values_ref_view(values@),
            ).contains(x)),
{
    let ghost vs = values_ref_view(values@);
    proof {
        crate::addrset::lemma_u64_keys_ordered();
    }
    let mut i: usize = 0;
    while i < values.len()
        invariant
            i <= values.len(),
            vs == values_ref_view(values@),
            forall|x: u64|
                addresses@.contains(x) <==> (old(addresses)@.contains(x) || values_addrs(
                    vs.take(i as int),
                ).contains(x)),
        decreases values.len() - i,
    {
        proof {
            assert(vs.take(i + 1).drop_last() =~= vs.take(i as int));
            assert(vs.take(i + 1).last() == values@[i as int]@);
        }
        match &values[i] {
            FieldValueRef::StackFrames(frames) => {
                let mut j: usize = 0;
                while j < frames.len()
                    invariant
                        j <= frames.len(),
                                    forall|x: u64|
                            addresses@.contains(x) <==> (old(addresses)@.contains(x) || values_addrs(
                                vs.take(i as int),
                            ).contains(x) || (x != 0 && frames@.take(j as int).contains(x))),
                    decreases frames.len() - j,
                {
                    let a = frames[j];
                    if a != 0 {
                        addresses.insert(a);
                    }
                    proof {
                        assert(frames@.take(j + 1) =~= frames@.take(j as int).push(a));
                        assert forall|x: u64| frames@.take(j + 1).contains(x) <==> (frames@.take(
                            j as int,
                        ).contains(x) || x == a) by {
                            if frames@.take(j + 1).contains(x) && x != a {
                                let k = choose|k: int| 0 <= k < j + 1 && #[trigger] frames@.take(j + 1)[k] == x;
                                assert(frames@.take(j as int)[k] == x);
                            }
                            if x == a {
                                assert(frames@.take(j + 1)[j as int] == a);
                            }
                        }
                    }
                    j += 1;
                }
                proof {
                    assert(frames@.take(frames.len() as int) =~= frames@);
                    assert forall|x: u64| (x != 0 && frames@.contains(x)) <==> frames@.to_set().remove(0).contains(x) by {
                    }
                }
            },
            _ => {
                proof {
                    assert(values_addrs(vs.take(i + 1)) =~= values_addrs(vs.take(i as int)));
                }
            },
        }
        i += 1;
    }
    assert(vs.take(values.len() as int) =~= vs);
}

/// `ev` is a symbol-table event for an address in `set`.
pub open spec fn symbol_event_for(ev: DecodedV, reg: Map<u16, SchemaV>, set: Set<u64>) -> bool {
    match ev {
        DecodedV::Event { type_id, values, .. } => {
            &&& reg.contains_key(type_id)
            &&& reg[type_id] == symbol_schema()
            &&& values.len() == 6
            &&& values[0] matches FieldVal::Varint(a)
            &&& set.contains(a)
        },
        _ => false,
    }
}

/// Every event written is a symbol-table event for an address in `set`.
pub open spec fn symbol_events_for(e: EncoderV, set: Set<u64>) -> bool {
    forall|k: int| 0 <= k < events_of(e).len() ==> #[trigger] symbol_event_for(events_of(e)[k], e.registry, set)
}

proof fn lemma_symbol_events_extend(a: EncoderV, b: EncoderV, rows: Seq<SymbolRow>, set: Set<u64>)
    requires
        symbol_events_for(a, set),
        grows(a, b),
        events_match_rows(b, events_of(a).len(), rows),
        forall|i: int| 0 <= i < rows.len() ==> set.contains(#[trigger] rows[i].addr),
    ensures
        symbol_events_for(b, set),
{
    let ea = events_of(a);
    let eb = events_of(b);
    assert forall|k: int| 0 <= k < eb.len() implies #[trigger] symbol_event_for(eb[k], b.registry, set) by {
        if k < ea.len() {
            assert(eb.take(ea.len() as int)[k] == ea[k]);
            assert(symbol_event_for(ea[k], a.registry, set));
        } else {
            let i = k - ea.len();
            assert(eb.skip(ea.len() as int)[i] == eb[k]);
            assert(row_event_ok(eb[k], rows[i], b.registry, b.pool));
            if let DecodedV::Event { type_id, values, .. } = eb[k] {
                let (n, f) = choose|n: u32, f: u32|
                    #![trigger row_values(rows[i], n, f)]
                    values == row_values(rows[i], n, f) && n < b.pool.len() && b.pool[n as int]
                        == rows[i].name && f < b.pool.len() && b.pool[f as int] == rows[i].file;
                assert(values[0] == FieldVal::Varint(rows[i].addr));
            }
        }
    }
}

/// The rows of a batch are at its addresses.
proof fn lemma_batch_rows_addrs(results: Seq<Option<ResolvedSymbol>>, addrs: Seq<u64>, n: nat)
    requires
        n <= addrs.len(),
        n <= results.len(),
    ensures
        forall|i: int|
            0 <= i < batch_rows(results, addrs, n).len() ==> addrs.contains(
                #[trigger] batch_rows(results, addrs, n)[i].addr,
            ),
    decreases n,
{
    if n > 0 {
        lemma_batch_rows_addrs(results, addrs, (n - 1) as nat);
        let prev = batch_rows(results, addrs, (n - 1) as nat);
        let cur = batch_rows(results, addrs, n);
        assert forall|i: int| 0 <= i < cur.len() implies addrs.contains(#[trigger] cur[i].addr) by {
            if i < prev.len() {
                assert(cur[i] == prev[i]);
            } else {
                assert(cur[i].addr == addrs[n - 1]);
            }
        }
    }
}

/// The addresses of each group are among the addresses, with as many
/// offsets, and the mapping indices are below `n`.
proof fn lemma_groups_addrs(addrs: Seq<u64>, maps: Seq<MapsEntry>, n: nat)
    ensures
        forall|k: int, i: int|
            0 <= k < groups_upto(addrs, maps, n).len() && 0 <= i < groups_upto(addrs, maps, n)[k].2.len()
                ==> addrs.contains(#[trigger] groups_upto(addrs, maps, n)[k].2[i]),
        forall|k: int|
            0 <= k < groups_upto(addrs, maps, n).len() ==> (#[trigger] groups_upto(addrs, maps, n)[k]).1.len()
                == groups_upto(addrs, maps, n)[k].2.len() && groups_upto(addrs, maps, n)[k].0 < n,
    decreases n,
{
    if n > 0 {
        lemma_groups_addrs(addrs, maps, (n - 1) as nat);
        let g = group_addrs(addrs, maps, n - 1);
        let rest = groups_upto(addrs, maps, (n - 1) as nat);
        let cur = groups_upto(addrs, maps, n);
        assert forall|i: int| 0 <= i < g.len() implies addrs.contains(#[trigger] g[i]) by {
            assert(g.contains(g[i]));
            addrs.lemma_filter_contains_rev(
                |a: u64| a < USER_ADDR_LIMIT && owner(a, maps) == Some(n - 1),
                g[i],
            );
        }
        assert forall|k: int, i: int| 0 <= k < cur.len() && 0 <= i < cur[k].2.len() implies addrs.contains(
            #[trigger] cur[k].2[i],
        ) by {
            if k < rest.len() {
                assert(cur[k] == rest[k]);
            } else {
                assert(cur[k].2 == g);
            }
        }
        assert forall|k: int| 0 <= k < cur.len() implies (#[trigger] cur[k]).1.len() == cur[k].2.len()
            && cur[k].0 < n by {
            if k < rest.len() {
                assert(cur[k] == rest[k]);
            }
        }
    }
}

/// The rows written for one batch of addresses: those of its symbolization
/// results when it could be symbolized, else a placeholder row per address
/// (named from `prefix`, in `source`).
pub open spec fn batch_output_rows(
    out: Option<Seq<Option<ResolvedSymbol>>>,
    addrs: Seq<u64>,
    prefix: Seq<char>,
    source: Seq<char>,
) -> Seq<SymbolRow> {
    match out {
        Some(rs) => batch_rows(rs, addrs, if rs.len() < addrs.len() { rs.len() } else { addrs.len() }),
        None => placeholder_rows(prefix, source, addrs),
    }
}

/// The rows of the kernel batch: none without kernel addresses; a failed
/// batch gets `[kernel]` placeholders in the source file `kernel`.
pub open spec fn kernel_rows(kernel: Seq<u64>, out: Option<Seq<Option<ResolvedSymbol>>>) -> Seq<SymbolRow> {
    if kernel.len() == 0 {
        Seq::empty()
    } else {
        batch_output_rows(out, kernel, "[kernel]"@, "kernel"@)
    }
}

/// The rows of the first `n` mapping groups, in order; a failed group gets
/// `[symbolize-failed]` placeholders in its mapping's file.
pub open spec fn group_rows(
    groups: Seq<(usize, Seq<u64>, Seq<u64>)>,
    maps: Seq<MapsEntry>,
    outs: Seq<Option<Seq<Option<ResolvedSymbol>>>>,
    n: nat,
) -> Seq<SymbolRow>
    decreases n,
{
    if n == 0 {
        Seq::empty()
    } else {
        group_rows(groups, maps, outs, (n - 1) as nat) + batch_output_rows(
            outs[n - 1],
            groups[n - 1].2,
            "[symbolize-failed]"@,
            maps[groups[n - 1].0 as int].path@,
        )
    }
}

/// The rows written for `addresses` against `maps`, given how the kernel
/// batch and each mapping's batch were symbolized: kernel rows first, then
/// each mapping that holds addresses, in mapping order. Addresses in no
/// mapping have no row.
pub open spec fn symbol_output_rows(
    addresses: Seq<u64>,
    maps: Seq<MapsEntry>,
    kout: Option<Seq<Option<ResolvedSymbol>>>,
    gouts: Seq<Option<Seq<Option<ResolvedSymbol>>>>,
) -> Seq<SymbolRow> {
    kernel_rows(kernel_addrs(addresses), kout) + group_rows(
        groups_upto(addresses, maps, maps.len()),
        maps,
        gouts,
        gouts.len(),
    )
}

/// `bytes` is the symbol trace of `addresses` for these symbolization
/// outcomes (one per mapping group): empty only when there is no row, else
/// a trace, header first, whose events are those of the rows, in order.
pub open spec fn symbol_output_ok(
    addresses: Seq<u64>,
    maps: Seq<MapsEntry>,
    kout: Option<Seq<Option<ResolvedSymbol>>>,
    gouts: Seq<Option<Seq<Option<ResolvedSymbol>>>>,
    bytes: Seq<u8>,
) -> bool {
    let rows = symbol_output_rows(addresses, maps, kout, gouts);
    &&& gouts.len() == groups_upto(addresses, maps, maps.len()).len()
    &&& bytes.len() == 0 <==> rows.len() == 0
    &&& bytes.len() > 0 ==> exists|e: EncoderV|
        {
            &&& crate::encoder::encoder_inv(e)
            &&& e.start == crate::codec::spec_header_bytes(crate::codec::VERSION)
            &&& bytes == e.bytes
            &&& events_match_rows(e, 0, rows)
        }
}

/// `bytes` is the symbol trace of `addresses` for some symbolization
/// outcome of the kernel batch and of each mapping group.
pub open spec fn symbol_output(addresses: Seq<u64>, maps: Seq<MapsEntry>, bytes: Seq<u8>) -> bool {
    exists|kout: Option<Seq<Option<ResolvedSymbol>>>, gouts: Seq<Option<Seq<Option<ResolvedSymbol>>>>|
        #[trigger] symbol_output_ok(addresses, maps, kout, gouts, bytes)
}

/// Without addresses no mapping has a group.
proof fn lemma_groups_empty(maps: Seq<MapsEntry>, n: nat)
    ensures
        groups_upto(Seq::<u64>::empty(), maps, n) == Seq::<(usize, Seq<u64>, Seq<u64>)>::empty(),
    decreases n,
{
    if n > 0 {
        lemma_groups_empty(maps, (n - 1) as nat);
        assert(group_addrs(Seq::<u64>::empty(), maps, n - 1) =~= Seq::<u64>::empty());
    }
}

/// For these outcomes of the kernel batch and of the first mapping groups,
/// the rows need more pooled strings (two per row) than a pool can hold.
pub open spec fn symbol_rows_overflow(
    addresses: Seq<u64>,
    maps: Seq<MapsEntry>,
    kout: Option<Seq<Option<ResolvedSymbol>>>,
    gouts: Seq<Option<Seq<Option<ResolvedSymbol>>>>,
) -> bool {
    &&& gouts.len() <= groups_upto(addresses, maps, maps.len()).len()
    &&& 2 * symbol_output_rows(addresses, maps, kout, gouts).len() > u32::MAX
}

/// For some outcome of the batches written so far, their rows overflow the
/// string pool.
pub open spec fn symbol_overflow(addresses: Seq<u64>, maps: Seq<MapsEntry>) -> bool {
    exists|kout: Option<Seq<Option<ResolvedSymbol>>>, gouts: Seq<Option<Seq<Option<ResolvedSymbol>>>>|
        #[trigger] symbol_rows_overflow(addresses, maps, kout, gouts)
}

/// The rows of one more group follow those before.
proof fn lemma_group_rows_push(
    gv: Seq<(usize, Seq<u64>, Seq<u64>)>,
    maps: Seq<MapsEntry>,
    gouts: Seq<Option<Seq<Option<ResolvedSymbol>>>>,
    out: Option<Seq<Option<ResolvedSymbol>>>,
)
    ensures
        group_rows(gv, maps, gouts.push(out), gouts.len() + 1) == group_rows(gv, maps, gouts, gouts.len())
            + batch_output_rows(out, gv[gouts.len() as int].2, "[symbolize-failed]"@, maps[gv[gouts.len() as int].0 as int].path@),
{
    let g2 = gouts.push(out);
    assert(g2[gouts.len() as int] == out);
    lemma_group_rows_prefix(gv, maps, gouts, g2, gouts.len());
}

/// A group batch that overflows the pool after the rows before it, with
/// the pool no fuller than two strings per row before, is an overflow of
/// the rows so far.
proof fn lemma_group_overflow(
    addresses: Seq<u64>,
    maps: Seq<MapsEntry>,
    kout: Option<Seq<Option<ResolvedSymbol>>>,
    gouts: Seq<Option<Seq<Option<ResolvedSymbol>>>>,
    out: Option<Seq<Option<ResolvedSymbol>>>,
    before: nat,
)
    requires
        gouts.len() < groups_upto(addresses, maps, maps.len()).len(),
        before <= 2 * (kernel_rows(kernel_addrs(addresses), kout) + group_rows(
            groups_upto(addresses, maps, maps.len()),
            maps,
            gouts,
            gouts.len(),
        )).len(),
        before + 2 * batch_output_rows(
            out,
            groups_upto(addresses, maps, maps.len())[gouts.len() as int].2,
            "[symbolize-failed]"@,
            maps[groups_upto(addresses, maps, maps.len())[gouts.len() as int].0 as int].path@,
        ).len() > u32::MAX,
    ensures
        symbol_overflow(addresses, maps),
{
    let gv = groups_upto(addresses, maps, maps.len());
    lemma_group_rows_push(gv, maps, gouts, out);
    let g2 = gouts.push(out);
    assert(symbol_rows_overflow(addresses, maps, kout, g2));
}

/// The rows of the first `n` groups depend on the first `n` outcomes only.
proof fn lemma_group_rows_prefix(
    groups: Seq<(usize, Seq<u64>, Seq<u64>)>,
    maps: Seq<MapsEntry>,
    a: Seq<Option<Seq<Option<ResolvedSymbol>>>>,
    b: Seq<Option<Seq<Option<ResolvedSymbol>>>>,
    n: nat,
)
    requires
        n <= a.len(),
        n <= b.len(),
        forall|i: int| 0 <= i < n ==> a[i] == b[i],
    ensures
        group_rows(groups, maps, a, n) == group_rows(groups, maps, b, n),
    decreases n,
{
    if n > 0 {
        lemma_group_rows_prefix(groups, maps, a, b, (n - 1) as nat);
    }
}

/// Rows matched from the start, then more rows after them, are all matched
/// from the start.
proof fn lemma_rows_concat(a: EncoderV, b: EncoderV, rows1: Seq<SymbolRow>, rows2: Seq<SymbolRow>)
    requires
        grows(a, b),
        events_match_rows(a, 0, rows1),
        events_match_rows(b, events_of(a).len(), rows2),
    ensures
        events_match_rows(b, 0, rows1 + rows2),
{
    let ea = events_of(a);
    let eb = events_of(b);
    let rows = rows1 + rows2;
    assert forall|i: int| 0 <= i < rows.len() implies row_event_ok(
        #[trigger] eb.skip(0)[i],
        rows[i],
        b.registry,
        b.pool,
    ) by {
        if i < rows1.len() {
            assert(eb.take(ea.len() as int)[i] == ea[i]);
            assert(ea.skip(0)[i] == ea[i]);
            lemma_row_ok_grows(ea[i], rows1[i], a, b);
        } else {
            assert(eb.skip(ea.len() as int)[i - rows1.len()] == eb[i]);
        }
    }
}

/// One more mapping group written: its rows follow those before, and its
/// events are symbol events for addresses in `set`.
proof fn lemma_group_step(
    e0: EncoderV,
    e1: EncoderV,
    head: Seq<SymbolRow>,
    gv: Seq<(usize, Seq<u64>, Seq<u64>)>,
    maps: Seq<MapsEntry>,
    gouts: Seq<Option<Seq<Option<ResolvedSymbol>>>>,
    out: Option<Seq<Option<ResolvedSymbol>>>,
    set: Set<u64>,
)
    requires
        grows(e0, e1),
        gouts.len() < gv.len(),
        events_match_rows(e0, 0, head + group_rows(gv, maps, gouts, gouts.len())),
        events_match_rows(
            e1,
            events_of(e0).len(),
            batch_output_rows(out, gv[gouts.len() as int].2, "[symbolize-failed]"@, maps[gv[gouts.len() as int].0 as int].path@),
        ),
        symbol_events_for(e0, set),
        forall|i: int| 0 <= i < gv[gouts.len() as int].2.len() ==> set.contains(#[trigger] gv[gouts.len() as int].2[i]),
    ensures
        events_match_rows(e1, 0, head + group_rows(gv, maps, gouts.push(out), gouts.len() + 1)),
        symbol_events_for(e1, set),
{
    let k = gouts.len();
    let addrs = gv[k as int].2;
    let path = maps[gv[k as int].0 as int].path@;
    let rows = batch_output_rows(out, addrs, "[symbolize-failed]"@, path);
    let before = head + group_rows(gv, maps, gouts, k);
    lemma_rows_concat(e0, e1, before, rows);
    let g2 = gouts.push(out);
    assert(g2[k as int] == out);
    lemma_group_rows_prefix(gv, maps, gouts, g2, k);
    assert(before + rows =~= head + group_rows(gv, maps, g2, k + 1));
    match out {
        Some(rs) => {
            let n = if rs.len() < addrs.len() { rs.len() } else { addrs.len() };
            lemma_batch_rows_addrs(rs, addrs, n);
            assert forall|i: int| 0 <= i < rows.len() implies set.contains(#[trigger] rows[i].addr) by {
                let j = choose|j: int| 0 <= j < addrs.len() && addrs[j] == rows[i].addr;
                assert(set.contains(addrs[j]));
            }
        },
        None => {
            assert forall|i: int| 0 <= i < rows.len() implies set.contains(#[trigger] rows[i].addr) by {
                assert(rows[i].addr == addrs[i]);
            }
        },
    }
    lemma_symbol_events_extend(e0, e1, rows, set);
}

/// Resolve `addresses` (each once) against `maps` and write the
/// symbol-table events to a new trace (header included): kernel addresses
/// as a batch, then each mapping's addresses, by its file; a batch that
/// cannot be resolved gets placeholder names. Nothing (not even a header)
/// when no event was written.
#[verifier::spinoff_prover]
#[verifier::rlimit(80)]
fn write_symbol_data(addresses: &Vec<u64>, maps: &[MapsEntry]) -> (r: Result<Vec<u8>, EncodeError>)
    requires
        maps_ok(maps@),
    ensures
        r matches Ok(bytes) ==> bytes@.len() == 0 || exists|e: EncoderV|
            {
                &&& crate::encoder::encoder_inv(e)
                &&& e.start == crate::codec::spec_header_bytes(crate::codec::VERSION)
                &&& bytes@ == e.bytes
                &&& symbol_events_for(e, Set::new(|x: u64| addresses@.contains(x)))
            },
        r matches Ok(bytes) ==> symbol_output(addresses@, maps@, bytes@),
        r matches Err(e) ==> e == EncodeError::PoolFull,
        r is Err ==> symbol_overflow(addresses@, maps@),
        kernel_addrs(addresses@).len() == 0 && groups_upto(addresses@, maps@, maps@.len()).len() == 0
            ==> (r matches Ok(bytes) && bytes@.len() == 0),
{
    let ghost set = Set::new(|x: u64| addresses@.contains(x));
    let mut encoder = Encoder::new();
    let key = type_key::<SymbolTableEntry>();
    let symbolizer = symbolizer_new();
    let (kernel, groups) = partition_addresses(addresses.as_slice(), maps);
    proof {
        assert(encoder@.registry.len() == 0);
        assert(symbol_registry(encoder@, key));
        assert(events_of(encoder@) =~= Seq::<DecodedV>::empty()) by {
            assert(encoder@.frames =~= Seq::<FrameV>::empty());
        }
        lemma_groups_addrs(addresses@, maps@, maps@.len());
        assert forall|i: int| 0 <= i < kernel@.len() implies set.contains(#[trigger] kernel@[i]) by {
            assert(kernel@.contains(kernel@[i]));
            addresses@.lemma_filter_contains_rev(|a: u64| a >= USER_ADDR_LIMIT, kernel@[i]);
        }
    }
    let ghost gv0 = groups_upto(addresses@, maps@, maps@.len());
    let ghost mut kout: Option<Seq<Option<ResolvedSymbol>>> = None;
    let ghost fresh = encoder@;
    let ghost no_groups = Seq::<Option<Seq<Option<ResolvedSymbol>>>>::empty();
    proof {
        lemma_rows_start(encoder@);
    }
    if kernel.len() > 0 {
        let ghost e0 = encoder@;
        match symbolize_kernel(&symbolizer, kernel.as_slice()) {
            Some(results) => {
                let rs = resolved_all(&results);
                match write_batch_keyed(key, rs.as_slice(), kernel.as_slice(), &mut encoder) {
                    Ok(()) => {},
                    Err(e) => {
                        proof {
                            let ko = Some(rs@);
                            assert(group_rows(gv0, maps@, no_groups, 0) =~= Seq::<SymbolRow>::empty());
                            assert(symbol_output_rows(addresses@, maps@, ko, no_groups) =~= kernel_rows(kernel@, ko));
                            assert(symbol_rows_overflow(addresses@, maps@, ko, no_groups));
                        }
                        return Err(e);
                    },
                }
                proof {
                    kout = Some(rs@);
                    assert(Seq::<SymbolRow>::empty() + kernel_rows(kernel@, kout) =~= kernel_rows(kernel@, kout));
                    lemma_batch_rows_addrs(rs@, kernel@, kernel@.len());
                    let rows = batch_rows(rs@, kernel@, kernel@.len());
                    assert forall|i: int| 0 <= i < rows.len() implies set.contains(#[trigger] rows[i].addr) by {
                        let j = choose|j: int| 0 <= j < kernel@.len() && kernel@[j] == rows[i].addr;
                        assert(set.contains(kernel@[j]));
                    }
                    lemma_symbol_events_extend(e0, encoder@, rows, set);
                }
            },
            None => {
                match write_placeholders_keyed(key, kernel.as_slice(), "[kernel]", "kernel", &mut encoder) {
                    Ok(()) => {},
                    Err(e) => {
                        proof {
                            let ko = None::<Seq<Option<ResolvedSymbol>>>;
                            assert(group_rows(gv0, maps@, no_groups, 0) =~= Seq::<SymbolRow>::empty());
                            assert(symbol_output_rows(addresses@, maps@, ko, no_groups) =~= kernel_rows(kernel@, ko));
                            assert(symbol_rows_overflow(addresses@, maps@, ko, no_groups));
                        }
                        return Err(e);
                    },
                }
                proof {
                    assert(Seq::<SymbolRow>::empty() + kernel_rows(kernel@, kout) =~= kernel_rows(kernel@, kout));
                    let rows = placeholder_rows("[kernel]"@, "kernel"@, kernel@);
                    assert forall|i: int| 0 <= i < rows.len() implies set.contains(#[trigger] rows[i].addr) by {
                        assert(rows[i].addr == kernel@[i]);
                    }
                    lemma_symbol_events_extend(e0, encoder@, rows, set);
                }
            },
        }
    }
    proof {
        if kernel.len() > 0 {
            assert(events_of(encoder@).len() == kernel_rows(kernel@, kout).len());
        } else {
            assert(kernel_rows(kernel@, kout) =~= Seq::<SymbolRow>::empty());
        }
        assert(kernel_rows(kernel@, kout) + Seq::<SymbolRow>::empty() =~= kernel_rows(kernel@, kout));
        assert(group_rows(gv0, maps@, no_groups, 0) =~= Seq::<SymbolRow>::empty());
        assert(encoder@.pool.len() <= 2 * kernel_rows(kernel@, kout).len());
        assert(kernel_rows(kernel@, kout).len() == 0 ==> encoder@ == fresh);
    }
    let ghost gv = groups@.map_values(|g: UserGroup| group_view(g));
    let ghost mut gouts: Seq<Option<Seq<Option<ResolvedSymbol>>>> = Seq::empty();
    let mut k: usize = 0;
    while k < groups.len()
        invariant
            k <= groups.len(),
            encoder.wf(),
            gv == groups@.map_values(|g: UserGroup| group_view(g)),
            gv == groups_upto(addresses@, maps@, maps@.len()),
            set == Set::new(|x: u64| addresses@.contains(x)),
            forall|j: int, i: int| 0 <= j < gv.len() && 0 <= i < gv[j].2.len() ==> addresses@.contains(#[trigger] gv[j].2[i]),
            forall|j: int| 0 <= j < gv.len() ==> (#[trigger] gv[j]).1.len() == gv[j].2.len(),
            forall|j: int| 0 <= j < gv.len() ==> (#[trigger] gv[j]).0 < maps@.len(),
            encoder@.start == crate::codec::spec_header_bytes(crate::codec::VERSION),
            symbol_events_for(encoder@, set),
            symbol_registry(encoder@, key),
            gouts.len() == k,
            events_match_rows(encoder@, 0, kernel_rows(kernel@, kout) + group_rows(gv, maps@, gouts, k as nat)),
            kernel@.len() == 0 && groups@.len() == 0 ==> encoder@ == crate::encoder::fresh_encoder(
                crate::codec::spec_header_bytes(crate::codec::VERSION),
            ),
            fresh == crate::encoder::fresh_encoder(crate::codec::spec_header_bytes(crate::codec::VERSION)),
            kernel@ == kernel_addrs(addresses@),
            encoder@.pool.len() <= 2 * (kernel_rows(kernel@, kout) + group_rows(gv, maps@, gouts, k as nat)).len(),
            (kernel_rows(kernel@, kout) + group_rows(gv, maps@, gouts, k as nat)).len() == 0 ==> encoder@ == fresh,
        decreases groups.len() - k,
    {
        let g = &groups[k];
        assert(gv[k as int] == group_view(*g));
        let path = maps[g.map_index].path.as_str();
        let ghost e0 = encoder@;
        proof {
            assert forall|i: int| 0 <= i < gv[k as int].2.len() implies set.contains(#[trigger] gv[k as int].2[i]) by {
                assert(addresses@.contains(gv[k as int].2[i]));
            }
        }
        match symbolize_elf(&symbolizer, path, g.offsets.as_slice()) {
            Some(results) => {
                let rs = resolved_all(&results);
                match write_batch_keyed(key, rs.as_slice(), g.addrs.as_slice(), &mut encoder) {
                    Ok(()) => {},
                    Err(e) => {
                        proof {
                            lemma_group_overflow(addresses@, maps@, kout, gouts, Some(rs@), e0.pool.len());
                        }
                        return Err(e);
                    },
                }
                proof {
                    lemma_group_step(e0, encoder@, kernel_rows(kernel@, kout), gv, maps@, gouts, Some(rs@), set);
                    lemma_group_rows_push(gv, maps@, gouts, Some(rs@));
                    gouts = gouts.push(Some(rs@));
                }
            },
            None => {
                match write_placeholders_keyed(key, g.addrs.as_slice(), "[symbolize-failed]", path, &mut encoder) {
                    Ok(()) => {},
                    Err(e) => {
                        proof {
                            lemma_group_overflow(addresses@, maps@, kout, gouts, None, e0.pool.len());
                        }
                        return Err(e);
                    },
                }
                proof {
                    lemma_group_step(e0, encoder@, kernel_rows(kernel@, kout), gv, maps@, gouts, None, set);
                    lemma_group_rows_push(gv, maps@, gouts, None);
                    gouts = gouts.push(None);
                }
            },
        }
        k += 1;
    }
    proof {
        assert(gouts.len() == gv.len());
        assert(symbol_output_rows(addresses@, maps@, kout, gouts) == kernel_rows(kernel@, kout) + group_rows(
            gv,
            maps@,
            gouts,
            k as nat,
        ));
    }
    proof {
        let rows = symbol_output_rows(addresses@, maps@, kout, gouts);
        if rows.len() > 0 {
            assert(events_of(encoder@).len() > 0);
            if encoder@.frames.len() == 0 {
                assert(events_of(encoder@) =~= Seq::<DecodedV>::empty());
            }
            crate::encoder::lemma_frames_bytes_nonempty(encoder@.frames);
        }
    }
    if encoder.bytes_written() == 0 {
        proof {
            let e = encoder@;
            if e.frames.len() > 0 {
                crate::encoder::lemma_frames_bytes_nonempty(e.frames);
            }
            assert(e.frames =~= Seq::<FrameV>::empty());
            assert(events_of(e) =~= Seq::<DecodedV>::empty());
        }
        let empty: Vec<u8> = Vec::new();
        proof {
            assert(symbol_output_ok(addresses@, maps@, kout, gouts, empty@));
            assert(symbol_output(addresses@, maps@, empty@));
        }
        return Ok(empty);
    }
    let ghost e = encoder@;
    let bytes = encoder.finish();
    assert(crate::encoder::encoder_inv(e) && bytes@ == e.bytes);
    proof {
        assert(symbol_output_ok(addresses@, maps@, kout, gouts, bytes@));
        assert(symbol_output(addresses@, maps@, bytes@));
    }
    Ok(bytes)
}

/// Why symbolizing a trace failed.
#[derive(Debug)]
pub enum SymbolizeError {
    /// The input does not start with the trace header.
    InvalidHeader,
    /// The input trace is malformed.
    Decode(crate::decoder::DecodeError),
    /// The symbol trace could not be written.
    Encode(EncodeError),
}

/// The events of a trace read up to its end or first error, and the error
/// position if any; `None` without a header.
pub open spec fn trace_scan(input: Seq<u8>) -> Option<(Seq<EventOutcome>, Option<nat>)> {
    match spec_decode_header(input) {
        Some(v) => {
            let (outs, err, _s) = event_run(fresh_state(input, HEADER_SIZE as nat, v));
            Some((outs, err))
        },
        None => None,
    }
}

/// Symbolize the stack-frame addresses of the trace `input` with the given
/// memory mappings and append the result, a trace of `SymbolTableEntry`
/// events (with its own header), to `output`. A trace without such
/// addresses adds nothing.
#[verifier::spinoff_prover]
#[verifier::rlimit(60)]
pub fn symbolize_trace_with_maps(input: &[u8], maps: &[MapsEntry], output: &mut Vec<u8>) -> (r:
    Result<(), SymbolizeError>)
    requires
        maps_ok(maps@),
    ensures
        (r matches Err(SymbolizeError::InvalidHeader)) <==> trace_scan(input@) is None,
        r matches Err(SymbolizeError::Decode(e)) ==> (trace_scan(input@) matches Some((_o, Some(p)))
            && p == e.pos),
        trace_scan(input@) matches Some((_o, Some(_p))) ==> r matches Err(SymbolizeError::Decode(_)),
        r is Err ==> final(output)@ == old(output)@,
        trace_scan(input@) matches Some((outs, None)) && outcomes_addrs(outs).is_empty() ==> r is Ok
            && final(output)@ == old(output)@,
        r matches Err(SymbolizeError::Encode(e)) ==> e == EncodeError::PoolFull && trace_scan(input@) is Some
            && exists|addrs: Seq<u64>|
            {
                &&& #[trigger] symbol_overflow(addrs, maps@)
                &&& addrs.no_duplicates()
                &&& addrs.to_set() == outcomes_addrs(trace_scan(input@).unwrap().0)
            },
        r is Ok ==> exists|addrs: Seq<u64>, bytes: Seq<u8>|
            {
                &&& #[trigger] symbol_output(addrs, maps@, bytes)
                &&& addrs.no_duplicates()
                &&& trace_scan(input@) is Some
                &&& addrs.to_set() == outcomes_addrs(trace_scan(input@).unwrap().0)
                &&& final(output)@ == old(output)@ + bytes
            },
        r is Ok && final(output)@ != old(output)@ ==> exists|e: EncoderV|
            {
                &&& crate::encoder::encoder_inv(e)
                &&& e.start == crate::codec::spec_header_bytes(crate::codec::VERSION)
                &&& final(output)@ == old(output)@ + e.bytes
                &&& trace_scan(input@) matches Some((outs, None))
                &&& symbol_events_for(e, outcomes_addrs(outs))
            },
{
    let mut decoder = match Decoder::new(input) {
        Some(d) => d,
        None => return Err(SymbolizeError::InvalidHeader),
    };
    let ghost start = decoder.state();
    let ghost all = event_run(start).0;
    let mut set: BTreeSet<u64> = BTreeSet::new();
    loop
        invariant_except_break
            event_run(decoder.state()).1 == event_run(start).1,
            forall|x: u64|
                (set@.contains(x) || outcomes_addrs(event_run(decoder.state()).0).contains(x))
                    <==> outcomes_addrs(all).contains(x),
        invariant
            decoder.wf(),
            decoder.state().data == start.data,
            start == fresh_state(input@, HEADER_SIZE as nat, spec_decode_header(input@).unwrap()),
            spec_decode_header(input@) is Some,
            all == event_run(start).0,
            decoder.state().pos <= decoder.state().data.len(),
        ensures
            event_run(start).1 is None,
            forall|x: u64| set@.contains(x) <==> outcomes_addrs(all).contains(x),
        decreases decoder.state().data.len() - decoder.state().pos,
    {
        let ghost s = decoder.state();
        proof {
            lemma_event_step_advances(s);
        }
        match decoder.next_event() {
            Ok(Some(ev)) => {
                collect_stack_frame_addresses(ev.fields.as_slice(), &mut set);
                proof {
                    let (rest, _e, _s2) = event_run(decoder.state());
                    let out = event_step(s).0;
                    assert(event_run(s).0 == seq![out] + rest);
                    assert((seq![out] + rest).drop_first() =~= rest);
                    assert((seq![out] + rest)[0] == out);
                }
            },
            Ok(None) => {
                proof {
                    assert(event_run(s).0 =~= Seq::<EventOutcome>::empty());
                    assert(outcomes_addrs(event_run(s).0) =~= Set::<u64>::empty());
                }
                break ;
            },
            Err(e) => {
                return Err(SymbolizeError::Decode(e));
            },
        }
    }
    let addresses = crate::addrset::addresses_of(&set);
    proof {
        assert forall|x: u64| addresses@.contains(x) <==> set@.contains(x) by {
            assert(addresses@.to_set().contains(x) == addresses@.contains(x));
        }
    }
    if addresses.len() == 0 {
        proof {
            assert forall|x: u64| !outcomes_addrs(all).contains(x) by {
                if outcomes_addrs(all).contains(x) {
                    assert(addresses@.contains(x));
                }
            }
            assert(outcomes_addrs(all) =~= Set::<u64>::empty());
            assert(addresses@ =~= Seq::<u64>::empty());
            lemma_groups_empty(maps@, maps@.len());
            let none = None::<Seq<Option<ResolvedSymbol>>>;
            let no_groups = Seq::<Option<Seq<Option<ResolvedSymbol>>>>::empty();
            assert(kernel_addrs(addresses@) =~= Seq::<u64>::empty());
            assert(symbol_output_rows(addresses@, maps@, none, no_groups) =~= Seq::<SymbolRow>::empty());
            assert(symbol_output_ok(addresses@, maps@, none, no_groups, Seq::<u8>::empty()));
            assert(addresses@.to_set() =~= outcomes_addrs(all));
            assert(output@ =~= output@ + Seq::<u8>::empty());
            assert(symbol_output(addresses@, maps@, Seq::<u8>::empty()));
        }
        return Ok(());
    }
    proof {
        assert(addresses@.contains(addresses@[0]));
        assert(outcomes_addrs(all).contains(addresses@[0]));
        assert(trace_scan(input@) == Some((all, event_run(start).1)));
    }
    match write_symbol_data(&addresses, maps) {
        Ok(bytes) => {
            let ghost o = output@;
            let ghost b0 = bytes@;
            let mut bytes = bytes;
            output.append(&mut bytes);
            proof {
                assert(Set::new(|x: u64| addresses@.contains(x)) =~= outcomes_addrs(all));
                assert(addresses@.to_set() =~= outcomes_addrs(all));
                assert(symbol_output(addresses@, maps@, b0));
                assert(output@ == o + b0);
                if o + bytes@ == o {
                } else {
                    assert(bytes@.len() != 0);
                }
            }
            Ok(())
        },
        Err(e) => {
            proof {
                assert(addresses@.to_set() =~= outcomes_addrs(all));
                assert(symbol_overflow(addresses@, maps@));
                assert(trace_scan(input@) == Some((all, event_run(start).1)));
            }
            Err(SymbolizeError::Encode(e))
        },
    }
}

} // verus!
