//! The meaning of a byte stream: the state a reader keeps (known schemas,
//! string pool, timestamp base) and the frames it hands out, one step at a
//! time.

use crate::codec::{spec_parse_frame, FrameV, Shape};
use crate::schema::{spec_field_types, SchemaV};
use crate::types::{FieldVal, PoolEntryV, SymbolEntry};
use vstd::prelude::*;
use vstd::utf8::{decode_utf8, valid_utf8};

verus! {

/// What the reader has learned from the frames read so far.
pub struct Tables {
    pub registry: Map<u16, SchemaV>,
    pub cache: Map<u16, Shape>,
    pub pool: Map<u32, Seq<char>>,
    pub version: u8,
    pub base: u64,
}

/// A reader's position in a stream and what it has learned.
pub struct DecState {
    pub data: Seq<u8>,
    pub pos: nat,
    pub tables: Tables,
}

/// A frame as handed to the user: timestamps are absolute.
pub enum DecodedV {
    Schema(SchemaV),
    Event { type_id: u16, timestamp_ns: Option<u64>, values: Seq<FieldVal> },
    StringPool(Seq<PoolEntryV>),
    SymbolTable(Seq<SymbolEntry>),
}

/// Outcome of reading one frame.
pub enum StepOutcome {
    /// End of the stream.
    End,
    /// A malformed stream (bytes that do not form a frame, or a conflicting
    /// schema); the position is reported.
    Error(nat),
    Frame(DecodedV),
}

/// Tables of a reader that has seen nothing yet.
pub open spec fn empty_tables(version: u8) -> Tables {
    Tables {
        registry: Map::empty(),
        cache: Map::empty(),
        pool: Map::empty(),
        version,
        base: 0,
    }
}

/// Reader state at the start of a stream whose header ends at `pos`.
pub open spec fn fresh_state(data: Seq<u8>, pos: nat, version: u8) -> DecState {
    DecState { data, pos, tables: empty_tables(version) }
}

/// Addition modulo 2^64.
pub open spec fn add_wrapping(a: u64, b: u64) -> u64 {
    if a + b <= u64::MAX {
        (a + b) as u64
    } else {
        (a + b - 0x1_0000_0000_0000_0000) as u64
    }
}

/// The pool after reading a string-pool frame: entries that are UTF-8 are
/// added in order (a later id wins); others are skipped.
pub open spec fn pool_add(pool: Map<u32, Seq<char>>, es: Seq<PoolEntryV>) -> Map<u32, Seq<char>>
    decreases es.len(),
{
    if es.len() == 0 {
        pool
    } else {
        let p = pool_add(pool, es.drop_last());
        let e = es.last();
        if valid_utf8(e.data) {
            p.insert(e.pool_id, decode_utf8(e.data))
        } else {
            p
        }
    }
}

pub open spec fn shape_of(s: SchemaV) -> Shape {
    Shape { field_types: spec_field_types(s), has_timestamp: s.has_timestamp }
}

/// The timestamp an event carrying `delta` stands for.
pub open spec fn event_timestamp(base: u64, delta: Option<u32>) -> Option<u64> {
    match delta {
        Some(d) => Some(add_wrapping(base, d as u64)),
        None => None,
    }
}

/// Whether a schema frame conflicts with what the reader knows.
pub open spec fn schema_conflicts(t: Tables, type_id: u16, entry: SchemaV) -> bool {
    t.registry.contains_key(type_id) && t.registry[type_id] != entry
}

/// The tables after a frame (for a conflicting schema frame only the field
/// cache is updated).
pub open spec fn apply_frame(t: Tables, f: FrameV) -> Tables {
    match f {
        FrameV::Header(v) => empty_tables(v),
        FrameV::Schema { type_id, entry } => if schema_conflicts(t, type_id, entry) {
            Tables { cache: t.cache.insert(type_id, shape_of(entry)), ..t }
        } else {
            Tables {
                cache: t.cache.insert(type_id, shape_of(entry)),
                registry: t.registry.insert(type_id, entry),
                ..t
            }
        },
        FrameV::Event { type_id, delta, values } => match event_timestamp(t.base, delta) {
            Some(ts) => Tables { base: ts, ..t },
            None => t,
        },
        FrameV::StringPool(es) => Tables { pool: pool_add(t.pool, es), ..t },
        FrameV::SymbolTable(_) => t,
        FrameV::TimestampReset(ts) => Tables { base: ts, ..t },
    }
}

/// Frames that produce nothing for the user and are read through.
pub open spec fn is_silent(f: FrameV) -> bool {
    f is Header || f is TimestampReset
}

/// What the user is handed for a frame that is not silent.
pub open spec fn decoded_of(t: Tables, f: FrameV) -> DecodedV {
    match f {
        FrameV::Schema { type_id, entry } => DecodedV::Schema(entry),
        FrameV::Event { type_id, delta, values } => DecodedV::Event {
            type_id,
            timestamp_ns: event_timestamp(t.base, delta),
            values,
        },
        FrameV::StringPool(es) => DecodedV::StringPool(es),
        FrameV::SymbolTable(es) => DecodedV::SymbolTable(es),
        _ => DecodedV::SymbolTable(Seq::empty()),
    }
}

/// Read one frame for the user: silent frames are applied and read through;
/// a schema that conflicts with a known one is an error reported at the end
/// of its frame.
pub open spec fn decode_step(s: DecState) -> (StepOutcome, DecState)
    decreases s.data.len() - s.pos,
{
    if s.pos >= s.data.len() {
        (StepOutcome::End, s)
    } else {
        match spec_parse_frame(s.data, s.pos, s.tables.cache) {
            Some((f, q)) => if q <= s.pos || q > s.data.len() {
                (StepOutcome::Error(s.pos), s)
            } else {
                let s1 = DecState { data: s.data, pos: q, tables: apply_frame(s.tables, f) };
                if is_silent(f) {
                    decode_step(s1)
                } else if f matches FrameV::Schema { type_id, entry } && schema_conflicts(
                    s.tables,
                    type_id,
                    entry,
                ) {
                    (StepOutcome::Error(q), s1)
                } else {
                    (StepOutcome::Frame(decoded_of(s.tables, f)), s1)
                }
            },
            None => (StepOutcome::Error(s.pos), s),
        }
    }
}

pub proof fn lemma_step_advances(s: DecState)
    requires
        s.pos <= s.data.len(),
    ensures
        decode_step(s).1.data == s.data,
        s.pos <= decode_step(s).1.pos <= s.data.len(),
        decode_step(s).0 is Frame ==> s.pos < decode_step(s).1.pos,
    decreases s.data.len() - s.pos,
{
    if s.pos < s.data.len() {
        match spec_parse_frame(s.data, s.pos, s.tables.cache) {
            Some((f, q)) => if q > s.pos && q <= s.data.len() {
                let s1 = DecState { data: s.data, pos: q, tables: apply_frame(s.tables, f) };
                if is_silent(f) {
                    lemma_step_advances(s1);
                }
            },
            None => {},
        }
    }
}

/// Read frames until the end, an unreadable frame or an error; the frames
/// read and the final state.
pub open spec fn decode_run(s: DecState) -> (Seq<DecodedV>, DecState)
    decreases s.data.len() - s.pos,
{
    if s.pos > s.data.len() {
        (Seq::empty(), s)
    } else {
        let (out, s1) = decode_step(s);
        match out {
            StepOutcome::Frame(f) => {
                proof {
                    lemma_step_advances(s);
                }
                let (rest, s2) = decode_run(s1);
                (seq![f] + rest, s2)
            },
            _ => (Seq::empty(), s1),
        }
    }
}

/// Outcome of looking for the next event.
pub enum EventOutcome {
    End,
    Error(nat),
    Event { type_id: u16, timestamp_ns: Option<u64>, values: Seq<FieldVal> },
}

/// Read up to the next event: other frames are applied; bytes that do not
/// form a frame, and a conflicting schema, are errors.
pub open spec fn event_step(s: DecState) -> (EventOutcome, DecState)
    decreases s.data.len() - s.pos,
{
    if s.pos >= s.data.len() {
        (EventOutcome::End, s)
    } else {
        match spec_parse_frame(s.data, s.pos, s.tables.cache) {
            Some((f, q)) => if q <= s.pos || q > s.data.len() {
                (EventOutcome::Error(s.pos), s)
            } else {
                let s1 = DecState { data: s.data, pos: q, tables: apply_frame(s.tables, f) };
                match f {
                    FrameV::Event { type_id, delta, values } => (
                        EventOutcome::Event {
                            type_id,
                            timestamp_ns: event_timestamp(s.tables.base, delta),
                            values,
                        },
                        s1,
                    ),
                    FrameV::Schema { type_id, entry } => if schema_conflicts(
                        s.tables,
                        type_id,
                        entry,
                    ) {
                        (EventOutcome::Error(q), s1)
                    } else {
                        event_step(s1)
                    },
                    _ => event_step(s1),
                }
            },
            None => (EventOutcome::Error(s.pos), s),
        }
    }
}

pub proof fn lemma_event_step_advances(s: DecState)
    requires
        s.pos <= s.data.len(),
    ensures
        event_step(s).1.data == s.data,
        s.pos <= event_step(s).1.pos <= s.data.len(),
        event_step(s).0 is Event ==> s.pos < event_step(s).1.pos,
    decreases s.data.len() - s.pos,
{
    if s.pos < s.data.len() {
        match spec_parse_frame(s.data, s.pos, s.tables.cache) {
            Some((f, q)) => if q > s.pos && q <= s.data.len() {
                let s1 = DecState { data: s.data, pos: q, tables: apply_frame(s.tables, f) };
                lemma_event_step_advances(s1);
            },
            None => {},
        }
    }
}

/// Read all events until the end or an error: the events, the error
/// position if any, and the final state.
pub open spec fn event_run(s: DecState) -> (Seq<EventOutcome>, Option<nat>, DecState)
    decreases s.data.len() - s.pos,
{
    if s.pos > s.data.len() {
        (Seq::empty(), None, s)
    } else {
        let (out, s1) = event_step(s);
        match out {
            EventOutcome::Event { .. } => {
                proof {
                    lemma_event_step_advances(s);
                }
                let (rest, err, s2) = event_run(s1);
                (seq![out] + rest, err, s2)
            },
            EventOutcome::Error(p) => (Seq::empty(), Some(p), s1),
            EventOutcome::End => (Seq::empty(), None, s1),
        }
    }
}


/// One step over a frame that parses at the current position.
pub proof fn lemma_step_parsed(s: DecState, f: FrameV, q: nat)
    requires
        s.pos < s.data.len(),
        spec_parse_frame(s.data, s.pos, s.tables.cache) == Some((f, q)),
        s.pos < q <= s.data.len(),
    ensures
        ({
            let s1 = DecState { data: s.data, pos: q, tables: apply_frame(s.tables, f) };
            &&& is_silent(f) ==> decode_step(s) == decode_step(s1)
            &&& !is_silent(f) && !(f matches FrameV::Schema { type_id, entry } && schema_conflicts(
                s.tables,
                type_id,
                entry,
            )) ==> decode_step(s) == (StepOutcome::Frame(decoded_of(s.tables, f)), s1)
        }),
{
}

/// Running from a state: the frame of its step, then the run from there.
pub proof fn lemma_run_unfold(s: DecState, s1: DecState, f: DecodedV)
    requires
        s.pos <= s.data.len(),
        decode_step(s) == (StepOutcome::Frame(f), s1),
    ensures
        decode_run(s).0 == seq![f] + decode_run(s1).0,
{
}

/// Two states with the same step have the same run.
pub proof fn lemma_run_same_step(s: DecState, t: DecState)
    requires
        s.pos <= s.data.len(),
        t.pos <= t.data.len(),
        decode_step(s) == decode_step(t),
    ensures
        decode_run(s) == decode_run(t),
{
}
/// Reading all frames is reading one frame after the other: the frames of
/// a run are the frame of the first step, if it gives one, then those of
/// the run from the state after it; a step that ends the stream or fails
/// ends the run there, its error not reported among the frames.
pub proof fn lemma_run_is_repeated_steps(s: DecState)
    requires
        s.pos <= s.data.len(),
    ensures
        decode_run(s) == match decode_step(s).0 {
            StepOutcome::Frame(f) => (seq![f] + decode_run(decode_step(s).1).0, decode_run(decode_step(s).1).1),
            _ => (Seq::<DecodedV>::empty(), decode_step(s).1),
        },
{
    lemma_step_advances(s);
}

} // verus!
