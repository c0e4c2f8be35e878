//! Streaming decoder.

use crate::codec::{
    cache_view, decode_frame, decode_frame_ref, decode_header, pool_entries_ref_view,
    pool_entries_view, spec_decode_header, utf8_to_string, Frame, FrameRef, SchemaInfo,
    HEADER_SIZE,
};
use crate::schema::{SchemaEntry, SchemaRegistry};
use crate::stream::{
    decode_run, decode_step, event_run, event_step, fresh_state, lemma_event_step_advances,
    lemma_step_advances, pool_add, DecState, DecodedV, EventOutcome, StepOutcome, Tables,
};
use crate::types::{
    values_ref_view, values_view, FieldValue, FieldValueRef, PoolEntry, PoolEntryRef,
    SymbolEntry, WireTypeId,
};
use std::collections::HashMap;
use vstd::prelude::*;

verus! {

broadcast use vstd::std_specs::hash::group_hash_axioms;

/// Error returned when the decoder cannot continue reading the stream.
/// Frames are not length-prefixed, so a malformed frame cannot be skipped.
#[derive(Debug, Clone)]
pub struct DecodeError {
    pub pos: usize,
    pub message: String,
}

/// A decoded frame that owns its data.
#[derive(Debug, Clone, PartialEq)]
pub enum DecodedFrame {
    Schema(SchemaEntry),
    Event {
        type_id: WireTypeId,
        /// Absolute timestamp in nanoseconds, when the schema has one.
        timestamp_ns: Option<u64>,
        values: Vec<FieldValue>,
    },
    StringPool(Vec<PoolEntry>),
    SymbolTable(Vec<SymbolEntry>),
}

impl View for DecodedFrame {
    type V = DecodedV;

    open spec fn view(&self) -> DecodedV {
        match self {
            DecodedFrame::Schema(e) => DecodedV::Schema(e@),
            DecodedFrame::Event { type_id, timestamp_ns, values } => DecodedV::Event {
                type_id: type_id.0,
                timestamp_ns: *timestamp_ns,
                values: values_view(values@),
            },
            DecodedFrame::StringPool(es) => DecodedV::StringPool(pool_entries_view(es@)),
            DecodedFrame::SymbolTable(es) => DecodedV::SymbolTable(es@),
        }
    }
}

/// A decoded frame that borrows strings and pool data from the input.
#[derive(Debug, Clone, PartialEq)]
pub enum DecodedFrameRef<'a> {
    Schema(SchemaEntry),
    Event { type_id: WireTypeId, timestamp_ns: Option<u64>, values: Vec<FieldValueRef<'a>> },
    StringPool(Vec<PoolEntryRef<'a>>),
    SymbolTable(Vec<SymbolEntry>),
}

impl<'a> View for DecodedFrameRef<'a> {
    type V = DecodedV;

    open spec fn view(&self) -> DecodedV {
        match self {
            DecodedFrameRef::Schema(e) => DecodedV::Schema(e@),
            DecodedFrameRef::Event { type_id, timestamp_ns, values } => DecodedV::Event {
                type_id: type_id.0,
                timestamp_ns: *timestamp_ns,
                values: values_ref_view(values@),
            },
            DecodedFrameRef::StringPool(es) => DecodedV::StringPool(pool_entries_ref_view(es@)),
            DecodedFrameRef::SymbolTable(es) => DecodedV::SymbolTable(es@),
        }
    }
}

/// An event handed to the callbacks of [`Decoder::for_each_event`].
#[derive(Debug, Clone, PartialEq)]
pub struct EventRef<'a> {
    pub type_id: WireTypeId,
    /// Name of the event's schema.
    pub name: String,
    pub timestamp_ns: Option<u64>,
    pub fields: Vec<FieldValueRef<'a>>,
}

/// The outcome that an event handed to a callback stands for.
pub open spec fn event_outcome(ev: EventRef) -> EventOutcome {
    EventOutcome::Event { type_id: ev.type_id.0, timestamp_ns: ev.timestamp_ns, values: values_ref_view(ev.fields@) }
}

/// An event handed to a callback, with the name of its schema.
pub open spec fn named_outcome(ev: EventRef) -> (EventOutcome, Seq<char>) {
    (event_outcome(ev), ev.name@)
}

/// The event `e` was handed to the callback `f`, which returned `out`.
pub open spec fn handed<'a, O, F: FnMut(EventRef<'a>) -> O>(f: F, e: (EventOutcome, Seq<char>), out: O) -> bool {
    exists|x: EventRef<'a>| #![trigger call_ensures(f, (x,), out)] named_outcome(x) == e && call_ensures(f, (x,), out)
}

/// Each of `evs` was handed to the callback `f`, which returned `out`.
pub open spec fn handed_each<'a, O, F: FnMut(EventRef<'a>) -> O>(f: F, evs: Seq<(EventOutcome, Seq<char>)>, out: O) -> bool {
    forall|k: int| 0 <= k < evs.len() ==> #[trigger] handed(f, evs[k], out)
}

/// The callback `f` returned `Ok(())` for the events of `evs` before some
/// event, and `Err(err)` for that one.
pub open spec fn stopped_by<'a, E, F: FnMut(EventRef<'a>) -> Result<(), E>>(f: F, evs: Seq<(EventOutcome, Seq<char>)>, err: E) -> bool {
    exists|k: int|
        0 <= k < evs.len() && handed_each(f, evs.take(k), Ok::<(), E>(())) && #[trigger] handed(
            f,
            evs[k],
            Err::<(), E>(err),
        )
}

/// `xs` are the values handed to `f` one by one, standing for `done`, and
/// `f` returned `out` for each.
#[verifier::opaque]
spec fn handed_list<'a, O, F: FnMut(EventRef<'a>) -> O>(
    f: F,
    xs: Seq<EventRef<'a>>,
    done: Seq<(EventOutcome, Seq<char>)>,
    out: O,
) -> bool {
    &&& xs.len() == done.len()
    &&& forall|k: int| 0 <= k < xs.len() ==> named_outcome(#[trigger] xs[k]) == done[k] && call_ensures(f, (xs[k],), out)
}

proof fn lemma_handed_list_empty<'a, O, F: FnMut(EventRef<'a>) -> O>(f: F, out: O)
    ensures
        handed_list(f, Seq::<EventRef<'a>>::empty(), Seq::<(EventOutcome, Seq<char>)>::empty(), out),
{
    reveal(handed_list);
}

proof fn lemma_handed_list_push<'a, O, F: FnMut(EventRef<'a>) -> O>(
    f: F,
    xs: Seq<EventRef<'a>>,
    done: Seq<(EventOutcome, Seq<char>)>,
    x: EventRef<'a>,
    out: O,
)
    requires
        handed_list(f, xs, done, out),
        call_ensures(f, (x,), out),
    ensures
        handed_list(f, xs.push(x), done.push(named_outcome(x)), out),
{
    reveal(handed_list);
    let ys = xs.push(x);
    let d = done.push(named_outcome(x));
    assert forall|k: int| 0 <= k < ys.len() implies named_outcome(#[trigger] ys[k]) == d[k] && call_ensures(f, (ys[k],), out) by {
        if k < xs.len() {
            assert(ys[k] == xs[k]);
        }
    }
}

/// Events handed one by one were each handed to `f`.
proof fn lemma_handed_all<'a, O, F: FnMut(EventRef<'a>) -> O>(
    f: F,
    xs: Seq<EventRef<'a>>,
    done: Seq<(EventOutcome, Seq<char>)>,
    out: O,
)
    requires
        handed_list(f, xs, done, out),
    ensures
        handed_each(f, done, out),
{
    reveal(handed_list);
    assert forall|k: int| 0 <= k < done.len() implies #[trigger] handed(f, done[k], out) by {
        assert(named_outcome(xs[k]) == done[k] && call_ensures(f, (xs[k],), out));
    }
}

/// The events of a run from `s`, each with the name of its schema (as the
/// reader knows it after the event), in order.
pub open spec fn named_run(s: DecState) -> Seq<(EventOutcome, Seq<char>)>
    decreases s.data.len() - s.pos,
{
    if s.pos > s.data.len() {
        Seq::empty()
    } else {
        let (out, s1) = event_step(s);
        match out {
            EventOutcome::Event { type_id, .. } => {
                proof {
                    lemma_event_step_advances(s);
                }
                seq![(out, s1.tables.registry[type_id].name)] + named_run(s1)
            },
            _ => Seq::empty(),
        }
    }
}

/// The named events of a run are its events, each with a name.
pub proof fn lemma_named_run_events(s: DecState)
    requires
        s.pos <= s.data.len(),
    ensures
        named_run(s).len() == event_run(s).0.len(),
        forall|k: int| 0 <= k < named_run(s).len() ==> (#[trigger] named_run(s)[k]).0 == event_run(s).0[k],
    decreases s.data.len() - s.pos,
{
    lemma_event_step_advances(s);
    let (out, s1) = event_step(s);
    if out is Event {
        lemma_named_run_events(s1);
        assert forall|k: int| 0 <= k < named_run(s).len() implies (#[trigger] named_run(s)[k]).0 == event_run(s).0[k] by {
            if k > 0 {
                assert(named_run(s)[k] == named_run(s1)[k - 1]);
                assert(event_run(s).0[k] == event_run(s1).0[k - 1]);
            }
        }
    }
}

/// The named events of a run from `s`, after `done`, are those of the run
/// from the state after its first event, after `done` and that event.
proof fn lemma_event_run_unfold(done: Seq<(EventOutcome, Seq<char>)>, s: DecState)
    requires
        s.pos <= s.data.len(),
        event_step(s).0 matches EventOutcome::Event { type_id, .. } && event_step(s).1.tables.registry.contains_key(type_id),
    ensures
        done + named_run(s) == done.push(
            (event_step(s).0, event_step(s).1.tables.registry[event_step(s).0->type_id].name),
        ) + named_run(event_step(s).1),
        event_run(s).1 == event_run(event_step(s).1).1,
        event_run(s).2 == event_run(event_step(s).1).2,
{
    lemma_event_step_advances(s);
    let e = (event_step(s).0, event_step(s).1.tables.registry[event_step(s).0->type_id].name);
    assert(named_run(s) == seq![e] + named_run(event_step(s).1));
    assert(done + named_run(s) =~= done.push(e) + named_run(event_step(s).1));
}

/// A run that ends at once hands out no events.
proof fn lemma_event_run_stop(done: Seq<(EventOutcome, Seq<char>)>, s: DecState)
    requires
        s.pos <= s.data.len(),
        !(event_step(s).0 is Event),
    ensures
        done + named_run(s) == done,
{
    assert(done + named_run(s) =~= done);
}

/// Error of [`Decoder::try_for_each_event`]: the stream was malformed, or the
/// callback stopped the iteration.
#[derive(Debug)]
pub enum ForEachError<E> {
    Decode(DecodeError),
    Callback(E),
}

/// Whether a step result agrees with the spec outcome.
pub open spec fn step_result_matches<T: View<V = DecodedV>>(
    r: Result<Option<T>, DecodeError>,
    out: StepOutcome,
) -> bool {
    match r {
        Ok(None) => out is End,
        Ok(Some(f)) => out == StepOutcome::Frame(f@),
        Err(e) => out == StepOutcome::Error(e.pos as nat),
    }
}

pub open spec fn pool_view(m: Map<u32, String>) -> Map<u32, Seq<char>> {
    m.map_values(|s: String| s@)
}

/// Streaming decoder over a byte buffer that starts with the file header.
pub struct Decoder<'a> {
    data: &'a [u8],
    pos: usize,
    registry: SchemaRegistry,
    schema_cache: HashMap<u16, SchemaInfo>,
    string_pool: HashMap<u32, String>,
    version: u8,
    timestamp_base_ns: u64,
}

impl<'a> Decoder<'a> {
    /// The reader's state: the data, the position and what it has learned.
    pub closed spec fn state(&self) -> DecState {
        DecState {
            data: self.data@,
            pos: self.pos as nat,
            tables: Tables {
                registry: self.registry@,
                cache: cache_view(self.schema_cache@),
                pool: pool_view(self.string_pool@),
                version: self.version,
                base: self.timestamp_base_ns,
            },
        }
    }

    /// The position is within the data, and a schema's field types are known
    /// exactly when the schema is.
    pub closed spec fn wf(&self) -> bool {
        &&& self.pos <= self.data@.len()
        &&& self.registry@.dom() == self.schema_cache@.dom()
    }

    /// A decoder positioned after the header, or `None` when `data` does not
    /// start with the file header.
    pub fn new(data: &'a [u8]) -> (r: Option<Self>)
        ensures
            r is Some <==> spec_decode_header(data@) is Some,
            r matches Some(d) ==> d.wf() && d.state() == fresh_state(
                data@,
                HEADER_SIZE as nat,
                spec_decode_header(data@).unwrap(),
            ),
    {
        match decode_header(data) {
            Some(version) => {
                let d = Decoder {
                    data,
                    pos: HEADER_SIZE,
                    registry: SchemaRegistry::new(),
                    schema_cache: HashMap::new(),
                    string_pool: HashMap::new(),
                    version,
                    timestamp_base_ns: 0,
                };
                proof {
                    assert(cache_view(d.schema_cache@) =~= Map::empty());
                    assert(pool_view(d.string_pool@) =~= Map::empty());
                    assert(d.registry@.dom() =~= d.schema_cache@.dom());
                }
                Some(d)
            },
            None => None,
        }
    }

    pub fn registry(&self) -> (r: &SchemaRegistry)
        ensures
            r@ == self.state().tables.registry,
    {
        &self.registry
    }

    pub fn version(&self) -> (r: u8)
        ensures
            r == self.state().tables.version,
    {
        self.version
    }

    /// Strings of the pool frames read so far, by pool id.
    pub fn string_pool(&self) -> (r: &HashMap<u32, String>)
        ensures
            pool_view(r@) == self.state().tables.pool,
    {
        &self.string_pool
    }

    /// Current read position.
    pub fn position(&self) -> (r: usize)
        ensures
            r == self.state().pos,
    {
        self.pos
    }

    fn reset_tables(&mut self, version: u8)
        requires
            old(self).wf(),
        ensures
            final(self).wf(),
            final(self).state() == (DecState {
                tables: crate::stream::empty_tables(version),
                ..old(self).state()
            }),
    {
        self.registry = SchemaRegistry::new();
        self.schema_cache = HashMap::new();
        self.string_pool = HashMap::new();
        self.version = version;
        self.timestamp_base_ns = 0;
        assert(cache_view(self.schema_cache@) =~= Map::empty());
        assert(pool_view(self.string_pool@) =~= Map::empty());
        assert(self.registry@.dom() =~= self.schema_cache@.dom());
    }

    /// Register a schema frame's schema: its field types are recorded in any
    /// case; a different schema under a known type id is refused.
    fn register_schema(&mut self, type_id: WireTypeId, entry: SchemaEntry) -> (r: Result<(), String>)
        requires
            old(self).wf(),
        ensures
            final(self).wf(),
            final(self).state() == (DecState {
                tables: crate::stream::apply_frame(
                    old(self).state().tables,
                    crate::codec::FrameV::Schema { type_id: type_id.0, entry: entry@ },
                ),
                ..old(self).state()
            }),
            r is Err <==> crate::stream::schema_conflicts(
                old(self).state().tables,
                type_id.0,
                entry@,
            ),
    {
        let info = SchemaInfo { field_types: entry.field_types(), has_timestamp: entry.has_timestamp };
        self.schema_cache.insert(type_id.0, info);
        let r = self.registry.register(type_id, entry);
        proof {
            assert(cache_view(self.schema_cache@) =~= cache_view(old(self).schema_cache@).insert(
                type_id.0,
                crate::stream::shape_of(entry@),
            ));
            assert(self.registry@.dom() =~= self.schema_cache@.dom());
            if old(self).registry@.contains_key(type_id.0) && old(self).registry@[type_id.0]
                == entry@ {
                assert(old(self).registry@.insert(type_id.0, entry@) =~= old(self).registry@);
            }
        }
        r
    }

    /// Add the UTF-8 entries of a pool frame to the string pool.
    fn add_pool_entries(&mut self, entries: &[PoolEntry])
        requires
            old(self).wf(),
        ensures
            final(self).wf(),
            final(self).state() == (DecState {
                tables: Tables {
                    pool: pool_add(old(self).state().tables.pool, pool_entries_view(entries@)),
                    ..old(self).state().tables
                },
                ..old(self).state()
            }),
    {
        let mut i: usize = 0;
        while i < entries.len()
            invariant
                i <= entries.len(),
                self.wf(),
                self.state() == (DecState {
                    tables: Tables {
                        pool: pool_add(
                            old(self).state().tables.pool,
                            pool_entries_view(entries@.take(i as int)),
                        ),
                        ..old(self).state().tables
                    },
                    ..old(self).state()
                }),
            decreases entries.len() - i,
        {
            assert(pool_entries_view(entries@.take(i + 1)).drop_last() =~= pool_entries_view(
                entries@.take(i as int),
            ));
            let bytes = crate::codec::bytes_to_vec(entries[i].data.as_slice());
            let ghost prev = self.string_pool@;
            match utf8_to_string(bytes) {
                Some(s) => {
                    let ghost sv = s@;
                    self.string_pool.insert(entries[i].pool_id, s);
                    assert(pool_view(self.string_pool@) =~= pool_view(prev).insert(
                        entries@[i as int].pool_id,
                        sv,
                    ));
                },
                None => {},
            }
            i += 1;
        }
        assert(entries@.take(i as int) =~= entries@);
    }

    /// Add the UTF-8 entries of a borrowed pool frame to the string pool.
    fn add_pool_entries_ref(&mut self, entries: &[PoolEntryRef<'a>])
        requires
            old(self).wf(),
        ensures
            final(self).wf(),
            final(self).state() == (DecState {
                tables: Tables {
                    pool: pool_add(old(self).state().tables.pool, pool_entries_ref_view(entries@)),
                    ..old(self).state().tables
                },
                ..old(self).state()
            }),
    {
        let mut i: usize = 0;
        while i < entries.len()
            invariant
                i <= entries.len(),
                self.wf(),
                self.state() == (DecState {
                    tables: Tables {
                        pool: pool_add(
                            old(self).state().tables.pool,
                            pool_entries_ref_view(entries@.take(i as int)),
                        ),
                        ..old(self).state().tables
                    },
                    ..old(self).state()
                }),
            decreases entries.len() - i,
        {
            assert(pool_entries_ref_view(entries@.take(i + 1)).drop_last() =~= pool_entries_ref_view(
                entries@.take(i as int),
            ));
            let bytes = crate::codec::bytes_to_vec(entries[i].data);
            let ghost prev = self.string_pool@;
            match utf8_to_string(bytes) {
                Some(s) => {
                    let ghost sv = s@;
                    self.string_pool.insert(entries[i].pool_id, s);
                    assert(pool_view(self.string_pool@) =~= pool_view(prev).insert(
                        entries@[i as int].pool_id,
                        sv,
                    ));
                },
                None => {},
            }
            i += 1;
        }
        assert(entries@.take(i as int) =~= entries@);
    }

    /// Decode the next frame: `Ok(None)` at the end of the stream; `Err` on
    /// malformed data, that is bytes that do not form a frame (the error at
    /// the frame's start) or a schema that conflicts with a known one under
    /// the same type id. Timestamp resets and headers met
    /// mid-stream are applied and read through.
    pub fn next_frame(&mut self) -> (r: Result<Option<DecodedFrame>, DecodeError>)
        requires
            old(self).wf(),
        ensures
            final(self).wf(),
            final(self).state() == decode_step(old(self).state()).1,
            step_result_matches(r, decode_step(old(self).state()).0),
    {
        loop
            invariant
                self.wf(),
                self.data@ == old(self).data@,
                decode_step(self.state()) == decode_step(old(self).state()),
            decreases self.data.len() - self.pos,
        {
            if self.pos >= self.data.len() {
                return Ok(None);
            }
            let ghost s = self.state();
            match decode_frame(self.data, self.pos, &self.schema_cache) {
                None => {
                    return Err(
                        DecodeError { pos: self.pos, message: "failed to decode frame".to_string() },
                    );
                },
                Some((frame, q)) => {
                    self.pos = q;
                    match frame {
                        Frame::Header(v) => {
                            self.reset_tables(v);
                        },
                        Frame::TimestampReset(ts) => {
                            self.timestamp_base_ns = ts;
                        },
                        Frame::Schema { type_id, entry } => {
                            let result = entry.duplicate();
                            match self.register_schema(type_id, entry) {
                                Ok(()) => {
                                    return Ok(Some(DecodedFrame::Schema(result)));
                                },
                                Err(message) => {
                                    return Err(DecodeError { pos: self.pos, message });
                                },
                            }
                        },
                        Frame::Event { type_id, delta, values } => {
                            let timestamp_ns = match delta {
                                Some(d) => {
                                    let t = self.timestamp_base_ns.wrapping_add(d as u64);
                                    self.timestamp_base_ns = t;
                                    Some(t)
                                },
                                None => None,
                            };
                            return Ok(Some(DecodedFrame::Event { type_id, timestamp_ns, values }));
                        },
                        Frame::StringPool(entries) => {
                            self.add_pool_entries(entries.as_slice());
                            return Ok(Some(DecodedFrame::StringPool(entries)));
                        },
                        Frame::SymbolTable(entries) => {
                            return Ok(Some(DecodedFrame::SymbolTable(entries)));
                        },
                    }
                },
            }
        }
    }

    /// Decode all remaining frames; stops at the end of the stream, at
    /// bytes that do not form a frame, or at an error.
    pub fn decode_all(&mut self) -> (r: Vec<DecodedFrame>)
        requires
            old(self).wf(),
        ensures
            final(self).wf(),
            r@.map_values(|f: DecodedFrame| f@) == decode_run(old(self).state()).0,
            final(self).state() == decode_run(old(self).state()).1,
    {
        let mut frames: Vec<DecodedFrame> = Vec::new();
        loop
            invariant
                self.wf(),
                self.data@ == old(self).data@,
                decode_run(old(self).state()).0 == frames@.map_values(|f: DecodedFrame| f@) + decode_run(
                    self.state(),
                ).0,
                decode_run(old(self).state()).1 == decode_run(self.state()).1,
            decreases self.data.len() - self.pos,
        {
            let ghost s = self.state();
            proof {
                lemma_step_advances(s);
            }
            match self.next_frame() {
                Ok(Some(f)) => {
                    let ghost fv = f@;
                    frames.push(f);
                    assert(frames@.map_values(|f: DecodedFrame| f@) =~= frames@.drop_last().map_values(
                        |f: DecodedFrame| f@,
                    ).push(fv));
                    assert(decode_run(s).0 == seq![fv] + decode_run(self.state()).0);
                    assert(decode_run(old(self).state()).0 =~= frames@.map_values(|f: DecodedFrame| f@)
                        + decode_run(self.state()).0);
                },
                _ => {
                    assert(decode_run(s).0 =~= Seq::<DecodedV>::empty());
                    assert(decode_run(s).1 == self.state());
                    assert(frames@.map_values(|f: DecodedFrame| f@) + Seq::<DecodedV>::empty()
                        =~= frames@.map_values(|f: DecodedFrame| f@));
                    return frames;
                },
            }
        }
    }

    /// Decode the next frame without copying string and pool data: `Ok(None)`
    /// at the end of the stream; `Err` on malformed data, that is bytes that
    /// do not form a frame (the error at the frame's start) or a schema that
    /// conflicts with a known one under the same type id. Timestamp resets and headers met
    /// mid-stream are applied and read through.
    pub fn next_frame_ref(&mut self) -> (r: Result<Option<DecodedFrameRef<'a>>, DecodeError>)
        requires
            old(self).wf(),
        ensures
            final(self).wf(),
            final(self).state() == decode_step(old(self).state()).1,
            step_result_matches(r, decode_step(old(self).state()).0),
    {
        loop
            invariant
                self.wf(),
                self.data@ == old(self).data@,
                decode_step(self.state()) == decode_step(old(self).state()),
            decreases self.data.len() - self.pos,
        {
            if self.pos >= self.data.len() {
                return Ok(None);
            }
            let ghost s = self.state();
            match decode_frame_ref(self.data, self.pos, &self.schema_cache) {
                None => {
                    return Err(
                        DecodeError { pos: self.pos, message: "failed to decode frame".to_string() },
                    );
                },
                Some((frame, q)) => {
                    self.pos = q;
                    match frame {
                        FrameRef::Header(v) => {
                            self.reset_tables(v);
                        },
                        FrameRef::TimestampReset(ts) => {
                            self.timestamp_base_ns = ts;
                        },
                        FrameRef::Schema { type_id, entry } => {
                            let result = entry.duplicate();
                            match self.register_schema(type_id, entry) {
                                Ok(()) => {
                                    return Ok(Some(DecodedFrameRef::Schema(result)));
                                },
                                Err(message) => {
                                    return Err(DecodeError { pos: self.pos, message });
                                },
                            }
                        },
                        FrameRef::Event { type_id, delta, values } => {
                            let timestamp_ns = match delta {
                                Some(d) => {
                                    let t = self.timestamp_base_ns.wrapping_add(d as u64);
                                    self.timestamp_base_ns = t;
                                    Some(t)
                                },
                                None => None,
                            };
                            return Ok(Some(DecodedFrameRef::Event { type_id, timestamp_ns, values }));
                        },
                        FrameRef::StringPool(entries) => {
                            self.add_pool_entries_ref(entries.as_slice());
                            return Ok(Some(DecodedFrameRef::StringPool(entries)));
                        },
                        FrameRef::SymbolTable(entries) => {
                            return Ok(Some(DecodedFrameRef::SymbolTable(entries)));
                        },
                    }
                },
            }
        }
    }

    /// Decode all remaining frames without copying string and pool data; stops at the end of the stream, at
    /// bytes that do not form a frame, or at an error.
    pub fn decode_all_ref(&mut self) -> (r: Vec<DecodedFrameRef<'a>>)
        requires
            old(self).wf(),
        ensures
            final(self).wf(),
            r@.map_values(|f: DecodedFrameRef<'a>| f@) == decode_run(old(self).state()).0,
            final(self).state() == decode_run(old(self).state()).1,
    {
        let mut frames: Vec<DecodedFrameRef<'a>> = Vec::new();
        loop
            invariant
                self.wf(),
                self.data@ == old(self).data@,
                decode_run(old(self).state()).0 == frames@.map_values(|f: DecodedFrameRef<'a>| f@) + decode_run(
                    self.state(),
                ).0,
                decode_run(old(self).state()).1 == decode_run(self.state()).1,
            decreases self.data.len() - self.pos,
        {
            let ghost s = self.state();
            proof {
                lemma_step_advances(s);
            }
            match self.next_frame_ref() {
                Ok(Some(f)) => {
                    let ghost fv = f@;
                    frames.push(f);
                    assert(frames@.map_values(|f: DecodedFrameRef<'a>| f@) =~= frames@.drop_last().map_values(
                        |f: DecodedFrameRef<'a>| f@,
                    ).push(fv));
                    assert(decode_run(s).0 == seq![fv] + decode_run(self.state()).0);
                    assert(decode_run(old(self).state()).0 =~= frames@.map_values(|f: DecodedFrameRef<'a>| f@)
                        + decode_run(self.state()).0);
                },
                _ => {
                    assert(decode_run(s).0 =~= Seq::<DecodedV>::empty());
                    assert(decode_run(s).1 == self.state());
                    assert(frames@.map_values(|f: DecodedFrameRef<'a>| f@) + Seq::<DecodedV>::empty()
                        =~= frames@.map_values(|f: DecodedFrameRef<'a>| f@));
                    return frames;
                },
            }
        }
    }

    /// Read up to the next event, applying the frames before it. `Ok(None)` at
    /// the end of the stream; `Err` at bytes that do not form a frame or at a
    /// conflicting schema.
    pub fn next_event(&mut self) -> (r: Result<Option<EventRef<'a>>, DecodeError>)
        requires
            old(self).wf(),
        ensures
            final(self).wf(),
            final(self).state() == event_step(old(self).state()).1,
            match r {
                Ok(None) => event_step(old(self).state()).0 is End,
                Ok(Some(ev)) => {
                    &&& event_step(old(self).state()).0 == EventOutcome::Event {
                        type_id: ev.type_id.0,
                        timestamp_ns: ev.timestamp_ns,
                        values: values_ref_view(ev.fields@),
                    }
                    &&& final(self).state().tables.registry.contains_key(ev.type_id.0)
                    &&& ev.name@ == final(self).state().tables.registry[ev.type_id.0].name
                },
                Err(e) => event_step(old(self).state()).0 == EventOutcome::Error(e.pos as nat),
            },
    {
        loop
            invariant
                self.wf(),
                self.data@ == old(self).data@,
                event_step(self.state()) == event_step(old(self).state()),
            decreases self.data.len() - self.pos,
        {
            if self.pos >= self.data.len() {
                return Ok(None);
            }
            match decode_frame_ref(self.data, self.pos, &self.schema_cache) {
                None => {
                    return Err(
                        DecodeError { pos: self.pos, message: "failed to decode frame".to_string() },
                    );
                },
                Some((frame, q)) => {
                    self.pos = q;
                    match frame {
                        FrameRef::Header(v) => {
                            self.reset_tables(v);
                        },
                        FrameRef::TimestampReset(ts) => {
                            self.timestamp_base_ns = ts;
                        },
                        FrameRef::Schema { type_id, entry } => {
                            match self.register_schema(type_id, entry) {
                                Ok(()) => {},
                                Err(message) => {
                                    return Err(DecodeError { pos: self.pos, message });
                                },
                            }
                        },
                        FrameRef::StringPool(entries) => {
                            self.add_pool_entries_ref(entries.as_slice());
                        },
                        FrameRef::SymbolTable(_) => {},
                        FrameRef::Event { type_id, delta, values } => {
                            let timestamp_ns = match delta {
                                Some(d) => {
                                    let t = self.timestamp_base_ns.wrapping_add(d as u64);
                                    self.timestamp_base_ns = t;
                                    Some(t)
                                },
                                None => None,
                            };
                            let name = match self.registry.get(type_id) {
                                Some(e) => e.name.clone(),
                                None => {
                                    proof {
                                        assert(false);
                                    }
                                    String::new()
                                },
                            };
                            return Ok(Some(EventRef { type_id, name, timestamp_ns, fields: values }));
                        },
                    }
                },
            }
        }
    }

    /// Hand every remaining event to `f`, in order, applying the other frames.
    /// `Err` when the stream is malformed; the events before the error have
    /// been handed out.
    pub fn for_each_event<F: FnMut(EventRef<'a>)>(&mut self, f: F) -> (r: Result<
        (),
        DecodeError,
    >)
        requires
            old(self).wf(),
            forall|g: F, e: EventRef<'a>| call_requires(g, (e,)),
        ensures
            final(self).wf(),
            final(self).state() == event_run(old(self).state()).2,
            r is Ok <==> event_run(old(self).state()).1 is None,
            r matches Err(e) ==> event_run(old(self).state()).1 == Some(e.pos as nat),
            handed_each(f, named_run(old(self).state()), ()),
    {
        let ghost f0 = f;
        let ghost e0 = named_run(old(self).state());
        let mut g = f;
        let ghost mut done: Seq<(EventOutcome, Seq<char>)> = Seq::empty();
        let ghost mut xs: Seq<EventRef<'a>> = Seq::empty();
        proof {
            lemma_handed_list_empty(f0, ());
        }
        loop
            invariant
                self.wf(),
                self.data@ == old(self).data@,
                forall|e: EventRef<'a>| call_requires(f0, (e,)),
                event_run(old(self).state()).1 == event_run(self.state()).1,
                event_run(old(self).state()).2 == event_run(self.state()).2,
                named_run(old(self).state()) == done + named_run(self.state()),
                g == f0,
                f == f0,
                e0 == named_run(old(self).state()),
                handed_list(f0, xs, done, ()),
            decreases self.data.len() - self.pos,
        {
            let ghost s = self.state();
            proof {
                lemma_event_step_advances(s);
            }
            match self.next_event() {
                Ok(Some(ev)) => {
                    let ghost x = ev;
                    proof {
                        lemma_event_run_unfold(done, s);
                    }
                    g(ev);
                    proof {
                        lemma_handed_list_push(f0, xs, done, x, ());
                        done = done.push(named_outcome(x));
                        xs = xs.push(x);
                    }
                },
                Ok(None) => {
                    proof {
                        lemma_event_run_stop(done, s);
                        lemma_handed_all(f0, xs, done, ());
                        assert(done == e0);
                    }
                    return Ok(());
                },
                Err(e) => {
                    proof {
                        lemma_event_run_stop(done, s);
                        lemma_handed_all(f0, xs, done, ());
                        assert(done == e0);
                    }
                    return Err(e);
                },
            }
        }
    }

    /// Like [`Decoder::for_each_event`], but `f` may stop the iteration by
    /// returning an error, which is passed on.
    #[verifier::spinoff_prover]
    pub fn try_for_each_event<E, F: FnMut(EventRef<'a>) -> Result<(), E>>(&mut self, f: F) -> (r:
        Result<(), ForEachError<E>>)
        requires
            old(self).wf(),
            forall|g: F, e: EventRef<'a>| call_requires(g, (e,)),
        ensures
            final(self).wf(),
            final(self).state().data == old(self).state().data,
            r is Ok ==> event_run(old(self).state()).1 is None && final(self).state() == event_run(
                old(self).state(),
            ).2,
            r matches Err(ForEachError::Decode(e)) ==> event_run(old(self).state()).1 == Some(
                e.pos as nat,
            ) && final(self).state() == event_run(old(self).state()).2,
            !(r matches Err(ForEachError::Callback(_))) ==> handed_each(
                f,
                named_run(old(self).state()),
                Ok::<(), E>(()),
            ),
            r matches Err(ForEachError::Callback(e)) ==> stopped_by(f, named_run(old(self).state()), e),
    {
        let ghost f0 = f;
        let ghost e0 = named_run(old(self).state());
        let mut g = f;
        let ghost mut done: Seq<(EventOutcome, Seq<char>)> = Seq::empty();
        let ghost mut xs: Seq<EventRef<'a>> = Seq::empty();
        proof {
            lemma_handed_list_empty(f0, Ok::<(), E>(()));
        }
        loop
            invariant
                self.wf(),
                self.data@ == old(self).data@,
                forall|e: EventRef<'a>| call_requires(f0, (e,)),
                event_run(old(self).state()).1 == event_run(self.state()).1,
                event_run(old(self).state()).2 == event_run(self.state()).2,
                named_run(old(self).state()) == done + named_run(self.state()),
                g == f0,
                f == f0,
                e0 == named_run(old(self).state()),
                handed_list(f0, xs, done, Ok::<(), E>(())),
            decreases self.data.len() - self.pos,
        {
            let ghost s = self.state();
            proof {
                lemma_event_step_advances(s);
            }
            match self.next_event() {
                Ok(Some(ev)) => {
                    let ghost x = ev;
                    proof {
                        lemma_event_run_unfold(done, s);
                    }
                    let res = g(ev);
                    match res {
                        Ok(u) => {
                            proof {
                                assert(u == ());
                                assert(res == Ok::<(), E>(()));
                                lemma_handed_list_push(f0, xs, done, x, Ok::<(), E>(()));
                                done = done.push(named_outcome(x));
                                xs = xs.push(x);
                            }
                        },
                        Err(e) => {
                            proof {
                                assert(res == Err::<(), E>(e));
                                lemma_handed_all(f0, xs, done, Ok::<(), E>(()));
                                let k = done.len() as int;
                                assert(e0 == done.push(named_outcome(x)) + named_run(self.state()));
                                assert(e0.take(k) =~= done);
                                assert(e0[k] == named_outcome(x));
                                assert(handed(f0, e0[k], Err::<(), E>(e)));
                                assert(0 <= k < e0.len());
                                assert(handed_each(f, named_run(old(self).state()).take(k), Ok::<(), E>(())));
                                assert(handed(f, named_run(old(self).state())[k], Err::<(), E>(e)));
                                assert(stopped_by(f, named_run(old(self).state()), e));
                            }
                            return Err(ForEachError::Callback(e));
                        },
                    }
                },
                Ok(None) => {
                    proof {
                        lemma_event_run_stop(done, s);
                        lemma_handed_all(f0, xs, done, Ok::<(), E>(()));
                        assert(done == e0);
                    }
                    return Ok(());
                },
                Err(e) => {
                    proof {
                        lemma_event_run_stop(done, s);
                        lemma_handed_all(f0, xs, done, Ok::<(), E>(()));
                        assert(done == e0);
                    }
                    return Err(ForEachError::Decode(e));
                },
            }
        }
    }
}

} // verus!
