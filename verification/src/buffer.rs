//! The per-thread event buffer: events are encoded straight into an
//! [`Encoder`] and handed out as a batch of trace bytes once the batch is
//! large enough.

use crate::encoder::{
    key_lookup, lemma_frames_bytes_nonempty, lemma_key_registered, lemma_registered_after, logical,
    register_spec, event_frames, fresh_encoder, EncodeError, Encoder, EncoderV,
};
use crate::codec::{spec_header_bytes, HEADER_SIZE, VERSION};
use crate::growth::{
    events_in, events_of, grows, lemma_grows_refl, lemma_grows_trans, lemma_intern_grows,
    lemma_register_grows,
};
use crate::schema::SchemaV;
use crate::events::{
    kind_schema, kind_schema_entry, lemma_raw_values_typed, raw_kind, raw_pooled_string,
    raw_timestamp, raw_values, EventKind, RawEvent,
};
use crate::stream::DecodedV;
use crate::codec::FrameV;
use vstd::utf8::encode_utf8;
use crate::types::{values_view, InternedString, PoolEntryV};
use std::any::TypeId;
use vstd::prelude::*;

verus! {

/// Default encoded batch size at which a buffer asks to be flushed (~1 MB).
pub const DEFAULT_BATCH_SIZE: usize = 1023 * 1024;

/// A flushed batch: a self-contained trace and the number of events in it.
#[derive(Debug)]
pub struct Batch {
    pub encoded_bytes: Vec<u8>,
    pub event_count: u64,
}

struct PollStartKey;
struct PollEndKey;
struct WorkerParkKey;
struct WorkerUnparkKey;
struct QueueSampleKey;
struct TaskSpawnKey;
struct TaskTerminateKey;
struct WakeEventKey;
struct CpuSampleKey;

/// The position of an event kind in the table of [`kind_keys`].
pub open spec fn kind_index(k: EventKind) -> int {
    match k {
        EventKind::PollStart => 0,
        EventKind::PollEnd => 1,
        EventKind::WorkerPark => 2,
        EventKind::WorkerUnpark => 3,
        EventKind::QueueSample => 4,
        EventKind::TaskSpawn => 5,
        EventKind::TaskTerminate => 6,
        EventKind::WakeEvent => 7,
        EventKind::CpuSample => 8,
    }
}

/// A table of nine pairwise distinct type keys, one per event kind.
pub open spec fn distinct_kind_keys(table: Seq<TypeId>) -> bool {
    &&& table.len() == 9
    &&& forall|i: int, j: int| 0 <= i < j < 9 ==> table[i] != table[j]
}

/// The type keys of the event kinds, in the order of [`kind_index`].
///
/// Calls `std::any::TypeId::of` on each kind's marker type. The standard
/// library documents a `TypeId` as a globally unique identifier of its
/// type; the marker types differ, so the nine keys differ.
#[verifier::external_body]
fn kind_keys() -> (r: Vec<TypeId>)
    ensures
        distinct_kind_keys(r@),
{
    vec![
        TypeId::of::<PollStartKey>(),
        TypeId::of::<PollEndKey>(),
        TypeId::of::<WorkerParkKey>(),
        TypeId::of::<WorkerUnparkKey>(),
        TypeId::of::<QueueSampleKey>(),
        TypeId::of::<TaskSpawnKey>(),
        TypeId::of::<TaskTerminateKey>(),
        TypeId::of::<WakeEventKey>(),
        TypeId::of::<CpuSampleKey>(),
    ]
}

/// The type key under which the schema of an event kind is registered: its
/// entry in the table of [`kind_keys`].
fn kind_key(keys: &Vec<TypeId>, k: EventKind) -> (r: TypeId)
    requires
        keys@.len() == 9,
    ensures
        r == keys@[kind_index(k)],
{
    match k {
        EventKind::PollStart => keys[0],
        EventKind::PollEnd => keys[1],
        EventKind::WorkerPark => keys[2],
        EventKind::WorkerUnpark => keys[3],
        EventKind::QueueSample => keys[4],
        EventKind::TaskSpawn => keys[5],
        EventKind::TaskTerminate => keys[6],
        EventKind::WakeEvent => keys[7],
        EventKind::CpuSample => keys[8],
    }
}

/// Each of `keys` is the key in `table` of an event kind, under that kind's
/// schema in `registry`, and every schema was registered under a key.
pub open spec fn kinds_registered(
    keys: Seq<(TypeId, u16)>,
    registry: Map<u16, SchemaV>,
    table: Seq<TypeId>,
) -> bool {
    &&& registry.len() == keys.len()
    &&& forall|i: int|
        #![trigger keys[i]]
        0 <= i < keys.len() ==> exists|k: EventKind|
            #![trigger kind_index(k)]
            keys[i].0 == table[kind_index(k)] && registry[keys[i].1] == kind_schema(k)
}

/// The type keys registered in `e` are those of event kinds in `table`.
pub open spec fn keys_for_kinds(e: EncoderV, table: Seq<TypeId>) -> bool {
    kinds_registered(e.keys, e.registry, table)
}

/// Event kinds with the same position are the same.
proof fn lemma_kind_index(a: EventKind, b: EventKind)
    ensures
        0 <= kind_index(a) < 9,
        kind_index(a) == kind_index(b) ==> a == b,
{
}

/// At most one type key per event kind is registered.
proof fn lemma_kinds_bound(e: EncoderV, table: Seq<TypeId>)
    requires
        crate::encoder::encoder_inv(e),
        distinct_kind_keys(table),
        keys_for_kinds(e, table),
    ensures
        e.keys.len() <= 9,
{
    let idx = Seq::new(
        e.keys.len(),
        |i: int|
            kind_index(
                choose|k: EventKind|
                    #![trigger kind_index(k)]
                    e.keys[i].0 == table[kind_index(k)] && e.registry[e.keys[i].1] == kind_schema(k),
            ),
    );
    assert forall|i: int, j: int| 0 <= i < idx.len() && 0 <= j < idx.len() && i != j implies idx[i]
        != idx[j] by {
        let ki = choose|k: EventKind|
            #![trigger kind_index(k)]
            e.keys[i].0 == table[kind_index(k)] && e.registry[e.keys[i].1] == kind_schema(k);
        let kj = choose|k: EventKind|
            #![trigger kind_index(k)]
            e.keys[j].0 == table[kind_index(k)] && e.registry[e.keys[j].1] == kind_schema(k);
        assert(exists|k: EventKind|
            #![trigger kind_index(k)]
            e.keys[i].0 == table[kind_index(k)] && e.registry[e.keys[i].1] == kind_schema(k));
        assert(exists|k: EventKind|
            #![trigger kind_index(k)]
            e.keys[j].0 == table[kind_index(k)] && e.registry[e.keys[j].1] == kind_schema(k));
        if i < j {
            assert(e.keys[i].0 != e.keys[j].0);
        } else {
            assert(e.keys[j].0 != e.keys[i].0);
        }
    }
    assert(idx.no_duplicates());
    idx.unique_seq_to_set();
    vstd::set_lib::lemma_int_range(0, 9);
    assert forall|x: int| idx.to_set().contains(x) implies vstd::set_lib::set_int_range(0, 9).contains(x) by {
        let i = choose|i: int| 0 <= i < idx.len() && idx[i] == x;
        let ki = choose|k: EventKind|
            #![trigger kind_index(k)]
            e.keys[i].0 == table[kind_index(k)] && e.registry[e.keys[i].1] == kind_schema(k);
        lemma_kind_index(ki, ki);
    }
    vstd::set_lib::lemma_len_subset(idx.to_set(), vstd::set_lib::set_int_range(0, 9));
}

/// Registering the schema of `kind` under its key from `table` succeeds and
/// keeps every registered key the key of its kind.
proof fn lemma_kinds_register(
    o: EncoderV,
    table: Seq<TypeId>,
    kind: EventKind,
    r: Result<crate::types::WireTypeId, EncodeError>,
    n: EncoderV,
)
    requires
        crate::encoder::encoder_inv(o),
        distinct_kind_keys(table),
        keys_for_kinds(o, table),
        register_spec(o, table[kind_index(kind)], kind_schema(kind), r, n),
    ensures
        r is Ok,
        keys_for_kinds(n, table),
{
    let key = table[kind_index(kind)];
    lemma_kind_index(kind, kind);
    if key_lookup(o.keys, key) is Some {
        lemma_key_registered(o, key);
        let id = key_lookup(o.keys, key).unwrap();
        let i = choose|i: int| 0 <= i < o.keys.len() && #[trigger] o.keys[i] == (key, id);
        let k2 = choose|k: EventKind|
            #![trigger kind_index(k)]
            o.keys[i].0 == table[kind_index(k)] && o.registry[o.keys[i].1] == kind_schema(k);
        lemma_kind_index(k2, kind);
        assert(kind_index(k2) == kind_index(kind));
    } else {
        lemma_kinds_bound(o, table);
        let id = o.registry.len() as u16;
        assert(!o.registry.contains_key(id));
        assert(n.registry.len() == n.keys.len());
        assert forall|i: int| #![trigger n.keys[i]] 0 <= i < n.keys.len() implies exists|k: EventKind|
            #![trigger kind_index(k)]
            n.keys[i].0 == table[kind_index(k)] && n.registry[n.keys[i].1] == kind_schema(k) by {
            if i < o.keys.len() {
                assert(n.keys[i] == o.keys[i]);
                assert(o.registry.contains_key(o.keys[i].1));
                let k = choose|k: EventKind|
                    #![trigger kind_index(k)]
                    o.keys[i].0 == table[kind_index(k)] && o.registry[o.keys[i].1] == kind_schema(k);
                assert(n.registry[n.keys[i].1] == kind_schema(k));
            } else {
                assert(n.keys[i] == (key, id));
                assert(n.registry[id] == kind_schema(kind));
            }
        }
    }
}

/// `e` is the event of the recorded event `ev`: under its kind's schema,
/// with its timestamp and values, its pooled string (location or thread
/// name) resolving through `pool`.
pub open spec fn raw_event_ok(e: DecodedV, ev: RawEvent, reg: Map<u16, SchemaV>, pool: Seq<Seq<char>>) -> bool {
    match e {
        DecodedV::Event { type_id, timestamp_ns, values } => {
            &&& reg.contains_key(type_id)
            &&& reg[type_id] == kind_schema(raw_kind(ev))
            &&& timestamp_ns == Some(raw_timestamp(ev))
            &&& exists|sid: u32|
                #![trigger raw_values(ev, sid)]
                values == raw_values(ev, sid) && (raw_pooled_string(ev) matches Some(s) ==> sid
                    < pool.len() && pool[sid as int] == s)
        },
        _ => false,
    }
}

/// The events of `e`'s output are those of `recorded`, in order.
pub open spec fn batch_holds(e: EncoderV, recorded: Seq<RawEvent>) -> bool {
    &&& events_of(e).len() == recorded.len()
    &&& forall|k: int|
        0 <= k < recorded.len() ==> raw_event_ok(#[trigger] events_of(e)[k], recorded[k], e.registry, e.pool)
}

/// The pooled string of `ev` is new to the string pool of `e`, and the pool
/// has no id left for it.
pub open spec fn pool_full_for(e: EncoderV, ev: RawEvent) -> bool {
    raw_pooled_string(ev) matches Some(s) && !e.pool.contains(s) && e.pool.len() > u32::MAX
}

/// An event stays the event of its record as the encoder grows.
proof fn lemma_raw_ok_grows(x: DecodedV, ev: RawEvent, a: EncoderV, b: EncoderV)
    requires
        grows(a, b),
        raw_event_ok(x, ev, a.registry, a.pool),
    ensures
        raw_event_ok(x, ev, b.registry, b.pool),
{
    if let DecodedV::Event { type_id, timestamp_ns, values } = x {
        let sid = choose|sid: u32|
            #![trigger raw_values(ev, sid)]
            values == raw_values(ev, sid) && (raw_pooled_string(ev) matches Some(s) ==> sid
                < a.pool.len() && a.pool[sid as int] == s);
        if raw_pooled_string(ev) is Some {
            assert(b.pool.take(a.pool.len() as int)[sid as int] == a.pool[sid as int]);
        }
        assert(values == raw_values(ev, sid));
    }
}

/// The pool id of the pooled string of `ev` once interned into `e`: the id
/// it has, or the next one; 0 for an event without a pooled string.
pub open spec fn raw_sid(e: EncoderV, ev: RawEvent) -> u32 {
    match raw_pooled_string(ev) {
        Some(s) => if e.pool.contains(s) {
            (choose|i: int| 0 <= i < e.pool.len() && e.pool[i] == s) as u32
        } else {
            e.pool.len() as u32
        },
        None => 0,
    }
}

/// The string-pool frame that recording `ev` into `e` appends: one for a
/// pooled string not yet interned, else none.
pub open spec fn raw_pool_frames(e: EncoderV, ev: RawEvent) -> Seq<FrameV> {
    match raw_pooled_string(ev) {
        Some(s) => if e.pool.contains(s) {
            Seq::empty()
        } else {
            seq![FrameV::StringPool(seq![PoolEntryV { pool_id: e.pool.len() as u32, data: encode_utf8(s) }])]
        },
        None => Seq::empty(),
    }
}

/// The wire id of the kind of an event recorded into `e`: the one its kind
/// is registered under, else the next one.
pub open spec fn raw_type_id(e: EncoderV, kind_id: Option<u16>) -> u16 {
    match kind_id {
        Some(id) => id,
        None => e.registry.len() as u16,
    }
}

/// The schema frame that recording `ev` into `e` appends: one if its kind is
/// not registered, else none.
pub open spec fn raw_schema_frames(e: EncoderV, kind_id: Option<u16>, ev: RawEvent) -> Seq<FrameV> {
    match kind_id {
        Some(_) => Seq::empty(),
        None => seq![FrameV::Schema { type_id: raw_type_id(e, kind_id), entry: kind_schema(raw_kind(ev)) }],
    }
}

/// The frames that recording `ev` appends to `e`, its kind registered under
/// `kind_id` if at all: a string-pool frame for a pooled string not yet
/// interned, a schema frame if the kind is not registered, then the event
/// (after a timestamp reset when needed) under the kind's wire id.
pub open spec fn raw_event_frames(e: EncoderV, kind_id: Option<u16>, ev: RawEvent) -> Seq<FrameV> {
    raw_pool_frames(e, ev) + raw_schema_frames(e, kind_id, ev) + event_frames(
        e.base,
        raw_type_id(e, kind_id),
        Some(raw_timestamp(ev)),
        raw_values(ev, raw_sid(e, ev)),
    )
}

/// Frames appended in three steps are the frames of recording the event.
proof fn lemma_raw_frames(a: Seq<FrameV>, p: Seq<FrameV>, q: Seq<FrameV>, r: Seq<FrameV>, b: Seq<FrameV>)
    requires
        b == a + p + q + r,
    ensures
        b == a + (p + q + r),
{
    assert(a + p + q + r =~= a + (p + q + r));
}

/// Write the event `ev`: its pooled string is interned, its kind's schema
/// registered on first use, and the event written.
#[verifier::spinoff_prover]
#[verifier::rlimit(80)]
fn encode_raw(enc: &mut Encoder, keys: &Vec<TypeId>, event: &RawEvent) -> (r: Result<(), EncodeError>)
    requires
        old(enc).wf(),
        distinct_kind_keys(keys@),
        keys_for_kinds(old(enc)@, keys@),
    ensures
        final(enc).wf(),
        grows(old(enc)@, final(enc)@),
        r is Ok ==> events_of(final(enc)@).len() == events_of(old(enc)@).len() + 1 && raw_event_ok(
            events_of(final(enc)@).last(),
            *event,
            final(enc)@.registry,
            final(enc)@.pool,
        ),
        r is Ok ==> final(enc)@.bytes.len() > old(enc)@.bytes.len(),
        r is Err ==> events_of(final(enc)@) == events_of(old(enc)@),
        keys_for_kinds(final(enc)@, keys@),
        r matches Err(e) ==> e == EncodeError::PoolFull,
        r is Err <==> pool_full_for(old(enc)@, *event),
        r is Ok ==> final(enc)@.frames == old(enc)@.frames + raw_event_frames(
            old(enc)@,
            key_lookup(old(enc)@.keys, keys@[kind_index(raw_kind(*event))]),
            *event,
        ),
        r is Ok ==> key_lookup(final(enc)@.keys, keys@[kind_index(raw_kind(*event))]) is Some,
{
    let ghost o = enc@;
    let sid = match event.pooled_string() {
        Some(s) => match enc.intern_string(s) {
            Ok(id) => {
                proof {
                    lemma_intern_grows(o, s@, Ok(id), enc@);
                    assert(enc@.registry == o.registry && enc@.keys == o.keys);
                    if o.pool.contains(s@) {
                        let c = choose|i: int| 0 <= i < o.pool.len() && o.pool[i] == s@;
                        assert(o.pool[c] == o.pool[id.0 as int]);
                        assert(c == id.0);
                    }
                    assert(enc@.frames =~= o.frames + raw_pool_frames(o, *event));
                    assert(id.0 == raw_sid(o, *event));
                }
                id
            },
            Err(e) => {
                proof {
                    lemma_intern_grows(o, s@, Err(e), enc@);
                }
                return Err(e);
            },
        },
        None => {
            proof {
                lemma_grows_refl(o);
                assert(enc@.frames =~= o.frames + raw_pool_frames(o, *event));
            }
            InternedString(0)
        },
    };
    let ghost m1 = enc@;
    let kind = event.kind();
    let key = kind_key(keys, kind);
    let entry = kind_schema_entry(kind);
    let id = match enc.register_with_key(key, entry) {
        Ok(id) => id,
        Err(e) => {
            proof {
                lemma_kinds_register(m1, keys@, kind, Err(e), enc@);
                lemma_register_grows(m1, key, entry@, Err(e), enc@);
                lemma_grows_trans(o, m1, enc@);
            }
            return Err(e);
        },
    };
    let ghost m2 = enc@;
    proof {
        lemma_kinds_register(m1, keys@, kind, Ok(id), m2);
        lemma_register_grows(m1, key, entry@, Ok(id), m2);
        lemma_grows_trans(o, m1, m2);
        lemma_registered_after(m1, key, entry@, id, m2);
        lemma_raw_values_typed(*event, sid.0);
        if raw_pooled_string(*event) is Some {
            assert(m2.pool.take(m1.pool.len() as int)[sid.0 as int] == m1.pool[sid.0 as int]);
        }
    }
    let values = event.field_values(sid);
    let ts = event.timestamp_nanos();
    let r = enc.write_event_with_id(id, Some(ts), values.as_slice());
    proof {
        let n = enc@;
        assert(r is Ok);
        let fs = event_frames(m2.base, id.0, Some(ts), values_view(values@));
        lemma_frames_bytes_nonempty(fs);
        let ev = DecodedV::Event { type_id: id.0, timestamp_ns: Some(ts), values: raw_values(*event, sid.0) };
        assert(logical(n.frames) == logical(m2.frames).push(ev));
        assert(logical(n.frames).drop_last() =~= logical(m2.frames));
        assert(events_of(n) == events_of(m2).push(ev));
        assert(events_of(n).take(events_of(m2).len() as int) =~= events_of(m2));
        assert(n.pool =~= m2.pool);
        assert(n.registry == m2.registry && n.keys == m2.keys);
        assert(n.pool.take(m2.pool.len() as int) =~= m2.pool);
        crate::growth::lemma_appended(m2, n, fs, crate::encoder::spec_frames_bytes(fs));
        lemma_grows_trans(o, m2, n);
        assert(raw_event_ok(ev, *event, n.registry, n.pool));
        let kid = key_lookup(o.keys, key);
        if kid is Some {
            assert(m2.frames =~= m1.frames + raw_schema_frames(o, kid, *event));
        } else {
            assert(m2.frames =~= m1.frames + raw_schema_frames(o, kid, *event));
        }
        assert(id.0 == raw_type_id(o, kid));
        assert(n.frames == m2.frames + fs);
        lemma_raw_frames(o.frames, raw_pool_frames(o, *event), raw_schema_frames(o, kid, *event), fs, n.frames);
    }
    r
}

/// The contents of a buffer: the encoder, the events recorded since the
/// last flush (`event_count` of them) and the batch size.
pub struct BufferV {
    pub encoder: EncoderV,
    pub recorded: Seq<RawEvent>,
    pub event_count: nat,
    pub batch_size: nat,
}

/// Encodes events into a batch until it reaches the batch size.
pub struct ThreadLocalBuffer {
    encoder: Encoder,
    kind_keys: Vec<TypeId>,
    recorded: Ghost<Seq<RawEvent>>,
    event_count: usize,
    batch_size: usize,
}

impl View for ThreadLocalBuffer {
    type V = BufferV;

    closed spec fn view(&self) -> BufferV {
        BufferV {
            encoder: self.encoder@,
            recorded: self.recorded@,
            event_count: self.event_count as nat,
            batch_size: self.batch_size as nat,
        }
    }
}

/// A buffer holding only the header of a fresh batch.
pub open spec fn fresh_buffer(batch_size: nat) -> BufferV {
    BufferV {
        encoder: fresh_encoder(spec_header_bytes(VERSION)),
        recorded: Seq::empty(),
        event_count: 0,
        batch_size,
    }
}

impl ThreadLocalBuffer {
    /// The buffer's invariant: the encoder's; the batch holds exactly the
    /// recorded events, counted by `event_count`; no more events than bytes.
    pub closed spec fn wf(&self) -> bool {
        &&& self.encoder.wf()
        &&& self.encoder@.start == spec_header_bytes(VERSION)
        &&& batch_holds(self.encoder@, self.recorded@)
        &&& self.event_count == self.recorded@.len()
        &&& self.event_count <= self.encoder@.bytes.len()
        &&& distinct_kind_keys(self.kind_keys@)
        &&& keys_for_kinds(self.encoder@, self.kind_keys@)
    }

    /// The wire id under which the current batch registered the schema of
    /// `kind`, if it did.
    pub closed spec fn kind_id(&self, kind: EventKind) -> Option<u16> {
        key_lookup(self.encoder@.keys, self.kind_keys@[kind_index(kind)])
    }

    /// A buffer with the default batch size.
    pub fn new() -> (r: Self)
        ensures
            r.wf(),
            r@ == fresh_buffer(DEFAULT_BATCH_SIZE as nat),
    {
        Self::with_batch_size(DEFAULT_BATCH_SIZE)
    }

    /// An empty buffer (holding only the trace header) that asks to be
    /// flushed once `batch_size` bytes are encoded after the header.
    pub fn with_batch_size(batch_size: usize) -> (r: Self)
        ensures
            r.wf(),
            r@ == fresh_buffer(batch_size as nat),
            forall|k: EventKind| #[trigger] r.kind_id(k) is None,
    {
        let r = ThreadLocalBuffer {
            encoder: Encoder::new(),
            kind_keys: kind_keys(),
            recorded: Ghost(Seq::empty()),
            event_count: 0,
            batch_size,
        };
        proof {
            assert(r.encoder@.frames =~= Seq::<crate::codec::FrameV>::empty());
        }
        r
    }

    /// Number of events recorded since the last flush.
    pub fn event_count(&self) -> (r: usize)
        ensures
            r == self@.event_count,
    {
        self.event_count
    }

    /// The batch size.
    pub fn batch_size(&self) -> (r: usize)
        ensures
            r == self@.batch_size,
    {
        self.batch_size
    }

    /// Number of bytes encoded in the current batch after its header.
    pub fn bytes_written(&self) -> (r: u64)
        requires
            self.wf(),
        ensures
            r == self@.encoder.bytes.len() - self@.encoder.start.len(),
    {
        self.encoder.bytes_written()
    }

    /// Intern `location` in the batch's string pool.
    pub fn intern_location(&mut self, location: &str) -> (r: Result<InternedString, EncodeError>)
        requires
            old(self).wf(),
        ensures
            final(self).wf(),
            crate::encoder::intern_spec(old(self)@.encoder, location@, r, final(self)@.encoder),
            final(self)@.recorded == old(self)@.recorded,
            final(self)@.event_count == old(self)@.event_count,
            final(self)@.batch_size == old(self)@.batch_size,
    {
        let ghost o = self.encoder@;
        let r = self.encoder.intern_string(location);
        proof {
            lemma_intern_grows(o, location@, r, self.encoder@);
            assert(self.encoder@.registry == o.registry && self.encoder@.keys == o.keys);
            assert forall|k: int| 0 <= k < self.recorded@.len() implies raw_event_ok(
                #[trigger] events_of(self.encoder@)[k],
                self.recorded@[k],
                self.encoder@.registry,
                self.encoder@.pool,
            ) by {
                lemma_raw_ok_grows(events_of(o)[k], self.recorded@[k], o, self.encoder@);
            }
        }
        r
    }

    /// Encode `event` into the batch (its pooled string interned and its
    /// kind's schema registered on first use) and count it. On an error the
    /// event is not in the batch and not counted.
    pub fn record_event(&mut self, event: &RawEvent) -> (r: Result<(), EncodeError>)
        requires
            old(self).wf(),
        ensures
            final(self).wf(),
            final(self)@.batch_size == old(self)@.batch_size,
            grows(old(self)@.encoder, final(self)@.encoder),
            crate::growth::appends(old(self)@.encoder, final(self)@.encoder),
            r is Ok ==> final(self)@.recorded == old(self)@.recorded.push(*event)
                && final(self)@.event_count == old(self)@.event_count + 1,
            r is Err ==> final(self)@.recorded == old(self)@.recorded
                && final(self)@.event_count == old(self)@.event_count,
            r matches Err(e) ==> e == EncodeError::PoolFull,
            r is Err <==> pool_full_for(old(self)@.encoder, *event),
            r is Ok ==> final(self)@.encoder.frames == old(self)@.encoder.frames + raw_event_frames(
                old(self)@.encoder,
                old(self).kind_id(raw_kind(*event)),
                *event,
            ),
            r is Ok ==> final(self).kind_id(raw_kind(*event)) is Some,
    {
        let ghost o = self.encoder@;
        let ghost rec = self.recorded@;
        let r = encode_raw(&mut self.encoder, &self.kind_keys, event);
        proof {
            crate::growth::lemma_prefix_appends(o, self.encoder@);
            let n = self.encoder@;
            assert forall|k: int| 0 <= k < rec.len() implies raw_event_ok(
                #[trigger] events_of(n)[k],
                rec[k],
                n.registry,
                n.pool,
            ) by {
                assert(events_of(n).take(events_of(o).len() as int)[k] == events_of(o)[k]);
                lemma_raw_ok_grows(events_of(o)[k], rec[k], o, n);
            }
        }
        if r.is_ok() {
            let _len = self.encoder.buffered_len();
            self.event_count = self.event_count + 1;
            self.recorded = Ghost(rec.push(*event));
            proof {
                let n = self.encoder@;
                assert forall|k: int| 0 <= k < rec.len() + 1 implies raw_event_ok(
                    #[trigger] events_of(n)[k],
                    self.recorded@[k],
                    n.registry,
                    n.pool,
                ) by {
                    if k == rec.len() {
                        assert(events_of(n)[k] == events_of(n).last());
                    }
                }
            }
        }
        r
    }

    /// Whether the bytes encoded after the header reach the batch size.
    pub fn should_flush(&self) -> (r: bool)
        requires
            self.wf(),
        ensures
            r == (self@.encoder.bytes.len() - self@.encoder.start.len() >= self@.batch_size),
    {
        self.encoder.bytes_written() >= self.batch_size as u64
    }

    /// Hand out the batch and start a new one (with a fresh header, schemas
    /// and string pool). A reader of the batch is handed exactly the events
    /// recorded since the last flush, in order.
    pub fn flush(&mut self) -> (r: Batch)
        requires
            old(self).wf(),
        ensures
            final(self).wf(),
            r.encoded_bytes@ == old(self)@.encoder.bytes,
            r.event_count == old(self)@.event_count,
            batch_decodes_to(r.encoded_bytes@, old(self)@.recorded),
            final(self)@ == fresh_buffer(old(self)@.batch_size),
            forall|k: EventKind| #[trigger] final(self).kind_id(k) is None,
    {
        proof {
            lemma_batch_decodes(self@.encoder, self@.recorded);
        }
        let event_count = self.event_count as u64;
        let encoded_bytes = self.encoder.reset_to_infallible(Vec::new());
        assert(Seq::<u8>::empty() + spec_header_bytes(VERSION) =~= spec_header_bytes(VERSION));
        self.event_count = 0;
        self.recorded = Ghost(Seq::empty());
        proof {
            assert(self.encoder@.frames =~= Seq::<crate::codec::FrameV>::empty());
        }
        Batch { encoded_bytes, event_count }
    }
}

impl Default for ThreadLocalBuffer {
    fn default() -> (r: Self)
        ensures
            r.wf(),
            r@ == fresh_buffer(DEFAULT_BATCH_SIZE as nat),
    {
        Self::new()
    }
}

/// A decoder over `bytes` (after the header) hands out, among its items,
/// exactly the events of `recorded`, in order: each under its kind's schema,
/// with its timestamp and values, its pooled string resolving through the
/// string pool the batch announces.
pub open spec fn batch_decodes_to(bytes: Seq<u8>, recorded: Seq<RawEvent>) -> bool {
    exists|e: EncoderV|
        {
            &&& crate::encoder::encoder_inv(e)
            &&& e.bytes == bytes
            &&& e.start == spec_header_bytes(VERSION)
            &&& crate::codec::spec_decode_header(bytes) == Some(VERSION)
            &&& {
                let evs = events_in(
                    crate::stream::decode_run(
                        crate::stream::fresh_state(bytes, HEADER_SIZE as nat, VERSION),
                    ).0,
                );
                &&& evs.len() == recorded.len()
                &&& forall|k: int|
                    0 <= k < recorded.len() ==> raw_event_ok(#[trigger] evs[k], recorded[k], e.registry, e.pool)
            }
        }
}

/// Round trip of a batch: what a buffer recorded is what a reader of its
/// bytes gets back.
pub proof fn lemma_batch_decodes(e: EncoderV, recorded: Seq<RawEvent>)
    requires
        crate::encoder::encoder_inv(e),
        e.start == spec_header_bytes(VERSION),
        batch_holds(e, recorded),
    ensures
        batch_decodes_to(e.bytes, recorded),
{
    crate::encoder::lemma_trace_round_trip(e);
    assert(events_in(
        crate::stream::decode_run(crate::stream::fresh_state(e.bytes, HEADER_SIZE as nat, VERSION)).0,
    ) == events_of(e));
}

} // verus!
