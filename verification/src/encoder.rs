//! High-level encoder: registers schemas, interns strings, and writes events
//! with delta-encoded timestamps into an in-memory buffer.

use crate::codec::{
    encode_event_header, encode_header, encode_schema, encode_string_pool, encode_symbol_table,
    encode_timestamp_reset, encode_values, pool_entries_view, spec_frame_bytes,
    spec_header_bytes, FrameV, MAX_TIMESTAMP_DELTA, VERSION,
};
use crate::schema::{fields_view, FieldDef, SchemaEntry, SchemaRegistry, SchemaV};
use crate::stream::{
    apply_frame, decoded_of, empty_tables, is_silent, shape_of, DecodedV, Tables,
};
use crate::types::{
    values_view, FieldType, FieldVal, FieldValue, InternedString, PoolEntry, PoolEntryV,
    SymbolEntry, WireTypeId,
};
use std::any::TypeId;
use vstd::prelude::*;
use vstd::utf8::encode_utf8;

verus! {

#[verifier::external_type_specification]
#[verifier::external_body]
pub struct ExTypeId(TypeId);

/// The identifier of the type `T`.
///
/// Calls `std::any::TypeId::of`; nothing is claimed of its result.
#[verifier::external_body]
pub(crate) fn type_key<T: ?Sized + 'static>() -> (r: TypeId) {
    TypeId::of::<T>()
}

/// Whether two type identifiers are equal.
///
/// Calls `TypeId`'s `==`, which compares the identifiers by value; the
/// contract claims that it agrees with equality of the two values.
#[verifier::external_body]
fn same_key(a: &TypeId, b: &TypeId) -> (r: bool)
    ensures
        r == (*a == *b),
{
    a == b
}

/// An event type that the encoder can write: a schema, and per value an
/// optional timestamp and the field values in schema order.
pub trait TraceEvent {
    /// Name of the event's schema.
    fn event_name() -> &'static str;

    /// The event's schema.
    fn schema_entry() -> SchemaEntry;

    /// The event's timestamp, for schemas that have one.
    fn timestamp(&self) -> Option<u64>;

    /// The values of the schema's fields, in order.
    fn field_values(&self) -> Vec<FieldValue>;
}

/// Why the encoder refused a request.
#[derive(Debug, Clone, Copy, PartialEq, Eq, Structural)]
pub enum EncodeError {
    /// The type was registered before with a different schema.
    SchemaConflict,
    /// No schema was registered for the type.
    NotRegistered,
    /// The event's timestamp does not match the schema's timestamp flag (a
    /// schema with a timestamp needs a `Varint` first value or a timestamp).
    TimestampMismatch,
    /// The values do not match the schema's field types.
    FieldMismatch,
    /// All 65536 wire type ids are taken.
    RegistryFull,
    /// All 2^32 pool ids are taken.
    PoolFull,
}

/// The bytes of a sequence of frames, one after the other.
pub open spec fn spec_frames_bytes(fs: Seq<FrameV>) -> Seq<u8>
    decreases fs.len(),
{
    if fs.len() == 0 {
        Seq::empty()
    } else {
        spec_frames_bytes(fs.drop_last()) + spec_frame_bytes(fs.last())
    }
}

/// What a reader learns from `fs`, starting with nothing.
pub open spec fn replay(fs: Seq<FrameV>) -> Tables
    decreases fs.len(),
{
    if fs.len() == 0 {
        empty_tables(VERSION)
    } else {
        apply_frame(replay(fs.drop_last()), fs.last())
    }
}

/// What a reader hands out for `fs`.
pub open spec fn logical(fs: Seq<FrameV>) -> Seq<DecodedV>
    decreases fs.len(),
{
    if fs.len() == 0 {
        Seq::empty()
    } else if is_silent(fs.last()) {
        logical(fs.drop_last())
    } else {
        logical(fs.drop_last()).push(decoded_of(replay(fs.drop_last()), fs.last()))
    }
}

/// Frame `f` can follow a stream whose reader state is `t`: it is readable,
/// it is no header, and a schema takes a fresh type id.
pub open spec fn frame_fits(t: Tables, f: FrameV) -> bool {
    &&& crate::roundtrip::frame_wf(f, t.cache)
    &&& !(f is Header)
    &&& (f matches FrameV::Schema { type_id, entry } ==> !t.registry.contains_key(type_id))
}

/// Every frame fits the state left by the frames before it.
pub open spec fn frames_ok(fs: Seq<FrameV>) -> bool {
    forall|k: int| 0 <= k < fs.len() ==> frame_fits(replay(fs.take(k)), #[trigger] fs[k])
}

/// Field types of the schemas of a registry.
pub open spec fn shapes_of(r: Map<u16, SchemaV>) -> Map<u16, crate::codec::Shape> {
    r.map_values(|s: SchemaV| shape_of(s))
}

/// The first wire id registered under `key`.
pub open spec fn key_lookup(keys: Seq<(TypeId, u16)>, key: TypeId) -> Option<u16>
    decreases keys.len(),
{
    if keys.len() == 0 {
        None
    } else if keys[0].0 == key {
        Some(keys[0].1)
    } else {
        key_lookup(keys.drop_first(), key)
    }
}

/// The frames that writing an event emits: a timestamp reset first when the
/// timestamp is before the base or too far after it.
pub open spec fn event_frames(base: u64, type_id: u16, ts: Option<u64>, values: Seq<FieldVal>) -> Seq<
    FrameV,
> {
    match ts {
        None => seq![FrameV::Event { type_id, delta: None, values }],
        Some(t) => if t >= base && t - base <= MAX_TIMESTAMP_DELTA {
            seq![FrameV::Event { type_id, delta: Some((t - base) as u32), values }]
        } else {
            seq![
                FrameV::TimestampReset(t),
                FrameV::Event { type_id, delta: Some(0), values },
            ]
        },
    }
}

/// The mathematical state of an encoder.
pub struct EncoderV {
    /// Everything in the output buffer.
    pub bytes: Seq<u8>,
    /// What stood in the buffer before the first frame (header included).
    pub start: Seq<u8>,
    /// The length of `start`.
    pub start_len: nat,
    /// Frames written since the header.
    pub frames: Seq<FrameV>,
    pub registry: Map<u16, SchemaV>,
    /// Type keys and the wire ids registered for them.
    pub keys: Seq<(TypeId, u16)>,
    /// Interned strings, indexed by pool id.
    pub pool: Seq<Seq<char>>,
    /// Timestamp base for the next event.
    pub base: u64,
}

/// Encoder that writes the trace format into a `Vec<u8>`.
pub struct Encoder {
    writer: Vec<u8>,
    registry: SchemaRegistry,
    string_pool: Vec<String>,
    type_ids: Vec<(TypeId, WireTypeId)>,
    timestamp_base_ns: u64,
    start_len: usize,
    start: Ghost<Seq<u8>>,
    frames: Ghost<Seq<FrameV>>,
}

pub open spec fn pool_strings(p: Seq<String>) -> Seq<Seq<char>> {
    p.map_values(|s: String| s@)
}

pub open spec fn keys_view(k: Seq<(TypeId, WireTypeId)>) -> Seq<(TypeId, u16)> {
    k.map_values(|e: (TypeId, WireTypeId)| (e.0, e.1.0))
}

impl View for Encoder {
    type V = EncoderV;

    closed spec fn view(&self) -> EncoderV {
        EncoderV {
            bytes: self.writer@,
            start: self.start@,
            start_len: self.start_len as nat,
            frames: self.frames@,
            registry: self.registry@,
            keys: keys_view(self.type_ids@),
            pool: pool_strings(self.string_pool@),
            base: self.timestamp_base_ns,
        }
    }
}

/// The state of an encoder whose buffer holds `start` and no frame.
pub open spec fn fresh_encoder(start: Seq<u8>) -> EncoderV {
    EncoderV {
        bytes: start,
        start,
        start_len: start.len(),
        frames: Seq::empty(),
        registry: Map::empty(),
        keys: Seq::empty(),
        pool: Seq::empty(),
        base: 0,
    }
}

/// The encoder's invariant: the buffer holds the start and the frames;
/// registry and timestamp base are what a reader of the frames learns; every
/// frame fits; wire ids are `0..n`; keys and pooled strings are distinct.
pub open spec fn encoder_inv(v: EncoderV) -> bool {
    &&& v.bytes == v.start + spec_frames_bytes(v.frames)
    &&& v.start_len == v.start.len()
    &&& frames_ok(v.frames)
    &&& replay(v.frames).registry == v.registry
    &&& replay(v.frames).cache == shapes_of(v.registry)
    &&& replay(v.frames).base == v.base
    &&& forall|id: u16| v.registry.contains_key(id) <==> (id as int) < v.registry.len()
    &&& v.registry.dom().finite()
    &&& v.registry.len() <= 65536
    &&& forall|i: int| 0 <= i < v.keys.len() ==> v.registry.contains_key(#[trigger] v.keys[i].1)
    &&& forall|i: int, j: int|
        0 <= i < j < v.keys.len() ==> #[trigger] v.keys[i].0 != #[trigger] v.keys[j].0
    &&& v.pool.len() <= u32::MAX + 1
    &&& forall|i: int, j: int|
        0 <= i < j < v.pool.len() ==> #[trigger] v.pool[i] != #[trigger] v.pool[j]
}

/// The frames that writing `event` appends, its type registered under
/// `key` if at all: the event frame(s) of a timestamp and values that the
/// type's methods return, under the key's wire id; before them, when the
/// key is not registered, the schema frame of an entry that the type's
/// `schema_entry` returns, under the next wire id.
pub open spec fn trait_write_frames<T: TraceEvent>(o: EncoderV, key: TypeId, event: &T, frames: Seq<FrameV>) -> bool {
    exists|ts: Option<u64>, values: Vec<FieldValue>|
        #![trigger call_ensures(T::timestamp, (event,), ts), call_ensures(T::field_values, (event,), values)]
        {
            &&& call_ensures(T::timestamp, (event,), ts)
            &&& call_ensures(T::field_values, (event,), values)
            &&& match key_lookup(o.keys, key) {
                Some(id) => frames == event_frames(o.base, id, ts, values_view(values@)),
                None => exists|entry: SchemaEntry|
                    #[trigger] call_ensures(T::schema_entry, (), entry) && frames == seq![
                        FrameV::Schema { type_id: o.registry.len() as u16, entry: entry@ },
                    ] + event_frames(o.base, o.registry.len() as u16, ts, values_view(values@)),
            }
        }
}

/// The outcome of registering `entry` under `key`.
pub open spec fn register_spec(
    o: EncoderV,
    key: TypeId,
    entry: SchemaV,
    r: Result<WireTypeId, EncodeError>,
    n: EncoderV,
) -> bool {
    match key_lookup(o.keys, key) {
        Some(id) => n == o && r == if o.registry[id] == entry {
            Ok::<WireTypeId, EncodeError>(WireTypeId(id))
        } else {
            Err(EncodeError::SchemaConflict)
        },
        None => if o.registry.len() >= 65536 {
            n == o && r == Err::<WireTypeId, EncodeError>(EncodeError::RegistryFull)
        } else {
            let id = o.registry.len() as u16;
            let f = FrameV::Schema { type_id: id, entry };
            &&& r == Ok::<WireTypeId, EncodeError>(WireTypeId(id))
            &&& n == EncoderV {
                bytes: o.bytes + spec_frame_bytes(f),
                frames: o.frames.push(f),
                registry: o.registry.insert(id, entry),
                keys: o.keys.push((key, id)),
                ..o
            }
        },
    }
}

/// The outcome of interning the string `s`: its existing id, or the next
/// pool id announced with a string-pool frame.
pub open spec fn intern_spec(
    o: EncoderV,
    s: Seq<char>,
    r: Result<InternedString, EncodeError>,
    n: EncoderV,
) -> bool {
    if o.pool.contains(s) {
        n == o && (r matches Ok(id) && id.0 < o.pool.len() && o.pool[id.0 as int] == s)
    } else if o.pool.len() > u32::MAX {
        n == o && r == Err::<InternedString, EncodeError>(EncodeError::PoolFull)
    } else {
        let id = o.pool.len() as u32;
        let f = FrameV::StringPool(seq![PoolEntryV { pool_id: id, data: encode_utf8(s) }]);
        &&& r == Ok::<InternedString, EncodeError>(InternedString(id))
        &&& n == EncoderV {
            bytes: o.bytes + spec_frame_bytes(f),
            frames: o.frames.push(f),
            pool: o.pool.push(s),
            ..o
        }
    }
}

impl Encoder {
    /// The encoder's invariant (see [`encoder_inv`]).
    pub open spec fn wf(&self) -> bool {
        encoder_inv(self@)
    }

    /// What a reader of this encoder's output is handed, in order.
    pub open spec fn written(&self) -> Seq<DecodedV> {
        logical(self@.frames)
    }

    proof fn lemma_fresh_wf(&self)
        requires
            self@ == fresh_encoder(self@.start),
        ensures
            self.wf(),
    {
        assert(replay(Seq::<FrameV>::empty()) == empty_tables(VERSION));
        assert(shapes_of(Map::<u16, SchemaV>::empty()) =~= Map::empty());
        assert(self@.registry.len() == 0);
    }

    fn fresh(writer: Vec<u8>) -> (e: Encoder)
        ensures
            e.wf(),
            e@ == fresh_encoder(writer@),
    {
        let ghost start = writer@;
        let start_len = writer.len();
        let e = Encoder {
            start_len,
            writer,
            registry: SchemaRegistry::new(),
            string_pool: Vec::new(),
            type_ids: Vec::new(),
            timestamp_base_ns: 0,
            start: Ghost(start),
            frames: Ghost(Seq::empty()),
        };
        proof {
            assert(keys_view(e.type_ids@) =~= Seq::empty());
            assert(pool_strings(e.string_pool@) =~= Seq::empty());
            assert(spec_frames_bytes(Seq::<FrameV>::empty()) =~= Seq::<u8>::empty());
            assert(e@.bytes =~= e@.start + spec_frames_bytes(e@.frames));
            assert(e@ == fresh_encoder(start));
            e.lemma_fresh_wf();
        }
        e
    }

    /// An encoder whose buffer holds the file header.
    pub fn new() -> (e: Encoder)
        ensures
            e.wf(),
            e@ == fresh_encoder(spec_header_bytes(VERSION)),
    {
        let mut buf: Vec<u8> = Vec::new();
        encode_header(&mut buf);
        assert(buf@ =~= spec_header_bytes(VERSION));
        Self::fresh(buf)
    }

    /// An encoder that appends to `writer`, starting with the file header.
    pub fn new_to(writer: Vec<u8>) -> (r: Result<Encoder, EncodeError>)
        ensures
            r matches Ok(e) && e.wf() && e@ == fresh_encoder(writer@ + spec_header_bytes(VERSION)),
    {
        let mut w = writer;
        encode_header(&mut w);
        Ok(Self::fresh(w))
    }

    /// The encoded bytes.
    pub fn finish(self) -> (r: Vec<u8>)
        ensures
            r@ == self@.bytes,
    {
        self.writer
    }

    /// The output buffer.
    pub fn into_inner(self) -> (r: Vec<u8>)
        ensures
            r@ == self@.bytes,
    {
        self.writer
    }

    /// Number of bytes written after the header.
    pub fn bytes_written(&self) -> (r: u64)
        requires
            self.wf(),
        ensures
            r == self@.bytes.len() - self@.start.len(),
    {
        (self.writer.len() - self.start_len) as u64
    }

    /// Number of bytes in the output buffer, as a `usize`.
    pub(crate) fn buffered_len(&self) -> (r: usize)
        ensures
            r == self@.bytes.len(),
    {
        self.writer.len()
    }

    /// Nothing is buffered beyond the output `Vec`, so this succeeds and
    /// changes nothing.
    pub fn flush(&mut self) -> (r: Result<(), EncodeError>)
        ensures
            r is Ok,
            final(self)@ == old(self)@,
    {
        Ok(())
    }

    /// Start a new session writing into `writer` (after a fresh header) and
    /// return everything written so far. Schemas, type keys, interned strings
    /// and the timestamp base start over.
    pub fn reset_to_infallible(&mut self, writer: Vec<u8>) -> (r: Vec<u8>)
        requires
            old(self).wf(),
        ensures
            final(self).wf(),
            r@ == old(self)@.bytes,
            final(self)@ == fresh_encoder(writer@ + spec_header_bytes(VERSION)),
    {
        let mut w = writer;
        encode_header(&mut w);
        let mut other = Self::fresh(w);
        std::mem::swap(self, &mut other);
        other.writer
    }

    pub(crate) proof fn lemma_push_frame(fs: Seq<FrameV>, f: FrameV)
        requires
            frames_ok(fs),
            frame_fits(replay(fs), f),
        ensures
            frames_ok(fs.push(f)),
            replay(fs.push(f)) == apply_frame(replay(fs), f),
            spec_frames_bytes(fs.push(f)) == spec_frames_bytes(fs) + spec_frame_bytes(f),
            logical(fs.push(f)) == if is_silent(f) {
                logical(fs)
            } else {
                logical(fs).push(decoded_of(replay(fs), f))
            },
    {
        let g = fs.push(f);
        assert(g.drop_last() =~= fs);
        assert forall|k: int| 0 <= k < g.len() implies frame_fits(replay(g.take(k)), #[trigger] g[k]) by {
            if k < fs.len() {
                assert(g.take(k) =~= fs.take(k));
                assert(g[k] == fs[k]);
            } else {
                assert(g.take(k) =~= fs);
            }
        }
    }

    /// The wire id registered for `key`.
    fn lookup_key(&self, key: &TypeId) -> (r: Option<WireTypeId>)
        ensures
            r matches Some(id) ==> key_lookup(self@.keys, *key) == Some(id.0),
            r is None ==> key_lookup(self@.keys, *key) is None,
    {
        let mut i: usize = 0;
        assert(self@.keys.skip(0) =~= self@.keys);
        while i < self.type_ids.len()
            invariant
                i <= self.type_ids.len(),
                key_lookup(self@.keys, *key) == key_lookup(self@.keys.skip(i as int), *key),
            decreases self.type_ids.len() - i,
        {
            let ghost rest = self@.keys.skip(i as int);
            assert(rest[0] == self@.keys[i as int]);
            if same_key(&self.type_ids[i].0, key) {
                return Some(self.type_ids[i].1);
            }
            assert(rest.drop_first() =~= self@.keys.skip(i + 1));
            i += 1;
        }
        assert(self@.keys.skip(i as int) =~= Seq::<(TypeId, u16)>::empty());
        None
    }

    pub(crate) proof fn lemma_lookup_none(keys: Seq<(TypeId, u16)>, key: TypeId)
        requires
            key_lookup(keys, key) is None,
        ensures
            forall|i: int| 0 <= i < keys.len() ==> (#[trigger] keys[i]).0 != key,
        decreases keys.len(),
    {
        if keys.len() > 0 {
            Self::lemma_lookup_none(keys.drop_first(), key);
            assert forall|i: int| 0 <= i < keys.len() implies (#[trigger] keys[i]).0 != key by {
                if i > 0 {
                    assert(keys[i] == keys.drop_first()[i - 1]);
                }
            }
        }
    }

    proof fn lemma_lookup_some(keys: Seq<(TypeId, u16)>, key: TypeId)
        requires
            key_lookup(keys, key) is Some,
        ensures
            exists|i: int| 0 <= i < keys.len() && #[trigger] keys[i] == (key, key_lookup(keys, key).unwrap()),
        decreases keys.len(),
    {
        if keys[0].0 != key {
            Self::lemma_lookup_some(keys.drop_first(), key);
            let i = choose|i: int| 0 <= i < keys.drop_first().len() && #[trigger] keys.drop_first()[i] == (key, key_lookup(keys, key).unwrap());
            assert(keys[i + 1] == keys.drop_first()[i]);
        } else {
            assert(keys[0] == (key, key_lookup(keys, key).unwrap()));
        }
    }

    /// Register `entry` under the type key `key`: the existing id when the key
    /// is registered with the same schema, an error when with a different
    /// one; otherwise the next wire id, announced with a schema frame.
    pub fn register_with_key(&mut self, key: TypeId, entry: SchemaEntry) -> (r: Result<
        WireTypeId,
        EncodeError,
    >)
        requires
            old(self).wf(),
        ensures
            final(self).wf(),
            register_spec(old(self)@, key, entry@, r, final(self)@),
    {
        match self.lookup_key(&key) {
            Some(id) => {
                proof {
                    Self::lemma_lookup_some(self@.keys, key);
                    let i = choose|i: int|
                        0 <= i < self@.keys.len() && #[trigger] self@.keys[i] == (key, id.0);
                    assert(self@.registry.contains_key(self@.keys[i].1));
                }
                match self.registry.get(id) {
                    Some(existing) => {
                        if existing.same_as(&entry) {
                            Ok(id)
                        } else {
                            Err(EncodeError::SchemaConflict)
                        }
                    },
                    None => {
                        proof {
                            assert(false);
                        }
                        Err(EncodeError::SchemaConflict)
                    },
                }
            },
            None => {
                let n = self.registry.len();
                if n >= 65536 {
                    return Err(EncodeError::RegistryFull);
                }
                let id = WireTypeId(n as u16);
                let ghost f = FrameV::Schema { type_id: id.0, entry: entry@ };
                let ghost o = self@;
                encode_schema(id, &entry, &mut self.writer);
                let _ = self.registry.register(id, entry);
                self.type_ids.push((key, id));
                self.frames = Ghost(self.frames@.push(f));
                proof {
                    assert(self@.keys =~= o.keys.push((key, id.0)));
                    assert(self@.bytes =~= o.bytes + spec_frame_bytes(f));
                    lemma_register_new(o, key, entry@);
                }
                Ok(id)
            },
        }
    }

    /// Register a schema named `name` with `fields` (no timestamp) for the
    /// marker type `T`; see [`Encoder::register_with_key`].
    pub fn register_schema_for<T: 'static>(&mut self, name: &str, fields: Vec<FieldDef>) -> (r:
        Result<WireTypeId, EncodeError>)
        requires
            old(self).wf(),
        ensures
            final(self).wf(),
            exists|key: TypeId|
                register_spec(
                    old(self)@,
                    key,
                    SchemaV { name: name@, has_timestamp: false, fields: fields_view(fields@) },
                    r,
                    final(self)@,
                ),
    {
        self.register_schema_for_with_timestamp::<T>(name, false, fields)
    }

    /// Register a schema with an explicit timestamp flag for the marker type
    /// `T`; see [`Encoder::register_with_key`].
    pub fn register_schema_for_with_timestamp<T: 'static>(
        &mut self,
        name: &str,
        has_timestamp: bool,
        fields: Vec<FieldDef>,
    ) -> (r: Result<WireTypeId, EncodeError>)
        requires
            old(self).wf(),
        ensures
            final(self).wf(),
            exists|key: TypeId|
                register_spec(
                    old(self)@,
                    key,
                    SchemaV { name: name@, has_timestamp, fields: fields_view(fields@) },
                    r,
                    final(self)@,
                ),
    {
        let key = type_key::<T>();
        let entry = SchemaEntry { name: name.to_owned(), has_timestamp, fields };
        self.register_with_key(key, entry)
    }

    /// Intern `s`: the id it already has, or the next pool id, announced with
    /// a string-pool frame.
    pub fn intern_string(&mut self, s: &str) -> (r: Result<InternedString, EncodeError>)
        requires
            old(self).wf(),
        ensures
            final(self).wf(),
            intern_spec(old(self)@, s@, r, final(self)@),
    {
        let owned = s.to_owned();
        let mut i: usize = 0;
        while i < self.string_pool.len()
            invariant
                i <= self.string_pool.len(),
                owned@ == s@,
                self.wf(),
                self@ == old(self)@,
                forall|j: int| 0 <= j < i ==> self@.pool[j] != s@,
            decreases self.string_pool.len() - i,
        {
            if self.string_pool[i] == owned {
                assert(self@.pool[i as int] == s@);
                assert(self@.pool.contains(s@));
                return Ok(InternedString(i as u32));
            }
            i += 1;
        }
        let n = self.string_pool.len();
        if n > u32::MAX as usize {
            return Err(EncodeError::PoolFull);
        }
        let bytes = crate::codec::bytes_to_vec(s.as_bytes());
        let entries = vec![PoolEntry { pool_id: n as u32, data: bytes }];
        let ghost o = self@;
        let ghost f = FrameV::StringPool(pool_entries_view(entries@));
        encode_string_pool(entries.as_slice(), &mut self.writer);
        self.string_pool.push(owned);
        self.frames = Ghost(self.frames@.push(f));
        proof {
            assert(pool_entries_view(entries@) =~= seq![
                PoolEntryV { pool_id: n as u32, data: encode_utf8(s@) },
            ]);
            assert(self@.pool =~= o.pool.push(s@));
            assert(self@.bytes =~= o.bytes + spec_frame_bytes(f));
            lemma_append_passive(o, f, o.pool.push(s@));
        }
        Ok(InternedString(n as u32))
    }

    /// Write a string-pool frame with the given entries.
    pub fn write_string_pool(&mut self, entries: &[PoolEntry]) -> (r: Result<(), EncodeError>)
        requires
            old(self).wf(),
        ensures
            final(self).wf(),
            r is Ok,
            final(self)@ == ({
                let f = FrameV::StringPool(pool_entries_view(entries@));
                EncoderV {
                    bytes: old(self)@.bytes + spec_frame_bytes(f),
                    frames: old(self)@.frames.push(f),
                    ..old(self)@
                }
            }),
    {
        let ghost o = self@;
        let ghost f = FrameV::StringPool(pool_entries_view(entries@));
        encode_string_pool(entries, &mut self.writer);
        self.frames = Ghost(self.frames@.push(f));
        proof {
            lemma_append_passive(o, f, o.pool);
        }
        Ok(())
    }

    /// Write a symbol-table frame with the given entries.
    pub fn write_symbol_table(&mut self, entries: &[SymbolEntry]) -> (r: Result<(), EncodeError>)
        requires
            old(self).wf(),
        ensures
            final(self).wf(),
            r is Ok,
            final(self)@ == ({
                let f = FrameV::SymbolTable(entries@);
                EncoderV {
                    bytes: old(self)@.bytes + spec_frame_bytes(f),
                    frames: old(self)@.frames.push(f),
                    ..old(self)@
                }
            }),
    {
        let ghost o = self@;
        let ghost f = FrameV::SymbolTable(entries@);
        encode_symbol_table(entries, &mut self.writer);
        self.frames = Ghost(self.frames@.push(f));
        proof {
            lemma_append_passive(o, f, o.pool);
        }
        Ok(())
    }


    /// Whether the values have the given field types, in order.
    fn values_match(values: &[FieldValue], types: &[FieldType]) -> (r: bool)
        ensures
            r == (crate::roundtrip::types_of(values_view(values@)) == types@),
    {
        if values.len() != types.len() {
            proof {
                if crate::roundtrip::types_of(values_view(values@)) == types@ {
                    assert(crate::roundtrip::types_of(values_view(values@)).len() == values@.len());
                }
            }
            return false;
        }
        let mut i: usize = 0;
        while i < values.len()
            invariant
                i <= values.len(),
                values.len() == types.len(),
                forall|j: int| 0 <= j < i ==> crate::types::spec_type_of(#[trigger] values@[j]@) == types@[j],
            decreases values.len() - i,
        {
            if values[i].field_type() != types[i] {
                proof {
                    if crate::roundtrip::types_of(values_view(values@)) == types@ {
                        assert(crate::roundtrip::types_of(values_view(values@))[i as int] == types@[i as int]);
                    }
                }
                return false;
            }
            i += 1;
        }
        assert(crate::roundtrip::types_of(values_view(values@)) =~= types@);
        true
    }

    /// Write an event of the registered schema `type_id`: refused (with
    /// nothing written) when the timestamp's presence or the value types do
    /// not match the schema; otherwise the event frame follows a timestamp
    /// reset when the timestamp is before the base or too far after it.
    #[verifier::spinoff_prover]
    #[verifier::rlimit(40)]
    pub fn write_event_with_id(&mut self, type_id: WireTypeId, ts: Option<u64>, values: &[FieldValue]) -> (r: Result<(), EncodeError>)
        requires
            old(self).wf(),
            old(self)@.registry.contains_key(type_id.0),
        ensures
            final(self).wf(),
            event_spec(old(self)@, type_id.0, ts, values_view(values@), r, final(self)@),
            r is Ok ==> final(self).written() == old(self).written().push(
                DecodedV::Event { type_id: type_id.0, timestamp_ns: ts, values: values_view(values@) },
            ),
    {
        let schema = match self.registry.get(type_id) {
            Some(s) => s,
            None => {
                proof {
                    assert(false);
                }
                return Err(EncodeError::NotRegistered);
            },
        };
        if schema.has_timestamp != ts.is_some() {
            return Err(EncodeError::TimestampMismatch);
        }
        let types = schema.field_types();
        if !Self::values_match(values, types.as_slice()) {
            return Err(EncodeError::FieldMismatch);
        }
        let ghost o = self@;
        let ghost vals = values_view(values@);
        let ghost reset_bytes: Seq<u8> = Seq::empty();
        let delta = match ts {
            None => None,
            Some(t) => {
                let base = self.timestamp_base_ns;
                if t >= base && t - base <= MAX_TIMESTAMP_DELTA as u64 {
                    self.timestamp_base_ns = t;
                    Some((t - base) as u32)
                } else {
                    encode_timestamp_reset(t, &mut self.writer);
                    proof {
                        reset_bytes = spec_frame_bytes(FrameV::TimestampReset(t));
                    }
                    self.frames = Ghost(self.frames@.push(FrameV::TimestampReset(t)));
                    self.timestamp_base_ns = t;
                    Some(0u32)
                }
            },
        };
        encode_event_header(type_id, delta, &mut self.writer);
        encode_values(values, &mut self.writer);
        let ghost f = FrameV::Event { type_id: type_id.0, delta, values: vals };
        self.frames = Ghost(self.frames@.push(f));
        proof {
            lemma_event(o, type_id.0, ts, vals);
            let fs = event_frames(o.base, type_id.0, ts, vals);
            assert(self@.frames =~= o.frames + fs);
            assert(self@.bytes =~= o.bytes + reset_bytes + spec_frame_bytes(f));
            lemma_frames_bytes_single(f);
            if fs.len() == 2 {
                lemma_frames_bytes_single(fs[0]);
                assert(fs =~= seq![fs[0]] + seq![f]);
                lemma_frames_bytes_append(seq![fs[0]], seq![f]);
            } else {
                assert(fs =~= seq![f]);
            }
            assert(self@.bytes =~= o.bytes + spec_frames_bytes(fs));
        }
        Ok(())
    }

    /// Write an event for the marker type `T`, registered before. For a
    /// schema with a timestamp the first value is the timestamp, as a
    /// `Varint`; the other values are the fields.
    ///
    /// This never panics: a type that was never registered gives
    /// `Err(NotRegistered)`, a missing or non-`Varint` timestamp value
    /// `Err(TimestampMismatch)`, and values whose count or types differ from
    /// the schema's fields `Err(FieldMismatch)`; in each case nothing is
    /// written. Callers that treat these as bugs unwrap the result.
    pub fn write_event_for<T: 'static>(&mut self, values: &[FieldValue]) -> (r: Result<(), EncodeError>)
        requires
            old(self).wf(),
        ensures
            final(self).wf(),
            exists|key: TypeId| write_for_spec(old(self)@, key, values_view(values@), r, final(self)@),
    {
        let key = type_key::<T>();
        let ghost vals = values_view(values@);
        let id = match self.lookup_key(&key) {
            Some(id) => id,
            None => {
                assert(write_for_spec(self@, key, vals, Err(EncodeError::NotRegistered), self@));
                return Err(EncodeError::NotRegistered);
            },
        };
        proof {
            Self::lemma_lookup_some(self@.keys, key);
            let i = choose|i: int| 0 <= i < self@.keys.len() && #[trigger] self@.keys[i] == (key, id.0);
            assert(self@.registry.contains_key(self@.keys[i].1));
        }
        let has_timestamp = match self.registry.get(id) {
            Some(s) => s.has_timestamp,
            None => false,
        };
        if has_timestamp {
            if values.len() == 0 {
                assert(write_for_spec(self@, key, vals, Err(EncodeError::TimestampMismatch), self@));
                return Err(EncodeError::TimestampMismatch);
            }
            let ts = match &values[0] {
                FieldValue::Varint(t) => *t,
                _ => {
                    assert(!(vals[0] is Varint));
                    assert(write_for_spec(self@, key, vals, Err(EncodeError::TimestampMismatch), self@));
                    return Err(EncodeError::TimestampMismatch);
                },
            };
            let rest = vstd::slice::slice_subrange(values, 1, values.len());
            assert(values_view(rest@) =~= values_view(values@).drop_first());
            let ghost o = self@;
            let r = self.write_event_with_id(id, Some(ts), rest);
            assert(write_for_spec(o, key, vals, r, self@));
            r
        } else {
            let ghost o = self@;
            let r = self.write_event_with_id(id, None, values);
            assert(write_for_spec(o, key, vals, r, self@));
            r
        }
    }

    /// Write an event of a [`TraceEvent`] type, registering its schema on
    /// first use.
    #[verifier::spinoff_prover]
    #[verifier::rlimit(60)]
    pub fn write<T: TraceEvent + 'static>(&mut self, event: &T) -> (r: Result<(), EncodeError>)
        requires
            old(self).wf(),
        ensures
            final(self).wf(),
            exists|extra: Seq<DecodedV>|
                {
                    &&& final(self).written() == old(self).written() + extra
                    &&& extra.len() <= 2
                    &&& (r is Ok ==> extra.len() >= 1 && extra.last() is Event)
                    &&& (extra.len() == 2 ==> extra[0] is Schema)
                    &&& (r is Err ==> extra.len() <= 1 && (extra.len() == 1 ==> extra[0] is Schema))
                },
            crate::growth::appends(old(self)@, final(self)@),
            exists|key: TypeId|
                {
                    &&& key_lookup(old(self)@.keys, key) is Some ==> final(self)@.keys == old(self)@.keys
                        && final(self)@.registry == old(self)@.registry
                    &&& r is Ok ==> #[trigger] key_lookup(final(self)@.keys, key) is Some
                        && final(self).written().last() is Event && final(self).written().last()->type_id
                        == key_lookup(final(self)@.keys, key).unwrap()
                    &&& r is Ok ==> trait_write_frames(
                        old(self)@,
                        key,
                        event,
                        final(self)@.frames.skip(old(self)@.frames.len() as int),
                    )
                },
    {
        let key = type_key::<T>();
        let ghost o0 = self@;
        let ghost w0 = self.written();
        let ghost mut schema_part: Seq<FrameV> = Seq::empty();
        let ghost mut entry_g: Option<SchemaEntry> = None;
        let id = match self.lookup_key(&key) {
            Some(id) => {
                proof {
                    Self::lemma_lookup_some(self@.keys, key);
                    let i = choose|i: int| 0 <= i < self@.keys.len() && #[trigger] self@.keys[i] == (key, id.0);
                    assert(self@.registry.contains_key(self@.keys[i].1));
                    assert(w0 + Seq::<DecodedV>::empty() =~= w0);
                }
                id
            },
            None => {
                let entry = T::schema_entry();
                assert(call_ensures(T::schema_entry, (), entry));
                let ghost o = self@;
                match self.register_with_key(key, entry) {
                    Ok(id) => {
                        proof {
                            let f = self@.frames.last();
                            assert(self@.frames == o.frames.push(f));
                            assert(o.frames.push(f).drop_last() =~= o.frames);
                            assert(f is Schema);
                            assert(self@.frames.take(o0.frames.len() as int) =~= o0.frames);
                            lemma_registered_after(o, key, entry@, id, self@);
                            schema_part = seq![FrameV::Schema { type_id: o.registry.len() as u16, entry: entry@ }];
                            assert(self@.frames == o.frames + schema_part);
                            entry_g = Some(entry);
                        }
                        id
                    },
                    Err(e) => {
                        proof {
                            assert(w0 + Seq::<DecodedV>::empty() =~= w0);
                            assert(self@.frames.take(o0.frames.len() as int) =~= o0.frames);
                            crate::growth::lemma_prefix_appends(o0, self@);
                            assert(key_lookup(old(self)@.keys, key) is Some ==> self@.keys == old(self)@.keys
                                && self@.registry == old(self)@.registry);
                        }
                        return Err(e);
                    },
                }
            },
        };
        let ghost w1 = self.written();
        let ghost o1 = self@;
        proof {
            assert(self@.frames.take(o0.frames.len() as int) =~= o0.frames);
            assert(key_lookup(self@.keys, key) == Some(id.0));
            assert(key_lookup(old(self)@.keys, key) is Some ==> self@.keys == old(self)@.keys
                && self@.registry == old(self)@.registry);
        }
        let ts = event.timestamp();
        let values = event.field_values();
        assert(call_ensures(T::timestamp, (event,), ts));
        assert(call_ensures(T::field_values, (event,), values));
        let r = self.write_event_with_id(id, ts, values.as_slice());
        proof {
            assert(self@.keys == o1.keys && self@.registry == o1.registry);
            assert(self@.frames.take(o1.frames.len() as int) =~= o1.frames);
            assert(self@.frames.take(o0.frames.len() as int) =~= o0.frames);
            crate::growth::lemma_prefix_appends(o0, self@);
            let extra1 = w1.subrange(w0.len() as int, w1.len() as int);
            assert(w1 =~= w0 + extra1);
            if r is Ok {
                let ev = DecodedV::Event { type_id: id.0, timestamp_ns: ts, values: values_view(values@) };
                assert(self.written() =~= w0 + extra1.push(ev));
                assert(self.written().last() == ev);
                let fs = event_frames(o1.base, id.0, ts, values_view(values@));
                assert(o1.base == o0.base);
                assert(self@.frames == o1.frames + fs);
                assert(o1.frames == o0.frames + schema_part);
                assert(self@.frames.skip(o0.frames.len() as int) =~= schema_part + fs);
                match key_lookup(o0.keys, key) {
                    Some(kid) => {
                        assert(schema_part + fs =~= fs);
                        assert(trait_write_frames(o0, key, event, schema_part + fs));
                    },
                    None => {
                        let en = entry_g.unwrap();
                        assert(call_ensures(T::schema_entry, (), en));
                        assert(trait_write_frames(o0, key, event, schema_part + fs));
                    },
                }
            } else {
                assert(self.written() =~= w0 + extra1);
            }
        }
        r
    }

}


proof fn lemma_register_new(o: EncoderV, key: TypeId, entry: SchemaV)
    requires
        encoder_inv(o),
        key_lookup(o.keys, key) is None,
        o.registry.len() < 65536,
        crate::roundtrip::schema_wf(entry),
    ensures
        ({
            let id = o.registry.len() as u16;
            let f = FrameV::Schema { type_id: id, entry };
            encoder_inv(
                EncoderV {
                    bytes: o.bytes + spec_frame_bytes(f),
                    frames: o.frames.push(f),
                    registry: o.registry.insert(id, entry),
                    keys: o.keys.push((key, id)),
                    ..o
                },
            )
        }),
{
    let id = o.registry.len() as u16;
    let f = FrameV::Schema { type_id: id, entry };
    let v = EncoderV {
        bytes: o.bytes + spec_frame_bytes(f),
        frames: o.frames.push(f),
        registry: o.registry.insert(id, entry),
        keys: o.keys.push((key, id)),
        ..o
    };
    assert(!o.registry.contains_key(id));
    Encoder::lemma_push_frame(o.frames, f);
    Encoder::lemma_lookup_none(o.keys, key);
    assert(v.bytes =~= v.start + spec_frames_bytes(v.frames));
    assert(shapes_of(v.registry) =~= shapes_of(o.registry).insert(id, shape_of(entry)));
    assert(v.registry.len() == o.registry.len() + 1);
    assert forall|x: u16| v.registry.contains_key(x) <==> (x as int) < v.registry.len() by {
        if x == id {
        } else {
            assert(v.registry.contains_key(x) == o.registry.contains_key(x));
        }
    }
    assert forall|i: int| 0 <= i < v.keys.len() implies v.registry.contains_key(
        #[trigger] v.keys[i].1,
    ) by {
        if i < o.keys.len() {
            assert(v.keys[i] == o.keys[i]);
        }
    }
    assert forall|i: int, j: int| 0 <= i < j < v.keys.len() implies #[trigger] v.keys[i].0
        != #[trigger] v.keys[j].0 by {
        assert(v.keys[i] == o.keys[i]);
        if j < o.keys.len() {
            assert(v.keys[j] == o.keys[j]);
        }
    }
}

/// Appending a pool or symbol-table frame (and, for interning, a new
/// distinct pool string) keeps the invariant.
proof fn lemma_append_passive(o: EncoderV, f: FrameV, pool: Seq<Seq<char>>)
    requires
        encoder_inv(o),
        f is StringPool || f is SymbolTable,
        crate::roundtrip::frame_wf(f, replay(o.frames).cache),
        pool.len() <= u32::MAX + 1,
        forall|i: int, j: int| 0 <= i < j < pool.len() ==> #[trigger] pool[i] != #[trigger] pool[j],
    ensures
        encoder_inv(
            EncoderV {
                bytes: o.bytes + spec_frame_bytes(f),
                frames: o.frames.push(f),
                pool,
                ..o
            },
        ),
{
    Encoder::lemma_push_frame(o.frames, f);
    let v = EncoderV { bytes: o.bytes + spec_frame_bytes(f), frames: o.frames.push(f), pool, ..o };
    assert(v.bytes =~= v.start + spec_frames_bytes(v.frames));
}

/// An event's timestamp presence and value types agree with its schema.
pub open spec fn event_ok(o: EncoderV, type_id: u16, ts: Option<u64>, values: Seq<FieldVal>) -> bool {
    &&& o.registry[type_id].has_timestamp == ts is Some
    &&& crate::roundtrip::types_of(values) == crate::schema::spec_field_types(o.registry[type_id])
}

/// The outcome of writing an event of schema `type_id`.
pub open spec fn event_spec(
    o: EncoderV,
    type_id: u16,
    ts: Option<u64>,
    values: Seq<FieldVal>,
    r: Result<(), EncodeError>,
    n: EncoderV,
) -> bool {
    if event_ok(o, type_id, ts, values) {
        let fs = event_frames(o.base, type_id, ts, values);
        &&& r is Ok
        &&& n == EncoderV {
            bytes: o.bytes + spec_frames_bytes(fs),
            frames: o.frames + fs,
            base: match ts {
                Some(t) => t,
                None => o.base,
            },
            ..o
        }
    } else {
        &&& n == o
        &&& r == Err::<(), EncodeError>(
            if o.registry[type_id].has_timestamp != ts is Some {
                EncodeError::TimestampMismatch
            } else {
                EncodeError::FieldMismatch
            },
        )
    }
}

/// The outcome of writing an event for the type key `key`, whose timestamp
/// (if the schema has one) is the first value.
pub open spec fn write_for_spec(
    o: EncoderV,
    key: TypeId,
    values: Seq<FieldVal>,
    r: Result<(), EncodeError>,
    n: EncoderV,
) -> bool {
    match key_lookup(o.keys, key) {
        None => n == o && r == Err::<(), EncodeError>(EncodeError::NotRegistered),
        Some(id) => if o.registry[id].has_timestamp {
            if values.len() > 0 && values[0] is Varint {
                event_spec(o, id, Some(values[0]->Varint_0), values.drop_first(), r, n)
            } else {
                n == o && r == Err::<(), EncodeError>(EncodeError::TimestampMismatch)
            }
        } else {
            event_spec(o, id, None, values, r, n)
        },
    }
}

proof fn lemma_event(o: EncoderV, type_id: u16, ts: Option<u64>, values: Seq<FieldVal>)
    requires
        encoder_inv(o),
        o.registry.contains_key(type_id),
        event_ok(o, type_id, ts, values),
        crate::roundtrip::values_wf(values),
    ensures
        ({
            let fs = event_frames(o.base, type_id, ts, values);
            let n = EncoderV {
                bytes: o.bytes + spec_frames_bytes(fs),
                frames: o.frames + fs,
                base: match ts {
                    Some(t) => t,
                    None => o.base,
                },
                ..o
            };
            &&& encoder_inv(n)
            &&& logical(n.frames) == logical(o.frames).push(
                DecodedV::Event { type_id, timestamp_ns: ts, values },
            )
        }),
{
    let fs = event_frames(o.base, type_id, ts, values);
    let base2 = match ts {
        Some(t) => t,
        None => o.base,
    };
    let n = EncoderV {
        bytes: o.bytes + spec_frames_bytes(fs),
        frames: o.frames + fs,
        base: base2,
        ..o
    };
    let ev = fs.last();
    let pre = fs.drop_last();
    assert(o.frames + fs =~= (o.frames + pre).push(ev));
    assert(shapes_of(o.registry).contains_key(type_id));
    if pre.len() == 1 {
        let t = ts.unwrap();
        let rf = FrameV::TimestampReset(t);
        assert(pre =~= seq![rf]);
        assert(o.frames + pre =~= o.frames.push(rf));
        Encoder::lemma_push_frame(o.frames, rf);
        let g = o.frames.push(rf);
        assert(replay(g).cache == replay(o.frames).cache);
        Encoder::lemma_push_frame(g, ev);
        lemma_frames_bytes_append(o.frames, fs);
        assert(n.bytes =~= n.start + spec_frames_bytes(n.frames));
    } else {
        assert(pre =~= Seq::<FrameV>::empty());
        assert(o.frames + pre =~= o.frames);
        Encoder::lemma_push_frame(o.frames, ev);
        lemma_frames_bytes_append(o.frames, fs);
        assert(n.bytes =~= n.start + spec_frames_bytes(n.frames));
    }
}

pub(crate) proof fn lemma_frames_bytes_append(a: Seq<FrameV>, b: Seq<FrameV>)
    ensures
        spec_frames_bytes(a + b) == spec_frames_bytes(a) + spec_frames_bytes(b),
    decreases b.len(),
{
    if b.len() == 0 {
        assert(a + b =~= a);
        assert(spec_frames_bytes(a) + Seq::<u8>::empty() =~= spec_frames_bytes(a));
    } else {
        lemma_frames_bytes_append(a, b.drop_last());
        assert((a + b).drop_last() =~= a + b.drop_last());
        assert(spec_frames_bytes(a + b) =~= spec_frames_bytes(a) + spec_frames_bytes(b));
    }
}

proof fn lemma_frames_bytes_single(f: FrameV)
    ensures
        spec_frames_bytes(seq![f]) == spec_frame_bytes(f),
{
    let one = seq![f];
    assert(one.drop_last() =~= Seq::<FrameV>::empty());
    assert(one.last() == f);
    assert(spec_frames_bytes(Seq::<FrameV>::empty()) == Seq::<u8>::empty());
    assert(spec_frames_bytes(one) == spec_frames_bytes(one.drop_last()) + spec_frame_bytes(
        one.last(),
    ));
    assert(Seq::<u8>::empty() + spec_frame_bytes(f) =~= spec_frame_bytes(f));
}

proof fn lemma_frames_bytes_prefix(fs: Seq<FrameV>, j: nat)
    requires
        j <= fs.len(),
    ensures
        spec_frames_bytes(fs.take(j as int)).len() <= spec_frames_bytes(fs).len(),
        spec_frames_bytes(fs).subrange(0, spec_frames_bytes(fs.take(j as int)).len() as int)
            == spec_frames_bytes(fs.take(j as int)),
    decreases fs.len(),
{
    if j == fs.len() {
        assert(fs.take(j as int) =~= fs);
        assert(spec_frames_bytes(fs).subrange(0, spec_frames_bytes(fs).len() as int)
            =~= spec_frames_bytes(fs));
    } else {
        let init = fs.drop_last();
        lemma_frames_bytes_prefix(init, j);
        assert(init.take(j as int) =~= fs.take(j as int));
        let p = spec_frames_bytes(fs.take(j as int));
        assert(spec_frames_bytes(fs) == spec_frames_bytes(init) + spec_frame_bytes(fs.last()));
        assert(spec_frames_bytes(fs).subrange(0, p.len() as int) =~= spec_frames_bytes(
            init,
        ).subrange(0, p.len() as int));
    }
}

pub(crate) proof fn lemma_frame_bytes_nonempty(f: FrameV)
    ensures
        spec_frame_bytes(f).len() >= 1,
{
}

proof fn lemma_frame_at(fs: Seq<FrameV>, start: Seq<u8>, k: nat)
    requires
        k < fs.len(),
    ensures
        ({
            let data = start + spec_frames_bytes(fs);
            let pk = start.len() + spec_frames_bytes(fs.take(k as int)).len();
            let fb = spec_frame_bytes(fs[k as int]);
            &&& crate::roundtrip::bytes_at(data, pk, fb)
            &&& start.len() + spec_frames_bytes(fs.take((k + 1) as int)).len() == pk + fb.len()
            &&& pk < pk + fb.len() <= data.len()
        }),
{
    let data = start + spec_frames_bytes(fs);
    let f = fs[k as int];
    let tk = fs.take(k as int);
    let tk1 = fs.take((k + 1) as int);
    assert(tk1.drop_last() =~= tk);
    assert(tk1.last() == f);
    lemma_frames_bytes_prefix(fs, k + 1);
    let fb = spec_frame_bytes(f);
    lemma_frame_bytes_nonempty(f);
    let whole = spec_frames_bytes(fs);
    let a = spec_frames_bytes(tk);
    assert(spec_frames_bytes(tk1) == a + fb);
    let pk = start.len() + a.len();
    let pk1 = pk + fb.len();
    assert(data.subrange(pk as int, pk1 as int) =~= whole.subrange(
        a.len() as int,
        (a.len() + fb.len()) as int,
    ));
    assert(whole.subrange(0, (a.len() + fb.len()) as int) == a + fb);
    assert(whole.subrange(a.len() as int, (a.len() + fb.len()) as int) =~= (a + fb).subrange(
        a.len() as int,
        (a.len() + fb.len()) as int,
    ));
    assert((a + fb).subrange(a.len() as int, (a.len() + fb.len()) as int) =~= fb);
}

/// Decoding from frame `k` on: what the frames before `k` hand out, followed
/// by what the reader hands out from there, is everything the frames hand
/// out.
proof fn lemma_run_from(fs: Seq<FrameV>, start: Seq<u8>, k: nat)
    requires
        frames_ok(fs),
        k <= fs.len(),
    ensures
        ({
            let data = start + spec_frames_bytes(fs);
            let s = crate::stream::DecState {
                data,
                pos: start.len() + spec_frames_bytes(fs.take(k as int)).len(),
                tables: replay(fs.take(k as int)),
            };
            logical(fs.take(k as int)) + crate::stream::decode_run(s).0 == logical(fs)
        }),
    decreases fs.len() - k,
{
    let data = start + spec_frames_bytes(fs);
    let pk = start.len() + spec_frames_bytes(fs.take(k as int)).len();
    let s = crate::stream::DecState { data, pos: pk, tables: replay(fs.take(k as int)) };
    lemma_frames_bytes_prefix(fs, k);
    if k == fs.len() {
        assert(fs.take(k as int) =~= fs);
        assert(crate::stream::decode_run(s).0 =~= Seq::<DecodedV>::empty());
        assert(logical(fs) + Seq::<DecodedV>::empty() =~= logical(fs));
    } else {
        let f = fs[k as int];
        let tk = fs.take(k as int);
        let tk1 = fs.take((k + 1) as int);
        assert(tk1.drop_last() =~= tk);
        lemma_frame_at(fs, start, k);
        let pk1 = start.len() + spec_frames_bytes(tk1).len();
        assert(frame_fits(replay(tk), f));
        crate::roundtrip::lemma_frame_round_trip(f, replay(tk).cache, data, pk);
        lemma_run_from(fs, start, k + 1);
        let s1 = crate::stream::DecState { data, pos: pk1, tables: replay(tk1) };
        crate::stream::lemma_step_parsed(s, f, pk1);
        if is_silent(f) {
            crate::stream::lemma_run_same_step(s, s1);
        } else {
            crate::stream::lemma_run_unfold(s, s1, decoded_of(replay(tk), f));
            assert(logical(tk1) == logical(tk).push(decoded_of(replay(tk), f)));
            assert(logical(tk) + crate::stream::decode_run(s).0 =~= logical(tk1)
                + crate::stream::decode_run(s1).0);
        }
    }
}

/// What a reader hands out for an encoder's output, read from the end of
/// the bytes that preceded the first frame, is exactly what was written.
pub proof fn lemma_decodes_what_was_written(e: EncoderV)
    requires
        encoder_inv(e),
    ensures
        crate::stream::decode_run(
            crate::stream::fresh_state(e.bytes, e.start.len(), VERSION),
        ).0 == logical(e.frames),
{
    lemma_run_from(e.frames, e.start, 0);
    assert(e.frames.take(0) =~= Seq::<FrameV>::empty());
    assert(logical(Seq::<FrameV>::empty()) + crate::stream::decode_run(
        crate::stream::fresh_state(e.bytes, e.start.len(), VERSION),
    ).0 =~= crate::stream::decode_run(
        crate::stream::fresh_state(e.bytes, e.start.len(), VERSION),
    ).0);
}

/// Round trip of a whole trace: the output of an encoder made by
/// [`Encoder::new`] starts with the file header, and a decoder over it hands
/// out, in order, exactly the schemas, events (with their absolute
/// timestamps), string pools and symbol tables that were written.
pub proof fn lemma_trace_round_trip(e: EncoderV)
    requires
        encoder_inv(e),
        e.start == spec_header_bytes(VERSION),
    ensures
        crate::codec::spec_decode_header(e.bytes) == Some(VERSION),
        crate::stream::decode_run(
            crate::stream::fresh_state(e.bytes, crate::codec::HEADER_SIZE as nat, VERSION),
        ).0 == logical(e.frames),
{
    assert(e.bytes.subrange(0, 5) =~= e.start);
    assert(e.bytes[0] == e.start[0]);
    assert(e.bytes[1] == e.start[1]);
    assert(e.bytes[2] == e.start[2]);
    assert(e.bytes[3] == e.start[3]);
    assert(e.bytes[4] == e.start[4]);
    lemma_decodes_what_was_written(e);
}

proof fn lemma_key_lookup_push(keys: Seq<(TypeId, u16)>, x: (TypeId, u16), k: TypeId)
    ensures
        key_lookup(keys.push(x), k) == if key_lookup(keys, k) is Some {
            key_lookup(keys, k)
        } else if x.0 == k {
            Some(x.1)
        } else {
            None
        },
    decreases keys.len(),
{
    if keys.len() > 0 {
        assert(keys.push(x).drop_first() =~= keys.drop_first().push(x));
        assert(keys.push(x)[0] == keys[0]);
        lemma_key_lookup_push(keys.drop_first(), x, k);
    } else {
        assert(keys.push(x).drop_first() =~= Seq::<(TypeId, u16)>::empty());
        assert(keys.push(x)[0] == x);
        assert(key_lookup(Seq::<(TypeId, u16)>::empty(), k) is None);
    }
}

pub(crate) proof fn lemma_registered_after(o: EncoderV, key: TypeId, entry: SchemaV, id: WireTypeId, n: EncoderV)
    requires
        encoder_inv(o),
        register_spec(o, key, entry, Ok(id), n),
    ensures
        key_lookup(n.keys, key) == Some(id.0),
        n.registry.contains_key(id.0),
        n.registry[id.0] == entry,
{
    if key_lookup(o.keys, key) is None {
        lemma_key_lookup_push(o.keys, (key, id.0), key);
    } else {
        Encoder::lemma_lookup_some(o.keys, key);
        let i = choose|i: int| 0 <= i < o.keys.len() && #[trigger] o.keys[i] == (key, key_lookup(o.keys, key).unwrap());
        assert(o.registry.contains_key(o.keys[i].1));
    }
}

/// A registered type key names a registered wire id, found at some index
/// of the keys.
pub(crate) proof fn lemma_key_registered(o: EncoderV, key: TypeId)
    requires
        encoder_inv(o),
        key_lookup(o.keys, key) is Some,
    ensures
        o.registry.contains_key(key_lookup(o.keys, key).unwrap()),
        exists|i: int| 0 <= i < o.keys.len() && #[trigger] o.keys[i] == (key, key_lookup(o.keys, key).unwrap()),
{
    Encoder::lemma_lookup_some(o.keys, key);
    let i = choose|i: int| 0 <= i < o.keys.len() && #[trigger] o.keys[i] == (key, key_lookup(o.keys, key).unwrap());
    assert(o.registry.contains_key(o.keys[i].1));
}

/// Registering the same schema again for the same type key returns the same
/// wire id and changes nothing.
pub proof fn lemma_register_idempotent(
    o: EncoderV,
    key: TypeId,
    entry: SchemaV,
    r1: Result<WireTypeId, EncodeError>,
    n1: EncoderV,
    r2: Result<WireTypeId, EncodeError>,
    n2: EncoderV,
)
    requires
        encoder_inv(o),
        register_spec(o, key, entry, r1, n1),
        r1 is Ok,
        register_spec(n1, key, entry, r2, n2),
    ensures
        r2 == r1,
        n2 == n1,
{
    lemma_registered_after(o, key, entry, r1.unwrap(), n1);
}

/// Registering a different schema for a type key that has one is refused
/// and changes nothing.
pub proof fn lemma_register_conflict(
    o: EncoderV,
    key: TypeId,
    entry: SchemaV,
    r1: Result<WireTypeId, EncodeError>,
    n1: EncoderV,
    other: SchemaV,
    r2: Result<WireTypeId, EncodeError>,
    n2: EncoderV,
)
    requires
        encoder_inv(o),
        register_spec(o, key, entry, r1, n1),
        r1 is Ok,
        other != entry,
        register_spec(n1, key, other, r2, n2),
    ensures
        r2 == Err::<WireTypeId, EncodeError>(EncodeError::SchemaConflict),
        n2 == n1,
{
    lemma_registered_after(o, key, entry, r1.unwrap(), n1);
}

/// Interning a string again returns the id it got and changes nothing.
pub proof fn lemma_intern_idempotent(
    o: EncoderV,
    s: Seq<char>,
    r1: Result<InternedString, EncodeError>,
    n1: EncoderV,
    r2: Result<InternedString, EncodeError>,
    n2: EncoderV,
)
    requires
        encoder_inv(o),
        intern_spec(o, s, r1, n1),
        r1 is Ok,
        intern_spec(n1, s, r2, n2),
    ensures
        r2 == r1,
        n2 == n1,
{
    if !o.pool.contains(s) {
        assert(n1.pool[o.pool.len() as int] == s);
        assert(n1.pool.contains(s));
        let id2 = r2.unwrap();
        if id2.0 != o.pool.len() {
            assert(n1.pool[id2.0 as int] == o.pool[id2.0 as int]);
            assert(o.pool.contains(s));
        }
    } else {
        let id1 = r1.unwrap();
        let id2 = r2.unwrap();
        if id1 != id2 {
            if id1.0 < id2.0 {
                assert(o.pool[id1.0 as int] != o.pool[id2.0 as int]);
            } else {
                assert(o.pool[id2.0 as int] != o.pool[id1.0 as int]);
            }
        }
    }
}

/// Different strings get different ids.
pub proof fn lemma_intern_distinct(
    o: EncoderV,
    s: Seq<char>,
    r1: Result<InternedString, EncodeError>,
    n1: EncoderV,
    t: Seq<char>,
    r2: Result<InternedString, EncodeError>,
    n2: EncoderV,
)
    requires
        encoder_inv(o),
        intern_spec(o, s, r1, n1),
        r1 is Ok,
        encoder_inv(n1),
        intern_spec(n1, t, r2, n2),
        r2 is Ok,
        s != t,
    ensures
        r1 != r2,
{
    let id1 = r1.unwrap();
    assert(n1.pool[id1.0 as int] == s) by {
        if !o.pool.contains(s) {
            assert(n1.pool[o.pool.len() as int] == s);
        } else {
            assert(n1.pool =~= o.pool);
        }
    }
    assert(id1.0 < n1.pool.len());
    if !n1.pool.contains(t) {
        assert(r2.unwrap().0 == n1.pool.len());
    }
}

/// An event within 2^24 - 1 ns at or after the timestamp base is written
/// without a timestamp reset.
pub proof fn lemma_close_timestamps_need_no_reset(
    base: u64,
    type_id: u16,
    t: u64,
    values: Seq<FieldVal>,
)
    requires
        base <= t,
        t - base <= MAX_TIMESTAMP_DELTA,
    ensures
        event_frames(base, type_id, Some(t), values).len() == 1,
{
}

/// What a reader is handed for a stream only grows when frames are appended:
/// the items for `fs` are a prefix of the items for `fs + gs`.
pub proof fn lemma_written_extends(fs: Seq<FrameV>, gs: Seq<FrameV>)
    ensures
        logical(fs).len() <= logical(fs + gs).len(),
        logical(fs + gs).subrange(0, logical(fs).len() as int) == logical(fs),
    decreases gs.len(),
{
    if gs.len() == 0 {
        assert(fs + gs =~= fs);
        assert(logical(fs).subrange(0, logical(fs).len() as int) =~= logical(fs));
    } else {
        let g2 = gs.drop_last();
        lemma_written_extends(fs, g2);
        assert((fs + gs).drop_last() =~= fs + g2);
        assert((fs + gs).last() == gs.last());
        let l2 = logical(fs + g2);
        let k = logical(fs).len() as int;
        if !is_silent(gs.last()) {
            let x = decoded_of(replay(fs + g2), gs.last());
            assert(logical(fs + gs) == l2.push(x));
            assert(l2.push(x).subrange(0, k) =~= l2.subrange(0, k));
        }
    }
}

/// The bytes of a non-empty sequence of frames are not empty.
pub(crate) proof fn lemma_frames_bytes_nonempty(fs: Seq<FrameV>)
    requires
        fs.len() > 0,
    ensures
        spec_frames_bytes(fs).len() >= 1,
{
    lemma_frame_bytes_nonempty(fs.last());
}

/// `n` is what one operation of an encoder leaves from `o`: flushing (no
/// change), registering a schema, interning a string, writing an event, or
/// writing a string-pool or symbol-table frame.
pub open spec fn encoder_operation(o: EncoderV, n: EncoderV) -> bool {
    ||| n == o
    ||| exists|key: TypeId, entry: SchemaV, r: Result<WireTypeId, EncodeError>|
        #[trigger] register_spec(o, key, entry, r, n)
    ||| exists|s: Seq<char>, r: Result<InternedString, EncodeError>| #[trigger] intern_spec(o, s, r, n)
    ||| exists|t: u16, ts: Option<u64>, vals: Seq<FieldVal>, r: Result<(), EncodeError>|
        #[trigger] event_spec(o, t, ts, vals, r, n)
    ||| exists|f: FrameV| (f is StringPool || f is SymbolTable) && n == #[trigger] with_frame(o, f)
}

/// `o` with the frame `f` written.
pub open spec fn with_frame(o: EncoderV, f: FrameV) -> EncoderV {
    EncoderV { bytes: o.bytes + spec_frame_bytes(f), frames: o.frames.push(f), ..o }
}

/// Every operation only appends: the header and the frames written before
/// stay, and the bytes are the earlier bytes followed by those of the new
/// frames.
pub proof fn lemma_every_operation_appends(o: EncoderV, n: EncoderV)
    requires
        encoder_inv(o),
        encoder_inv(n),
        encoder_operation(o, n),
    ensures
        crate::growth::appends(o, n),
{
    if n == o {
        assert(n.frames.take(o.frames.len() as int) =~= o.frames);
    } else if exists|key: TypeId, entry: SchemaV, r: Result<WireTypeId, EncodeError>|
        #[trigger] register_spec(o, key, entry, r, n) {
        let (key, entry, r) = choose|key: TypeId, entry: SchemaV, r: Result<WireTypeId, EncodeError>|
            #[trigger] register_spec(o, key, entry, r, n);
        assert(n.frames.take(o.frames.len() as int) =~= o.frames);
    } else if exists|s: Seq<char>, r: Result<InternedString, EncodeError>| #[trigger] intern_spec(o, s, r, n) {
        let (s, r) = choose|s: Seq<char>, r: Result<InternedString, EncodeError>| #[trigger] intern_spec(o, s, r, n);
        assert(n.frames.take(o.frames.len() as int) =~= o.frames);
    } else if exists|t: u16, ts: Option<u64>, vals: Seq<FieldVal>, r: Result<(), EncodeError>|
        #[trigger] event_spec(o, t, ts, vals, r, n) {
        let (t, ts, vals, r) = choose|t: u16, ts: Option<u64>, vals: Seq<FieldVal>, r: Result<(), EncodeError>|
            #[trigger] event_spec(o, t, ts, vals, r, n);
        assert(n.frames.take(o.frames.len() as int) =~= o.frames);
    } else {
        assert(n.frames.take(o.frames.len() as int) =~= o.frames);
    }
    crate::growth::lemma_prefix_appends(o, n);
}

/// Appending twice is appending.
pub proof fn lemma_appends_trans(a: EncoderV, b: EncoderV, c: EncoderV)
    requires
        encoder_inv(a),
        encoder_inv(c),
        crate::growth::appends(a, b),
        crate::growth::appends(b, c),
    ensures
        crate::growth::appends(a, c),
{
    assert(c.frames.take(a.frames.len() as int) =~= b.frames.take(a.frames.len() as int));
    crate::growth::lemma_prefix_appends(a, c);
}

} // verus!
