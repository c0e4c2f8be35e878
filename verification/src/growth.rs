//! How an encoder's output grows: the events a reader is handed, and the
//! facts that stay true as frames are appended.

use crate::codec::FrameV;
use crate::encoder::{intern_spec, logical, register_spec, spec_frames_bytes, EncodeError, EncoderV};
use crate::schema::SchemaV;
use crate::stream::DecodedV;
use crate::types::InternedString;
use std::any::TypeId;
use vstd::prelude::*;

verus! {

/// The events, in order, among what a reader is handed.
pub open spec fn events_in(ws: Seq<DecodedV>) -> Seq<DecodedV>
    decreases ws.len(),
{
    if ws.len() == 0 {
        Seq::empty()
    } else if ws.last() is Event {
        events_in(ws.drop_last()).push(ws.last())
    } else {
        events_in(ws.drop_last())
    }
}

/// The events of an encoder's output.
pub open spec fn events_of(e: EncoderV) -> Seq<DecodedV> {
    events_in(logical(e.frames))
}

/// `b` extends `a`: frames and bytes are only appended, the events written
/// stay, pool ids keep their strings and registered schemas stay.
pub open spec fn grows(a: EncoderV, b: EncoderV) -> bool {
    &&& b.start == a.start
    &&& a.bytes.len() <= b.bytes.len()
    &&& b.bytes.take(a.bytes.len() as int) == a.bytes
    &&& a.frames.len() <= b.frames.len()
    &&& b.frames.take(a.frames.len() as int) == a.frames
    &&& events_of(a).len() <= events_of(b).len()
    &&& events_of(b).take(events_of(a).len() as int) == events_of(a)
    &&& a.pool.len() <= b.pool.len()
    &&& b.pool.take(a.pool.len() as int) == a.pool
    &&& forall|id: u16| #[trigger] a.registry.contains_key(id) ==> b.registry.contains_key(id) && b.registry[id]
        == a.registry[id]
}

/// `b` is `a` with frames appended: its bytes are those of `a` followed by
/// the bytes of the new frames.
pub open spec fn appends(a: EncoderV, b: EncoderV) -> bool {
    &&& b.start == a.start
    &&& a.frames.len() <= b.frames.len()
    &&& b.frames.take(a.frames.len() as int) == a.frames
    &&& b.bytes == a.bytes + spec_frames_bytes(b.frames.skip(a.frames.len() as int))
}

/// Only appending: an encoder whose frames extend those of another (same
/// start) holds that encoder's bytes followed by the new frames' bytes.
pub proof fn lemma_prefix_appends(a: EncoderV, b: EncoderV)
    requires
        crate::encoder::encoder_inv(a),
        crate::encoder::encoder_inv(b),
        b.start == a.start,
        a.frames.len() <= b.frames.len(),
        b.frames.take(a.frames.len() as int) == a.frames,
    ensures
        appends(a, b),
{
    let rest = b.frames.skip(a.frames.len() as int);
    assert(b.frames =~= a.frames + rest);
    crate::encoder::lemma_frames_bytes_append(a.frames, rest);
    assert(b.bytes =~= a.bytes + spec_frames_bytes(rest));
}

pub(crate) proof fn lemma_grows_trans(a: EncoderV, b: EncoderV, c: EncoderV)
    requires
        grows(a, b),
        grows(b, c),
    ensures
        grows(a, c),
{
    assert(events_of(c).take(events_of(a).len() as int) =~= events_of(b).take(
        events_of(a).len() as int,
    ));
    assert(c.pool.take(a.pool.len() as int) =~= b.pool.take(a.pool.len() as int));
    assert(c.bytes.take(a.bytes.len() as int) =~= b.bytes.take(a.bytes.len() as int));
    assert(c.frames.take(a.frames.len() as int) =~= b.frames.take(a.frames.len() as int));
}

/// Appending frames and bytes keeps what was there as a prefix.
pub(crate) proof fn lemma_appended(a: EncoderV, b: EncoderV, fs: Seq<FrameV>, extra: Seq<u8>)
    requires
        b.frames == a.frames + fs,
        b.bytes == a.bytes + extra,
    ensures
        a.bytes.len() <= b.bytes.len(),
        b.bytes.take(a.bytes.len() as int) == a.bytes,
        a.frames.len() <= b.frames.len(),
        b.frames.take(a.frames.len() as int) == a.frames,
{
    assert(b.bytes.take(a.bytes.len() as int) =~= a.bytes);
    assert(b.frames.take(a.frames.len() as int) =~= a.frames);
}

pub(crate) proof fn lemma_grows_refl(a: EncoderV)
    ensures
        grows(a, a),
{
    assert(events_of(a).take(events_of(a).len() as int) =~= events_of(a));
    assert(a.pool.take(a.pool.len() as int) =~= a.pool);
    assert(a.bytes.take(a.bytes.len() as int) =~= a.bytes);
    assert(a.frames.take(a.frames.len() as int) =~= a.frames);
}

/// Appending a frame that is not silent hands the reader one more item.
pub(crate) proof fn lemma_logical_push(fs: Seq<FrameV>, f: FrameV)
    requires
        !crate::stream::is_silent(f),
    ensures
        logical(fs.push(f)) == logical(fs).push(crate::stream::decoded_of(crate::encoder::replay(fs), f)),
{
    assert(fs.push(f).drop_last() =~= fs);
}

/// Interning grows the encoder and writes no event.
pub(crate) proof fn lemma_intern_grows(o: EncoderV, s: Seq<char>, r: Result<InternedString, EncodeError>, n: EncoderV)
    requires
        intern_spec(o, s, r, n),
    ensures
        grows(o, n),
        events_of(n) == events_of(o),
{
    if n != o {
        let f = n.frames.last();
        assert(n.frames.drop_last() =~= o.frames);
        assert(n.frames =~= o.frames.push(f));
        lemma_logical_push(o.frames, f);
        let w = logical(o.frames);
        assert(logical(n.frames).drop_last() =~= w);
        assert(n.pool.take(o.pool.len() as int) =~= o.pool);
        assert(n.bytes.take(o.bytes.len() as int) =~= o.bytes);
        assert(n.frames.take(o.frames.len() as int) =~= o.frames);
    }
    lemma_grows_refl(o);
    lemma_grows_refl(n);
}

/// Registering grows the encoder and writes no event.
pub(crate) proof fn lemma_register_grows(o: EncoderV, key: TypeId, entry: SchemaV, r: Result<crate::types::WireTypeId, EncodeError>, n: EncoderV)
    requires
        crate::encoder::encoder_inv(o),
        register_spec(o, key, entry, r, n),
    ensures
        grows(o, n),
        events_of(n) == events_of(o),
{
    lemma_grows_refl(o);
    if n != o {
        let f = n.frames.last();
        assert(n.frames.drop_last() =~= o.frames);
        assert(n.frames =~= o.frames.push(f));
        lemma_logical_push(o.frames, f);
        assert(logical(n.frames).drop_last() =~= logical(o.frames));
        assert(n.pool.take(o.pool.len() as int) =~= o.pool);
        let id = o.registry.len() as u16;
        assert(!o.registry.contains_key(id));
        assert(events_of(n).take(events_of(o).len() as int) =~= events_of(o));
        assert(n.bytes.take(o.bytes.len() as int) =~= o.bytes);
        assert(n.frames.take(o.frames.len() as int) =~= o.frames);
    }
}

} // verus!
