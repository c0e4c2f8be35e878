//! Sealed trace segments: files named `{stem}.{index}.bin` that a rotating
//! writer has finished, and the creation time recorded in a segment.

use crate::codec::{spec_decode_header, HEADER_SIZE};
use crate::decoder::{DecodedFrameRef, Decoder};
use crate::stream::{decode_step, fresh_state, lemma_step_advances, DecState, DecodedV, StepOutcome};
use vstd::prelude::*;
use vstd::string::StrSliceExecFns;

verus! {

broadcast use {vstd::seq_lib::to_multiset_insert, vstd::seq_lib::to_multiset_build};

/// The characters of `s`.
pub fn chars_of(s: &str) -> (r: Vec<char>)
    ensures
        r@ == s@,
{
    let n = s.unicode_len();
    let mut r: Vec<char> = Vec::new();
    let mut i: usize = 0;
    while i < n
        invariant
            n == s@.len(),
            i <= n,
            r@ == s@.take(i as int),
        decreases n - i,
    {
        r.push(s.get_char(i));
        assert(s@.take(i + 1) =~= s@.take(i as int).push(s@[i as int]));
        i += 1;
    }
    assert(s@.take(n as int) =~= s@);
    r
}

pub open spec fn is_digit(c: char) -> bool {
    48 <= (c as u32) <= 57
}

/// The number written by decimal digits.
pub open spec fn digits_value(d: Seq<char>) -> nat
    decreases d.len(),
{
    if d.len() == 0 {
        0
    } else {
        digits_value(d.drop_last()) * 10 + ((d.last() as u32) - 48) as nat
    }
}

/// The digits of a number: without a leading `+`.
pub open spec fn strip_plus(s: Seq<char>) -> Seq<char> {
    if s.len() > 0 && s[0] == '+' {
        s.drop_first()
    } else {
        s
    }
}

/// `u32` parsing as `str::parse` does it: an optional `+`, then one or more
/// decimal digits whose value fits.
pub open spec fn spec_parse_u32(s: Seq<char>) -> Option<u32> {
    let d = strip_plus(s);
    if d.len() > 0 && (forall|i: int| 0 <= i < d.len() ==> is_digit(#[trigger] d[i]))
        && digits_value(d) <= u32::MAX {
        Some(digits_value(d) as u32)
    } else {
        None
    }
}

/// The index in a file name `{stem}.{index}.bin`, or `None` for a name of
/// another shape.
pub open spec fn segment_index_spec(name: Seq<char>, stem: Seq<char>) -> Option<u32> {
    if name.len() >= stem.len() + 5 && name.take(stem.len() as int) == stem && name[stem.len() as int]
        == '.' && name.skip(name.len() - 4) == ".bin"@ {
        spec_parse_u32(name.subrange(stem.len() as int + 1, name.len() - 4))
    } else {
        None
    }
}

proof fn lemma_digits_prefix(d: Seq<char>, k: int)
    requires
        0 <= k <= d.len(),
        forall|i: int| 0 <= i < d.len() ==> is_digit(#[trigger] d[i]),
    ensures
        digits_value(d.take(k)) <= digits_value(d),
    decreases d.len(),
{
    if k < d.len() {
        lemma_digits_prefix(d.drop_last(), k);
        assert(d.drop_last().take(k) =~= d.take(k));
    } else {
        assert(d.take(k) =~= d);
    }
}

/// Parse `chars[from..to]` as `str::parse::<u32>` does.
fn parse_u32_range(chars: &Vec<char>, from: usize, to: usize) -> (r: Option<u32>)
    requires
        from <= to <= chars.len(),
    ensures
        r == spec_parse_u32(chars@.subrange(from as int, to as int)),
{
    let ghost s = chars@.subrange(from as int, to as int);
    let mut i = from;
    if i < to && chars[i] == '+' {
        i += 1;
    }
    let ghost d = chars@.subrange(i as int, to as int);
    assert(d =~= strip_plus(s));
    if i == to {
        return None;
    }
    let start = i;
    let mut acc: u64 = 0;
    assert(d.take(0) =~= Seq::<char>::empty());
    while i < to
        invariant
            from <= start <= i <= to <= chars.len(),
            s == chars@.subrange(from as int, to as int),
            d == strip_plus(s),
            d.len() > 0,
            d == chars@.subrange(start as int, to as int),
            acc == digits_value(d.take(i - start)),
            acc <= u32::MAX,
            forall|j: int| 0 <= j < i - start ==> is_digit(#[trigger] d[j]),
        decreases to - i,
    {
        let v = chars[i] as u32;
        if v < 48 || v > 57 {
            proof {
                assert(!is_digit(d[i - start]));
                assert(!(forall|j: int| 0 <= j < d.len() ==> is_digit(#[trigger] d[j])));
                assert(spec_parse_u32(s) is None);
            }
            return None;
        }
        proof {
            assert(d.take(i - start + 1).drop_last() =~= d.take(i - start));
            assert(d.take(i - start + 1).last() == d[i - start]);
        }
        acc = acc * 10 + (v - 48) as u64;
        assert(acc == digits_value(d.take(i - start + 1)));
        if acc > u32::MAX as u64 {
            proof {
                if forall|j: int| 0 <= j < d.len() ==> is_digit(#[trigger] d[j]) {
                    lemma_digits_prefix(d, i - start + 1);
                }
            }
            return None;
        }
        i += 1;
    }
    assert(d.take(to - start) =~= d);
    Some(acc as u32)
}

/// The index in a segment file name `{stem}.{index}.bin`: `None` when the
/// name does not start with `stem` and a dot, does not end with `.bin`, or
/// what is between is not a `u32`.
pub fn parse_segment_index(file_name: &str, stem: &str) -> (r: Option<u32>)
    ensures
        r == segment_index_spec(file_name@, stem@),
{
    let name = chars_of(file_name);
    let st = chars_of(stem);
    let n = name.len();
    let k = st.len();
    if n < 5 || k > n - 5 {
        return None;
    }
    let mut i: usize = 0;
    while i < k
        invariant
            k <= n - 5,
            n == name@.len(),
            k == st@.len(),
            name@ == file_name@,
            st@ == stem@,
            i <= k,
            forall|j: int| 0 <= j < i ==> name@[j] == st@[j],
        decreases k - i,
    {
        if name[i] != st[i] {
            proof {
                if name@.take(k as int) == st@ {
                    assert(name@.take(k as int)[i as int] == st@[i as int]);
                }
            }
            return None;
        }
        i += 1;
    }
    assert(name@.take(k as int) =~= st@);
    if name[k] != '.' {
        return None;
    }
    if name[n - 4] != '.' || name[n - 3] != 'b' || name[n - 2] != 'i' || name[n - 1] != 'n' {
        proof {
            reveal_strlit(".bin");
            if name@.skip(n - 4) == ".bin"@ {
                assert(name@.skip(n - 4)[0] == '.');
                assert(name@.skip(n - 4)[1] == 'b');
                assert(name@.skip(n - 4)[2] == 'i');
                assert(name@.skip(n - 4)[3] == 'n');
            }
        }
        return None;
    }
    proof {
        reveal_strlit(".bin");
        assert(name@.skip(n - 4) =~= ".bin"@);
    }
    parse_u32_range(&name, k + 1, n - 4)
}

/// A sealed trace segment: its file name and index.
#[derive(Debug, Clone, PartialEq, Eq)]
pub struct SealedSegment {
    pub file_name: String,
    pub index: u32,
}

pub open spec fn segment_view(s: SealedSegment) -> (Seq<char>, u32) {
    (s.file_name@, s.index)
}

pub open spec fn segments_view(s: Seq<SealedSegment>) -> Seq<(Seq<char>, u32)> {
    s.map_values(|x: SealedSegment| segment_view(x))
}

/// The names that are segments of `stem`, in order, with their indices.
pub open spec fn matching_segments(names: Seq<Seq<char>>, stem: Seq<char>) -> Seq<(Seq<char>, u32)>
    decreases names.len(),
{
    if names.len() == 0 {
        Seq::empty()
    } else {
        let r = matching_segments(names.drop_last(), stem);
        match segment_index_spec(names.last(), stem) {
            Some(i) => r.push((names.last(), i)),
            None => r,
        }
    }
}

pub open spec fn sorted_by_index(s: Seq<(Seq<char>, u32)>) -> bool {
    forall|i: int, j: int| 0 <= i < j < s.len() ==> #[trigger] s[i].1 <= #[trigger] s[j].1
}

/// The segments of `stem` among the file names `names`, oldest (lowest
/// index) first.
pub fn select_sealed_segments(names: &Vec<String>, stem: &str) -> (r: Vec<SealedSegment>)
    ensures
        sorted_by_index(segments_view(r@)),
        segments_view(r@).to_multiset() == matching_segments(
            names@.map_values(|s: String| s@),
            stem@,
        ).to_multiset(),
{
    let ghost all = names@.map_values(|s: String| s@);
    let mut r: Vec<SealedSegment> = Vec::new();
    let mut i: usize = 0;
    assert(all.take(0) =~= Seq::<Seq<char>>::empty());
    assert(segments_view(r@) =~= Seq::<(Seq<char>, u32)>::empty());
    while i < names.len()
        invariant
            i <= names.len(),
            all == names@.map_values(|s: String| s@),
            sorted_by_index(segments_view(r@)),
            segments_view(r@).to_multiset() == matching_segments(all.take(i as int), stem@).to_multiset(),
        decreases names.len() - i,
    {
        proof {
            assert(all.take(i + 1).drop_last() =~= all.take(i as int));
            assert(all.take(i + 1).last() == names@[i as int]@);
        }
        match parse_segment_index(names[i].as_str(), stem) {
            Some(index) => {
                let mut p: usize = 0;
                while p < r.len() && r[p].index <= index
                    invariant
                        p <= r.len(),
                        forall|j: int| 0 <= j < p ==> (#[trigger] r@[j]).index <= index,
                    decreases r.len() - p,
                {
                    p += 1;
                }
                let ghost old_view = segments_view(r@);
                let seg = SealedSegment { file_name: names[i].clone(), index };
                r.insert(p, seg);
                proof {
                    assert(segments_view(r@) =~= old_view.insert(p as int, segment_view(seg)));
                    assert forall|a: int, b: int|
                        0 <= a < b < segments_view(r@).len() implies #[trigger] segments_view(r@)[a].1
                        <= #[trigger] segments_view(r@)[b].1 by {
                        if p < old_view.len() {
                            assert(old_view[p as int].1 > index);
                        }
                        if b < p {
                        } else if b == p {
                            assert(segments_view(r@)[a].1 == r@[a].index);
                        } else if a < p {
                            assert(old_view[a].1 <= index);
                            assert(old_view[a].1 <= old_view[b - 1].1);
                        } else if a == p {
                            assert(old_view[p as int].1 <= old_view[b - 1].1);
                        } else {
                            assert(old_view[a - 1].1 <= old_view[b - 1].1);
                        }
                    }
                    assert(matching_segments(all.take(i + 1), stem@) == matching_segments(
                        all.take(i as int),
                        stem@,
                    ).push((all[i as int], index)));
                }
            },
            None => {},
        }
        i += 1;
    }
    assert(all.take(names.len() as int) =~= all);
    r
}

/// Scanning frames for the first `SegmentMetadataEvent` event: its
/// timestamp; `None` at the end of the frames, at an error, at an event
/// whose schema is unknown, or once ten other events went by.
pub open spec fn scan_segment_timestamp(s: DecState, seen: nat) -> Option<u64>
    decreases s.data.len() - s.pos,
{
    if s.pos > s.data.len() {
        None
    } else {
        let (out, s1) = decode_step(s);
        match out {
            StepOutcome::Frame(DecodedV::Event { type_id, timestamp_ns, .. }) => {
                if !s1.tables.registry.contains_key(type_id) {
                    None
                } else if s1.tables.registry[type_id].name == "SegmentMetadataEvent"@ {
                    timestamp_ns
                } else if seen + 1 >= 10 {
                    None
                } else {
                    proof {
                        lemma_step_advances(s);
                    }
                    scan_segment_timestamp(s1, seen + 1)
                }
            },
            StepOutcome::Frame(_) => {
                proof {
                    lemma_step_advances(s);
                }
                scan_segment_timestamp(s1, seen)
            },
            _ => None,
        }
    }
}

/// The timestamp of a segment's metadata event among its first ten events.
pub open spec fn segment_timestamp_spec(data: Seq<u8>) -> Option<u64> {
    match spec_decode_header(data) {
        Some(v) => scan_segment_timestamp(fresh_state(data, HEADER_SIZE as nat, v), 0),
        None => None,
    }
}

/// The timestamp (ns) of the first `SegmentMetadataEvent` event of a trace
/// segment, looked for among its first ten events.
pub fn parse_segment_timestamp(data: &[u8]) -> (r: Option<u64>)
    ensures
        r == segment_timestamp_spec(data@),
{
    let mut dec = match Decoder::new(data) {
        Some(d) => d,
        None => return None,
    };
    let target = "SegmentMetadataEvent".to_owned();
    let mut seen: usize = 0;
    loop
        invariant
            dec.wf(),
            seen < 10,
            target@ == "SegmentMetadataEvent"@,
            dec.state().pos <= dec.state().data.len(),
            scan_segment_timestamp(dec.state(), seen as nat) == segment_timestamp_spec(data@),
        decreases dec.state().data.len() - dec.state().pos,
    {
        let ghost s = dec.state();
        proof {
            lemma_step_advances(s);
        }
        match dec.next_frame_ref() {
            Ok(Some(DecodedFrameRef::Event { type_id, timestamp_ns, .. })) => {
                seen += 1;
                let name_matches = match dec.registry().get(type_id) {
                    Some(e) => e.name == target,
                    None => return None,
                };
                if name_matches {
                    return timestamp_ns;
                }
                if seen >= 10 {
                    return None;
                }
            },
            Ok(Some(_)) => {},
            _ => return None,
        }
    }
}

/// Segment creation time in seconds since the epoch: from the metadata
/// event's timestamp when there is one (`true`), else `fallback_secs`
/// (`false`).
pub fn creation_epoch_secs(data: &[u8], fallback_secs: u64) -> (r: (u64, bool))
    ensures
        r == match segment_timestamp_spec(data@) {
            Some(ts) => (ts / 1_000_000_000, true),
            None => (fallback_secs, false),
        },
{
    match parse_segment_timestamp(data) {
        Some(ts) => (ts / 1_000_000_000, true),
        None => (fallback_secs, false),
    }
}

/// The file name of segment `index` of `stem`: `{stem}.{index}.bin`, the
/// index in decimal.
pub open spec fn segment_name(stem: Seq<char>, index: u32) -> Seq<char> {
    stem + "."@ + crate::profiling::decimal_digits(index as nat) + ".bin"@
}

proof fn lemma_decimal(n: nat)
    ensures
        crate::profiling::decimal_digits(n).len() >= 1,
        forall|i: int|
            0 <= i < crate::profiling::decimal_digits(n).len() ==> is_digit(
                #[trigger] crate::profiling::decimal_digits(n)[i],
            ),
        digits_value(crate::profiling::decimal_digits(n)) == n,
    decreases n,
{
    let d = crate::profiling::decimal_digits(n);
    assert(((48 + n % 10) as char) as u32 == 48 + n % 10);
    if n < 10 {
        assert(d.drop_last() =~= Seq::<char>::empty());
        assert(((48 + n) as char) as u32 == 48 + n);
        assert(digits_value(d) == digits_value(d.drop_last()) * 10 + ((d.last() as u32) - 48) as nat);
    } else {
        lemma_decimal(n / 10);
        let p = crate::profiling::decimal_digits(n / 10);
        assert(d == p.push((48 + n % 10) as char));
        assert(d.drop_last() =~= p);
        assert forall|i: int| 0 <= i < d.len() implies is_digit(#[trigger] d[i]) by {
            if i < p.len() {
                assert(d[i] == p[i]);
            }
        }
        assert((n / 10) * 10 + n % 10 == n);
        assert(digits_value(d) == digits_value(p) * 10 + ((d.last() as u32) - 48) as nat);
    }
}

/// A segment's file name parses back to its index: the names the rotating
/// writer gives its files are the names that count as its segments.
pub proof fn lemma_segment_name_parses(stem: Seq<char>, index: u32)
    ensures
        segment_index_spec(segment_name(stem, index), stem) == Some(index),
{
    reveal_strlit(".");
    reveal_strlit(".bin");
    let d = crate::profiling::decimal_digits(index as nat);
    lemma_decimal(index as nat);
    let name = segment_name(stem, index);
    let k = stem.len() as int;
    assert(name.len() == k + 1 + d.len() + 4);
    assert(name.take(k) =~= stem);
    assert(name[k] == '.');
    assert(name.skip(name.len() - 4) =~= ".bin"@);
    assert(name.subrange(k + 1, name.len() - 4) =~= d);
    assert(is_digit(d[0]));
    assert(strip_plus(d) == d);
}

} // verus!
