//! The decisions of a rotating trace writer: when to start a new file, which
//! old files to delete to stay within the total budget, and when to stop
//! writing. Files are numbered; each starts with a header. The writer hands
//! back the file operations to perform, in order; performing them (creating,
//! appending, flushing and deleting files) is the caller's part.

use vstd::prelude::*;
use vstd::string::StringExecFns;

verus! {

/// Result of [`RotatingWriter::write_atomic`].
#[derive(Debug, Clone, Copy, PartialEq, Eq, Structural)]
pub enum WriteAtomicResult {
    /// All events were written to the current file.
    Written,
    /// A rotation occurred before writing; the events were not written and
    /// are to be retried (after re-emitting definitions) into the new file.
    Rotated,
    /// The batch is larger than a file may be; the events were not written
    /// and are to be skipped.
    OversizedBatch,
    /// The writer has used up its total size budget: the events from the
    /// point where it stopped on were dropped (all of them when it had
    /// stopped before the call).
    Stopped,
}

/// A file operation, to be performed in the order given.
#[derive(Debug, Clone, Copy, PartialEq, Eq, Structural)]
pub enum FileOp {
    /// Flush the current file.
    Flush,
    /// Start file `index` (with a header) and make it the current file.
    Open(u32),
    /// Delete file `index`.
    Remove(u32),
    /// Append the event at hand to the current file.
    Append,
}

/// The state of a rotating writer.
pub struct RotationV {
    pub max_file_size: u64,
    pub max_total_size: u64,
    pub header_size: u64,
    /// Files (index, size), oldest first; the last is the current file.
    pub files: Seq<(u32, u64)>,
    pub total_size: u64,
    pub current_size: u64,
    pub next_index: u32,
    /// The total budget was exceeded: further events are dropped.
    pub stopped: bool,
    /// A rotation happened since the flag was last taken.
    pub rotated: bool,
}

/// Sum of the file sizes.
pub open spec fn sizes_sum(files: Seq<(u32, u64)>) -> int
    decreases files.len(),
{
    if files.len() == 0 {
        0
    } else {
        sizes_sum(files.drop_last()) + files.last().1
    }
}

/// Sum of event sizes.
pub open spec fn seq_sum(s: Seq<u64>) -> int
    decreases s.len(),
{
    if s.len() == 0 {
        0
    } else {
        seq_sum(s.drop_last()) + s.last()
    }
}

/// The writer's invariant: there is a current file; the total is the sum of
/// the file sizes and the current size the last file's; indices increase
/// and stay below the next one; and when not stopped the total is within
/// budget, unless nothing but the first header was written.
pub open spec fn rotation_inv(v: RotationV) -> bool {
    &&& v.files.len() >= 1
    &&& v.total_size == sizes_sum(v.files)
    &&& v.current_size == v.files.last().1
    &&& forall|i: int, j: int| 0 <= i < j < v.files.len() ==> #[trigger] v.files[i].0 < #[trigger] v.files[j].0
    &&& v.files.last().0 < v.next_index
    &&& (!v.stopped && v.total_size > v.max_total_size ==> v.files.len() == 1 && v.total_size
        == v.header_size)
}

/// Deleting oldest files while over budget, always keeping the current one:
/// the files left, their total, and the indices deleted.
pub open spec fn evict_spec(files: Seq<(u32, u64)>, total: int, max: u64) -> (Seq<(u32, u64)>, int, Seq<u32>)
    decreases files.len(),
{
    if total > max && files.len() > 1 {
        let (f, t, r) = evict_spec(files.drop_first(), total - files[0].1, max);
        (f, t, seq![files[0].0] + r)
    } else {
        (files, total, Seq::empty())
    }
}

pub open spec fn remove_ops(r: Seq<u32>) -> Seq<FileOp> {
    r.map_values(|i: u32| FileOp::Remove(i))
}

/// Rotation: flush the current file, open the next one (a header's worth of
/// bytes), then delete old files while over budget; still over budget means
/// stop.
pub open spec fn rotate_spec(v: RotationV) -> (RotationV, Seq<FileOp>) {
    let idx = v.next_index;
    let files1 = v.files.push((idx, v.header_size));
    let (files2, total2, removed) = evict_spec(files1, v.total_size + v.header_size, v.max_total_size);
    (
        RotationV {
            files: files2,
            total_size: total2 as u64,
            current_size: v.header_size,
            next_index: (idx + 1) as u32,
            stopped: v.stopped || total2 > v.max_total_size,
            rotated: true,
            ..v
        },
        seq![FileOp::Flush, FileOp::Open(idx)] + remove_ops(removed),
    )
}

/// Writing one event of `size` bytes: dropped when stopped; otherwise a
/// rotation first when it does not fit in the current file, and (unless
/// that stopped the writer) appended; going over budget then stops the
/// writer after a flush.
pub open spec fn write_event_spec(v: RotationV, size: u64) -> (RotationV, Seq<FileOp>) {
    if v.stopped {
        (v, Seq::empty())
    } else {
        let (v1, ops1) = if v.current_size + size > v.max_file_size {
            rotate_spec(v)
        } else {
            (v, Seq::empty())
        };
        if v1.stopped {
            (v1, ops1)
        } else {
            let cur = (v1.current_size + size) as u64;
            let total = (v1.total_size + size) as u64;
            let stop = total > v1.max_total_size;
            (
                RotationV {
                    files: v1.files.update(v1.files.len() - 1, (v1.files.last().0, cur)),
                    total_size: total,
                    current_size: cur,
                    stopped: stop,
                    ..v1
                },
                ops1.push(FileOp::Append) + if stop {
                    seq![FileOp::Flush]
                } else {
                    Seq::empty()
                },
            )
        }
    }
}

/// Whether writing an event of `size` bytes appends it: the writer has not
/// stopped, and a rotation before it does not stop the writer.
pub open spec fn event_written(v: RotationV, size: u64) -> bool {
    &&& !v.stopped
    &&& !(v.current_size + size > v.max_file_size && rotate_spec(v).0.stopped)
}

/// Whether writing events one after the other appends every one of them.
pub open spec fn all_written(v: RotationV, sizes: Seq<u64>) -> bool
    decreases sizes.len(),
{
    if sizes.len() == 0 {
        true
    } else {
        all_written(v, sizes.drop_last()) && event_written(write_all_spec(v, sizes.drop_last()).0, sizes.last())
    }
}

/// Writing events one after the other.
pub open spec fn write_all_spec(v: RotationV, sizes: Seq<u64>) -> (RotationV, Seq<FileOp>)
    decreases sizes.len(),
{
    if sizes.len() == 0 {
        (v, Seq::empty())
    } else {
        let (v1, ops1) = write_all_spec(v, sizes.drop_last());
        let (v2, ops2) = write_event_spec(v1, sizes.last());
        (v2, ops1 + ops2)
    }
}

/// Writing a group of events into one file: a rotation first when the
/// group does not fit in the current file; if a rotation happened (now or
/// since the flag was last taken) nothing is written and the result says
/// whether the group fits in a fresh file; otherwise the events are written
/// one after the other, and the result says whether every one of them was
/// (not when the writer is or becomes stopped before the last one).
pub open spec fn write_atomic_spec(v: RotationV, sizes: Seq<u64>) -> (RotationV, Seq<FileOp>, WriteAtomicResult) {
    let total = seq_sum(sizes);
    let (v1, ops1) = if !v.stopped && v.current_size + total > v.max_file_size {
        rotate_spec(v)
    } else {
        (v, Seq::empty())
    };
    if v1.rotated {
        if v1.current_size + total > v1.max_file_size {
            (v1, ops1, WriteAtomicResult::OversizedBatch)
        } else {
            (v1, ops1, WriteAtomicResult::Rotated)
        }
    } else {
        let (v2, ops2) = write_all_spec(v1, sizes);
        (v2, ops1 + ops2, if all_written(v1, sizes) {
            WriteAtomicResult::Written
        } else {
            WriteAtomicResult::Stopped
        })
    }
}

/// The name of segment file `index` of a writer whose base file has the
/// stem `stem`: the stem, a dot, the index in decimal and `.bin`.
pub fn segment_file_name(stem: &str, index: u32) -> (r: String)
    ensures
        r@ == stem@ + "."@ + crate::profiling::decimal_digits(index as nat) + ".bin"@,
{
    let mut r = stem.to_owned();
    r.append(".");
    let digits = crate::profiling::format_decimal(index);
    r.append(digits.as_str());
    r.append(".bin");
    r
}

/// Room in the counters for `n` more events of `bytes` bytes in all: the
/// sizes stay within `u64` even with a header per event, and file numbers
/// within `u32`.
pub open spec fn has_room(v: RotationV, n: nat, bytes: int) -> bool {
    &&& v.total_size + n * v.header_size + bytes <= u64::MAX
    &&& v.next_index + n < u32::MAX
}

/// Every file is within the file size limit.
pub open spec fn files_within(v: RotationV) -> bool {
    forall|i: int| 0 <= i < v.files.len() ==> (#[trigger] v.files[i]).1 <= v.max_file_size
}

proof fn lemma_sum_nonneg(files: Seq<(u32, u64)>)
    ensures
        sizes_sum(files) >= 0,
        files.len() > 0 ==> sizes_sum(files) >= files.last().1,
    decreases files.len(),
{
    if files.len() > 0 {
        lemma_sum_nonneg(files.drop_last());
    }
}

proof fn lemma_sum_first(files: Seq<(u32, u64)>)
    requires
        files.len() > 0,
    ensures
        sizes_sum(files) == files[0].1 + sizes_sum(files.drop_first()),
    decreases files.len(),
{
    if files.len() > 1 {
        lemma_sum_first(files.drop_last());
        assert(files.drop_last().drop_first() =~= files.drop_first().drop_last());
        assert(files.drop_first().last() == files.last());
    } else {
        assert(files.drop_first() =~= Seq::<(u32, u64)>::empty());
        assert(files.drop_last() =~= Seq::<(u32, u64)>::empty());
    }
}

proof fn lemma_sum_update_last(files: Seq<(u32, u64)>, x: (u32, u64))
    requires
        files.len() > 0,
    ensures
        sizes_sum(files.update(files.len() - 1, x)) == sizes_sum(files) - files.last().1 + x.1,
{
    let g = files.update(files.len() - 1, x);
    assert(g.drop_last() =~= files.drop_last());
}

/// What eviction leaves: a non-empty suffix of the files whose total is the
/// sum, within budget or down to the current file; the deleted files are
/// the ones before it.
proof fn lemma_evict(files: Seq<(u32, u64)>, total: int, max: u64)
    requires
        files.len() >= 1,
        total == sizes_sum(files),
    ensures
        ({
            let (f, t, r) = evict_spec(files, total, max);
            &&& f.len() >= 1
            &&& r.len() + f.len() == files.len()
            &&& f == files.skip(r.len() as int)
            &&& t == sizes_sum(f)
            &&& t <= total
            &&& (t > max ==> f.len() == 1)
            &&& forall|k: int| 0 <= k < r.len() ==> r[k] == #[trigger] files[k].0
        }),
    decreases files.len(),
{
    if total > max && files.len() > 1 {
        lemma_sum_first(files);
        lemma_sum_nonneg(files.drop_first());
        let (f, t, r) = evict_spec(files.drop_first(), total - files[0].1, max);
        lemma_evict(files.drop_first(), total - files[0].1, max);
        assert(files.drop_first().skip(r.len() as int) =~= files.skip(r.len() as int + 1));
        assert forall|k: int| 0 <= k < r.len() + 1 implies (seq![files[0].0] + r)[k] == #[trigger] files[k].0 by {
            if k > 0 {
                assert(files.drop_first()[k - 1] == files[k]);
            }
        }
    } else {
        assert(files.skip(0) =~= files);
    }
}

proof fn lemma_rotate(v: RotationV)
    requires
        rotation_inv(v),
        has_room(v, 1, 0),
    ensures
        ({
            let (v1, ops) = rotate_spec(v);
            &&& rotation_inv(v1)
            &&& v1.total_size <= v.total_size + v.header_size
            &&& (v1.total_size > v.max_total_size ==> v1.total_size == v.header_size)
            &&& v1.current_size == v.header_size
            &&& v1.files.last() == (v.next_index, v.header_size)
            &&& v1.next_index == v.next_index + 1
            &&& forall|i: int| 0 <= i < v1.files.len() - 1 ==> v.files.contains(#[trigger] v1.files[i])
            &&& v1.max_file_size == v.max_file_size && v1.max_total_size == v.max_total_size
                && v1.header_size == v.header_size
        }),
{
    let idx = v.next_index;
    let files1 = v.files.push((idx, v.header_size));
    assert(files1.drop_last() =~= v.files);
    let total1 = v.total_size + v.header_size;
    lemma_evict(files1, total1, v.max_total_size);
    let (f, t, r) = evict_spec(files1, total1, v.max_total_size);
    assert(f.last() == files1.last());
    lemma_sum_nonneg(f);
    if t > v.max_total_size {
        assert(f[0] == files1[files1.len() - 1]);
        assert(f =~= seq![files1.last()]);
        assert(f.drop_last() =~= Seq::<(u32, u64)>::empty());
        assert(sizes_sum(Seq::<(u32, u64)>::empty()) == 0);
        assert(t == v.header_size);
    }
    assert forall|i: int, j: int| 0 <= i < j < f.len() implies #[trigger] f[i].0 < #[trigger] f[j].0 by {
        assert(f[i] == files1[i + r.len()]);
        assert(f[j] == files1[j + r.len()]);
    }
    assert forall|i: int| 0 <= i < f.len() - 1 implies v.files.contains(#[trigger] f[i]) by {
        assert(f[i] == files1[i + r.len()]);
        assert(v.files[i + r.len()] == f[i]);
    }
}

/// One event step keeps the invariant; the counters stay in range.
proof fn lemma_write_event(v: RotationV, size: u64)
    requires
        rotation_inv(v),
        has_room(v, 1, size as int),
    ensures
        ({
            let (v1, ops) = write_event_spec(v, size);
            &&& rotation_inv(v1)
            &&& v1.total_size <= v.total_size + v.header_size + size
            &&& v1.next_index <= v.next_index + 1
            &&& v1.max_file_size == v.max_file_size && v1.max_total_size == v.max_total_size
                && v1.header_size == v.header_size
        }),
{
    lemma_sum_nonneg(v.files);
    if !v.stopped {
        let (v1, ops1) = if v.current_size + size > v.max_file_size {
            rotate_spec(v)
        } else {
            (v, Seq::<FileOp>::empty())
        };
        if v.current_size + size > v.max_file_size {
            lemma_rotate(v);
        }
        lemma_sum_nonneg(v1.files);
        if !v1.stopped {
            let cur = (v1.current_size + size) as u64;
            lemma_sum_update_last(v1.files, (v1.files.last().0, cur));
            let g = v1.files.update(v1.files.len() - 1, (v1.files.last().0, cur));
            assert forall|i: int, j: int| 0 <= i < j < g.len() implies #[trigger] g[i].0 < #[trigger] g[j].0 by {
                assert(g[i].0 == v1.files[i].0);
                assert(g[j].0 == v1.files[j].0);
            }
        }
    }
}

/// The mutable state of a rotating writer (see [`RotationV`]).
pub struct RotatingWriter {
    max_file_size: u64,
    max_total_size: u64,
    header_size: u64,
    files: Vec<(u32, u64)>,
    total_size: u64,
    current_size: u64,
    next_index: u32,
    stopped: bool,
    rotated: bool,
}

impl View for RotatingWriter {
    type V = RotationV;

    closed spec fn view(&self) -> RotationV {
        RotationV {
            max_file_size: self.max_file_size,
            max_total_size: self.max_total_size,
            header_size: self.header_size,
            files: self.files@,
            total_size: self.total_size,
            current_size: self.current_size,
            next_index: self.next_index,
            stopped: self.stopped,
            rotated: self.rotated,
        }
    }
}

impl RotatingWriter {
    pub open spec fn wf(&self) -> bool {
        rotation_inv(self@)
    }

    /// A writer whose first file, number 0, holds only its header; files
    /// rotate past `max_file_size` bytes and the oldest are deleted past
    /// `max_total_size` bytes in all.
    pub fn new(max_file_size: u64, max_total_size: u64, header_size: u64) -> (r: RotatingWriter)
        ensures
            r.wf(),
            r@ == (RotationV {
                max_file_size,
                max_total_size,
                header_size,
                files: seq![(0u32, header_size)],
                total_size: header_size,
                current_size: header_size,
                next_index: 1,
                stopped: false,
                rotated: false,
            }),
    {
        let r = RotatingWriter {
            max_file_size,
            max_total_size,
            header_size,
            files: vec![(0u32, header_size)],
            total_size: header_size,
            current_size: header_size,
            next_index: 1,
            stopped: false,
            rotated: false,
        };
        proof {
            assert(r@.files =~= seq![(0u32, header_size)]);
            assert(r@.files.drop_last() =~= Seq::<(u32, u64)>::empty());
            assert(sizes_sum(Seq::<(u32, u64)>::empty()) == 0);
            assert(sizes_sum(r@.files) == header_size);
        }
        r
    }

    /// A writer for a single file: no size limits, so it never rotates or
    /// deletes.
    pub fn single_file(header_size: u64) -> (r: RotatingWriter)
        ensures
            r.wf(),
            r@ == (RotationV {
                max_file_size: u64::MAX,
                max_total_size: u64::MAX,
                header_size,
                files: seq![(0u32, header_size)],
                total_size: header_size,
                current_size: header_size,
                next_index: 1,
                stopped: false,
                rotated: false,
            }),
    {
        Self::new(u64::MAX, u64::MAX, header_size)
    }

    /// Whether the counters have room for `n` more events of `bytes` bytes in
    /// all (see [`has_room`]).
    pub fn has_room_for(&self, n: u64, bytes: u64) -> (r: bool)
        ensures
            r == has_room(self@, n as nat, bytes as int),
    {
        let headers = match n.checked_mul(self.header_size) {
            Some(h) => h,
            None => return false,
        };
        let with_headers = match self.total_size.checked_add(headers) {
            Some(t) => t,
            None => return false,
        };
        if with_headers.checked_add(bytes).is_none() {
            return false;
        }
        match (self.next_index as u64).checked_add(n) {
            Some(k) => k < u32::MAX as u64,
            None => false,
        }
    }

    /// Whether writing has stopped for good.
    pub fn is_stopped(&self) -> (r: bool)
        ensures
            r == self@.stopped,
    {
        self.stopped
    }

    /// The index of the current file.
    pub fn current_index(&self) -> (r: u32)
        requires
            self.wf(),
        ensures
            r == self@.files.last().0,
    {
        self.files[self.files.len() - 1].0
    }

    fn rotate(&mut self, ops: &mut Vec<FileOp>)
        requires
            old(self).wf(),
            has_room(old(self)@, 1, 0),
        ensures
            final(self)@ == rotate_spec(old(self)@).0,
            final(ops)@ == old(ops)@ + rotate_spec(old(self)@).1,
    {
        let ghost o = self@;
        proof {
            lemma_rotate(o);
            lemma_sum_nonneg(o.files);
        }
        ops.push(FileOp::Flush);
        let idx = self.next_index;
        self.next_index = idx + 1;
        ops.push(FileOp::Open(idx));
        self.current_size = self.header_size;
        self.total_size = self.total_size + self.header_size;
        self.files.push((idx, self.header_size));
        self.rotated = true;
        let ghost ops0 = ops@;
        let ghost files1 = self.files@;
        let ghost total1 = self.total_size as int;
        let ghost removed: Seq<u32> = Seq::empty();
        assert(files1.drop_last() =~= o.files);
        while self.total_size > self.max_total_size && self.files.len() > 1
            invariant
                self.files.len() >= 1,
                self.total_size == sizes_sum(self.files@),
                self.max_total_size == o.max_total_size,
                self.max_file_size == o.max_file_size,
                self.header_size == o.header_size,
                self.current_size == o.header_size,
                self.next_index == o.next_index + 1,
                self.stopped == o.stopped,
                self.rotated,
                ops@ == ops0 + remove_ops(removed),
                ({
                    let (f, t, r) = evict_spec(self.files@, self.total_size as int, self.max_total_size);
                    evict_spec(files1, total1, o.max_total_size) == (f, t, removed + r)
                }),
            decreases self.files.len(),
        {
            let ghost before = self.files@;
            proof {
                lemma_sum_first(before);
                lemma_sum_nonneg(before.drop_first());
            }
            let (index, size) = self.files.remove(0);
            assert(self.files@ =~= before.drop_first());
            self.total_size = self.total_size - size;
            ops.push(FileOp::Remove(index));
            proof {
                let (f, t, r) = evict_spec(self.files@, self.total_size as int, self.max_total_size);
                assert(removed.push(index) + r =~= removed + (seq![index] + r));
                assert(remove_ops(removed.push(index)) =~= remove_ops(removed).push(FileOp::Remove(index)));
                removed = removed.push(index);
            }
        }
        proof {
            assert(!(self.total_size > self.max_total_size && self.files.len() > 1));
            assert(evict_spec(self.files@, self.total_size as int, self.max_total_size) == (
                self.files@,
                self.total_size as int,
                Seq::<u32>::empty(),
            ));
            assert(removed + Seq::<u32>::empty() =~= removed);
        }
        if self.total_size > self.max_total_size {
            self.stopped = true;
        }
        proof {
            assert(ops@ =~= old(ops)@ + (seq![FileOp::Flush, FileOp::Open(o.next_index)] + remove_ops(removed)));
            let (f, t, rr) = evict_spec(files1, total1, o.max_total_size);
            assert(f == self.files@);
            assert(t == self.total_size);
            assert(self.next_index == o.next_index + 1);
            assert(self.stopped == (o.stopped || t > o.max_total_size));
            assert(self@.files == rotate_spec(o).0.files);
            assert(self@.total_size == rotate_spec(o).0.total_size);
            assert(self@ == rotate_spec(o).0);
        }
    }

    fn write_event_ops(&mut self, size: u64, ops: &mut Vec<FileOp>) -> (w: bool)
        requires
            old(self).wf(),
            has_room(old(self)@, 1, size as int),
        ensures
            final(self)@ == write_event_spec(old(self)@, size).0,
            final(ops)@ == old(ops)@ + write_event_spec(old(self)@, size).1,
            w == event_written(old(self)@, size),
    {
        let ghost o = self@;
        proof {
            lemma_write_event(o, size);
            lemma_sum_nonneg(o.files);
        }
        if self.stopped {
            assert(ops@ =~= old(ops)@ + Seq::<FileOp>::empty());
            return false;
        }
        if self.current_size + size > self.max_file_size {
            self.rotate(ops);
            if self.stopped {
                return false;
            }
        } else {
            assert(ops@ =~= old(ops)@ + Seq::<FileOp>::empty());
        }
        let ghost v1 = self@;
        let ghost ops1 = ops@;
        proof {
            if o.current_size + size > o.max_file_size {
                lemma_rotate(o);
            }
            lemma_sum_nonneg(v1.files);
        }
        ops.push(FileOp::Append);
        self.current_size = self.current_size + size;
        self.total_size = self.total_size + size;
        let last = self.files.len() - 1;
        let index = self.files[last].0;
        self.files.set(last, (index, self.current_size));
        if self.total_size > self.max_total_size {
            ops.push(FileOp::Flush);
            self.stopped = true;
        }
        proof {
            assert(ops@ =~= old(ops)@ + write_event_spec(o, size).1);
        }
        true
    }

    /// Write one event of `size` bytes; the file operations to perform.
    /// Stopping is for good: a stopped writer drops every event.
    pub fn write_event(&mut self, size: u64) -> (r: Vec<FileOp>)
        requires
            old(self).wf(),
            has_room(old(self)@, 1, size as int),
        ensures
            final(self).wf(),
            (final(self)@, r@) == write_event_spec(old(self)@, size),
            old(self)@.stopped ==> final(self)@ == old(self)@ && r@.len() == 0,
            !final(self)@.stopped && final(self)@.total_size > final(self)@.max_total_size ==> final(self)@.total_size == final(self)@.header_size,
            !old(self)@.stopped && old(self)@.total_size <= old(self)@.max_total_size ==> final(self)@.total_size <= old(self)@.max_total_size + size || final(self)@.total_size == final(self)@.header_size,
            files_within(old(self)@) && old(self)@.header_size + size <= old(self)@.max_file_size
                ==> files_within(final(self)@),
    {
        let mut ops: Vec<FileOp> = Vec::new();
        let ghost o = self@;
        self.write_event_ops(size, &mut ops);
        assert(ops@ =~= write_event_spec(o, size).1);
        proof {
            lemma_write_event(o, size);
            lemma_event_bounds(o, size);
        }
        ops
    }

    /// Write events of the given sizes one after the other; also whether
    /// every one of them was appended.
    fn write_all_ops(&mut self, sizes: &[u64]) -> (r: (Vec<FileOp>, bool))
        requires
            old(self).wf(),
            has_room(old(self)@, sizes@.len(), seq_sum(sizes@)),
        ensures
            final(self).wf(),
            (final(self)@, r.0@) == write_all_spec(old(self)@, sizes@),
            r.1 == all_written(old(self)@, sizes@),
    {
        let mut ops: Vec<FileOp> = Vec::new();
        let ghost o = self@;
        let mut all = true;
        let mut i: usize = 0;
        while i < sizes.len()
            invariant
                i <= sizes.len(),
                self.wf(),
                has_room(o, sizes@.len(), seq_sum(sizes@)),
                (self@, ops@) == write_all_spec(o, sizes@.take(i as int)),
                all == all_written(o, sizes@.take(i as int)),
                self@.total_size <= o.total_size + i * o.header_size + seq_sum(sizes@.take(i as int)),
                self@.next_index <= o.next_index + i,
                self@.header_size == o.header_size,
            decreases sizes.len() - i,
        {
            proof {
                let t = sizes@.take(i + 1);
                assert(t.drop_last() =~= sizes@.take(i as int));
                assert(t.last() == sizes@[i as int]);
                lemma_seq_sum_prefix(sizes@, i + 1);
                assert((i + 1) * o.header_size == i * o.header_size + o.header_size) by (nonlinear_arith);
                assert(i * o.header_size <= sizes@.len() * o.header_size) by (nonlinear_arith)
                    requires i <= sizes@.len();
                assert((i + 1) * o.header_size <= sizes@.len() * o.header_size) by (nonlinear_arith)
                    requires i + 1 <= sizes@.len();
                lemma_write_event(self@, sizes@[i as int]);
            }
            let ghost before = ops@;
            let w = self.write_event_ops(sizes[i], &mut ops);
            all = all && w;
            proof {
                assert(ops@ =~= before + write_event_spec(write_all_spec(o, sizes@.take(i as int)).0, sizes@[i as int]).1);
            }
            i += 1;
        }
        assert(sizes@.take(sizes.len() as int) =~= sizes@);
        (ops, all)
    }

    /// Write events of the given sizes one after the other.
    pub fn write_batch(&mut self, sizes: &[u64]) -> (r: Vec<FileOp>)
        requires
            old(self).wf(),
            has_room(old(self)@, sizes@.len(), seq_sum(sizes@)),
        ensures
            final(self).wf(),
            (final(self)@, r@) == write_all_spec(old(self)@, sizes@),
    {
        self.write_all_ops(sizes).0
    }

    /// Whether a rotation happened since the last call; clears the flag.
    pub fn take_rotated(&mut self) -> (r: bool)
        ensures
            r == old(self)@.rotated,
            final(self)@ == (RotationV { rotated: false, ..old(self)@ }),
    {
        let r = self.rotated;
        self.rotated = false;
        r
    }

    /// Flush: nothing to do once stopped.
    pub fn flush(&self) -> (r: Vec<FileOp>)
        ensures
            r@ == if self@.stopped {
                Seq::<FileOp>::empty()
            } else {
                seq![FileOp::Flush]
            },
    {
        if self.stopped {
            Vec::new()
        } else {
            vec![FileOp::Flush]
        }
    }

    /// Write a group of events (of the given sizes) into one file; see
    /// [`write_atomic_spec`].
    pub fn write_atomic(&mut self, sizes: &[u64]) -> (r: (WriteAtomicResult, Vec<FileOp>))
        requires
            old(self).wf(),
            has_room(old(self)@, sizes@.len() + 1, seq_sum(sizes@)),
        ensures
            final(self).wf(),
            (final(self)@, r.1@, r.0) == write_atomic_spec(old(self)@, sizes@),
    {
        let ghost o = self@;
        let mut total: u64 = 0;
        let mut i: usize = 0;
        while i < sizes.len()
            invariant
                i <= sizes.len(),
                total == seq_sum(sizes@.take(i as int)),
                seq_sum(sizes@) <= u64::MAX,
            decreases sizes.len() - i,
        {
            proof {
                let t = sizes@.take(i + 1);
                assert(t.drop_last() =~= sizes@.take(i as int));
                lemma_seq_sum_prefix(sizes@, i + 1);
            }
            total = total + sizes[i];
            i += 1;
        }
        assert(sizes@.take(sizes.len() as int) =~= sizes@);
        let mut ops: Vec<FileOp> = Vec::new();
        proof {
            lemma_sum_nonneg(o.files);
            assert(sizes@.len() * o.header_size + o.header_size == (sizes@.len() + 1) * o.header_size)
                by (nonlinear_arith);
        }
        if !self.stopped && self.current_size + total > self.max_file_size {
            self.rotate(&mut ops);
            proof {
                lemma_rotate(o);
            }
        } else {
            assert(ops@ =~= Seq::<FileOp>::empty());
        }
        if self.rotated {
            if self.current_size + total > self.max_file_size {
                return (WriteAtomicResult::OversizedBatch, ops);
            }
            return (WriteAtomicResult::Rotated, ops);
        }
        let ghost ops1 = ops@;
        let (more, all) = self.write_all_ops(sizes);
        let mut ops = ops;
        let mut more = more;
        ops.append(&mut more);
        if all {
            (WriteAtomicResult::Written, ops)
        } else {
            (WriteAtomicResult::Stopped, ops)
        }
    }
}

proof fn lemma_seq_sum_prefix(s: Seq<u64>, k: int)
    requires
        0 <= k <= s.len(),
    ensures
        seq_sum(s.take(k)) <= seq_sum(s),
        0 <= seq_sum(s.take(k)),
    decreases s.len(),
{
    if k < s.len() {
        lemma_seq_sum_prefix(s.drop_last(), k);
        assert(s.drop_last().take(k) =~= s.take(k));
    } else {
        assert(s.take(k) =~= s);
    }
    lemma_seq_sum_nonneg(s);
}

proof fn lemma_seq_sum_nonneg(s: Seq<u64>)
    ensures
        seq_sum(s) >= 0,
    decreases s.len(),
{
    if s.len() > 0 {
        lemma_seq_sum_nonneg(s.drop_last());
    }
}

/// The size bounds of one event step: within budget plus the event (or down
/// to a lone header), and file sizes within the limit when the event fits
/// in a fresh file.
proof fn lemma_event_bounds(v: RotationV, size: u64)
    requires
        rotation_inv(v),
        has_room(v, 1, size as int),
    ensures
        ({
            let v1 = write_event_spec(v, size).0;
            &&& !v.stopped && v.total_size <= v.max_total_size ==> v1.total_size <= v.max_total_size
                + size || v1.total_size == v1.header_size
            &&& files_within(v) && v.header_size + size <= v.max_file_size ==> files_within(v1)
        }),
{
    lemma_sum_nonneg(v.files);
    if !v.stopped {
        let rot = v.current_size + size > v.max_file_size;
        let (v1, ops1) = if rot {
            rotate_spec(v)
        } else {
            (v, Seq::<FileOp>::empty())
        };
        if rot {
            lemma_rotate(v);
            let idx = v.next_index;
            let files1 = v.files.push((idx, v.header_size));
            assert(files1.drop_last() =~= v.files);
            lemma_evict(files1, v.total_size + v.header_size, v.max_total_size);
        }
        let v2 = write_event_spec(v, size).0;
        if files_within(v) && v.header_size + size <= v.max_file_size {
            assert forall|i: int| 0 <= i < v1.files.len() implies (#[trigger] v1.files[i]).1
                <= v.max_file_size by {
                if rot && i < v1.files.len() - 1 {
                    assert(v.files.contains(v1.files[i]));
                }
            }
            if !v1.stopped {
                let cur = (v1.current_size + size) as u64;
                assert(cur <= v.max_file_size);
                assert forall|i: int| 0 <= i < v2.files.len() implies (#[trigger] v2.files[i]).1
                    <= v2.max_file_size by {
                    if i < v1.files.len() - 1 {
                        assert(v2.files[i] == v1.files[i]);
                    }
                }
            }
        }
    }
}

/// Writing an event of `size` bytes rotates first.
pub open spec fn rotates_before(v: RotationV, size: u64) -> bool {
    !v.stopped && v.current_size + size > v.max_file_size
}

/// Some event of `sizes`, written one after the other, rotates first.
pub open spec fn rotations_in(v: RotationV, sizes: Seq<u64>) -> bool
    decreases sizes.len(),
{
    sizes.len() > 0 && (rotations_in(v, sizes.drop_last()) || rotates_before(
        write_all_spec(v, sizes.drop_last()).0,
        sizes.last(),
    ))
}

/// Writing an event sets the rotation flag exactly when it rotates, and
/// keeps it otherwise.
pub proof fn lemma_write_event_rotated(v: RotationV, size: u64)
    ensures
        write_event_spec(v, size).0.rotated == (v.rotated || rotates_before(v, size)),
{
}

/// Writing events sets the rotation flag exactly when one of them rotates,
/// and keeps it otherwise.
pub proof fn lemma_write_all_rotated(v: RotationV, sizes: Seq<u64>)
    ensures
        write_all_spec(v, sizes).0.rotated == (v.rotated || rotations_in(v, sizes)),
    decreases sizes.len(),
{
    if sizes.len() > 0 {
        lemma_write_all_rotated(v, sizes.drop_last());
        lemma_write_event_rotated(write_all_spec(v, sizes.drop_last()).0, sizes.last());
    }
}

/// Writing a group sets the rotation flag exactly when it rotates before
/// the group, or one of its events rotates, and keeps it otherwise.
pub proof fn lemma_write_atomic_rotated(v: RotationV, sizes: Seq<u64>)
    ensures
        write_atomic_spec(v, sizes).0.rotated == (v.rotated || (!v.stopped && v.current_size + seq_sum(sizes)
            > v.max_file_size) || rotations_in(v, sizes)),
{
    lemma_write_all_rotated(v, sizes);
}

/// Taking the flag reports a rotation since it was last taken: after a
/// take (which clears it), writing events and taking again gives true
/// exactly when one of them rotated; taking twice in a row gives false.
pub proof fn lemma_take_rotated(v: RotationV, sizes: Seq<u64>)
    ensures
        ({
            let taken = RotationV { rotated: false, ..v };
            &&& write_all_spec(taken, sizes).0.rotated == rotations_in(taken, sizes)
            &&& !(RotationV { rotated: false, ..taken }).rotated
        }),
{
    lemma_write_all_rotated(RotationV { rotated: false, ..v }, sizes);
}

} // verus!
