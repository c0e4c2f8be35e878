use dial9_trace_format::rotation::{FileOp, RotatingWriter, WriteAtomicResult};
use dial9_trace_format::writer::{NullWriter, TraceWriter};
use std::collections::BTreeMap;

/// Header of the fixed-width trace files: an 8-byte magic and a 4-byte version.
const HEADER: u64 = 12;
/// Wire size of a worker-park event.
const PARK: u64 = 11;

/// Files as the file operations leave them: index -> (size, events).
struct Disk {
    files: BTreeMap<u32, (u64, usize)>,
    current: u32,
    flushes: usize,
}

impl Disk {
    fn new() -> Self {
        let mut files = BTreeMap::new();
        files.insert(0, (HEADER, 0));
        Disk { files, current: 0, flushes: 0 }
    }

    /// Perform `ops`, the appends writing the events of `sizes` in order.
    fn apply(&mut self, ops: &[FileOp], sizes: &[u64]) {
        let mut next = 0;
        for op in ops {
            match op {
                FileOp::Flush => self.flushes += 1,
                FileOp::Open(i) => {
                    self.files.insert(*i, (HEADER, 0));
                    self.current = *i;
                }
                FileOp::Remove(i) => {
                    self.files.remove(i);
                }
                FileOp::Append => {
                    let f = self.files.get_mut(&self.current).unwrap();
                    f.0 += sizes[next];
                    f.1 += 1;
                    next += 1;
                }
            }
        }
    }

    fn events(&self, i: u32) -> usize {
        self.files.get(&i).map(|f| f.1).unwrap_or(0)
    }

    fn usage(&self) -> u64 {
        self.files.values().map(|f| f.0).sum()
    }
}

fn write(w: &mut RotatingWriter, disk: &mut Disk, size: u64) {
    let ops = w.write_event(size);
    disk.apply(&ops, &[size]);
}

#[test]
fn test_writer_creation() {
    let writer = RotatingWriter::single_file(HEADER);
    assert!(!writer.is_stopped());
    assert_eq!(writer.current_index(), 0);
}

#[test]
fn test_write_event() {
    let mut writer = RotatingWriter::single_file(HEADER);
    let mut disk = Disk::new();
    write(&mut writer, &mut disk, PARK);
    disk.apply(&writer.flush(), &[]);
    assert_eq!(disk.files[&0].0, HEADER + PARK);
}

#[test]
fn test_write_batch_sizes() {
    let mut writer = RotatingWriter::single_file(HEADER);
    let mut disk = Disk::new();
    let sizes = [13, 11];
    let ops = writer.write_batch(&sizes);
    disk.apply(&ops, &sizes);
    assert_eq!(disk.files[&0].0, HEADER + 13 + 11);
}

#[test]
fn test_rotating_writer_creation() {
    let writer = RotatingWriter::new(1024, 4096, HEADER);
    let disk = Disk::new();
    assert_eq!(disk.events(0), 0);
    assert!(!writer.is_stopped());
}

#[test]
fn test_rotating_writer_rotation() {
    let mut writer = RotatingWriter::new(HEADER + PARK * 2, 10000, HEADER);
    let mut disk = Disk::new();
    for _ in 0..3 {
        write(&mut writer, &mut disk, PARK);
    }
    assert_eq!(disk.events(0) + disk.events(1), 3);
    assert_eq!(disk.events(0), 2);
}

#[test]
fn test_rotating_writer_eviction() {
    let max_file_size = HEADER + PARK * 2;
    let max_total_size = max_file_size * 3;
    let mut writer = RotatingWriter::new(max_file_size, max_total_size, HEADER);
    let mut disk = Disk::new();
    for _ in 0..10 {
        write(&mut writer, &mut disk, PARK);
    }
    assert!(disk.usage() <= max_total_size);
    assert!(!disk.files.contains_key(&0));
}

#[test]
fn test_rotating_writer_stops_when_over_budget() {
    let max_file_size = HEADER + PARK * 10;
    let max_total_size = HEADER + PARK * 2;
    let mut writer = RotatingWriter::new(max_file_size, max_total_size, HEADER);
    let mut disk = Disk::new();
    for _ in 0..100 {
        write(&mut writer, &mut disk, PARK);
    }
    assert!(disk.usage() <= max_total_size + PARK);
    assert!(disk.events(0) < 100);
    assert!(writer.is_stopped());
}

#[test]
fn test_rotating_writer_file_naming() {
    let mut writer = RotatingWriter::new(HEADER + PARK, 100000, HEADER);
    let mut disk = Disk::new();
    for _ in 0..5 {
        write(&mut writer, &mut disk, PARK);
    }
    for i in 0..5 {
        assert!(disk.files.contains_key(&i), "file {} should exist", i);
    }
}

#[test]
fn test_write_batch_across_rotation_boundary() {
    let mut writer = RotatingWriter::new(HEADER + PARK, 100000, HEADER);
    let mut disk = Disk::new();
    let sizes = [PARK, PARK, PARK];
    let ops = writer.write_batch(&sizes);
    disk.apply(&ops, &sizes);
    let total: usize = (0..3).map(|i| disk.events(i)).sum();
    assert_eq!(total, 3);
}

#[test]
fn test_rotated_files_have_valid_headers() {
    let mut writer = RotatingWriter::new(HEADER + PARK, 100000, HEADER);
    let mut disk = Disk::new();
    for _ in 0..3 {
        write(&mut writer, &mut disk, PARK);
    }
    for i in 0..3 {
        assert_eq!(disk.events(i), 1, "file {} should have exactly 1 event", i);
        assert_eq!(disk.files[&i].0, HEADER + PARK);
    }
}

#[test]
fn test_flush_after_stop() {
    let mut writer = RotatingWriter::new(10000, HEADER + PARK, HEADER);
    let mut disk = Disk::new();
    for _ in 0..5 {
        write(&mut writer, &mut disk, PARK);
    }
    assert!(writer.is_stopped());
    assert!(writer.flush().is_empty());
    assert!(writer.flush().is_empty());
}

#[test]
fn test_mixed_event_sizes() {
    let max_file_size = HEADER + 15;
    let mut writer = RotatingWriter::new(max_file_size, 100000, HEADER);
    let mut disk = Disk::new();
    for size in [11, 13, 15] {
        write(&mut writer, &mut disk, size);
    }
    for i in 0..3 {
        assert_eq!(disk.events(i), 1, "file {} should have 1 event", i);
        assert!(disk.files[&i].0 <= max_file_size);
    }
}

#[test]
fn test_max_file_size_smaller_than_header() {
    let mut writer = RotatingWriter::new(5, 100000, HEADER);
    let mut disk = Disk::new();
    for _ in 0..3 {
        write(&mut writer, &mut disk, PARK);
    }
    let total: usize = (0..10).map(|i| disk.events(i)).sum();
    assert_eq!(total, 3);
}

#[test]
fn test_event_exactly_on_max_file_size_boundary() {
    let max_file_size = HEADER + PARK;
    let mut writer = RotatingWriter::new(max_file_size, 100000, HEADER);
    let mut disk = Disk::new();
    for _ in 0..2 {
        write(&mut writer, &mut disk, PARK);
    }
    assert_eq!(disk.events(0) + disk.events(1), 2);
    assert!(disk.files[&0].0 <= max_file_size);
    assert!(disk.files[&1].0 <= max_file_size);
}

#[test]
fn rotation_emits_flush_open_then_removals() {
    let mut writer = RotatingWriter::new(HEADER + PARK, 30, HEADER);
    let first = writer.write_event(PARK);
    assert_eq!(first, vec![FileOp::Append]);
    let second = writer.write_event(PARK);
    assert_eq!(second, vec![FileOp::Flush, FileOp::Open(1), FileOp::Remove(0), FileOp::Append]);
    assert!(!writer.is_stopped());
    assert_eq!(writer.current_index(), 1);
}

#[test]
fn take_rotated_reports_once() {
    let mut writer = RotatingWriter::new(HEADER + PARK, 100000, HEADER);
    writer.write_event(PARK);
    assert!(!writer.take_rotated());
    writer.write_event(PARK);
    assert!(writer.take_rotated());
    assert!(!writer.take_rotated());
}

#[test]
fn write_atomic_rotates_before_a_group_that_does_not_fit() {
    let mut writer = RotatingWriter::new(HEADER + 30, 100000, HEADER);
    let (r, ops) = writer.write_atomic(&[20]);
    assert_eq!(r, WriteAtomicResult::Written);
    assert_eq!(ops, vec![FileOp::Append]);
    let (r, ops) = writer.write_atomic(&[10, 10]);
    assert_eq!(r, WriteAtomicResult::Rotated);
    assert_eq!(ops, vec![FileOp::Flush, FileOp::Open(1)]);
    assert!(writer.take_rotated());
    let (r, ops) = writer.write_atomic(&[10, 10]);
    assert_eq!(r, WriteAtomicResult::Written);
    assert_eq!(ops, vec![FileOp::Append, FileOp::Append]);
}

#[test]
fn write_atomic_reports_oversized_batch() {
    let mut writer = RotatingWriter::new(HEADER + 30, 100000, HEADER);
    let (r, ops) = writer.write_atomic(&[20, 20]);
    assert_eq!(r, WriteAtomicResult::OversizedBatch);
    assert_eq!(ops, vec![FileOp::Flush, FileOp::Open(1)]);
}

#[test]
fn has_room_for_checks_counters() {
    let writer = RotatingWriter::new(100, 1000, HEADER);
    assert!(writer.has_room_for(1, 11));
    assert!(!writer.has_room_for(1, u64::MAX));
}

#[test]
fn null_writer_accepts_everything() {
    let mut w = NullWriter;
    assert!(w.write_event(&[1, 2, 3]).is_ok());
    assert!(w.write_batch(&[vec![1], vec![2]]).is_ok());
    assert!(w.flush().is_ok());
    assert!(!w.take_rotated());
    assert_eq!(w.write_atomic(&[vec![1]]).unwrap(), WriteAtomicResult::Written);
}

#[test]
fn write_atomic_on_a_stopped_writer_reports_stopped() {
    let mut writer = RotatingWriter::new(HEADER + 100, HEADER + 10, HEADER);
    let ops = writer.write_event(20);
    assert_eq!(ops, vec![FileOp::Append, FileOp::Flush]);
    let (r, ops) = writer.write_atomic(&[5, 5]);
    assert_eq!(r, WriteAtomicResult::Stopped);
    assert!(ops.is_empty());
}

#[test]
fn write_atomic_reports_stopped_when_the_budget_runs_out_inside_the_group() {
    let mut writer = RotatingWriter::new(HEADER + 100, HEADER + 10, HEADER);
    let (r, ops) = writer.write_atomic(&[20, 5]);
    assert_eq!(r, WriteAtomicResult::Stopped);
    assert_eq!(ops, vec![FileOp::Append, FileOp::Flush]);
}

#[test]
fn segment_file_names_number_the_files() {
    assert_eq!(dial9_trace_format::rotation::segment_file_name("trace", 0), "trace.0.bin");
    assert_eq!(dial9_trace_format::rotation::segment_file_name("trace", 12), "trace.12.bin");
}
