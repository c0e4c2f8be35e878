//! The trace writer interface: a sink for encoded events.

use crate::rotation::WriteAtomicResult;
use vstd::prelude::*;

verus! {

/// Why a trace writer failed.
#[derive(Debug, Clone)]
pub struct WriteError {
    pub message: String,
}

/// A sink for encoded events.
pub trait TraceWriter {
    /// Write one event.
    fn write_event(&mut self, event: &[u8]) -> Result<(), WriteError>;

    /// Write events one after the other.
    fn write_batch(&mut self, events: &[Vec<u8>]) -> Result<(), WriteError>;

    /// Flush what is buffered.
    fn flush(&mut self) -> Result<(), WriteError>;

    /// Whether the writer started a new file since the last call.
    fn take_rotated(&mut self) -> (r: bool)
        default_ensures
            !r,
    {
        false
    }

    /// Write a group of events so that all land in the same file. By
    /// default the events are written one after the other, stopping at the
    /// first error.
    fn write_atomic(&mut self, events: &[Vec<u8>]) -> (r: Result<WriteAtomicResult, WriteError>)
        default_ensures
            r matches Ok(x) ==> x == WriteAtomicResult::Written,
            events@.len() == 0 ==> r == Ok::<WriteAtomicResult, WriteError>(WriteAtomicResult::Written),
    {
        let mut i: usize = 0;
        while i < events.len()
            decreases events.len() - i,
        {
            match self.write_event(events[i].as_slice()) {
                Ok(()) => {},
                Err(e) => return Err(e),
            }
            i += 1;
        }
        Ok(WriteAtomicResult::Written)
    }
}

/// A writer that discards all events.
pub struct NullWriter;

impl TraceWriter for NullWriter {
    fn write_event(&mut self, _event: &[u8]) -> (r: Result<(), WriteError>)
        ensures
            r is Ok,
    {
        Ok(())
    }

    fn write_batch(&mut self, _events: &[Vec<u8>]) -> (r: Result<(), WriteError>)
        ensures
            r is Ok,
    {
        Ok(())
    }

    fn flush(&mut self) -> (r: Result<(), WriteError>)
        ensures
            r is Ok,
    {
        Ok(())
    }
}

} // verus!
