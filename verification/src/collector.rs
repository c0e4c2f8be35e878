//! The central collector: a bounded queue of event batches that keeps the
//! most recent ones, counting the batches it had to drop.

use crate::events::RawEvent;
use crossbeam_queue::ArrayQueue;
use vstd::prelude::*;

verus! {

#[verifier::external_type_specification]
#[verifier::external_body]
#[verifier::reject_recursive_types(T)]
pub struct ExArrayQueue<T>(ArrayQueue<T>);

/// The batches a queue holds, oldest first.
pub uninterp spec fn queued_batches(q: ArrayQueue<Vec<RawEvent>>) -> Seq<Vec<RawEvent>>;

/// The capacity a queue was made with.
pub uninterp spec fn queue_capacity(q: ArrayQueue<Vec<RawEvent>>) -> nat;

/// The capacities a queue can be made with: not zero, and its slots (a
/// stamp and a batch, at most 32 bytes each) within the largest allocation.
pub open spec fn capacity_ok(cap: usize) -> bool {
    0 < cap && cap <= (isize::MAX as usize) / 32
}

/// Number of batches the default collector holds.
pub const DEFAULT_CAPACITY: usize = 1024;

/// An empty queue of capacity `cap`.
///
/// Calls `ArrayQueue::new`, which panics for a zero capacity and for one
/// whose buffer cannot be allocated (both excluded here); the contract
/// claims an empty queue with that capacity.
#[verifier::external_body]
fn queue_new(cap: usize) -> (q: ArrayQueue<Vec<RawEvent>>)
    requires
        capacity_ok(cap),
    ensures
        queued_batches(q) == Seq::<Vec<RawEvent>>::empty(),
        queue_capacity(q) == cap,
{
    ArrayQueue::new(cap)
}

/// Push `b`, replacing the oldest batch when the queue is full.
///
/// Calls `ArrayQueue::force_push`, documented as: if the queue is full, the
/// oldest element is replaced and returned, otherwise `None` is returned.
/// With the queue borrowed exclusively, no other thread acts in between.
#[verifier::external_body]
fn queue_force_push(q: &mut ArrayQueue<Vec<RawEvent>>, b: Vec<RawEvent>) -> (r: Option<
    Vec<RawEvent>,
>)
    requires
        queued_batches(*old(q)).len() <= queue_capacity(*old(q)),
    ensures
        queue_capacity(*final(q)) == queue_capacity(*old(q)),
        ({
            let o = queued_batches(*old(q));
            if o.len() < queue_capacity(*old(q)) {
                r is None && queued_batches(*final(q)) == o.push(b)
            } else {
                r == Some(o[0]) && queued_batches(*final(q)) == o.drop_first().push(b)
            }
        }),
{
    q.force_push(b)
}

/// Take the oldest batch.
///
/// Calls `ArrayQueue::pop`: `None` when the queue is empty, else the oldest
/// element, which leaves the queue.
#[verifier::external_body]
fn queue_pop(q: &mut ArrayQueue<Vec<RawEvent>>) -> (r: Option<Vec<RawEvent>>)
    ensures
        queue_capacity(*final(q)) == queue_capacity(*old(q)),
        ({
            let o = queued_batches(*old(q));
            if o.len() == 0 {
                r is None && queued_batches(*final(q)) == o
            } else {
                r == Some(o[0]) && queued_batches(*final(q)) == o.drop_first()
            }
        }),
{
    q.pop()
}

/// Number of batches held.
///
/// Calls `ArrayQueue::len`.
#[verifier::external_body]
fn queue_len(q: &ArrayQueue<Vec<RawEvent>>) -> (r: usize)
    ensures
        r == queued_batches(*q).len(),
{
    q.len()
}

/// The contents of a collector.
pub struct CollectorV {
    pub batches: Seq<Vec<RawEvent>>,
    pub capacity: nat,
    pub dropped: usize,
}

/// A bounded queue of event batches that evicts the oldest batch when full.
pub struct CentralCollector {
    queue: ArrayQueue<Vec<RawEvent>>,
    dropped_batches: usize,
}

impl View for CentralCollector {
    type V = CollectorV;

    closed spec fn view(&self) -> CollectorV {
        CollectorV {
            batches: queued_batches(self.queue),
            capacity: queue_capacity(self.queue),
            dropped: self.dropped_batches,
        }
    }
}

/// The batches kept after pushing `b`: the newest `capacity` of them.
pub open spec fn kept_after_push(batches: Seq<Vec<RawEvent>>, capacity: nat, b: Vec<RawEvent>) -> Seq<
    Vec<RawEvent>,
> {
    let all = batches.push(b);
    if all.len() > capacity {
        all.skip(all.len() - capacity)
    } else {
        all
    }
}

impl CentralCollector {
    /// A collector holds at most its capacity.
    pub open spec fn wf(&self) -> bool {
        &&& self@.batches.len() <= self@.capacity
        &&& self@.capacity > 0
    }

    /// A collector holding up to [`DEFAULT_CAPACITY`] batches.
    pub fn new() -> (r: CentralCollector)
        ensures
            r.wf(),
            r@ == (CollectorV { batches: Seq::empty(), capacity: DEFAULT_CAPACITY as nat, dropped: 0 }),
    {
        Self::with_capacity(DEFAULT_CAPACITY)
    }

    /// A collector holding up to `capacity` batches.
    pub fn with_capacity(capacity: usize) -> (r: CentralCollector)
        requires
            capacity_ok(capacity),
        ensures
            r.wf(),
            r@ == (CollectorV { batches: Seq::empty(), capacity: capacity as nat, dropped: 0 }),
    {
        CentralCollector { queue: queue_new(capacity), dropped_batches: 0 }
    }

    /// Queue a batch; when full, the oldest batch is dropped and counted
    /// (the count wraps around at the top of `usize`).
    pub fn accept_flush(&mut self, batch: Vec<RawEvent>)
        requires
            old(self).wf(),
        ensures
            final(self).wf(),
            final(self)@.capacity == old(self)@.capacity,
            final(self)@.batches == kept_after_push(old(self)@.batches, old(self)@.capacity, batch),
            final(self)@.dropped == if old(self)@.batches.len() < old(self)@.capacity {
                old(self)@.dropped
            } else {
                old(self)@.dropped.wrapping_add(1)
            },
    {
        let ghost o = self@;
        let evicted = queue_force_push(&mut self.queue, batch);
        if evicted.is_some() {
            self.dropped_batches = self.dropped_batches.wrapping_add(1);
        }
        proof {
            let all = o.batches.push(batch);
            if o.batches.len() >= o.capacity {
                assert(o.batches.drop_first().push(batch) =~= all.skip(all.len() - o.capacity));
            }
        }
    }

    /// Take the oldest batch, if any.
    pub fn next(&mut self) -> (r: Option<Vec<RawEvent>>)
        requires
            old(self).wf(),
        ensures
            final(self).wf(),
            final(self)@.capacity == old(self)@.capacity,
            final(self)@.dropped == old(self)@.dropped,
            if old(self)@.batches.len() == 0 {
                r is None && final(self)@.batches == old(self)@.batches
            } else {
                r == Some(old(self)@.batches[0]) && final(self)@.batches == old(self)@.batches.drop_first()
            },
    {
        queue_pop(&mut self.queue)
    }

    /// Take all batches, oldest first.
    pub fn drain(&mut self) -> (r: Vec<Vec<RawEvent>>)
        requires
            old(self).wf(),
        ensures
            final(self).wf(),
            r@ == old(self)@.batches,
            final(self)@ == (CollectorV { batches: Seq::empty(), ..old(self)@ }),
    {
        let ghost o = self@;
        let mut batches: Vec<Vec<RawEvent>> = Vec::new();
        loop
            invariant
                self.wf(),
                o == old(self)@,
                self@.capacity == o.capacity,
                self@.dropped == o.dropped,
                batches@ + self@.batches == o.batches,
            decreases self@.batches.len(),
        {
            let ghost before = self@.batches;
            match queue_pop(&mut self.queue) {
                Some(b) => {
                    proof {
                        assert(batches@.push(b) + before.drop_first() =~= batches@ + before);
                    }
                    batches.push(b);
                },
                None => {
                    assert(batches@ + before =~= batches@);
                    assert(self@.batches =~= Seq::<Vec<RawEvent>>::empty());
                    return batches;
                },
            }
        }
    }

    /// Number of batches held.
    pub fn len(&self) -> (r: usize)
        ensures
            r == self@.batches.len(),
    {
        queue_len(&self.queue)
    }

    /// Whether no batch is held.
    pub fn is_empty(&self) -> (r: bool)
        ensures
            r == (self@.batches.len() == 0),
    {
        queue_len(&self.queue) == 0
    }

    /// The number of batches dropped since the last call; resets it.
    pub fn take_dropped_batches(&mut self) -> (r: usize)
        ensures
            r == old(self)@.dropped,
            final(self)@ == (CollectorV { dropped: 0, ..old(self)@ }),
    {
        let r = self.dropped_batches;
        self.dropped_batches = 0;
        r
    }
}

impl Default for CentralCollector {
    fn default() -> (r: Self)
        ensures
            r.wf(),
            r@ == (CollectorV { batches: Seq::empty(), capacity: DEFAULT_CAPACITY as nat, dropped: 0 }),
    {
        Self::new()
    }
}

/// Pushing onto a full collector and draining it gives back the newest
/// `capacity` batches in order: the oldest ones are the ones lost.
pub proof fn lemma_ring_keeps_newest(batches: Seq<Vec<RawEvent>>, capacity: nat, b: Vec<RawEvent>)
    requires
        batches.len() == capacity,
        capacity > 0,
    ensures
        kept_after_push(batches, capacity, b) == batches.drop_first().push(b),
        kept_after_push(batches, capacity, b).len() == capacity,
{
    assert(batches.push(b).skip(1) =~= batches.drop_first().push(b));
}

} // verus!
