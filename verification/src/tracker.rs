//! Long-poll detection: a wheel of one-second buckets through which the
//! sentinels of pending tasks travel; a sentinel whose task has been pending
//! for six seconds or more is reported each time its bucket comes round.
//!
//! A sentinel is named here by a number; what it points at (the shared
//! status of a task and its captured traces) stays with the caller, who
//! hands in the observed state of each sentinel that falls due.

use std::collections::HashMap;
use vstd::prelude::*;

verus! {

broadcast use vstd::std_specs::hash::group_hash_axioms;

/// Number of buckets in the wheel (one per tick).
pub const BUCKETS: usize = 60;

/// How many buckets ahead a newly received sentinel is placed.
pub const FIRST_CHECK_DELAY: usize = 6;

/// How long a task must have been pending to be reported.
pub const LONG_POLL_NANOS: u64 = 6_000_000_000;

/// Count of how many times a sentinel has been reported.
#[derive(Debug, Clone, Copy, PartialEq, Eq, Structural)]
pub struct SendCount(pub usize);

/// The state of a task as its sentinel shows it.
#[derive(Debug, Clone, Copy, PartialEq, Eq, Structural)]
pub enum SentinelState {
    /// The task is pending; the time its first trace was captured (ns since
    /// the epoch), if one was.
    Pending { first_trace_nanos: Option<u64> },
    Completed,
    Cancelled,
}

/// A report that the task behind `sentinel` has been pending for long.
#[derive(Debug, Clone, Copy, PartialEq, Eq, Structural)]
pub struct LongPollReport {
    pub sentinel: u64,
    pub send_count: SendCount,
}

/// Configuration for trace collection.
#[derive(Debug, Clone, Copy, PartialEq, Eq, Structural)]
pub struct TrackerConfig {
    /// Minimum time between two trace captures of one task, in nanoseconds.
    pub min_trace_interval_ns: u64,
}

impl TrackerConfig {
    /// One second between trace captures.
    pub fn default() -> (r: TrackerConfig)
        ensures
            r.min_trace_interval_ns == 1_000_000_000,
    {
        TrackerConfig { min_trace_interval_ns: 1_000_000_000 }
    }
}

/// Whether a new trace is to be kept: there is no earlier one, or at least
/// the configured interval passed since the last one (a clock that went
/// backwards counts as no time passed).
pub open spec fn trace_due_spec(last_trace_nanos: Option<u64>, now_nanos: u64, min_interval_ns: u64) -> bool {
    match last_trace_nanos {
        None => true,
        Some(last) => if now_nanos >= last {
            now_nanos - last >= min_interval_ns
        } else {
            min_interval_ns == 0
        },
    }
}

/// See [`trace_due_spec`].
pub fn trace_due(last_trace_nanos: Option<u64>, now_nanos: u64, config: &TrackerConfig) -> (r: bool)
    ensures
        r == trace_due_spec(last_trace_nanos, now_nanos, config.min_trace_interval_ns),
{
    match last_trace_nanos {
        None => true,
        Some(last) => {
            let elapsed = if now_nanos >= last {
                now_nanos - last
            } else {
                0
            };
            elapsed >= config.min_trace_interval_ns
        },
    }
}

/// A sentinel stays on the wheel while its task is pending with a trace.
pub open spec fn stays(st: SentinelState) -> bool {
    st matches SentinelState::Pending { first_trace_nanos: Some(_) }
}

/// The task has been pending for at least [`LONG_POLL_NANOS`] (a first trace
/// from the future counts as no time passed).
pub open spec fn overdue(st: SentinelState, now_nanos: u64) -> bool {
    st matches SentinelState::Pending { first_trace_nanos: Some(t) } && now_nanos >= t && now_nanos
        - t >= LONG_POLL_NANOS
}

/// The count after one more report (wrapping at the top of `usize`).
pub open spec fn next_count(n: usize) -> usize {
    if n < usize::MAX {
        (n + 1) as usize
    } else {
        0
    }
}

pub open spec fn count_of(counts: Map<u64, usize>, s: u64) -> usize {
    if counts.contains_key(s) {
        counts[s]
    } else {
        0
    }
}

/// Settling the sentinels `due` (with their states): those that stay, in
/// order; the reports for the overdue ones, each with the sentinel's count
/// of earlier reports; and the counts afterwards.
pub open spec fn settle_spec(
    due: Seq<u64>,
    states: Seq<SentinelState>,
    now: u64,
    counts: Map<u64, usize>,
) -> (Seq<u64>, Seq<LongPollReport>, Map<u64, usize>)
    decreases due.len(),
{
    if due.len() == 0 {
        (Seq::empty(), Seq::empty(), counts)
    } else {
        let (kept, reports, c) = settle_spec(due.drop_last(), states, now, counts);
        let s = due.last();
        let st = states[due.len() - 1];
        if !stays(st) {
            (kept, reports, c)
        } else if overdue(st, now) {
            let n = count_of(c, s);
            (
                kept.push(s),
                reports.push(LongPollReport { sentinel: s, send_count: SendCount(n) }),
                c.insert(s, next_count(n)),
            )
        } else {
            (kept.push(s), reports, c)
        }
    }
}

/// The contents of a tracker.
pub struct TrackerV {
    pub buckets: Seq<Seq<u64>>,
    pub current: nat,
    pub counts: Map<u64, usize>,
}

/// The bucket wheel of long-poll detection.
pub struct LongPollTracker {
    buckets: Vec<Vec<u64>>,
    current_bucket: usize,
    send_counts: HashMap<u64, usize>,
}

impl View for LongPollTracker {
    type V = TrackerV;

    closed spec fn view(&self) -> TrackerV {
        TrackerV {
            buckets: self.buckets@.map_values(|b: Vec<u64>| b@),
            current: self.current_bucket as nat,
            counts: self.send_counts@,
        }
    }
}

impl LongPollTracker {
    /// The wheel has [`BUCKETS`] buckets and the current one is among them.
    pub closed spec fn wf(&self) -> bool {
        &&& self.buckets.len() == BUCKETS
        &&& self.current_bucket < BUCKETS
    }

    /// An empty wheel at bucket 0.
    pub fn new() -> (r: LongPollTracker)
        ensures
            r.wf(),
            r@.buckets == Seq::new(BUCKETS as nat, |i: int| Seq::<u64>::empty()),
            r@.current == 0,
            r@.counts == Map::<u64, usize>::empty(),
    {
        let mut buckets: Vec<Vec<u64>> = Vec::new();
        let mut i: usize = 0;
        while i < BUCKETS
            invariant
                i <= BUCKETS,
                buckets.len() == i,
                forall|j: int| 0 <= j < i ==> (#[trigger] buckets@[j])@ == Seq::<u64>::empty(),
            decreases BUCKETS - i,
        {
            buckets.push(Vec::new());
            i += 1;
        }
        let r = LongPollTracker { buckets, current_bucket: 0, send_counts: HashMap::new() };
        assert(r@.buckets =~= Seq::new(BUCKETS as nat, |i: int| Seq::<u64>::empty()));
        r
    }

    /// Put `sentinel` into bucket 0.
    pub fn add_sentinel(&mut self, sentinel: u64)
        requires
            old(self).wf(),
        ensures
            final(self).wf(),
            final(self)@ == (TrackerV {
                buckets: old(self)@.buckets.update(0, old(self)@.buckets[0].push(sentinel)),
                ..old(self)@
            }),
    {
        let ghost prev = self@.buckets;
        self.buckets[0].push(sentinel);
        assert(self@.buckets =~= prev.update(0, prev[0].push(sentinel)));
        assert(self@.buckets =~= old(self)@.buckets.update(0, old(self)@.buckets[0].push(sentinel)));
    }

    /// One tick: the sentinels received since the last tick go
    /// [`FIRST_CHECK_DELAY`] buckets ahead of the current one. When the
    /// sending side is gone the tracker is to shut down (`None`); otherwise
    /// the wheel turns by one and the sentinels of the new current bucket
    /// are taken out and returned, to be settled with
    /// [`LongPollTracker::settle`].
    pub fn tick(&mut self, incoming: &[u64], disconnected: bool) -> (r: Option<Vec<u64>>)
        requires
            old(self).wf(),
        ensures
            final(self).wf(),
            ({
                let o = old(self)@;
                let target = ((o.current as int + FIRST_CHECK_DELAY) % (BUCKETS as int)) as int;
                let placed = o.buckets.update(target, o.buckets[target] + incoming@);
                let next = ((o.current as int + 1) % (BUCKETS as int)) as int;
                if disconnected {
                    r is None && final(self)@ == TrackerV { buckets: placed, ..o }
                } else {
                    &&& r matches Some(v) && v@ == placed[next]
                    &&& final(self)@ == TrackerV {
                        buckets: placed.update(next, Seq::empty()),
                        current: next as nat,
                        counts: o.counts,
                    }
                }
            }),
    {
        let target = (self.current_bucket + FIRST_CHECK_DELAY) % BUCKETS;
        let ghost o = self@;
        let mut i: usize = 0;
        while i < incoming.len()
            invariant
                i <= incoming.len(),
                self.wf(),
                target == (o.current + FIRST_CHECK_DELAY) % (BUCKETS as int),
                o.buckets.len() == BUCKETS,
                self.current_bucket == o.current,
                self@.counts == o.counts,
                self@.buckets == o.buckets.update(
                    target as int,
                    o.buckets[target as int] + incoming@.take(i as int),
                ),
            decreases incoming.len() - i,
        {
            let ghost prev = self@.buckets;
            self.buckets[target].push(incoming[i]);
            proof {
                assert(self@.buckets =~= prev.update(
                    target as int,
                    prev[target as int].push(incoming@[i as int]),
                ));
                assert(incoming@.take(i + 1) =~= incoming@.take(i as int).push(incoming@[i as int]));
                assert((o.buckets[target as int] + incoming@.take(i as int)).push(incoming@[i as int])
                    =~= o.buckets[target as int] + incoming@.take(i + 1));
                assert(self@.buckets =~= o.buckets.update(
                    target as int,
                    o.buckets[target as int] + incoming@.take(i + 1),
                ));
            }
            i += 1;
        }
        assert(incoming@.take(incoming.len() as int) =~= incoming@);
        if disconnected {
            return None;
        }
        let next = (self.current_bucket + 1) % BUCKETS;
        self.current_bucket = next;
        let mut due: Vec<u64> = Vec::new();
        std::mem::swap(&mut due, &mut self.buckets[next]);
        proof {
            let placed = o.buckets.update(target as int, o.buckets[target as int] + incoming@);
            assert(self@.buckets =~= placed.update(next as int, Seq::empty()));
        }
        Some(due)
    }

    /// Settle the sentinels `due` taken out by [`LongPollTracker::tick`],
    /// given the state each shows: completed and cancelled ones, and pending
    /// ones without a trace, leave the wheel; the others go back into the
    /// current bucket, and each that has been pending for
    /// [`LONG_POLL_NANOS`] or more is reported with its count of earlier
    /// reports.
    pub fn settle(&mut self, due: &[u64], states: &[SentinelState], now_nanos: u64) -> (r: Vec<
        LongPollReport,
    >)
        requires
            old(self).wf(),
            states.len() == due.len(),
        ensures
            final(self).wf(),
            ({
                let o = old(self)@;
                let (kept, reports, counts) = settle_spec(due@, states@, now_nanos, o.counts);
                &&& r@ == reports
                &&& final(self)@ == TrackerV {
                    buckets: o.buckets.update(o.current as int, kept),
                    current: o.current,
                    counts,
                }
            }),
    {
        let ghost o = self@;
        let mut kept: Vec<u64> = Vec::new();
        let mut reports: Vec<LongPollReport> = Vec::new();
        let mut i: usize = 0;
        while i < due.len()
            invariant
                i <= due.len(),
                states.len() == due.len(),
                self.wf(),
                self.current_bucket == o.current,
                self@.buckets == o.buckets,
                ({
                    let (k, rs, c) = settle_spec(due@.take(i as int), states@, now_nanos, o.counts);
                    kept@ == k && reports@ == rs && self@.counts == c
                }),
            decreases due.len() - i,
        {
            let s = due[i];
            let st = states[i];
            proof {
                let t = due@.take(i + 1);
                assert(t.drop_last() =~= due@.take(i as int));
                assert(t.last() == s);
            }
            match st {
                SentinelState::Pending { first_trace_nanos: Some(first) } => {
                    if now_nanos >= first && now_nanos - first >= LONG_POLL_NANOS {
                        let n = match self.send_counts.get(&s) {
                            Some(c) => *c,
                            None => 0,
                        };
                        reports.push(LongPollReport { sentinel: s, send_count: SendCount(n) });
                        let n1 = if n < usize::MAX {
                            n + 1
                        } else {
                            0
                        };
                        self.send_counts.insert(s, n1);
                    }
                    kept.push(s);
                },
                _ => {},
            }
            i += 1;
        }
        assert(due@.take(due.len() as int) =~= due@);
        self.buckets.set(self.current_bucket, kept);
        proof {
            let (k, rs, c) = settle_spec(due@, states@, now_nanos, o.counts);
            assert(self@.buckets =~= o.buckets.update(o.current as int, k));
        }
        reports
    }
}

/// A sentinel seen for the first time in a settle, once, and overdue, is
/// reported with send count 0 and then has count 1.
pub proof fn lemma_first_report_counts_zero(
    due: Seq<u64>,
    states: Seq<SentinelState>,
    now: u64,
    counts: Map<u64, usize>,
    i: int,
)
    requires
        states.len() >= due.len(),
        0 <= i < due.len(),
        overdue(states[i], now),
        !counts.contains_key(due[i]),
        forall|j: int| 0 <= j < due.len() && j != i ==> due[j] != due[i],
    ensures
        settle_spec(due, states, now, counts).1.contains(
            LongPollReport { sentinel: due[i], send_count: SendCount(0) },
        ),
        settle_spec(due, states, now, counts).2[due[i]] == 1,
    decreases due.len(),
{
    let s = due[i];
    let (k0, r0, c0) = settle_spec(due.drop_last(), states, now, counts);
    if i == due.len() - 1 {
        lemma_untouched(due.drop_last(), states, now, counts, s);
        assert(count_of(c0, s) == 0);
        let rs = settle_spec(due, states, now, counts).1;
        assert(rs == r0.push(LongPollReport { sentinel: s, send_count: SendCount(0) }));
        assert(rs[rs.len() - 1] == LongPollReport { sentinel: s, send_count: SendCount(0) });
    } else {
        lemma_first_report_counts_zero(due.drop_last(), states, now, counts, i);
        assert(due.drop_last()[i] == s);
        assert(due.last() != s);
        let rs = settle_spec(due, states, now, counts).1;
        let w = LongPollReport { sentinel: s, send_count: SendCount(0) };
        let idx = choose|x: int| 0 <= x < r0.len() && r0[x] == w;
        if stays(states[due.len() - 1]) && overdue(states[due.len() - 1], now) {
            assert(rs[idx] == w);
        } else {
            assert(rs[idx] == w);
        }
    }
}

/// Settling sentinels that do not include `s` leaves the count of `s` as it
/// was.
proof fn lemma_untouched(due: Seq<u64>, states: Seq<SentinelState>, now: u64, counts: Map<u64, usize>, s: u64)
    requires
        states.len() >= due.len(),
        forall|j: int| 0 <= j < due.len() ==> due[j] != s,
    ensures
        count_of(settle_spec(due, states, now, counts).2, s) == count_of(counts, s),
    decreases due.len(),
{
    if due.len() > 0 {
        lemma_untouched(due.drop_last(), states, now, counts, s);
    }
}

/// The status a task's sentinel shows: pending with the capture times (ns
/// since the epoch) of the traces kept so far, completed, or cancelled.
#[derive(Debug, Clone, PartialEq, Eq)]
pub enum TaskStatus {
    Pending(Vec<u64>),
    Completed,
    Cancelled,
}

/// What the long-poll tracker sees of a status: a pending task with the
/// time of its first trace.
pub open spec fn observed(st: TaskStatus) -> SentinelState {
    match st {
        TaskStatus::Pending(ts) => SentinelState::Pending {
            first_trace_nanos: if ts@.len() > 0 {
                Some(ts@[0])
            } else {
                None
            },
        },
        TaskStatus::Completed => SentinelState::Completed,
        TaskStatus::Cancelled => SentinelState::Cancelled,
    }
}

impl TaskStatus {
    /// The state the tracker sees.
    pub fn observe(&self) -> (r: SentinelState)
        ensures
            r == observed(*self),
    {
        match self {
            TaskStatus::Pending(ts) => SentinelState::Pending {
                first_trace_nanos: if ts.len() > 0 {
                    Some(ts[0])
                } else {
                    None
                },
            },
            TaskStatus::Completed => SentinelState::Completed,
            TaskStatus::Cancelled => SentinelState::Cancelled,
        }
    }
}

/// The traces kept after a pending poll whose trace was captured at `now`:
/// the earlier ones (none unless the status was pending), and the new one
/// if it is due.
pub open spec fn pending_traces(prev: TaskStatus, now: u64, min_interval_ns: u64) -> Seq<u64> {
    let ts = match prev {
        TaskStatus::Pending(ts) => ts@,
        _ => Seq::empty(),
    };
    let last = if ts.len() > 0 {
        Some(ts.last())
    } else {
        None
    };
    if trace_due_spec(last, now, min_interval_ns) {
        ts.push(now)
    } else {
        ts
    }
}

/// The status after a poll of a task that stayed pending, its trace
/// captured at `now`: for a task without a sentinel, a new one (to be sent
/// to the tracker, `true`) holding that trace; otherwise the sentinel's
/// traces, with the new one kept when enough time passed since the last.
pub fn on_pending_poll(existing: Option<&TaskStatus>, now: u64, config: &TrackerConfig) -> (r: (TaskStatus, bool))
    ensures
        r.1 == existing is None,
        r.0 matches TaskStatus::Pending(ts) && ts@ == match existing {
            None => seq![now],
            Some(prev) => pending_traces(*prev, now, config.min_trace_interval_ns),
        },
{
    match existing {
        None => (TaskStatus::Pending(vec![now]), true),
        Some(prev) => {
            let mut traces: Vec<u64> = match prev {
                TaskStatus::Pending(ts) => {
                    let mut copy: Vec<u64> = Vec::new();
                    let mut i: usize = 0;
                    while i < ts.len()
                        invariant
                            i <= ts.len(),
                            copy@ == ts@.take(i as int),
                        decreases ts.len() - i,
                    {
                        copy.push(ts[i]);
                        assert(ts@.take(i + 1) =~= ts@.take(i as int).push(ts@[i as int]));
                        i += 1;
                    }
                    assert(ts@.take(ts.len() as int) =~= ts@);
                    copy
                },
                _ => Vec::new(),
            };
            let last = if traces.len() > 0 {
                Some(traces[traces.len() - 1])
            } else {
                None
            };
            if trace_due(last, now, config) {
                traces.push(now);
            }
            (TaskStatus::Pending(traces), false)
        },
    }
}

/// The status once the task's future completed.
pub fn on_ready() -> (r: TaskStatus)
    ensures
        r == TaskStatus::Completed,
{
    TaskStatus::Completed
}

/// The status once the task is dropped: a pending task is cancelled,
/// others keep their status.
pub fn on_drop(status: TaskStatus) -> (r: TaskStatus)
    ensures
        r == match status {
            TaskStatus::Pending(_) => TaskStatus::Cancelled,
            s => s,
        },
{
    match status {
        TaskStatus::Pending(_) => TaskStatus::Cancelled,
        s => s,
    }
}

/// A task's first trace stays its first: a pending poll never changes the
/// time the tracker ages a pending task by.
pub proof fn lemma_first_trace_kept(prev: TaskStatus, now: u64, min_interval_ns: u64)
    requires
        prev matches TaskStatus::Pending(ts) && ts@.len() > 0,
    ensures
        pending_traces(prev, now, min_interval_ns)[0] == observed(prev)->first_trace_nanos->0,
{
}

} // verus!
