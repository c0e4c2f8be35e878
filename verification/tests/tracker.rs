use dial9_trace_format::tracker::{
    trace_due, LongPollReport, LongPollTracker, SendCount, SentinelState, TrackerConfig,
};

const SEC: u64 = 1_000_000_000;

fn pending(first: u64) -> SentinelState {
    SentinelState::Pending { first_trace_nanos: Some(first) }
}

/// Drive one tick; every sentinel due is in `state`.
fn tick(t: &mut LongPollTracker, incoming: &[u64], state: SentinelState, now: u64) -> Vec<LongPollReport> {
    let due = t.tick(incoming, false).unwrap();
    let states: Vec<SentinelState> = due.iter().map(|_| state).collect();
    t.settle(&due, &states, now)
}

#[test]
fn long_pending_task_is_reported_after_six_ticks() {
    let mut t = LongPollTracker::new();
    let start = 100 * SEC;
    let mut first_report = None;
    for i in 0..10u64 {
        let incoming: Vec<u64> = if i == 0 { vec![7] } else { vec![] };
        // Each tick comes after a one-second sleep.
        let reports = tick(&mut t, &incoming, pending(start), start + (i + 1) * SEC);
        if !reports.is_empty() && first_report.is_none() {
            first_report = Some((i, reports[0]));
        }
    }
    let (tick_no, report) = first_report.expect("should report");
    assert_eq!(tick_no, 5);
    assert_eq!(report, LongPollReport { sentinel: 7, send_count: SendCount(0) });
}

#[test]
fn reports_count_up_each_round() {
    let mut t = LongPollTracker::new();
    let start = 0;
    let mut counts = Vec::new();
    for i in 0..130u64 {
        let incoming: Vec<u64> = if i == 0 { vec![1] } else { vec![] };
        for r in tick(&mut t, &incoming, pending(start), start + (i + 1) * SEC) {
            counts.push(r.send_count.0);
        }
    }
    assert_eq!(counts, vec![0, 1, 2]);
}

#[test]
fn completed_task_leaves_the_wheel() {
    let mut t = LongPollTracker::new();
    let mut reports = Vec::new();
    for i in 0..70u64 {
        let incoming: Vec<u64> = if i == 0 { vec![3] } else { vec![] };
        reports.extend(tick(&mut t, &incoming, SentinelState::Completed, i * SEC + 10 * SEC));
    }
    assert!(reports.is_empty());
}

#[test]
fn young_task_is_not_reported_but_kept() {
    let mut t = LongPollTracker::new();
    let due = t.tick(&[5], false).unwrap();
    assert!(due.is_empty());
    for _ in 0..4 {
        assert!(t.tick(&[], false).unwrap().is_empty());
    }
    let due = t.tick(&[], false).unwrap();
    assert_eq!(due, vec![5]);
    let reports = t.settle(&due, &[pending(10 * SEC)], 12 * SEC);
    assert!(reports.is_empty());
}

#[test]
fn disconnected_sender_shuts_down() {
    let mut t = LongPollTracker::new();
    assert!(t.tick(&[1, 2], true).is_none());
}

#[test]
fn add_sentinel_goes_to_bucket_zero() {
    let mut t = LongPollTracker::new();
    t.add_sentinel(9);
    for _ in 0..59 {
        assert!(t.tick(&[], false).unwrap().is_empty());
    }
    assert_eq!(t.tick(&[], false).unwrap(), vec![9]);
}

#[test]
fn trace_interval() {
    let config = TrackerConfig { min_trace_interval_ns: 2 * SEC };
    assert!(trace_due(None, 0, &config));
    assert!(!trace_due(Some(10 * SEC), 11 * SEC, &config));
    assert!(trace_due(Some(10 * SEC), 12 * SEC, &config));
    assert!(!trace_due(Some(10 * SEC), 9 * SEC, &config));
    assert_eq!(TrackerConfig::default().min_trace_interval_ns, SEC);
}

use dial9_trace_format::tracker::{on_drop, on_pending_poll, on_ready, TaskStatus};

#[test]
fn first_pending_poll_creates_a_sentinel() {
    let config = TrackerConfig::default();
    let (status, created) = on_pending_poll(None, 5 * SEC, &config);
    assert!(created);
    assert_eq!(status, TaskStatus::Pending(vec![5 * SEC]));
    assert_eq!(status.observe(), SentinelState::Pending { first_trace_nanos: Some(5 * SEC) });
}

#[test]
fn later_polls_keep_traces_at_the_configured_interval() {
    let config = TrackerConfig { min_trace_interval_ns: 2 * SEC };
    let prev = TaskStatus::Pending(vec![SEC]);
    let (status, created) = on_pending_poll(Some(&prev), 2 * SEC, &config);
    assert!(!created);
    assert_eq!(status, TaskStatus::Pending(vec![SEC]));
    let (status, _) = on_pending_poll(Some(&status), 3 * SEC, &config);
    assert_eq!(status, TaskStatus::Pending(vec![SEC, 3 * SEC]));
    // A status that is no longer pending starts a fresh trace list.
    let (status, created) = on_pending_poll(Some(&TaskStatus::Completed), 9 * SEC, &config);
    assert!(!created);
    assert_eq!(status, TaskStatus::Pending(vec![9 * SEC]));
}

#[test]
fn completion_and_cancellation() {
    assert_eq!(on_ready(), TaskStatus::Completed);
    assert_eq!(on_drop(TaskStatus::Pending(vec![1])), TaskStatus::Cancelled);
    assert_eq!(on_drop(TaskStatus::Completed), TaskStatus::Completed);
    assert_eq!(TaskStatus::Cancelled.observe(), SentinelState::Cancelled);
    assert_eq!(
        TaskStatus::Pending(vec![]).observe(),
        SentinelState::Pending { first_trace_nanos: None }
    );
}
