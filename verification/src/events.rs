//! Runtime events as the telemetry hooks record them, and the trace schema of
//! each kind of event.

use crate::schema::{fields_view, FieldDef, FieldDefV, SchemaEntry, SchemaV};
use crate::types::{FieldType, FieldVal, FieldValue, InternedString};
use vstd::prelude::*;

verus! {

/// Task identifier, stored as a `u64` for a compact wire format.
#[derive(Debug, Clone, Copy, PartialEq, Eq, Hash, Default, Structural)]
pub struct TaskId(pub u64);

impl TaskId {
    /// The task id with the given number.
    pub fn from_u32(id: u32) -> (r: TaskId)
        ensures
            r.0 == id as u64,
    {
        TaskId(id as u64)
    }

    /// The id as a `u64`.
    pub fn to_u64(self) -> (r: u64)
        ensures
            r == self.0,
    {
        self.0
    }

    /// The id as a `u64`.
    pub fn id(&self) -> (r: u64)
        ensures
            r == self.0,
    {
        self.0
    }
}

/// Where a CPU sample came from.
#[derive(Debug, Clone, Copy, PartialEq, Eq, Structural)]
pub enum CpuSampleSource {
    /// The process-wide CPU profiler.
    CpuProfile,
    /// A per-thread context-switch event.
    SchedEvent,
}

impl CpuSampleSource {
    pub open spec fn spec_code(self) -> u64 {
        match self {
            CpuSampleSource::CpuProfile => 0,
            CpuSampleSource::SchedEvent => 1,
        }
    }

    /// The number a sample's source is written as.
    pub fn code(&self) -> (r: u64)
        ensures
            r == self.spec_code(),
    {
        match self {
            CpuSampleSource::CpuProfile => 0,
            CpuSampleSource::SchedEvent => 1,
        }
    }
}

/// A CPU stack sample.
#[derive(Debug, Clone)]
pub struct CpuSampleData {
    pub timestamp_nanos: u64,
    pub worker_id: u64,
    pub tid: u32,
    pub source: CpuSampleSource,
    pub thread_name: Option<String>,
    pub callchain: Vec<u64>,
}

/// An event as the runtime hooks record it. `location` is the spawn
/// location of the task, as `file:line:column`.
#[derive(Debug, Clone)]
pub enum RawEvent {
    PollStart {
        timestamp_nanos: u64,
        worker_id: u64,
        worker_local_queue_depth: usize,
        task_id: TaskId,
        location: String,
    },
    PollEnd { timestamp_nanos: u64, worker_id: u64 },
    WorkerPark {
        timestamp_nanos: u64,
        worker_id: u64,
        worker_local_queue_depth: usize,
        cpu_time_nanos: u64,
    },
    WorkerUnpark {
        timestamp_nanos: u64,
        worker_id: u64,
        worker_local_queue_depth: usize,
        cpu_time_nanos: u64,
        sched_wait_delta_nanos: u64,
    },
    QueueSample { timestamp_nanos: u64, global_queue_depth: usize },
    TaskSpawn { timestamp_nanos: u64, task_id: TaskId, location: String },
    TaskTerminate { timestamp_nanos: u64, task_id: TaskId },
    WakeEvent { timestamp_nanos: u64, waker_task_id: TaskId, woken_task_id: TaskId, target_worker: u8 },
    CpuSample(Box<CpuSampleData>),
}

/// The kinds of events written to a trace, one schema each.
#[derive(Debug, Clone, Copy, PartialEq, Eq, Structural)]
pub enum EventKind {
    PollStart,
    PollEnd,
    WorkerPark,
    WorkerUnpark,
    QueueSample,
    TaskSpawn,
    TaskTerminate,
    WakeEvent,
    CpuSample,
}

pub open spec fn fdv(name: Seq<char>, t: FieldType) -> FieldDefV {
    FieldDefV { name, field_type: t }
}

/// The schema of each kind of event. All of them carry a timestamp.
pub open spec fn kind_schema(k: EventKind) -> SchemaV {
    let v = FieldType::Varint;
    let p = FieldType::PooledString;
    let (name, fields) = match k {
        EventKind::PollStart => (
            "PollStartEvent"@,
            seq![fdv("worker_id"@, v), fdv("local_queue"@, v), fdv("task_id"@, v), fdv("spawn_loc"@, p)],
        ),
        EventKind::PollEnd => ("PollEndEvent"@, seq![fdv("worker_id"@, v)]),
        EventKind::WorkerPark => (
            "WorkerParkEvent"@,
            seq![fdv("worker_id"@, v), fdv("local_queue"@, v), fdv("cpu_time_ns"@, v)],
        ),
        EventKind::WorkerUnpark => (
            "WorkerUnparkEvent"@,
            seq![
                fdv("worker_id"@, v),
                fdv("local_queue"@, v),
                fdv("cpu_time_ns"@, v),
                fdv("sched_wait_ns"@, v),
            ],
        ),
        EventKind::QueueSample => ("QueueSampleEvent"@, seq![fdv("global_queue"@, v)]),
        EventKind::TaskSpawn => ("TaskSpawnEvent"@, seq![fdv("task_id"@, v), fdv("spawn_loc"@, p)]),
        EventKind::TaskTerminate => ("TaskTerminateEvent"@, seq![fdv("task_id"@, v)]),
        EventKind::WakeEvent => (
            "WakeEventEvent"@,
            seq![fdv("waker_task_id"@, v), fdv("woken_task_id"@, v), fdv("target_worker"@, v)],
        ),
        EventKind::CpuSample => (
            "CpuSampleEvent"@,
            seq![
                fdv("worker_id"@, v),
                fdv("tid"@, v),
                fdv("source"@, v),
                fdv("thread_name"@, p),
                fdv("callchain"@, FieldType::StackFrames),
            ],
        ),
    };
    SchemaV { name, has_timestamp: true, fields }
}

fn field(name: &str, t: FieldType) -> (r: FieldDef)
    ensures
        r@ == fdv(name@, t),
{
    FieldDef { name: name.to_owned(), field_type: t }
}

fn schema(name: &str, fields: Vec<FieldDef>) -> (r: SchemaEntry)
    ensures
        r@ == (SchemaV { name: name@, has_timestamp: true, fields: fields_view(fields@) }),
{
    SchemaEntry { name: name.to_owned(), has_timestamp: true, fields }
}

/// The schema of an event kind.
pub fn kind_schema_entry(k: EventKind) -> (r: SchemaEntry)
    ensures
        r@ == kind_schema(k),
{
    let v = FieldType::Varint;
    let p = FieldType::PooledString;
    let r = match k {
        EventKind::PollStart => schema(
            "PollStartEvent",
            vec![field("worker_id", v), field("local_queue", v), field("task_id", v), field("spawn_loc", p)],
        ),
        EventKind::PollEnd => schema("PollEndEvent", vec![field("worker_id", v)]),
        EventKind::WorkerPark => schema(
            "WorkerParkEvent",
            vec![field("worker_id", v), field("local_queue", v), field("cpu_time_ns", v)],
        ),
        EventKind::WorkerUnpark => schema(
            "WorkerUnparkEvent",
            vec![
                field("worker_id", v),
                field("local_queue", v),
                field("cpu_time_ns", v),
                field("sched_wait_ns", v),
            ],
        ),
        EventKind::QueueSample => schema("QueueSampleEvent", vec![field("global_queue", v)]),
        EventKind::TaskSpawn => schema("TaskSpawnEvent", vec![field("task_id", v), field("spawn_loc", p)]),
        EventKind::TaskTerminate => schema("TaskTerminateEvent", vec![field("task_id", v)]),
        EventKind::WakeEvent => schema(
            "WakeEventEvent",
            vec![field("waker_task_id", v), field("woken_task_id", v), field("target_worker", v)],
        ),
        EventKind::CpuSample => schema(
            "CpuSampleEvent",
            vec![
                field("worker_id", v),
                field("tid", v),
                field("source", v),
                field("thread_name", p),
                field("callchain", FieldType::StackFrames),
            ],
        ),
    };
    assert(r@.fields =~= kind_schema(k).fields);
    r
}

/// The kind of an event.
pub open spec fn raw_kind(e: RawEvent) -> EventKind {
    match e {
        RawEvent::PollStart { .. } => EventKind::PollStart,
        RawEvent::PollEnd { .. } => EventKind::PollEnd,
        RawEvent::WorkerPark { .. } => EventKind::WorkerPark,
        RawEvent::WorkerUnpark { .. } => EventKind::WorkerUnpark,
        RawEvent::QueueSample { .. } => EventKind::QueueSample,
        RawEvent::TaskSpawn { .. } => EventKind::TaskSpawn,
        RawEvent::TaskTerminate { .. } => EventKind::TaskTerminate,
        RawEvent::WakeEvent { .. } => EventKind::WakeEvent,
        RawEvent::CpuSample(_) => EventKind::CpuSample,
    }
}

/// The timestamp of an event.
pub open spec fn raw_timestamp(e: RawEvent) -> u64 {
    match e {
        RawEvent::PollStart { timestamp_nanos, .. } => timestamp_nanos,
        RawEvent::PollEnd { timestamp_nanos, .. } => timestamp_nanos,
        RawEvent::WorkerPark { timestamp_nanos, .. } => timestamp_nanos,
        RawEvent::WorkerUnpark { timestamp_nanos, .. } => timestamp_nanos,
        RawEvent::QueueSample { timestamp_nanos, .. } => timestamp_nanos,
        RawEvent::TaskSpawn { timestamp_nanos, .. } => timestamp_nanos,
        RawEvent::TaskTerminate { timestamp_nanos, .. } => timestamp_nanos,
        RawEvent::WakeEvent { timestamp_nanos, .. } => timestamp_nanos,
        RawEvent::CpuSample(d) => d.timestamp_nanos,
    }
}

/// The string an event refers to through the string pool, if any: the spawn
/// location, or the sampled thread's name (`<no thread name>` if unknown).
pub open spec fn raw_pooled_string(e: RawEvent) -> Option<Seq<char>> {
    match e {
        RawEvent::PollStart { location, .. } => Some(location@),
        RawEvent::TaskSpawn { location, .. } => Some(location@),
        RawEvent::CpuSample(d) => Some(
            match d.thread_name {
                Some(n) => n@,
                None => "<no thread name>"@,
            },
        ),
        _ => None,
    }
}

/// The field values an event is written with (after its timestamp), where
/// `sid` is the pool id of its pooled string. Queue depths are truncated to
/// 8 bits.
pub open spec fn raw_values(e: RawEvent, sid: u32) -> Seq<FieldVal> {
    match e {
        RawEvent::PollStart { worker_id, worker_local_queue_depth, task_id, .. } => seq![
            FieldVal::Varint(worker_id),
            FieldVal::Varint((worker_local_queue_depth as u8) as u64),
            FieldVal::Varint(task_id.0),
            FieldVal::Pooled(sid),
        ],
        RawEvent::PollEnd { worker_id, .. } => seq![FieldVal::Varint(worker_id)],
        RawEvent::WorkerPark { worker_id, worker_local_queue_depth, cpu_time_nanos, .. } => seq![
            FieldVal::Varint(worker_id),
            FieldVal::Varint((worker_local_queue_depth as u8) as u64),
            FieldVal::Varint(cpu_time_nanos),
        ],
        RawEvent::WorkerUnpark {
            worker_id,
            worker_local_queue_depth,
            cpu_time_nanos,
            sched_wait_delta_nanos,
            ..
        } => seq![
            FieldVal::Varint(worker_id),
            FieldVal::Varint((worker_local_queue_depth as u8) as u64),
            FieldVal::Varint(cpu_time_nanos),
            FieldVal::Varint(sched_wait_delta_nanos),
        ],
        RawEvent::QueueSample { global_queue_depth, .. } => seq![
            FieldVal::Varint((global_queue_depth as u8) as u64),
        ],
        RawEvent::TaskSpawn { task_id, .. } => seq![FieldVal::Varint(task_id.0), FieldVal::Pooled(sid)],
        RawEvent::TaskTerminate { task_id, .. } => seq![FieldVal::Varint(task_id.0)],
        RawEvent::WakeEvent { waker_task_id, woken_task_id, target_worker, .. } => seq![
            FieldVal::Varint(waker_task_id.0),
            FieldVal::Varint(woken_task_id.0),
            FieldVal::Varint(target_worker as u64),
        ],
        RawEvent::CpuSample(d) => seq![
            FieldVal::Varint(d.worker_id),
            FieldVal::Varint(d.tid as u64),
            FieldVal::Varint(d.source.spec_code()),
            FieldVal::Pooled(sid),
            FieldVal::Frames(d.callchain@),
        ],
    }
}


/// The values an event is written with have the field types of its kind's
/// schema.
pub(crate) proof fn lemma_raw_values_typed(e: RawEvent, sid: u32)
    ensures
        crate::roundtrip::types_of(raw_values(e, sid)) == crate::schema::spec_field_types(
            kind_schema(raw_kind(e)),
        ),
{
    assert(crate::roundtrip::types_of(raw_values(e, sid)) =~= crate::schema::spec_field_types(
        kind_schema(raw_kind(e)),
    ));
}

impl RawEvent {
    /// The kind of this event.
    pub fn kind(&self) -> (r: EventKind)
        ensures
            r == raw_kind(*self),
    {
        match self {
            RawEvent::PollStart { .. } => EventKind::PollStart,
            RawEvent::PollEnd { .. } => EventKind::PollEnd,
            RawEvent::WorkerPark { .. } => EventKind::WorkerPark,
            RawEvent::WorkerUnpark { .. } => EventKind::WorkerUnpark,
            RawEvent::QueueSample { .. } => EventKind::QueueSample,
            RawEvent::TaskSpawn { .. } => EventKind::TaskSpawn,
            RawEvent::TaskTerminate { .. } => EventKind::TaskTerminate,
            RawEvent::WakeEvent { .. } => EventKind::WakeEvent,
            RawEvent::CpuSample(_) => EventKind::CpuSample,
        }
    }

    /// The timestamp of this event.
    pub fn timestamp_nanos(&self) -> (r: u64)
        ensures
            r == raw_timestamp(*self),
    {
        match self {
            RawEvent::PollStart { timestamp_nanos, .. } => *timestamp_nanos,
            RawEvent::PollEnd { timestamp_nanos, .. } => *timestamp_nanos,
            RawEvent::WorkerPark { timestamp_nanos, .. } => *timestamp_nanos,
            RawEvent::WorkerUnpark { timestamp_nanos, .. } => *timestamp_nanos,
            RawEvent::QueueSample { timestamp_nanos, .. } => *timestamp_nanos,
            RawEvent::TaskSpawn { timestamp_nanos, .. } => *timestamp_nanos,
            RawEvent::TaskTerminate { timestamp_nanos, .. } => *timestamp_nanos,
            RawEvent::WakeEvent { timestamp_nanos, .. } => *timestamp_nanos,
            RawEvent::CpuSample(d) => d.timestamp_nanos,
        }
    }

    /// The string this event refers to through the string pool, if any.
    pub fn pooled_string(&self) -> (r: Option<&str>)
        ensures
            match r {
                Some(s) => raw_pooled_string(*self) == Some(s@),
                None => raw_pooled_string(*self) is None,
            },
    {
        match self {
            RawEvent::PollStart { location, .. } => Some(location.as_str()),
            RawEvent::TaskSpawn { location, .. } => Some(location.as_str()),
            RawEvent::CpuSample(d) => match &d.thread_name {
                Some(n) => Some(n.as_str()),
                None => Some("<no thread name>"),
            },
            _ => None,
        }
    }

    /// The field values this event is written with, given the pool id of
    /// its pooled string.
    pub fn field_values(&self, sid: InternedString) -> (r: Vec<FieldValue>)
        ensures
            crate::types::values_view(r@) == raw_values(*self, sid.0),
    {
        let r = match self {
            RawEvent::PollStart { worker_id, worker_local_queue_depth, task_id, .. } => vec![
                FieldValue::Varint(*worker_id),
                FieldValue::Varint((*worker_local_queue_depth as u8) as u64),
                FieldValue::Varint(task_id.0),
                FieldValue::PooledString(sid),
            ],
            RawEvent::PollEnd { worker_id, .. } => vec![FieldValue::Varint(*worker_id)],
            RawEvent::WorkerPark { worker_id, worker_local_queue_depth, cpu_time_nanos, .. } => vec![
                FieldValue::Varint(*worker_id),
                FieldValue::Varint((*worker_local_queue_depth as u8) as u64),
                FieldValue::Varint(*cpu_time_nanos),
            ],
            RawEvent::WorkerUnpark {
                worker_id,
                worker_local_queue_depth,
                cpu_time_nanos,
                sched_wait_delta_nanos,
                ..
            } => vec![
                FieldValue::Varint(*worker_id),
                FieldValue::Varint((*worker_local_queue_depth as u8) as u64),
                FieldValue::Varint(*cpu_time_nanos),
                FieldValue::Varint(*sched_wait_delta_nanos),
            ],
            RawEvent::QueueSample { global_queue_depth, .. } => vec![
                FieldValue::Varint((*global_queue_depth as u8) as u64),
            ],
            RawEvent::TaskSpawn { task_id, .. } => vec![
                FieldValue::Varint(task_id.0),
                FieldValue::PooledString(sid),
            ],
            RawEvent::TaskTerminate { task_id, .. } => vec![FieldValue::Varint(task_id.0)],
            RawEvent::WakeEvent { waker_task_id, woken_task_id, target_worker, .. } => vec![
                FieldValue::Varint(waker_task_id.0),
                FieldValue::Varint(woken_task_id.0),
                FieldValue::Varint(*target_worker as u64),
            ],
            RawEvent::CpuSample(d) => vec![
                FieldValue::Varint(d.worker_id),
                FieldValue::Varint(d.tid as u64),
                FieldValue::Varint(d.source.code()),
                FieldValue::PooledString(sid),
                FieldValue::StackFrames(d.callchain.clone()),
            ],
        };
        assert(crate::types::values_view(r@) =~= raw_values(*self, sid.0));
        r
    }
}

} // verus!
