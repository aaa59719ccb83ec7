//! The scheduler state: executors, heartbeats, slot accounts, jobs,
//! stages and tasks, with the operations the request handlers depend on.
//!
//! Each collection is a sequence of records with unique keys; an upsert
//! replaces the first record with the key or appends a new one. The
//! central invariants live here: slot accounting (for every executor,
//! `available + running tasks on it == total`), monotone task lifecycle
//! (a record's rank never decreases and terminal states are final), and
//! stage ordering (a task is handed out only when every earlier stage of
//! its job is fully completed).

use vstd::prelude::*;
use crate::domain::{
    ExecutorData, ExecutorHeartbeat, ExecutorMetadata, JobStatus, PartitionId, PartitionIdView,
    SchedulerError, TaskDefinition, TaskState, TaskStateView, TaskStatus,
};
use vstd::string::StringExecFns;
use vstd::multiset::Multiset;
use crate::plan::{Partitioning, PlanNode};

verus! {

/// Persisted status of one job.
pub struct JobRecord {
    pub job_id: String,
    pub status: JobStatus,
}

/// Persisted plan of one stage: the subtree the planner cut, rooted at a
/// shuffle writer with the given output partitioning.
pub struct StageRecord {
    pub job_id: String,
    pub stage_id: u32,
    pub partitioning: Partitioning,
    pub plan: PlanNode,
}

// ---------------------------------------------------------------------
// First-match lookup per collection.
// ---------------------------------------------------------------------

pub open spec fn find_executor(s: Seq<ExecutorMetadata>, id: Seq<char>) -> Option<int>
    decreases s.len(),
{
    if s.len() == 0 {
        None
    } else if s[0]@.id == id {
        Some(0)
    } else {
        match find_executor(s.drop_first(), id) {
            Some(i) => Some(i + 1),
            None => None,
        }
    }
}

pub open spec fn find_heartbeat(s: Seq<ExecutorHeartbeat>, id: Seq<char>) -> Option<int>
    decreases s.len(),
{
    if s.len() == 0 {
        None
    } else if s[0]@.executor_id == id {
        Some(0)
    } else {
        match find_heartbeat(s.drop_first(), id) {
            Some(i) => Some(i + 1),
            None => None,
        }
    }
}

pub open spec fn find_slots(s: Seq<ExecutorData>, id: Seq<char>) -> Option<int>
    decreases s.len(),
{
    if s.len() == 0 {
        None
    } else if s[0]@.executor_id == id {
        Some(0)
    } else {
        match find_slots(s.drop_first(), id) {
            Some(i) => Some(i + 1),
            None => None,
        }
    }
}

pub open spec fn find_job(s: Seq<JobRecord>, id: Seq<char>) -> Option<int>
    decreases s.len(),
{
    if s.len() == 0 {
        None
    } else if s[0].job_id@ == id {
        Some(0)
    } else {
        match find_job(s.drop_first(), id) {
            Some(i) => Some(i + 1),
            None => None,
        }
    }
}

pub open spec fn find_stage(s: Seq<StageRecord>, job_id: Seq<char>, stage_id: u32) -> Option<int>
    decreases s.len(),
{
    if s.len() == 0 {
        None
    } else if s[0].job_id@ == job_id && s[0].stage_id == stage_id {
        Some(0)
    } else {
        match find_stage(s.drop_first(), job_id, stage_id) {
            Some(i) => Some(i + 1),
            None => None,
        }
    }
}

pub open spec fn find_task(s: Seq<TaskStatus>, id: PartitionIdView) -> Option<int>
    decreases s.len(),
{
    if s.len() == 0 {
        None
    } else if s[0]@.task_id == id {
        Some(0)
    } else {
        match find_task(s.drop_first(), id) {
            Some(i) => Some(i + 1),
            None => None,
        }
    }
}

/// What a first-match lookup means, spelled out positionally.
pub proof fn lemma_find_executor(s: Seq<ExecutorMetadata>, id: Seq<char>)
    ensures
        match find_executor(s, id) {
            Some(i) => 0 <= i < s.len() && s[i]@.id == id && forall|j: int|
                0 <= j < i ==> #[trigger] s[j]@.id != id,
            None => forall|j: int| 0 <= j < s.len() ==> #[trigger] s[j]@.id != id,
        },
    decreases s.len(),
{
    if s.len() > 0 && s[0]@.id != id {
        lemma_find_executor(s.drop_first(), id);
        match find_executor(s, id) {
            Some(i) => {
                assert(s[i] == s.drop_first()[i - 1]);
                assert forall|j: int| 0 <= j < i implies #[trigger] s[j]@.id != id by {
                    if j >= 1 {
                        assert(s[j] == s.drop_first()[j - 1]);
                        assert(s.drop_first()[j - 1]@.id != id);
                    }
                }
            },
            None => {
                assert forall|j: int| 0 <= j < s.len() implies #[trigger] s[j]@.id != id by {
                    if j >= 1 {
                        assert(s[j] == s.drop_first()[j - 1]);
                        assert(s.drop_first()[j - 1]@.id != id);
                    }
                }
            },
        }
    }
}

pub proof fn lemma_find_heartbeat(s: Seq<ExecutorHeartbeat>, id: Seq<char>)
    ensures
        match find_heartbeat(s, id) {
            Some(i) => 0 <= i < s.len() && s[i]@.executor_id == id && forall|j: int|
                0 <= j < i ==> #[trigger] s[j]@.executor_id != id,
            None => forall|j: int| 0 <= j < s.len() ==> #[trigger] s[j]@.executor_id != id,
        },
    decreases s.len(),
{
    if s.len() > 0 && s[0]@.executor_id != id {
        lemma_find_heartbeat(s.drop_first(), id);
        match find_heartbeat(s, id) {
            Some(i) => {
                assert(s[i] == s.drop_first()[i - 1]);
                assert forall|j: int| 0 <= j < i implies #[trigger] s[j]@.executor_id != id by {
                    if j >= 1 {
                        assert(s[j] == s.drop_first()[j - 1]);
                        assert(s.drop_first()[j - 1]@.executor_id != id);
                    }
                }
            },
            None => {
                assert forall|j: int| 0 <= j < s.len() implies #[trigger] s[j]@.executor_id != id by {
                    if j >= 1 {
                        assert(s[j] == s.drop_first()[j - 1]);
                        assert(s.drop_first()[j - 1]@.executor_id != id);
                    }
                }
            },
        }
    }
}

pub proof fn lemma_find_slots(s: Seq<ExecutorData>, id: Seq<char>)
    ensures
        match find_slots(s, id) {
            Some(i) => 0 <= i < s.len() && s[i]@.executor_id == id && forall|j: int|
                0 <= j < i ==> #[trigger] s[j]@.executor_id != id,
            None => forall|j: int| 0 <= j < s.len() ==> #[trigger] s[j]@.executor_id != id,
        },
    decreases s.len(),
{
    if s.len() > 0 && s[0]@.executor_id != id {
        lemma_find_slots(s.drop_first(), id);
        match find_slots(s, id) {
            Some(i) => {
                assert(s[i] == s.drop_first()[i - 1]);
                assert forall|j: int| 0 <= j < i implies #[trigger] s[j]@.executor_id != id by {
                    if j >= 1 {
                        assert(s[j] == s.drop_first()[j - 1]);
                        assert(s.drop_first()[j - 1]@.executor_id != id);
                    }
                }
            },
            None => {
                assert forall|j: int| 0 <= j < s.len() implies #[trigger] s[j]@.executor_id != id by {
                    if j >= 1 {
                        assert(s[j] == s.drop_first()[j - 1]);
                        assert(s.drop_first()[j - 1]@.executor_id != id);
                    }
                }
            },
        }
    }
}

pub proof fn lemma_find_job(s: Seq<JobRecord>, id: Seq<char>)
    ensures
        match find_job(s, id) {
            Some(i) => 0 <= i < s.len() && s[i].job_id@ == id && forall|j: int|
                0 <= j < i ==> #[trigger] s[j].job_id@ != id,
            None => forall|j: int| 0 <= j < s.len() ==> #[trigger] s[j].job_id@ != id,
        },
    decreases s.len(),
{
    if s.len() > 0 && s[0].job_id@ != id {
        lemma_find_job(s.drop_first(), id);
        match find_job(s, id) {
            Some(i) => {
                assert(s[i] == s.drop_first()[i - 1]);
                assert forall|j: int| 0 <= j < i implies #[trigger] s[j].job_id@ != id by {
                    if j >= 1 {
                        assert(s[j] == s.drop_first()[j - 1]);
                        assert(s.drop_first()[j - 1].job_id@ != id);
                    }
                }
            },
            None => {
                assert forall|j: int| 0 <= j < s.len() implies #[trigger] s[j].job_id@ != id by {
                    if j >= 1 {
                        assert(s[j] == s.drop_first()[j - 1]);
                        assert(s.drop_first()[j - 1].job_id@ != id);
                    }
                }
            },
        }
    }
}

pub proof fn lemma_find_stage(s: Seq<StageRecord>, job_id: Seq<char>, stage_id: u32)
    ensures
        match find_stage(s, job_id, stage_id) {
            Some(i) => 0 <= i < s.len() && s[i].job_id@ == job_id && s[i].stage_id == stage_id
                && forall|j: int|
                0 <= j < i ==> !(#[trigger] s[j].job_id@ == job_id && s[j].stage_id == stage_id),
            None => forall|j: int|
                0 <= j < s.len() ==> !(#[trigger] s[j].job_id@ == job_id && s[j].stage_id
                    == stage_id),
        },
    decreases s.len(),
{
    if s.len() > 0 && !(s[0].job_id@ == job_id && s[0].stage_id == stage_id) {
        lemma_find_stage(s.drop_first(), job_id, stage_id);
        match find_stage(s, job_id, stage_id) {
            Some(i) => {
                assert(s[i] == s.drop_first()[i - 1]);
                assert forall|j: int| 0 <= j < i implies !(#[trigger] s[j].job_id@ == job_id
                    && s[j].stage_id == stage_id) by {
                    if j >= 1 {
                        assert(s[j] == s.drop_first()[j - 1]);
                        assert(!(s.drop_first()[j - 1].job_id@ == job_id && s.drop_first()[j
                            - 1].stage_id == stage_id));
                    }
                }
            },
            None => {
                assert forall|j: int| 0 <= j < s.len() implies !(#[trigger] s[j].job_id@ == job_id
                    && s[j].stage_id == stage_id) by {
                    if j >= 1 {
                        assert(s[j] == s.drop_first()[j - 1]);
                        assert(!(s.drop_first()[j - 1].job_id@ == job_id && s.drop_first()[j
                            - 1].stage_id == stage_id));
                    }
                }
            },
        }
    }
}

pub proof fn lemma_find_task(s: Seq<TaskStatus>, id: PartitionIdView)
    ensures
        match find_task(s, id) {
            Some(i) => 0 <= i < s.len() && s[i]@.task_id == id && forall|j: int|
                0 <= j < i ==> #[trigger] s[j]@.task_id != id,
            None => forall|j: int| 0 <= j < s.len() ==> #[trigger] s[j]@.task_id != id,
        },
    decreases s.len(),
{
    if s.len() > 0 && s[0]@.task_id != id {
        lemma_find_task(s.drop_first(), id);
        match find_task(s, id) {
            Some(i) => {
                assert(s[i] == s.drop_first()[i - 1]);
                assert forall|j: int| 0 <= j < i implies #[trigger] s[j]@.task_id != id by {
                    if j >= 1 {
                        assert(s[j] == s.drop_first()[j - 1]);
                        assert(s.drop_first()[j - 1]@.task_id != id);
                    }
                }
            },
            None => {
                assert forall|j: int| 0 <= j < s.len() implies #[trigger] s[j]@.task_id != id by {
                    if j >= 1 {
                        assert(s[j] == s.drop_first()[j - 1]);
                        assert(s.drop_first()[j - 1]@.task_id != id);
                    }
                }
            },
        }
    }
}

// ---------------------------------------------------------------------
// Key uniqueness.
// ---------------------------------------------------------------------

pub open spec fn executor_ids_unique(s: Seq<ExecutorMetadata>) -> bool {
    forall|i: int, j: int| 0 <= i < j < s.len() ==> #[trigger] s[i]@.id != #[trigger] s[j]@.id
}

pub open spec fn heartbeat_ids_unique(s: Seq<ExecutorHeartbeat>) -> bool {
    forall|i: int, j: int|
        0 <= i < j < s.len() ==> #[trigger] s[i]@.executor_id != #[trigger] s[j]@.executor_id
}

pub open spec fn slot_ids_unique(s: Seq<ExecutorData>) -> bool {
    forall|i: int, j: int|
        0 <= i < j < s.len() ==> #[trigger] s[i]@.executor_id != #[trigger] s[j]@.executor_id
}

pub open spec fn job_ids_unique(s: Seq<JobRecord>) -> bool {
    forall|i: int, j: int| 0 <= i < j < s.len() ==> #[trigger] s[i].job_id@ != #[trigger] s[j].job_id@
}

pub open spec fn stage_keys_unique(s: Seq<StageRecord>) -> bool {
    forall|i: int, j: int|
        0 <= i < j < s.len() ==> !(#[trigger] s[i].job_id@ == #[trigger] s[j].job_id@
            && s[i].stage_id == s[j].stage_id)
}

pub open spec fn task_ids_unique(s: Seq<TaskStatus>) -> bool {
    forall|i: int, j: int|
        0 <= i < j < s.len() ==> #[trigger] s[i]@.task_id != #[trigger] s[j]@.task_id
}

// ---------------------------------------------------------------------
// Upserts at the specification level.
// ---------------------------------------------------------------------

pub open spec fn upsert_executor(s: Seq<ExecutorMetadata>, m: ExecutorMetadata) -> Seq<
    ExecutorMetadata,
> {
    match find_executor(s, m@.id) {
        Some(i) => s.update(i, m),
        None => s.push(m),
    }
}

pub open spec fn upsert_heartbeat(s: Seq<ExecutorHeartbeat>, h: ExecutorHeartbeat) -> Seq<
    ExecutorHeartbeat,
> {
    match find_heartbeat(s, h@.executor_id) {
        Some(i) => s.update(i, h),
        None => s.push(h),
    }
}

pub open spec fn upsert_slots(s: Seq<ExecutorData>, d: ExecutorData) -> Seq<ExecutorData> {
    match find_slots(s, d@.executor_id) {
        Some(i) => s.update(i, d),
        None => s.push(d),
    }
}

pub open spec fn upsert_job(s: Seq<JobRecord>, r: JobRecord) -> Seq<JobRecord> {
    match find_job(s, r.job_id@) {
        Some(i) => s.update(i, r),
        None => s.push(r),
    }
}

pub open spec fn upsert_stage(s: Seq<StageRecord>, r: StageRecord) -> Seq<StageRecord> {
    match find_stage(s, r.job_id@, r.stage_id) {
        Some(i) => s.update(i, r),
        None => s.push(r),
    }
}

// ---------------------------------------------------------------------
// Slot accounting.
// ---------------------------------------------------------------------

/// How many tasks are recorded as running on `executor_id`.
pub open spec fn running_count(tasks: Seq<TaskStatus>, executor_id: Seq<char>) -> int
    decreases tasks.len(),
{
    if tasks.len() == 0 {
        0
    } else {
        running_count(tasks.drop_last(), executor_id) + if tasks.last()@.status.is_running_on(
            executor_id,
        ) {
            1int
        } else {
            0int
        }
    }
}

/// The central slot invariant: for every executor,
/// `available + running tasks on it == total`, and `available <= total`.
pub open spec fn slots_consistent(tasks: Seq<TaskStatus>, slots: Seq<ExecutorData>) -> bool {
    forall|i: int|
        0 <= i < slots.len() ==> (#[trigger] slots[i]@).available_task_slots + running_count(
            tasks,
            slots[i]@.executor_id,
        ) == slots[i]@.total_task_slots
}

pub proof fn lemma_running_count_update(
    tasks: Seq<TaskStatus>,
    i: int,
    t: TaskStatus,
    executor_id: Seq<char>,
)
    requires
        0 <= i < tasks.len(),
    ensures
        running_count(tasks.update(i, t), executor_id) == running_count(tasks, executor_id) - (
        if tasks[i]@.status.is_running_on(executor_id) {
            1int
        } else {
            0int
        }) + (
        if t@.status.is_running_on(executor_id) {
            1int
        } else {
            0int
        }),
    decreases tasks.len(),
{
    if i == tasks.len() - 1 {
        assert(tasks.update(i, t).drop_last() =~= tasks.drop_last());
    } else {
        lemma_running_count_update(tasks.drop_last(), i, t, executor_id);
        assert(tasks.update(i, t).drop_last() =~= tasks.drop_last().update(i, t));
    }
}

pub proof fn lemma_running_count_push(tasks: Seq<TaskStatus>, t: TaskStatus, executor_id: Seq<char>)
    ensures
        running_count(tasks.push(t), executor_id) == running_count(tasks, executor_id) + (
        if t@.status.is_running_on(executor_id) {
            1int
        } else {
            0int
        }),
{
    assert(tasks.push(t).drop_last() =~= tasks);
}

// ---------------------------------------------------------------------
// Upserts keep keys unique.
// ---------------------------------------------------------------------

pub proof fn lemma_upsert_executor_unique(s: Seq<ExecutorMetadata>, m: ExecutorMetadata)
    requires
        executor_ids_unique(s),
    ensures
        executor_ids_unique(upsert_executor(s, m)),
{
    lemma_find_executor(s, m@.id);
    let u = upsert_executor(s, m);
    match find_executor(s, m@.id) {
        Some(i) => {
            assert forall|a: int, b: int| 0 <= a < b < u.len() implies #[trigger] u[a]@.id
                != #[trigger] u[b]@.id by {
                assert(a == i || u[a] == s[a]);
                assert(b == i || u[b] == s[b]);
            }
        },
        None => {
            assert forall|a: int, b: int| 0 <= a < b < u.len() implies #[trigger] u[a]@.id
                != #[trigger] u[b]@.id by {
                assert(a == s.len() as int || u[a] == s[a]);
                assert(b == s.len() as int || u[b] == s[b]);
            }
        },
    }
}

pub proof fn lemma_upsert_heartbeat_unique(s: Seq<ExecutorHeartbeat>, m: ExecutorHeartbeat)
    requires
        heartbeat_ids_unique(s),
    ensures
        heartbeat_ids_unique(upsert_heartbeat(s, m)),
{
    lemma_find_heartbeat(s, m@.executor_id);
    let u = upsert_heartbeat(s, m);
    match find_heartbeat(s, m@.executor_id) {
        Some(i) => {
            assert forall|a: int, b: int| 0 <= a < b < u.len() implies #[trigger] u[a]@.executor_id
                != #[trigger] u[b]@.executor_id by {
                assert(a == i || u[a] == s[a]);
                assert(b == i || u[b] == s[b]);
            }
        },
        None => {
            assert forall|a: int, b: int| 0 <= a < b < u.len() implies #[trigger] u[a]@.executor_id
                != #[trigger] u[b]@.executor_id by {
                assert(a == s.len() as int || u[a] == s[a]);
                assert(b == s.len() as int || u[b] == s[b]);
            }
        },
    }
}

pub proof fn lemma_upsert_slots_unique(s: Seq<ExecutorData>, m: ExecutorData)
    requires
        slot_ids_unique(s),
    ensures
        slot_ids_unique(upsert_slots(s, m)),
{
    lemma_find_slots(s, m@.executor_id);
    let u = upsert_slots(s, m);
    match find_slots(s, m@.executor_id) {
        Some(i) => {
            assert forall|a: int, b: int| 0 <= a < b < u.len() implies #[trigger] u[a]@.executor_id
                != #[trigger] u[b]@.executor_id by {
                assert(a == i || u[a] == s[a]);
                assert(b == i || u[b] == s[b]);
            }
        },
        None => {
            assert forall|a: int, b: int| 0 <= a < b < u.len() implies #[trigger] u[a]@.executor_id
                != #[trigger] u[b]@.executor_id by {
                assert(a == s.len() as int || u[a] == s[a]);
                assert(b == s.len() as int || u[b] == s[b]);
            }
        },
    }
}

pub proof fn lemma_upsert_job_unique(s: Seq<JobRecord>, m: JobRecord)
    requires
        job_ids_unique(s),
    ensures
        job_ids_unique(upsert_job(s, m)),
{
    lemma_find_job(s, m.job_id@);
    let u = upsert_job(s, m);
    match find_job(s, m.job_id@) {
        Some(i) => {
            assert forall|a: int, b: int| 0 <= a < b < u.len() implies #[trigger] u[a].job_id@
                != #[trigger] u[b].job_id@ by {
                assert(a == i || u[a] == s[a]);
                assert(b == i || u[b] == s[b]);
            }
        },
        None => {
            assert forall|a: int, b: int| 0 <= a < b < u.len() implies #[trigger] u[a].job_id@
                != #[trigger] u[b].job_id@ by {
                assert(a == s.len() as int || u[a] == s[a]);
                assert(b == s.len() as int || u[b] == s[b]);
            }
        },
    }
}

pub proof fn lemma_upsert_stage_unique(s: Seq<StageRecord>, m: StageRecord)
    requires
        stage_keys_unique(s),
    ensures
        stage_keys_unique(upsert_stage(s, m)),
{
    lemma_find_stage(s, m.job_id@, m.stage_id);
    let u = upsert_stage(s, m);
    match find_stage(s, m.job_id@, m.stage_id) {
        Some(i) => {
            assert forall|a: int, b: int| 0 <= a < b < u.len() implies !(#[trigger] u[a].job_id@
                == #[trigger] u[b].job_id@ && u[a].stage_id == u[b].stage_id) by {
                assert(a == i || u[a] == s[a]);
                assert(b == i || u[b] == s[b]);
            }
        },
        None => {
            assert forall|a: int, b: int| 0 <= a < b < u.len() implies !(#[trigger] u[a].job_id@
                == #[trigger] u[b].job_id@ && u[a].stage_id == u[b].stage_id) by {
                assert(a == s.len() as int || u[a] == s[a]);
                assert(b == s.len() as int || u[b] == s[b]);
            }
        },
    }
}

// ---------------------------------------------------------------------
// The state itself.
// ---------------------------------------------------------------------

/// All durable scheduler state. One value of this type stands for one
/// namespace of the backing store.
pub struct SchedulerState {
    pub executors: Vec<ExecutorMetadata>,
    pub heartbeats: Vec<ExecutorHeartbeat>,
    pub slots: Vec<ExecutorData>,
    pub jobs: Vec<JobRecord>,
    pub stages: Vec<StageRecord>,
    pub tasks: Vec<TaskStatus>,
}

impl SchedulerState {
    /// Well-formed state: every collection is keyed uniquely.
    pub open spec fn wf(self) -> bool {
        &&& executor_ids_unique(self.executors@)
        &&& heartbeat_ids_unique(self.heartbeats@)
        &&& slot_ids_unique(self.slots@)
        &&& job_ids_unique(self.jobs@)
        &&& stage_keys_unique(self.stages@)
        &&& task_ids_unique(self.tasks@)
    }

    /// The slot invariant over this state.
    pub open spec fn consistent(self) -> bool {
        slots_consistent(self.tasks@, self.slots@)
    }

    pub fn new() -> (r: Self)
        ensures
            r.wf(),
            r.consistent(),
            r.executors@.len() == 0,
            r.heartbeats@.len() == 0,
            r.slots@.len() == 0,
            r.jobs@.len() == 0,
            r.stages@.len() == 0,
            r.tasks@.len() == 0,
    {
        SchedulerState {
            executors: Vec::new(),
            heartbeats: Vec::new(),
            slots: Vec::new(),
            jobs: Vec::new(),
            stages: Vec::new(),
            tasks: Vec::new(),
        }
    }

    fn executor_idx(s: &Vec<ExecutorMetadata>, id: &String) -> (r: Option<usize>)
        ensures
            match find_executor(s@, id@) {
                Some(i) => r matches Some(k) && k as int == i && i < s@.len(),
                None => r is None,
            },
    {
        let mut k: usize = 0;
        while k < s.len()
            invariant
                k <= s@.len(),
                forall|j: int| 0 <= j < k ==> #[trigger] s@[j]@.id != id@,
            decreases s@.len() - k,
        {
            if s[k].id == *id {
                proof {
                    assert(s@[k as int]@.id == id@);
                    lemma_find_executor(s@, id@);
                }
                return Some(k);
            }
            proof {
                assert(s@[k as int]@.id != id@);
            }
            k += 1;
        }
        proof {
            lemma_find_executor(s@, id@);
        }
        None
    }

    fn heartbeat_idx(s: &Vec<ExecutorHeartbeat>, id: &String) -> (r: Option<usize>)
        ensures
            match find_heartbeat(s@, id@) {
                Some(i) => r matches Some(k) && k as int == i && i < s@.len(),
                None => r is None,
            },
    {
        let mut k: usize = 0;
        while k < s.len()
            invariant
                k <= s@.len(),
                forall|j: int| 0 <= j < k ==> #[trigger] s@[j]@.executor_id != id@,
            decreases s@.len() - k,
        {
            if s[k].executor_id == *id {
                proof {
                    assert(s@[k as int]@.executor_id == id@);
                    lemma_find_heartbeat(s@, id@);
                }
                return Some(k);
            }
            proof {
                assert(s@[k as int]@.executor_id != id@);
            }
            k += 1;
        }
        proof {
            lemma_find_heartbeat(s@, id@);
        }
        None
    }

    fn slots_idx(s: &Vec<ExecutorData>, id: &String) -> (r: Option<usize>)
        ensures
            match find_slots(s@, id@) {
                Some(i) => r matches Some(k) && k as int == i && i < s@.len(),
                None => r is None,
            },
    {
        let mut k: usize = 0;
        while k < s.len()
            invariant
                k <= s@.len(),
                forall|j: int| 0 <= j < k ==> #[trigger] s@[j]@.executor_id != id@,
            decreases s@.len() - k,
        {
            if s[k].executor_id == *id {
                proof {
                    assert(s@[k as int]@.executor_id == id@);
                    lemma_find_slots(s@, id@);
                }
                return Some(k);
            }
            proof {
                assert(s@[k as int]@.executor_id != id@);
            }
            k += 1;
        }
        proof {
            lemma_find_slots(s@, id@);
        }
        None
    }

    fn job_idx(s: &Vec<JobRecord>, id: &String) -> (r: Option<usize>)
        ensures
            match find_job(s@, id@) {
                Some(i) => r matches Some(k) && k as int == i && i < s@.len(),
                None => r is None,
            },
    {
        let mut k: usize = 0;
        while k < s.len()
            invariant
                k <= s@.len(),
                forall|j: int| 0 <= j < k ==> #[trigger] s@[j].job_id@ != id@,
            decreases s@.len() - k,
        {
            if s[k].job_id == *id {
                proof {
                    lemma_find_job(s@, id@);
                }
                return Some(k);
            }
            k += 1;
        }
        proof {
            lemma_find_job(s@, id@);
        }
        None
    }

    fn stage_idx(s: &Vec<StageRecord>, job_id: &String, stage_id: u32) -> (r: Option<usize>)
        ensures
            match find_stage(s@, job_id@, stage_id) {
                Some(i) => r matches Some(k) && k as int == i && i < s@.len(),
                None => r is None,
            },
    {
        let mut k: usize = 0;
        while k < s.len()
            invariant
                k <= s@.len(),
                forall|j: int|
                    0 <= j < k ==> !(#[trigger] s@[j].job_id@ == job_id@ && s@[j].stage_id
                        == stage_id),
            decreases s@.len() - k,
        {
            if s[k].job_id == *job_id && s[k].stage_id == stage_id {
                proof {
                    lemma_find_stage(s@, job_id@, stage_id);
                }
                return Some(k);
            }
            k += 1;
        }
        proof {
            lemma_find_stage(s@, job_id@, stage_id);
        }
        None
    }

    /// Upserts executor metadata under its id.
    pub fn save_executor_metadata(&mut self, meta: ExecutorMetadata)
        ensures
            final(self).executors@ == upsert_executor(old(self).executors@, meta),
            final(self).heartbeats@ == old(self).heartbeats@,
            final(self).slots@ == old(self).slots@,
            final(self).jobs@ == old(self).jobs@,
            final(self).stages@ == old(self).stages@,
            final(self).tasks@ == old(self).tasks@,
            old(self).wf() ==> final(self).wf(),
            old(self).consistent() ==> final(self).consistent(),
    {
        let ghost m0 = meta;
        proof {
            if old(self).wf() {
                lemma_upsert_executor_unique(old(self).executors@, m0);
            }
        }
        match Self::executor_idx(&self.executors, &meta.id) {
            Some(i) => {
                self.executors[i] = meta;
            },
            None => {
                self.executors.push(meta);
            },
        }
    }

    /// Looks an executor's metadata up by id; `Some` exactly when a
    /// record with that id exists, and then a copy of that record.
    pub fn get_executor_metadata(&self, id: &String) -> (r: Option<ExecutorMetadata>)
        ensures
            match find_executor(self.executors@, id@) {
                Some(i) => r matches Some(m) && m@ == self.executors@[i]@,
                None => r is None,
            },
    {
        match Self::executor_idx(&self.executors, id) {
            Some(i) => Some(self.executors[i].clone()),
            None => None,
        }
    }

    /// A copy of every registered executor's metadata, in store order.
    pub fn get_executors_metadata(&self) -> (r: Vec<ExecutorMetadata>)
        ensures
            r@.len() == self.executors@.len(),
            forall|i: int| 0 <= i < r@.len() ==> #[trigger] r@[i]@ == self.executors@[i]@,
    {
        let mut out: Vec<ExecutorMetadata> = Vec::new();
        let mut k: usize = 0;
        while k < self.executors.len()
            invariant
                k <= self.executors@.len(),
                out@.len() == k,
                forall|i: int| 0 <= i < k ==> #[trigger] out@[i]@ == self.executors@[i]@,
            decreases self.executors@.len() - k,
        {
            out.push(self.executors[k].clone());
            k += 1;
        }
        out
    }

    /// Upserts an executor's heartbeat under its id.
    pub fn save_executor_heartbeat(&mut self, heartbeat: ExecutorHeartbeat)
        ensures
            final(self).heartbeats@ == upsert_heartbeat(old(self).heartbeats@, heartbeat),
            final(self).executors@ == old(self).executors@,
            final(self).slots@ == old(self).slots@,
            final(self).jobs@ == old(self).jobs@,
            final(self).stages@ == old(self).stages@,
            final(self).tasks@ == old(self).tasks@,
            old(self).wf() ==> final(self).wf(),
            old(self).consistent() ==> final(self).consistent(),
    {
        let ghost h0 = heartbeat;
        proof {
            if old(self).wf() {
                lemma_upsert_heartbeat_unique(old(self).heartbeats@, h0);
            }
        }
        match Self::heartbeat_idx(&self.heartbeats, &heartbeat.executor_id) {
            Some(i) => {
                self.heartbeats[i] = heartbeat;
            },
            None => {
                self.heartbeats.push(heartbeat);
            },
        }
    }

    /// Upserts an executor's slot record under its id. The caller is
    /// responsible for keeping the slot invariant; registration of a
    /// fresh executor and the task-status paths do.
    pub fn save_executor_data(&mut self, data: ExecutorData)
        ensures
            final(self).slots@ == upsert_slots(old(self).slots@, data),
            final(self).executors@ == old(self).executors@,
            final(self).heartbeats@ == old(self).heartbeats@,
            final(self).jobs@ == old(self).jobs@,
            final(self).stages@ == old(self).stages@,
            final(self).tasks@ == old(self).tasks@,
            old(self).wf() ==> final(self).wf(),
    {
        let ghost d0 = data;
        proof {
            if old(self).wf() {
                lemma_upsert_slots_unique(old(self).slots@, d0);
            }
        }
        match Self::slots_idx(&self.slots, &data.executor_id) {
            Some(i) => {
                self.slots[i] = data;
            },
            None => {
                self.slots.push(data);
            },
        }
    }

    /// Looks an executor's slot record up by id.
    pub fn get_executor_data(&self, id: &String) -> (r: Option<ExecutorData>)
        ensures
            match find_slots(self.slots@, id@) {
                Some(i) => r matches Some(d) && d@ == self.slots@[i]@,
                None => r is None,
            },
    {
        match Self::slots_idx(&self.slots, id) {
            Some(i) => Some(self.slots[i].clone()),
            None => None,
        }
    }

    /// Upserts a job's status under its id; a fresh job id is appended,
    /// so jobs keep their submission order.
    pub fn save_job_metadata(&mut self, job_id: &String, status: JobStatus)
        ensures
            final(self).jobs@ == upsert_job(
                old(self).jobs@,
                (JobRecord { job_id: *job_id, status }),
            ),
            final(self).executors@ == old(self).executors@,
            final(self).heartbeats@ == old(self).heartbeats@,
            final(self).slots@ == old(self).slots@,
            final(self).stages@ == old(self).stages@,
            final(self).tasks@ == old(self).tasks@,
            old(self).wf() ==> final(self).wf(),
            old(self).consistent() ==> final(self).consistent(),
    {
        let record = JobRecord { job_id: job_id.clone(), status };
        let ghost r0 = record;
        proof {
            if old(self).wf() {
                lemma_upsert_job_unique(old(self).jobs@, r0);
            }
        }
        match Self::job_idx(&self.jobs, job_id) {
            Some(i) => {
                self.jobs[i] = record;
            },
            None => {
                self.jobs.push(record);
            },
        }
    }

    /// The persisted status of a job, if the id is known.
    pub fn get_job_metadata(&self, job_id: &String) -> (r: Option<JobStatus>)
        ensures
            match find_job(self.jobs@, job_id@) {
                Some(i) => r matches Some(st) && st@ == self.jobs@[i].status@,
                None => r is None,
            },
    {
        match Self::job_idx(&self.jobs, job_id) {
            Some(i) => Some(self.jobs[i].status.clone()),
            None => None,
        }
    }

    /// Upserts one stage's plan under `(job_id, stage_id)`.
    pub fn save_stage_plan(
        &mut self,
        job_id: &String,
        stage_id: u32,
        partitioning: Partitioning,
        plan: PlanNode,
    )
        ensures
            final(self).stages@ == upsert_stage(
                old(self).stages@,
                (StageRecord { job_id: *job_id, stage_id, partitioning, plan }),
            ),
            final(self).executors@ == old(self).executors@,
            final(self).heartbeats@ == old(self).heartbeats@,
            final(self).slots@ == old(self).slots@,
            final(self).jobs@ == old(self).jobs@,
            final(self).tasks@ == old(self).tasks@,
            old(self).wf() ==> final(self).wf(),
            old(self).consistent() ==> final(self).consistent(),
    {
        let record = StageRecord { job_id: job_id.clone(), stage_id, partitioning, plan };
        let ghost r0 = record;
        proof {
            if old(self).wf() {
                lemma_upsert_stage_unique(old(self).stages@, r0);
            }
        }
        match Self::stage_idx(&self.stages, job_id, stage_id) {
            Some(i) => {
                self.stages[i] = record;
            },
            None => {
                self.stages.push(record);
            },
        }
    }

    /// Every task record, in store order.
    pub fn get_all_tasks(&self) -> (r: &Vec<TaskStatus>)
        ensures
            r@ == self.tasks@,
    {
        &self.tasks
    }
}


// ---------------------------------------------------------------------
// Task lifecycle.
// ---------------------------------------------------------------------

/// Stores a task status: a fresh task id is appended; an existing record
/// is replaced only when the new state does not lower its rank, and a
/// terminal record is never replaced at all.
pub open spec fn apply_task_status(tasks: Seq<TaskStatus>, t: TaskStatus) -> Seq<TaskStatus> {
    match find_task(tasks, t@.task_id) {
        Some(i) => if tasks[i]@.status.is_terminal() || t@.status.rank() < tasks[i]@.status.rank() {
            tasks
        } else {
            tasks.update(i, t)
        },
        None => tasks.push(t),
    }
}

/// Task-status transitions never decrease rank, and terminal records
/// never change: storing any update leaves every record's id in place,
/// its rank no lower, and a terminal record exactly as it was.
pub proof fn lemma_task_rank_monotonic(tasks: Seq<TaskStatus>, t: TaskStatus)
    ensures
        apply_task_status(tasks, t).len() >= tasks.len(),
        forall|i: int|
            0 <= i < tasks.len() ==> {
                &&& (#[trigger] apply_task_status(tasks, t)[i])@.status.rank() >= tasks[i]@.status.rank()
                &&& (tasks[i]@.status.is_terminal() ==> apply_task_status(tasks, t)[i] == tasks[i])
                &&& apply_task_status(tasks, t)[i]@.task_id == tasks[i]@.task_id
            },
{
    lemma_find_task(tasks, t@.task_id);
}

pub proof fn lemma_apply_task_unique(tasks: Seq<TaskStatus>, t: TaskStatus)
    requires
        task_ids_unique(tasks),
    ensures
        task_ids_unique(apply_task_status(tasks, t)),
{
    lemma_find_task(tasks, t@.task_id);
    let u = apply_task_status(tasks, t);
    match find_task(tasks, t@.task_id) {
        Some(i) => {
            assert forall|a: int, b: int| 0 <= a < b < u.len() implies #[trigger] u[a]@.task_id
                != #[trigger] u[b]@.task_id by {
                assert(a == i || u[a] == tasks[a]);
                assert(b == i || u[b] == tasks[b]);
            }
        },
        None => {
            assert forall|a: int, b: int| 0 <= a < b < u.len() implies #[trigger] u[a]@.task_id
                != #[trigger] u[b]@.task_id by {
                assert(a == tasks.len() as int || u[a] == tasks[a]);
                assert(b == tasks.len() as int || u[b] == tasks[b]);
            }
        },
    }
}

pub proof fn lemma_running_count_nonneg(tasks: Seq<TaskStatus>, executor_id: Seq<char>)
    ensures
        running_count(tasks, executor_id) >= 0,
    decreases tasks.len(),
{
    if tasks.len() > 0 {
        lemma_running_count_nonneg(tasks.drop_last(), executor_id);
    }
}

pub proof fn lemma_running_count_lower(tasks: Seq<TaskStatus>, i: int, executor_id: Seq<char>)
    requires
        0 <= i < tasks.len(),
        tasks[i]@.status.is_running_on(executor_id),
    ensures
        running_count(tasks, executor_id) >= 1,
    decreases tasks.len(),
{
    lemma_running_count_nonneg(tasks.drop_last(), executor_id);
    if i < tasks.len() - 1 {
        lemma_running_count_lower(tasks.drop_last(), i, executor_id);
    }
}

// ---------------------------------------------------------------------
// Slot credit and debit.
// ---------------------------------------------------------------------

/// Frees one slot on `executor_id`, never exceeding the total.
pub open spec fn spec_credit(slots: Seq<ExecutorData>, executor_id: Seq<char>) -> Seq<
    ExecutorData,
> {
    match find_slots(slots, executor_id) {
        Some(i) => {
            let d = slots[i];
            if d.available_task_slots < d.total_task_slots {
                slots.update(
                    i,
                    ExecutorData {
                        executor_id: d.executor_id,
                        total_task_slots: d.total_task_slots,
                        available_task_slots: (d.available_task_slots + 1) as u32,
                    },
                )
            } else {
                slots
            }
        },
        None => slots,
    }
}

/// Reserves one slot on `executor_id`; no change when none is free.
pub open spec fn spec_debit(slots: Seq<ExecutorData>, executor_id: Seq<char>) -> Seq<
    ExecutorData,
> {
    match find_slots(slots, executor_id) {
        Some(i) => {
            let d = slots[i];
            if d.available_task_slots > 0 {
                slots.update(
                    i,
                    ExecutorData {
                        executor_id: d.executor_id,
                        total_task_slots: d.total_task_slots,
                        available_task_slots: (d.available_task_slots - 1) as u32,
                    },
                )
            } else {
                slots
            }
        },
        None => slots,
    }
}

pub proof fn lemma_credit_unique(slots: Seq<ExecutorData>, executor_id: Seq<char>)
    requires
        slot_ids_unique(slots),
    ensures
        slot_ids_unique(spec_credit(slots, executor_id)),
{
    lemma_find_slots(slots, executor_id);
    let u = spec_credit(slots, executor_id);
    match find_slots(slots, executor_id) {
        Some(i) => {
            assert forall|a: int, b: int| 0 <= a < b < u.len() implies #[trigger] u[a]@.executor_id
                != #[trigger] u[b]@.executor_id by {
                assert(a == i || u[a] == slots[a]);
                assert(b == i || u[b] == slots[b]);
            }
        },
        None => {},
    }
}

// ---------------------------------------------------------------------
// Applying one reported task status with slot accounting.
// ---------------------------------------------------------------------

/// One reported status applied to the state. Every terminal report is
/// persisted: it replaces a known, not yet terminal record (crediting
/// one slot when that record was running on some executor) and is
/// appended for an unknown id. A replay of a terminal report finds the
/// record already terminal and changes nothing, so replays never
/// double-credit. A non-terminal report is the one exclusion: pending
/// records are created by planning and running ones by assignment,
/// which reserves the slot; storing a reported `Running` here would
/// break the slot accounting, so such echoes are dropped.
pub open spec fn spec_apply_update(
    tasks: Seq<TaskStatus>,
    slots: Seq<ExecutorData>,
    t: TaskStatus,
) -> (Seq<TaskStatus>, Seq<ExecutorData>) {
    if !t@.status.is_terminal() {
        (tasks, slots)
    } else {
        match find_task(tasks, t@.task_id) {
            Some(i) => if !tasks[i]@.status.is_terminal() {
                match tasks[i]@.status {
                    TaskStateView::Running { executor_id, .. } => (
                        tasks.update(i, t),
                        spec_credit(slots, executor_id),
                    ),
                    _ => (tasks.update(i, t), slots),
                }
            } else {
                (tasks, slots)
            },
            None => (tasks.push(t), slots),
        }
    }
}

/// Updating a task in place keeps every lookup position: the keys of the
/// sequence do not move.
pub proof fn lemma_find_task_update_same_id(
    tasks: Seq<TaskStatus>,
    i: int,
    t: TaskStatus,
    id: PartitionIdView,
)
    requires
        0 <= i < tasks.len(),
        tasks[i]@.task_id == t@.task_id,
    ensures
        find_task(tasks.update(i, t), id) == find_task(tasks, id),
    decreases tasks.len(),
{
    let u = tasks.update(i, t);
    lemma_find_task(tasks, id);
    lemma_find_task(u, id);
    assert(forall|j: int| 0 <= j < u.len() ==> (#[trigger] u[j])@.task_id == tasks[j]@.task_id);
    match (find_task(tasks, id), find_task(u, id)) {
        (Some(a), Some(b)) => {
            if a < b {
                assert(u[a]@.task_id == id);
            } else if b < a {
                assert(tasks[b]@.task_id == id);
            }
        },
        (Some(a), None) => {
            assert(u[a]@.task_id == id);
        },
        (None, Some(b)) => {
            assert(tasks[b]@.task_id == id);
        },
        (None, None) => {},
    }
}

/// The slot invariant survives every reported status: the one transition
/// that frees a running slot also credits it, and nothing else changes
/// any count.
pub proof fn lemma_update_preserves_consistency(
    tasks: Seq<TaskStatus>,
    slots: Seq<ExecutorData>,
    t: TaskStatus,
)
    requires
        slots_consistent(tasks, slots),
        slot_ids_unique(slots),
    ensures
        ({
            let once = spec_apply_update(tasks, slots, t);
            slots_consistent(once.0, once.1)
        }),
{
    lemma_find_task(tasks, t@.task_id);
    let once = spec_apply_update(tasks, slots, t);
    if !t@.status.is_terminal() {
        return ;
    }
    match find_task(tasks, t@.task_id) {
        None => {
            assert forall|k: int| 0 <= k < slots.len() implies (
            #[trigger] slots[k]@).available_task_slots + running_count(
                tasks.push(t),
                slots[k]@.executor_id,
            ) == slots[k]@.total_task_slots by {
                lemma_running_count_push(tasks, t, slots[k]@.executor_id);
            }
        },
        Some(i) => {
            if !tasks[i]@.status.is_terminal() {
                let tasks2 = tasks.update(i, t);
                match tasks[i]@.status {
                    TaskStateView::Running { executor_id, .. } => {
                        let e = executor_id;
                        let slots2 = spec_credit(slots, e);
                        lemma_find_slots(slots, e);
                        assert(tasks[i]@.status.is_running_on(e));
                        assert forall|k: int| 0 <= k < slots2.len() implies (
                        #[trigger] slots2[k]@).available_task_slots + running_count(
                            tasks2,
                            slots2[k]@.executor_id,
                        ) == slots2[k]@.total_task_slots by {
                            match find_slots(slots, e) {
                                Some(m) => {
                                    assert(slots[m]@.executor_id == e);
                                    assert(slots[m]@.available_task_slots + running_count(
                                        tasks,
                                        e,
                                    ) == slots[m]@.total_task_slots);
                                    if slots[m].available_task_slots
                                        < slots[m].total_task_slots {
                                        if k == m {
                                            assert(slots2[k]@.executor_id == e);
                                            lemma_running_count_update(tasks, i, t, e);
                                        } else {
                                            assert(slots2[k] == slots[k]);
                                            assert(slots[k]@.executor_id != e);
                                            assert(slots[k]@.available_task_slots
                                                + running_count(
                                                tasks,
                                                slots[k]@.executor_id,
                                            ) == slots[k]@.total_task_slots);
                                            lemma_running_count_update(
                                                tasks,
                                                i,
                                                t,
                                                slots[k]@.executor_id,
                                            );
                                        }
                                    } else {
                                        lemma_running_count_lower(tasks, i, e);
                                        assert(false);
                                    }
                                },
                                None => {
                                    assert(slots2[k] == slots[k]);
                                    assert(slots[k]@.executor_id != e);
                                    lemma_running_count_update(
                                        tasks,
                                        i,
                                        t,
                                        slots[k]@.executor_id,
                                    );
                                },
                            }
                        }
                    },
                    _ => {
                        assert forall|k: int| 0 <= k < slots.len() implies (
                        #[trigger] slots[k]@).available_task_slots + running_count(
                            tasks2,
                            slots[k]@.executor_id,
                        ) == slots[k]@.total_task_slots by {
                            lemma_running_count_update(tasks, i, t, slots[k]@.executor_id);
                        }
                    },
                }
            }
        },
    }
}

// ---------------------------------------------------------------------
// Stage readiness and task selection.
// ---------------------------------------------------------------------

/// A stage may run only when every earlier stage of the same job is
/// fully completed; stage ids order the dependencies (the planner emits
/// dependencies first).
pub open spec fn stage_ready(tasks: Seq<TaskStatus>, job_id: Seq<char>, stage_id: u32) -> bool {
    forall|i: int|
        0 <= i < tasks.len() ==> {
            let t = (#[trigger] tasks[i])@;
            (t.task_id.job_id == job_id && t.task_id.stage_id < stage_id)
                ==> t.status matches TaskStateView::Completed { .. }
        }
}

/// Task `i` can be handed out for `job_id`: it belongs to the job, is
/// still pending, and its stage is ready.
pub open spec fn task_schedulable(tasks: Seq<TaskStatus>, i: int, job_id: Seq<char>) -> bool {
    &&& 0 <= i < tasks.len()
    &&& tasks[i]@.task_id.job_id == job_id
    &&& tasks[i]@.status is Pending
    &&& stage_ready(tasks, job_id, tasks[i]@.task_id.stage_id)
}

pub open spec fn exists_schedulable(tasks: Seq<TaskStatus>, job_id: Seq<char>) -> bool {
    exists|i: int| task_schedulable(tasks, i, job_id)
}

/// Strict dispatch order within a job: ascending stage id, then
/// ascending partition id.
pub open spec fn dispatched_before(a: PartitionIdView, b: PartitionIdView) -> bool {
    a.stage_id < b.stage_id || (a.stage_id == b.stage_id && a.partition_id < b.partition_id)
}

impl SchedulerState {
    fn task_idx(s: &Vec<TaskStatus>, id: &PartitionId) -> (r: Option<usize>)
        ensures
            match find_task(s@, id@) {
                Some(i) => r matches Some(k) && k as int == i && i < s@.len(),
                None => r is None,
            },
    {
        let mut k: usize = 0;
        while k < s.len()
            invariant
                k <= s@.len(),
                forall|j: int| 0 <= j < k ==> #[trigger] s@[j]@.task_id != id@,
            decreases s@.len() - k,
        {
            if s[k].task_id.job_id == *&id.job_id && s[k].task_id.stage_id == id.stage_id
                && s[k].task_id.partition_id == id.partition_id {
                proof {
                    assert(s@[k as int]@.task_id =~= id@);
                    lemma_find_task(s@, id@);
                }
                return Some(k);
            }
            proof {
                assert(s@[k as int]@.task_id != id@);
            }
            k += 1;
        }
        proof {
            lemma_find_task(s@, id@);
        }
        None
    }

    /// Stores one task status: appends a fresh task id, advances an
    /// existing record only if its rank does not decrease, and never
    /// touches a terminal record.
    pub fn save_task_status(&mut self, status: &TaskStatus)
        ensures
            final(self).tasks@ == apply_task_status(old(self).tasks@, *status),
            final(self).executors@ == old(self).executors@,
            final(self).heartbeats@ == old(self).heartbeats@,
            final(self).slots@ == old(self).slots@,
            final(self).jobs@ == old(self).jobs@,
            final(self).stages@ == old(self).stages@,
            old(self).wf() ==> final(self).wf(),
    {
        proof {
            if old(self).wf() {
                lemma_apply_task_unique(old(self).tasks@, *status);
            }
        }
        match Self::task_idx(&self.tasks, &status.task_id) {
            Some(i) => {
                let stored_terminal = self.tasks[i].status.is_terminal();
                let keep = stored_terminal || status.status.rank() < self.tasks[i].status.rank();
                if !keep {
                    self.tasks[i] = status.clone();
                }
            },
            None => {
                self.tasks.push(status.clone());
            },
        }
    }

    /// Applies one reported task status together with its slot
    /// accounting: a terminal report for a known, not yet terminal task
    /// is stored, and if the task was running the executor it ran on is
    /// credited one slot. Anything else leaves the state unchanged.
    pub fn apply_task_update(&mut self, status: &TaskStatus)
        ensures
            ({
                let once = spec_apply_update(old(self).tasks@, old(self).slots@, *status);
                final(self).tasks@ == once.0 && final(self).slots@ == once.1
            }),
            final(self).executors@ == old(self).executors@,
            final(self).heartbeats@ == old(self).heartbeats@,
            final(self).jobs@ == old(self).jobs@,
            final(self).stages@ == old(self).stages@,
            old(self).wf() ==> final(self).wf(),
            old(self).wf() && old(self).consistent() ==> final(self).consistent(),
    {
        proof {
            if old(self).wf() {
                lemma_apply_task_unique(old(self).tasks@, *status);
                lemma_find_task(old(self).tasks@, status@.task_id);
                if old(self).consistent() {
                    lemma_update_preserves_consistency(
                        old(self).tasks@,
                        old(self).slots@,
                        *status,
                    );
                }
            }
        }
        if !status.status.is_terminal() {
            return ;
        }
        match Self::task_idx(&self.tasks, &status.task_id) {
            Some(i) => {
                if !self.tasks[i].status.is_terminal() {
                    let was_running_on: Option<String> = match &self.tasks[i].status {
                        TaskState::Running { executor_id, .. } => Some(executor_id.clone()),
                        _ => None,
                    };
                    self.tasks[i] = status.clone();
                    if let Some(executor_id) = was_running_on {
                        match Self::slots_idx(&self.slots, &executor_id) {
                            Some(k) => {
                                if self.slots[k].available_task_slots
                                    < self.slots[k].total_task_slots {
                                    let d = &self.slots[k];
                                    let freed = ExecutorData {
                                        executor_id: d.executor_id.clone(),
                                        total_task_slots: d.total_task_slots,
                                        available_task_slots: d.available_task_slots + 1,
                                    };
                                    self.slots[k] = freed;
                                }
                            },
                            None => {},
                        }
                        proof {
                            assert(self.slots@ =~= spec_credit(old(self).slots@, executor_id@));
                            if old(self).wf() {
                                lemma_credit_unique(old(self).slots@, executor_id@);
                            }
                        }
                    }
                    proof {
                        assert(final(self).tasks@ =~= apply_task_status(
                            old(self).tasks@,
                            *status,
                        ));
                        assert(final(self).slots@ =~= spec_apply_update(
                            old(self).tasks@,
                            old(self).slots@,
                            *status,
                        ).1);
                    }
                }
            },
            None => {
                self.tasks.push(status.clone());
                proof {
                    assert(final(self).tasks@ =~= apply_task_status(old(self).tasks@, *status));
                }
            },
        }
    }
}

/// The executor has a slot record with at least one free slot.
pub open spec fn has_free_slot(slots: Seq<ExecutorData>, executor_id: Seq<char>) -> bool {
    find_slots(slots, executor_id) matches Some(i) && slots[i]@.available_task_slots > 0
}

/// Reserving a slot for a pending task that becomes running keeps the
/// slot invariant.
pub proof fn lemma_assign_preserves_consistency(
    tasks: Seq<TaskStatus>,
    slots: Seq<ExecutorData>,
    i: int,
    executor_id: Seq<char>,
    t: TaskStatus,
)
    requires
        slots_consistent(tasks, slots),
        slot_ids_unique(slots),
        0 <= i < tasks.len(),
        tasks[i]@.status is Pending,
        t@.status.is_running_on(executor_id),
        has_free_slot(slots, executor_id),
    ensures
        slots_consistent(tasks.update(i, t), spec_debit(slots, executor_id)),
{
    lemma_find_slots(slots, executor_id);
    let e = executor_id;
    let tasks2 = tasks.update(i, t);
    let slots2 = spec_debit(slots, e);
    assert forall|k: int| 0 <= k < slots2.len() implies (
    #[trigger] slots2[k]@).available_task_slots + running_count(tasks2, slots2[k]@.executor_id)
        == slots2[k]@.total_task_slots by {
        match find_slots(slots, e) {
            Some(m) => {
                assert(slots[m]@.executor_id == e);
                assert(slots[m]@.available_task_slots + running_count(tasks, e)
                    == slots[m]@.total_task_slots);
                if k == m {
                    assert(slots2[k]@.executor_id == e);
                    lemma_running_count_update(tasks, i, t, e);
                } else {
                    assert(slots2[k] == slots[k]);
                    assert(slots[k]@.executor_id != e);
                    assert(slots[k]@.available_task_slots + running_count(
                        tasks,
                        slots[k]@.executor_id,
                    ) == slots[k]@.total_task_slots);
                    lemma_running_count_update(tasks, i, t, slots[k]@.executor_id);
                }
            },
            None => {},
        }
    }
}

pub proof fn lemma_debit_unique(slots: Seq<ExecutorData>, executor_id: Seq<char>)
    requires
        slot_ids_unique(slots),
    ensures
        slot_ids_unique(spec_debit(slots, executor_id)),
{
    lemma_find_slots(slots, executor_id);
    let u = spec_debit(slots, executor_id);
    match find_slots(slots, executor_id) {
        Some(i) => {
            assert forall|a: int, b: int| 0 <= a < b < u.len() implies #[trigger] u[a]@.executor_id
                != #[trigger] u[b]@.executor_id by {
                assert(a == i || u[a] == slots[a]);
                assert(b == i || u[b] == slots[b]);
            }
        },
        None => {},
    }
}

impl SchedulerState {
    fn stage_ready_exec(tasks: &Vec<TaskStatus>, job_id: &String, stage_id: u32) -> (r: bool)
        ensures
            r == stage_ready(tasks@, job_id@, stage_id),
    {
        let mut k: usize = 0;
        while k < tasks.len()
            invariant
                k <= tasks@.len(),
                forall|i: int|
                    0 <= i < k ==> {
                        let t = (#[trigger] tasks@[i])@;
                        (t.task_id.job_id == job_id@ && t.task_id.stage_id < stage_id)
                            ==> t.status matches TaskStateView::Completed { .. }
                    },
            decreases tasks@.len() - k,
        {
            if tasks[k].task_id.job_id == *job_id && tasks[k].task_id.stage_id < stage_id {
                let done = match &tasks[k].status {
                    TaskState::Completed { .. } => true,
                    _ => false,
                };
                if !done {
                    proof {
                        let t = tasks@[k as int]@;
                        assert(t.task_id.job_id == job_id@ && t.task_id.stage_id < stage_id
                            && !(t.status matches TaskStateView::Completed { .. }));
                    }
                    return false;
                }
            }
            k += 1;
        }
        true
    }

    /// Selects, marks running, and returns the next task of `job_id` for
    /// `executor_id`.
    ///
    /// Succeeds with a task exactly when the executor has a free slot,
    /// some pending task of the job has all earlier stages completed, and
    /// the stage plan of the first such task (ascending stage id, then
    /// partition id) is on record; that task becomes `Running` on the
    /// executor and one slot is reserved. With no free slot or no ready
    /// task it returns nothing and changes nothing. A ready task whose
    /// stage plan is missing is an internal invariant violation.
    pub fn assign_next_schedulable_job_task(
        &mut self,
        executor_id: &String,
        job_id: &String,
        now: u64,
    ) -> (r: Result<Option<TaskDefinition>, SchedulerError>)
        requires
            old(self).wf(),
        ensures
            final(self).wf(),
            final(self).executors@ == old(self).executors@,
            final(self).heartbeats@ == old(self).heartbeats@,
            final(self).jobs@ == old(self).jobs@,
            final(self).stages@ == old(self).stages@,
            !(r matches Ok(Some(td))) ==> final(self).tasks@ == old(self).tasks@
                && final(self).slots@ == old(self).slots@,
            r matches Ok(None) <==> !(has_free_slot(old(self).slots@, executor_id@)
                && exists_schedulable(old(self).tasks@, job_id@)),
            r matches Err(e) ==> e@ is Internal && exists|i: int|
                #[trigger] task_schedulable(old(self).tasks@, i, job_id@) && find_stage(
                    old(self).stages@,
                    job_id@,
                    old(self).tasks@[i]@.task_id.stage_id,
                ) is None,
            r matches Ok(Some(td)) ==> {
                &&& td.task_id@.job_id == job_id@
                &&& find_task(old(self).tasks@, td.task_id@) matches Some(i) && {
                    &&& task_schedulable(old(self).tasks@, i, job_id@)
                    &&& forall|j: int|
                        task_schedulable(old(self).tasks@, j, job_id@) && j != i
                            ==> dispatched_before(
                            old(self).tasks@[i]@.task_id,
                            old(self).tasks@[j]@.task_id,
                        )
                    &&& final(self).tasks@ == old(self).tasks@.update(
                        i,
                        (TaskStatus {
                            task_id: td.task_id,
                            status: (TaskState::Running {
                                executor_id: *executor_id,
                                start_ts: now,
                            }),
                        }),
                    )
                }
                &&& find_stage(old(self).stages@, job_id@, td.task_id@.stage_id) matches Some(k)
                    && td.plan == old(self).stages@[k].plan && td.output_partitioning == old(
                    self,
                ).stages@[k].partitioning
                &&& final(self).slots@ == spec_debit(old(self).slots@, executor_id@)
            },
            old(self).consistent() ==> final(self).consistent(),
    {
        // Slot gate: without a free slot on this executor nothing is
        // assigned.
        let free = match Self::slots_idx(&self.slots, executor_id) {
            Some(k) => self.slots[k].available_task_slots > 0,
            None => false,
        };
        if !free {
            return Ok(None);
        }
        // Select the first ready pending task of the job, in dispatch
        // order.
        let mut best: Option<usize> = None;
        let mut m: usize = 0;
        while m < self.tasks.len()
            invariant
                self.wf(),
                m <= self.tasks@.len(),
                match best {
                    Some(b) => b < m && task_schedulable(self.tasks@, b as int, job_id@)
                        && forall|j: int|
                        task_schedulable(self.tasks@, j, job_id@) && j < m && j != b as int
                            ==> dispatched_before(
                            self.tasks@[b as int]@.task_id,
                            self.tasks@[j]@.task_id,
                        ),
                    None => forall|j: int|
                        0 <= j < m ==> !task_schedulable(self.tasks@, j, job_id@),
                },
            decreases self.tasks@.len() - m,
        {
            let is_pending = match &self.tasks[m].status {
                TaskState::Pending => true,
                _ => false,
            };
            if is_pending && self.tasks[m].task_id.job_id == *job_id && Self::stage_ready_exec(
                &self.tasks,
                job_id,
                self.tasks[m].task_id.stage_id,
            ) {
                match best {
                    None => {
                        best = Some(m);
                    },
                    Some(b) => {
                        let cand = &self.tasks[m].task_id;
                        let cur = &self.tasks[b].task_id;
                        if cand.stage_id < cur.stage_id || (cand.stage_id == cur.stage_id
                            && cand.partition_id < cur.partition_id) {
                            best = Some(m);
                        } else {
                            proof {
                                if !dispatched_before(
                                    self.tasks@[b as int]@.task_id,
                                    self.tasks@[m as int]@.task_id,
                                ) {
                                    assert(self.tasks@[b as int]@.task_id =~= self.tasks@[m as int]@.task_id);
                                    assert(false);
                                }
                            }
                        }
                    },
                }
            }
            m += 1;
        }
        let chosen = match best {
            Some(b) => b,
            None => {
                return Ok(None);
            },
        };
        let stage_id = self.tasks[chosen].task_id.stage_id;
        let stage_k = match Self::stage_idx(&self.stages, job_id, stage_id) {
            Some(k) => k,
            None => {
                return Err(
                    SchedulerError::Internal {
                        message: String::from_str("no stage plan on record for a ready task"),
                    },
                );
            },
        };
        let task_id = self.tasks[chosen].task_id.clone();
        let plan = self.stages[stage_k].plan.clone();
        let output_partitioning = self.stages[stage_k].partitioning;
        let running = TaskStatus {
            task_id: task_id.clone(),
            status: TaskState::Running { executor_id: executor_id.clone(), start_ts: now },
        };
        proof {
            lemma_find_task(old(self).tasks@, task_id@);
            if old(self).consistent() {
                lemma_assign_preserves_consistency(
                    old(self).tasks@,
                    old(self).slots@,
                    chosen as int,
                    executor_id@,
                    running,
                );
            }
            lemma_debit_unique(old(self).slots@, executor_id@);
        }
        self.tasks[chosen] = running;
        let slot_k = match Self::slots_idx(&self.slots, executor_id) {
            Some(k) => k,
            None => {
                proof {
                    assert(false);
                }
                return Ok(None);
            },
        };
        let d = &self.slots[slot_k];
        let debited = ExecutorData {
            executor_id: d.executor_id.clone(),
            total_task_slots: d.total_task_slots,
            available_task_slots: d.available_task_slots - 1,
        };
        self.slots[slot_k] = debited;
        proof {
            assert(self.slots@ =~= spec_debit(old(self).slots@, executor_id@));
            assert(task_ids_unique(self.tasks@)) by {
                assert forall|a: int, b: int| 0 <= a < b < self.tasks@.len() implies #[trigger] self
                    .tasks@[a]@.task_id != #[trigger] self.tasks@[b]@.task_id by {
                    assert(a == chosen as int || self.tasks@[a] == old(self).tasks@[a]);
                    assert(b == chosen as int || self.tasks@[b] == old(self).tasks@[b]);
                    assert(self.tasks@[chosen as int]@.task_id == old(
                        self,
                    ).tasks@[chosen as int]@.task_id);
                }
            }
        }
        Ok(Some(TaskDefinition { task_id, plan, output_partitioning }))
    }

    /// Walks the jobs in submission order and assigns the next task of
    /// the first running job that has one; earlier running jobs are only
    /// passed over when they have no ready task. Changes nothing when no
    /// running job has work or the executor has no free slot.
    pub fn assign_next_schedulable_task(&mut self, executor_id: &String, now: u64) -> (r: Result<
        Option<TaskDefinition>,
        SchedulerError,
    >)
        requires
            old(self).wf(),
        ensures
            final(self).wf(),
            final(self).executors@ == old(self).executors@,
            final(self).heartbeats@ == old(self).heartbeats@,
            final(self).jobs@ == old(self).jobs@,
            final(self).stages@ == old(self).stages@,
            !(r matches Ok(Some(td))) ==> final(self).tasks@ == old(self).tasks@
                && final(self).slots@ == old(self).slots@,
            r matches Ok(None) ==> forall|j: int|
                0 <= j < old(self).jobs@.len() && (#[trigger] old(self).jobs@[j]).status@
                    is Running ==> !(has_free_slot(old(self).slots@, executor_id@)
                    && exists_schedulable(old(self).tasks@, old(self).jobs@[j].job_id@)),
            r matches Ok(Some(td)) ==> {
                &&& has_free_slot(old(self).slots@, executor_id@)
                &&& exists|j: int|
                    {
                        &&& 0 <= j < old(self).jobs@.len()
                        &&& (#[trigger] old(self).jobs@[j]).status@ is Running
                        &&& old(self).jobs@[j].job_id@ == td.task_id@.job_id
                        &&& forall|j2: int|
                            0 <= j2 < j && (#[trigger] old(self).jobs@[j2]).status@ is Running
                                ==> !exists_schedulable(
                                old(self).tasks@,
                                old(self).jobs@[j2].job_id@,
                            )
                    }
                &&& find_task(old(self).tasks@, td.task_id@) matches Some(i) && {
                    &&& task_schedulable(old(self).tasks@, i, td.task_id@.job_id)
                    &&& forall|j2: int|
                        task_schedulable(old(self).tasks@, j2, td.task_id@.job_id) && j2 != i
                            ==> dispatched_before(
                            old(self).tasks@[i]@.task_id,
                            old(self).tasks@[j2]@.task_id,
                        )
                    &&& final(self).tasks@ == old(self).tasks@.update(
                        i,
                        (TaskStatus {
                            task_id: td.task_id,
                            status: (TaskState::Running {
                                executor_id: *executor_id,
                                start_ts: now,
                            }),
                        }),
                    )
                }
                &&& find_stage(old(self).stages@, td.task_id@.job_id, td.task_id@.stage_id)
                    matches Some(k) && td.plan == old(self).stages@[k].plan
                    && td.output_partitioning == old(self).stages@[k].partitioning
                &&& final(self).slots@ == spec_debit(old(self).slots@, executor_id@)
            },
            r matches Err(e) ==> e@ is Internal && exists|j: int|
                {
                    &&& 0 <= j < old(self).jobs@.len()
                    &&& (#[trigger] old(self).jobs@[j]).status@ is Running
                    &&& exists|i: int|
                        #[trigger] task_schedulable(
                            old(self).tasks@,
                            i,
                            old(self).jobs@[j].job_id@,
                        ) && find_stage(
                            old(self).stages@,
                            old(self).jobs@[j].job_id@,
                            old(self).tasks@[i]@.task_id.stage_id,
                        ) is None
                },
            old(self).consistent() ==> final(self).consistent(),
    {
        let mut j: usize = 0;
        while j < self.jobs.len()
            invariant
                self.wf(),
                self.executors@ == old(self).executors@,
                self.heartbeats@ == old(self).heartbeats@,
                self.slots@ == old(self).slots@,
                self.jobs@ == old(self).jobs@,
                self.stages@ == old(self).stages@,
                self.tasks@ == old(self).tasks@,
                j <= self.jobs@.len(),
                forall|j2: int|
                    0 <= j2 < j && (#[trigger] self.jobs@[j2]).status@ is Running
                        ==> !(has_free_slot(self.slots@, executor_id@) && exists_schedulable(
                        self.tasks@,
                        self.jobs@[j2].job_id@,
                    )),
            decreases self.jobs@.len() - j,
        {
            let is_running = match &self.jobs[j].status {
                JobStatus::Running => true,
                _ => false,
            };
            if is_running {
                let job_id = self.jobs[j].job_id.clone();
                match self.assign_next_schedulable_job_task(executor_id, &job_id, now) {
                    Ok(Some(td)) => {
                        return Ok(Some(td));
                    },
                    Ok(None) => {},
                    Err(e) => {
                        return Err(e);
                    },
                }
            }
            j += 1;
        }
        Ok(None)
    }
}


// ---------------------------------------------------------------------
// Available-executor snapshot.
// ---------------------------------------------------------------------

/// The executor's last heartbeat is within the liveness window.
pub open spec fn heartbeat_live(
    heartbeats: Seq<ExecutorHeartbeat>,
    executor_id: Seq<char>,
    now: u64,
    window: u64,
) -> bool {
    find_heartbeat(heartbeats, executor_id) matches Some(i) && heartbeats[i]@.timestamp + window
        >= now
}

/// The slot records of executors with a live heartbeat, in store order.
pub open spec fn live_slots(
    slots: Seq<ExecutorData>,
    heartbeats: Seq<ExecutorHeartbeat>,
    now: u64,
    window: u64,
) -> Seq<ExecutorData>
    decreases slots.len(),
{
    if slots.len() == 0 {
        Seq::empty()
    } else {
        let rest = live_slots(slots.drop_last(), heartbeats, now, window);
        if heartbeat_live(heartbeats, slots.last()@.executor_id, now, window) {
            rest.push(slots.last())
        } else {
            rest
        }
    }
}

/// Descending order of free slots.
pub open spec fn sorted_by_available_desc(s: Seq<ExecutorData>) -> bool {
    forall|i: int, j: int|
        0 <= i < j < s.len() ==> (#[trigger] s[i]@).available_task_slots
            >= (#[trigger] s[j]@).available_task_slots
}

impl SchedulerState {
    fn heartbeat_is_live(&self, executor_id: &String, now: u64, window: u64) -> (r: bool)
        ensures
            r == heartbeat_live(self.heartbeats@, executor_id@, now, window),
    {
        match Self::heartbeat_idx(&self.heartbeats, executor_id) {
            Some(i) => {
                let ts = self.heartbeats[i].timestamp;
                if now <= window {
                    true
                } else {
                    ts >= now - window
                }
            },
            None => false,
        }
    }

    /// A snapshot of the slot records of executors whose last heartbeat
    /// is within `window` seconds of `now`, sorted by descending free
    /// slots: exactly the live records, each exactly once.
    pub fn get_available_executors_data(&self, now: u64, window: u64) -> (r: Vec<ExecutorData>)
        ensures
            sorted_by_available_desc(r@),
            r@.to_multiset() == live_slots(self.slots@, self.heartbeats@, now, window)
                .to_multiset(),
    {
        broadcast use vstd::seq_lib::group_to_multiset_ensures;
        broadcast use vstd::multiset::group_multiset_axioms;

        let ghost all_live = live_slots(self.slots@, self.heartbeats@, now, window);
        let mut pool: Vec<ExecutorData> = Vec::new();
        let mut k: usize = 0;
        while k < self.slots.len()
            invariant
                k <= self.slots@.len(),
                pool@ == live_slots(self.slots@.take(k as int), self.heartbeats@, now, window),
            decreases self.slots@.len() - k,
        {
            proof {
                assert(self.slots@.take(k as int + 1).drop_last() =~= self.slots@.take(k as int));
                assert(self.slots@.take(k as int + 1).last() == self.slots@[k as int]);
            }
            if self.heartbeat_is_live(&self.slots[k].executor_id, now, window) {
                pool.push(self.slots[k].clone());
            }
            k += 1;
        }
        proof {
            assert(self.slots@.take(self.slots@.len() as int) =~= self.slots@);
        }
        // Selection sort into descending order of free slots.
        let mut out: Vec<ExecutorData> = Vec::new();
        while pool.len() > 0
            invariant
                sorted_by_available_desc(out@),
                forall|a: int, b: int|
                    0 <= a < out@.len() && 0 <= b < pool@.len() ==> (
                    #[trigger] out@[a]@).available_task_slots
                        >= (#[trigger] pool@[b]@).available_task_slots,
                out@.to_multiset().add(pool@.to_multiset()) =~= all_live.to_multiset(),
            decreases pool@.len(),
        {
            let mut imax: usize = 0;
            let mut m: usize = 1;
            while m < pool.len()
                invariant
                    imax < m <= pool@.len(),
                    pool@.len() > 0,
                    forall|b: int|
                        0 <= b < m ==> (#[trigger] pool@[b]@).available_task_slots
                            <= pool@[imax as int]@.available_task_slots,
                decreases pool@.len() - m,
            {
                if pool[m].available_task_slots > pool[imax].available_task_slots {
                    imax = m;
                }
                m += 1;
            }
            let ghost pool0 = pool@;
            let ghost out0 = out@;
            let picked = pool.remove(imax);
            proof {
                vstd::seq_lib::to_multiset_remove(pool0, imax as int);
                vstd::seq_lib::to_multiset_build(out0, picked);
                assert(pool0.contains(picked));
                vstd::seq_lib::to_multiset_contains(pool0, picked);
                assert(pool0.to_multiset().count(picked) > 0);
            }
            out.push(picked);
            proof {
                assert(out@.to_multiset().add(pool@.to_multiset()) =~= out0.to_multiset().add(
                    pool0.to_multiset(),
                ));
            }
        }
        proof {
            vstd::seq_lib::to_multiset_len(pool@);
            vstd::multiset::lemma_multiset_empty_len(pool@.to_multiset());
            assert(out@.to_multiset() =~= all_live.to_multiset());
        }
        out
    }
}


// ---------------------------------------------------------------------
// Registration is idempotent.
// ---------------------------------------------------------------------

proof fn lemma_upsert_executor_twice(s: Seq<ExecutorMetadata>, m: ExecutorMetadata)
    ensures
        upsert_executor(upsert_executor(s, m), m) =~= upsert_executor(s, m),
{
    lemma_find_executor(s, m@.id);
    let u = upsert_executor(s, m);
    lemma_find_executor(u, m@.id);
    match find_executor(s, m@.id) {
        Some(i) => {
            match find_executor(u, m@.id) {
                Some(i2) => {
                    if i2 < i {
                        assert(u[i2] == s[i2]);
                        assert(false);
                    }
                    if i < i2 {
                        assert(u[i]@.id == m@.id);
                        assert(false);
                    }
                },
                None => {
                    assert(u[i]@.id == m@.id);
                    assert(false);
                },
            }
        },
        None => {
            match find_executor(u, m@.id) {
                Some(i2) => {
                    if i2 < s.len() {
                        assert(u[i2] == s[i2]);
                        assert(false);
                    }
                },
                None => {
                    assert(u[s.len() as int]@.id == m@.id);
                    assert(false);
                },
            }
        },
    }
}

proof fn lemma_upsert_slots_twice(s: Seq<ExecutorData>, d: ExecutorData)
    ensures
        upsert_slots(upsert_slots(s, d), d) =~= upsert_slots(s, d),
{
    lemma_find_slots(s, d@.executor_id);
    let u = upsert_slots(s, d);
    lemma_find_slots(u, d@.executor_id);
    match find_slots(s, d@.executor_id) {
        Some(i) => {
            match find_slots(u, d@.executor_id) {
                Some(i2) => {
                    if i2 < i {
                        assert(u[i2] == s[i2]);
                        assert(false);
                    }
                    if i < i2 {
                        assert(u[i]@.executor_id == d@.executor_id);
                        assert(false);
                    }
                },
                None => {
                    assert(u[i]@.executor_id == d@.executor_id);
                    assert(false);
                },
            }
        },
        None => {
            match find_slots(u, d@.executor_id) {
                Some(i2) => {
                    if i2 < s.len() {
                        assert(u[i2] == s[i2]);
                        assert(false);
                    }
                },
                None => {
                    assert(u[s.len() as int]@.executor_id == d@.executor_id);
                    assert(false);
                },
            }
        },
    }
}

/// Idempotent executor registration: repeating an identical registration
/// leaves the executor record and the slot record exactly as the first
/// call left them, so any number of identical calls leave exactly one
/// record per id (uniqueness is kept by every upsert).
pub proof fn lemma_register_idempotent(
    executors: Seq<ExecutorMetadata>,
    slots: Seq<ExecutorData>,
    meta: ExecutorMetadata,
    data: ExecutorData,
)
    ensures
        upsert_executor(upsert_executor(executors, meta), meta) == upsert_executor(
            executors,
            meta,
        ),
        upsert_slots(upsert_slots(slots, data), data) == upsert_slots(slots, data),
{
    lemma_upsert_executor_twice(executors, meta);
    lemma_upsert_slots_twice(slots, data);
}


// ---------------------------------------------------------------------
// Counting ready work.
// ---------------------------------------------------------------------

pub open spec fn count_schedulable_from(tasks: Seq<TaskStatus>, job_id: Seq<char>, k: int) -> int
    decreases tasks.len() - k,
{
    if k < 0 || k >= tasks.len() {
        0
    } else {
        (if task_schedulable(tasks, k, job_id) {
            1int
        } else {
            0int
        }) + count_schedulable_from(tasks, job_id, k + 1)
    }
}

/// How many tasks of the job are ready to be handed out.
pub open spec fn count_schedulable(tasks: Seq<TaskStatus>, job_id: Seq<char>) -> int {
    count_schedulable_from(tasks, job_id, 0)
}

pub proof fn lemma_count_schedulable_exists(tasks: Seq<TaskStatus>, job_id: Seq<char>, k: int)
    requires
        count_schedulable_from(tasks, job_id, k) > 0,
    ensures
        exists_schedulable(tasks, job_id),
    decreases tasks.len() - k,
{
    if !(k < 0 || k >= tasks.len()) {
        if task_schedulable(tasks, k, job_id) {
        } else {
            lemma_count_schedulable_exists(tasks, job_id, k + 1);
        }
    }
}

/// Marking one task running does not change whether any stage is ready:
/// the record keeps its id and is completed neither before nor after.
proof fn lemma_stage_ready_update(
    tasks: Seq<TaskStatus>,
    ch: int,
    t: TaskStatus,
    job_id: Seq<char>,
    stage_id: u32,
)
    requires
        0 <= ch < tasks.len(),
        !(tasks[ch]@.status matches TaskStateView::Completed { .. }),
        !(t@.status matches TaskStateView::Completed { .. }),
        t@.task_id == tasks[ch]@.task_id,
    ensures
        stage_ready(tasks.update(ch, t), job_id, stage_id) == stage_ready(
            tasks,
            job_id,
            stage_id,
        ),
{
    let u = tasks.update(ch, t);
    if stage_ready(tasks, job_id, stage_id) {
        assert forall|i: int| 0 <= i < u.len() implies {
            let w = (#[trigger] u[i])@;
            (w.task_id.job_id == job_id && w.task_id.stage_id < stage_id)
                ==> w.status matches TaskStateView::Completed { .. }
        } by {
            assert(i == ch || u[i] == tasks[i]);
            assert(tasks[i]@.task_id.job_id == job_id && tasks[i]@.task_id.stage_id < stage_id
                ==> tasks[i]@.status matches TaskStateView::Completed { .. });
        }
    }
    if stage_ready(u, job_id, stage_id) {
        assert forall|i: int| 0 <= i < tasks.len() implies {
            let w = (#[trigger] tasks[i])@;
            (w.task_id.job_id == job_id && w.task_id.stage_id < stage_id)
                ==> w.status matches TaskStateView::Completed { .. }
        } by {
            assert(i == ch || u[i] == tasks[i]);
            assert(u[i]@.task_id.job_id == job_id && u[i]@.task_id.stage_id < stage_id
                ==> u[i]@.status matches TaskStateView::Completed { .. });
        }
    }
}

/// Assigning one pending task leaves every other task's readiness as it
/// was, and makes the assigned one unready.
pub proof fn lemma_schedulable_update(
    tasks: Seq<TaskStatus>,
    ch: int,
    t: TaskStatus,
    job_id: Seq<char>,
)
    requires
        0 <= ch < tasks.len(),
        tasks[ch]@.status is Pending,
        t@.status matches TaskStateView::Running { .. },
        t@.task_id == tasks[ch]@.task_id,
    ensures
        forall|i: int|
            0 <= i < tasks.len() && i != ch ==> task_schedulable(
                #[trigger] tasks.update(ch, t),
                i,
                job_id,
            ) == task_schedulable(tasks, i, job_id),
        !task_schedulable(tasks.update(ch, t), ch, job_id),
{
    let u = tasks.update(ch, t);
    assert forall|i: int| 0 <= i < tasks.len() && i != ch implies task_schedulable(
        #[trigger] tasks.update(ch, t),
        i,
        job_id,
    ) == task_schedulable(tasks, i, job_id) by {
        lemma_stage_ready_update(tasks, ch, t, job_id, tasks[i]@.task_id.stage_id);
        assert(u[i] == tasks[i]);
    }
}

proof fn lemma_count_schedulable_from_update(
    tasks: Seq<TaskStatus>,
    ch: int,
    t: TaskStatus,
    job_id: Seq<char>,
    k: int,
)
    requires
        0 <= ch < tasks.len(),
        tasks[ch]@.status is Pending,
        t@.status matches TaskStateView::Running { .. },
        t@.task_id == tasks[ch]@.task_id,
        task_schedulable(tasks, ch, job_id),
        0 <= k,
    ensures
        count_schedulable_from(tasks.update(ch, t), job_id, k) == count_schedulable_from(
            tasks,
            job_id,
            k,
        ) - (if k <= ch {
            1int
        } else {
            0int
        }),
    decreases tasks.len() - k,
{
    lemma_schedulable_update(tasks, ch, t, job_id);
    if !(k < 0 || k >= tasks.len()) {
        lemma_count_schedulable_from_update(tasks, ch, t, job_id, k + 1);
    }
}

/// Assigning one ready task lowers the count of ready tasks by one.
pub proof fn lemma_count_schedulable_update(
    tasks: Seq<TaskStatus>,
    ch: int,
    t: TaskStatus,
    job_id: Seq<char>,
)
    requires
        0 <= ch < tasks.len(),
        tasks[ch]@.status is Pending,
        t@.status matches TaskStateView::Running { .. },
        t@.task_id == tasks[ch]@.task_id,
        task_schedulable(tasks, ch, job_id),
    ensures
        count_schedulable(tasks.update(ch, t), job_id) == count_schedulable(tasks, job_id) - 1,
{
    lemma_count_schedulable_from_update(tasks, ch, t, job_id, 0);
}

/// Debiting one executor's slots does not change any other executor's
/// free-slot standing.
pub proof fn lemma_debit_preserves_other(
    slots: Seq<ExecutorData>,
    debited: Seq<char>,
    other: Seq<char>,
)
    requires
        slot_ids_unique(slots),
        debited != other,
    ensures
        has_free_slot(spec_debit(slots, debited), other) == has_free_slot(slots, other),
{
    lemma_find_slots(slots, debited);
    let u = spec_debit(slots, debited);
    lemma_find_slots(u, other);
    lemma_find_slots(slots, other);
    match find_slots(slots, debited) {
        Some(m) => {
            assert(forall|j: int| 0 <= j < u.len() ==> (#[trigger] u[j])@.executor_id
                == slots[j]@.executor_id);
            match (find_slots(slots, other), find_slots(u, other)) {
                (Some(a), Some(b)) => {
                    if a < b {
                        assert(u[a]@.executor_id == other);
                    } else if b < a {
                        assert(slots[b]@.executor_id == other);
                    }
                    assert(u[a] == slots[a]);
                },
                (Some(a), None) => {
                    assert(u[a]@.executor_id == other);
                },
                (None, Some(b)) => {
                    assert(slots[b]@.executor_id == other);
                },
                (None, None) => {},
            }
        },
        None => {},
    }
}


/// Registering an executor with a full slot account and no running tasks
/// keeps the slot invariant.
pub proof fn lemma_register_consistent(
    tasks: Seq<TaskStatus>,
    slots: Seq<ExecutorData>,
    data: ExecutorData,
)
    requires
        slots_consistent(tasks, slots),
        running_count(tasks, data@.executor_id) == 0,
        data@.available_task_slots == data@.total_task_slots,
    ensures
        slots_consistent(tasks, upsert_slots(slots, data)),
{
    lemma_find_slots(slots, data@.executor_id);
    let u = upsert_slots(slots, data);
    assert forall|k: int| 0 <= k < u.len() implies (#[trigger] u[k]@).available_task_slots
        + running_count(tasks, u[k]@.executor_id) == u[k]@.total_task_slots by {
        match find_slots(slots, data@.executor_id) {
            Some(m) => {
                assert(k == m || u[k] == slots[k]);
            },
            None => {
                assert(k == slots.len() as int || u[k] == slots[k]);
            },
        }
    }
}


} // verus!
