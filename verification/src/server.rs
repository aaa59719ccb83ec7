//! The scheduler service: the decision core of every control-plane call.
//!
//! Each handler is a function from plain request values (and, where a
//! handler needs the time, the caller's clock reading) to plain results
//! and state changes. The network frames, the outbound executor clients
//! and the dispatch channel live outside; they hand values in and carry
//! values out.

use vstd::prelude::*;
use rand::Rng;
use vstd::string::StringExecFns;
use crate::domain::{
    ExecutorData, ExecutorHeartbeat, ExecutorMetadata, JobStatus, JobStatusView, SchedulerError,
    TaskDefinition, TaskSchedulingPolicy, TaskStatus,
};
use crate::state::{
    count_schedulable, exists_schedulable, find_executor, find_job, find_slots, find_stage,
    find_task,
    has_free_slot, lemma_count_schedulable_exists, lemma_count_schedulable_update,
    lemma_debit_preserves_other, lemma_schedulable_update, running_count, spec_apply_update,
    spec_debit, task_schedulable, upsert_executor, upsert_heartbeat, upsert_job, upsert_slots,
    JobRecord, SchedulerState, StageRecord,
};
use crate::domain::{PartitionId, PartitionIdView, TaskState};
use crate::plan::{PlanNode, QueryStage};
use crate::planner::{spec_plan_query_stages, DistributedPlanner};

verus! {

/// One metric the autoscaling surface advertises.
pub struct MetricSpec {
    pub metric_name: String,
    pub target_size: u64,
}

/// One metric value the autoscaling surface reports.
pub struct MetricValue {
    pub metric_name: String,
    pub metric_value: u64,
}

/// Some entry of the job list reads `id`.
pub open spec fn has_job_entry(jobs: Seq<String>, id: Seq<char>) -> bool {
    exists|i: int| 0 <= i < jobs.len() && (#[trigger] jobs[i])@ == id
}

/// Some report in the batch belongs to job `id`.
pub open spec fn report_touches_job(reports: Seq<TaskStatus>, id: Seq<char>) -> bool {
    exists|k: int| 0 <= k < reports.len() && (#[trigger] reports[k])@.task_id.job_id == id
}

proof fn lemma_push_keeps_entry(jobs: Seq<String>, x: String, id: Seq<char>)
    requires
        has_job_entry(jobs, id),
    ensures
        has_job_entry(jobs.push(x), id),
{
    let i = choose|i: int| 0 <= i < jobs.len() && (#[trigger] jobs[i])@ == id;
    assert(jobs.push(x)[i]@ == id);
}

/// A batch of reported statuses applied in order, with slot accounting.
pub open spec fn apply_task_updates(
    tasks: Seq<TaskStatus>,
    slots: Seq<ExecutorData>,
    reports: Seq<TaskStatus>,
) -> (Seq<TaskStatus>, Seq<ExecutorData>)
    decreases reports.len(),
{
    if reports.len() == 0 {
        (tasks, slots)
    } else {
        let once = spec_apply_update(tasks, slots, reports[0]);
        apply_task_updates(once.0, once.1, reports.drop_first())
    }
}

/// The task id has a record and that record is terminal.
pub open spec fn stored_terminal(tasks: Seq<TaskStatus>, id: crate::domain::PartitionIdView) -> bool {
    find_task(tasks, id) matches Some(i) && tasks[i]@.status.is_terminal()
}

/// Where a lookup lands after a push: existing ids keep their position,
/// the pushed record answers for its own id.
proof fn lemma_find_task_push(
    tasks: Seq<TaskStatus>,
    t: TaskStatus,
    id: crate::domain::PartitionIdView,
)
    ensures
        find_task(tasks.push(t), id) == (match find_task(tasks, id) {
            Some(i) => Some(i),
            None => if t@.task_id == id {
                Some(tasks.len() as int)
            } else {
                None::<int>
            },
        }),
{
    let u = tasks.push(t);
    crate::state::lemma_find_task(tasks, id);
    crate::state::lemma_find_task(u, id);
    assert(forall|j: int| 0 <= j < tasks.len() ==> u[j] == #[trigger] tasks[j]);
    match (find_task(tasks, id), find_task(u, id)) {
        (Some(a), Some(b)) => {
            if a < b {
                assert(u[a]@.task_id == id);
            } else if b < a {
                assert(tasks[b]@.task_id == id);
            }
        },
        (Some(a), None) => {
            assert(u[a]@.task_id == id);
        },
        (None, Some(b)) => {
            if b < tasks.len() {
                assert(tasks[b]@.task_id == id);
            }
        },
        (None, None) => {
            if t@.task_id == id {
                assert(u[tasks.len() as int]@.task_id == id);
            }
        },
    }
}

/// Applying one report keeps every terminal record terminal, in place.
proof fn lemma_apply_update_keeps_terminal(
    tasks: Seq<TaskStatus>,
    slots: Seq<ExecutorData>,
    t: TaskStatus,
    id: crate::domain::PartitionIdView,
)
    requires
        stored_terminal(tasks, id),
    ensures
        stored_terminal(spec_apply_update(tasks, slots, t).0, id),
{
    crate::state::lemma_find_task(tasks, id);
    crate::state::lemma_find_task(tasks, t@.task_id);
    if t@.status.is_terminal() {
        match find_task(tasks, t@.task_id) {
            Some(i) => {
                if !tasks[i]@.status.is_terminal() {
                    crate::state::lemma_find_task_update_same_id(tasks, i, t, id);
                }
            },
            None => {
                lemma_find_task_push(tasks, t, id);
            },
        }
    }
}

/// A report for an already terminal id, or a non-terminal report,
/// changes nothing.
proof fn lemma_apply_update_noop(tasks: Seq<TaskStatus>, slots: Seq<ExecutorData>, t: TaskStatus)
    requires
        stored_terminal(tasks, t@.task_id) || !t@.status.is_terminal(),
    ensures
        spec_apply_update(tasks, slots, t) == (tasks, slots),
{
}

/// After one terminal report is applied, its own id sits terminal.
proof fn lemma_apply_update_settles_own_id(
    tasks: Seq<TaskStatus>,
    slots: Seq<ExecutorData>,
    t: TaskStatus,
)
    requires
        t@.status.is_terminal(),
    ensures
        stored_terminal(spec_apply_update(tasks, slots, t).0, t@.task_id),
{
    crate::state::lemma_find_task(tasks, t@.task_id);
    match find_task(tasks, t@.task_id) {
        Some(i) => {
            if !tasks[i]@.status.is_terminal() {
                crate::state::lemma_find_task_update_same_id(tasks, i, t, t@.task_id);
            }
        },
        None => {
            lemma_find_task_push(tasks, t, t@.task_id);
        },
    }
}

/// `spec_apply_update` ignores the slot argument when computing the task
/// sequence, so the helper facts above apply for any slots.
proof fn lemma_apply_update_tasks_ignore_slots(
    tasks: Seq<TaskStatus>,
    slots: Seq<ExecutorData>,
    t: TaskStatus,
)
    ensures
        spec_apply_update(tasks, slots, t).0 == spec_apply_update(tasks, Seq::empty(), t).0,
{
}

/// After a whole batch is applied, every terminal report in the batch
/// sits terminal in the result.
proof fn lemma_apply_updates_settle(
    tasks: Seq<TaskStatus>,
    slots: Seq<ExecutorData>,
    reports: Seq<TaskStatus>,
)
    ensures
        forall|k: int|
            0 <= k < reports.len() && (#[trigger] reports[k])@.status.is_terminal()
                ==> stored_terminal(
                apply_task_updates(tasks, slots, reports).0,
                reports[k]@.task_id,
            ),
    decreases reports.len(),
{
    if reports.len() > 0 {
        let once = spec_apply_update(tasks, slots, reports[0]);
        lemma_apply_updates_settle(once.0, once.1, reports.drop_first());
        if reports[0]@.status.is_terminal() {
            lemma_apply_update_settles_own_id(tasks, slots, reports[0]);
            lemma_updates_keep_terminal(once.0, once.1, reports.drop_first(), reports[0]@.task_id);
        }
        assert forall|k: int|
            0 <= k < reports.len() && (#[trigger] reports[k])@.status.is_terminal()
                implies stored_terminal(
            apply_task_updates(tasks, slots, reports).0,
            reports[k]@.task_id,
        ) by {
            if k >= 1 {
                assert(reports[k] == reports.drop_first()[k - 1]);
                assert(stored_terminal(
                    apply_task_updates(once.0, once.1, reports.drop_first()).0,
                    reports.drop_first()[k - 1]@.task_id,
                ));
            }
        }
    }
}

/// A whole batch keeps any id's terminal standing.
proof fn lemma_updates_keep_terminal(
    tasks: Seq<TaskStatus>,
    slots: Seq<ExecutorData>,
    reports: Seq<TaskStatus>,
    id: crate::domain::PartitionIdView,
)
    requires
        stored_terminal(tasks, id),
    ensures
        stored_terminal(apply_task_updates(tasks, slots, reports).0, id),
    decreases reports.len(),
{
    if reports.len() > 0 {
        let once = spec_apply_update(tasks, slots, reports[0]);
        lemma_apply_update_keeps_terminal(tasks, slots, reports[0], id);
        lemma_apply_update_tasks_ignore_slots(tasks, slots, reports[0]);
        lemma_updates_keep_terminal(once.0, once.1, reports.drop_first(), id);
    }
}

/// A batch that changes nothing report-by-report changes nothing at all.
proof fn lemma_apply_updates_noop(
    tasks: Seq<TaskStatus>,
    slots: Seq<ExecutorData>,
    reports: Seq<TaskStatus>,
)
    requires
        forall|k: int|
            0 <= k < reports.len() ==> stored_terminal(tasks, (#[trigger] reports[k])@.task_id)
                || !reports[k]@.status.is_terminal(),
    ensures
        apply_task_updates(tasks, slots, reports) == (tasks, slots),
    decreases reports.len(),
{
    if reports.len() > 0 {
        lemma_apply_update_noop(tasks, slots, reports[0]);
        assert forall|k: int|
            0 <= k < reports.drop_first().len() implies stored_terminal(
            tasks,
            (#[trigger] reports.drop_first()[k])@.task_id,
        ) || !reports.drop_first()[k]@.status.is_terminal() by {
            assert(reports.drop_first()[k] == reports[k + 1]);
        }
        lemma_apply_updates_noop(tasks, slots, reports.drop_first());
    }
}

/// Replaying a status-update batch a second time does not double-credit
/// slots: the replay leaves the state exactly as the first application
/// left it.
pub proof fn lemma_update_replay_idempotent(
    tasks: Seq<TaskStatus>,
    slots: Seq<ExecutorData>,
    reports: Seq<TaskStatus>,
)
    ensures
        ({
            let once = apply_task_updates(tasks, slots, reports);
            apply_task_updates(once.0, once.1, reports) == once
        }),
{
    let once = apply_task_updates(tasks, slots, reports);
    lemma_apply_updates_settle(tasks, slots, reports);
    lemma_apply_updates_noop(once.0, once.1, reports);
}

/// The scheduler service itself. The start time is the epoch-millisecond
/// timestamp the caller constructed it at.
pub struct SchedulerServer {
    pub state: SchedulerState,
    pub policy: TaskSchedulingPolicy,
    pub start_time: u64,
}

/// Relies on rand's `thread_rng` and the `Alphanumeric` distribution:
/// every sampled byte is one of the 62 ASCII alphanumeric characters.
#[verifier::external_body]
fn random_alphanumeric_id() -> (r: String)
    ensures
        r@.len() == 7,
        forall|i: int| 0 <= i < r@.len() ==> is_alphanumeric_char(#[trigger] r@[i]),
{
    let mut rng = rand::thread_rng();
    std::iter::repeat(())
        .map(|()| rng.sample(rand::distributions::Alphanumeric))
        .map(char::from)
        .take(7)
        .collect()
}

pub open spec fn is_alphanumeric_char(c: char) -> bool {
    ('0' <= c && c <= '9') || ('a' <= c && c <= 'z') || ('A' <= c && c <= 'Z')
}

impl SchedulerServer {
    pub open spec fn wf(self) -> bool {
        self.state.wf()
    }

    /// A pull-mode scheduler over empty state.
    pub fn new(start_time: u64) -> (r: Self)
        ensures
            r.wf(),
            r.state.consistent(),
            r.policy == TaskSchedulingPolicy::PullStaged,
            r.start_time == start_time,
            r.state.executors@.len() == 0,
            r.state.heartbeats@.len() == 0,
            r.state.slots@.len() == 0,
            r.state.jobs@.len() == 0,
            r.state.stages@.len() == 0,
            r.state.tasks@.len() == 0,
    {
        Self::new_with_policy(TaskSchedulingPolicy::PullStaged, start_time)
    }

    /// A scheduler with the given dispatch policy over empty state.
    pub fn new_with_policy(policy: TaskSchedulingPolicy, start_time: u64) -> (r: Self)
        ensures
            r.wf(),
            r.state.consistent(),
            r.policy == policy,
            r.start_time == start_time,
            r.state.executors@.len() == 0,
            r.state.heartbeats@.len() == 0,
            r.state.slots@.len() == 0,
            r.state.jobs@.len() == 0,
            r.state.stages@.len() == 0,
            r.state.tasks@.len() == 0,
    {
        SchedulerServer { state: SchedulerState::new(), policy, start_time }
    }

    /// Registers an executor for push dispatch: metadata is upserted and
    /// its slot account starts full (`available == total == task_slots`).
    /// The outbound connection check and the client pool live with the
    /// caller. Idempotent: repeating the call leaves the same records.
    pub fn register_executor(&mut self, metadata: Option<ExecutorMetadata>) -> (r: Result<
        bool,
        SchedulerError,
    >)
        requires
            old(self).wf(),
        ensures
            final(self).wf(),
            final(self).policy == old(self).policy,
            metadata is None ==> (r matches Err(e) && e@ is InvalidArgument && final(self).state
                == old(self).state),
            metadata matches Some(meta) ==> {
                &&& r matches Ok(b) && b
                &&& (old(self).state.consistent() && running_count(
                    old(self).state.tasks@,
                    meta@.id,
                ) == 0 ==> final(self).state.consistent())
                &&& final(self).state.executors@ == upsert_executor(
                    old(self).state.executors@,
                    meta,
                )
                &&& final(self).state.slots@ == upsert_slots(
                    old(self).state.slots@,
                    (ExecutorData {
                        executor_id: meta.id,
                        total_task_slots: meta.specification.task_slots,
                        available_task_slots: meta.specification.task_slots,
                    }),
                )
                &&& final(self).state.heartbeats@ == old(self).state.heartbeats@
                &&& final(self).state.jobs@ == old(self).state.jobs@
                &&& final(self).state.stages@ == old(self).state.stages@
                &&& final(self).state.tasks@ == old(self).state.tasks@
            },
    {
        match metadata {
            Some(meta) => {
                let data = ExecutorData {
                    executor_id: meta.id.clone(),
                    total_task_slots: meta.specification.task_slots,
                    available_task_slots: meta.specification.task_slots,
                };
                proof {
                    if old(self).state.consistent() && running_count(
                        old(self).state.tasks@,
                        meta@.id,
                    ) == 0 {
                        crate::state::lemma_register_consistent(
                            old(self).state.tasks@,
                            old(self).state.slots@,
                            data,
                        );
                    }
                }
                self.state.save_executor_metadata(meta);
                self.state.save_executor_data(data);
                Ok(true)
            },
            None => Err(
                SchedulerError::InvalidArgument {
                    message: String::from_str("missing metadata in request"),
                },
            ),
        }
    }

    /// Records a heartbeat at the caller's timestamp, with whatever
    /// state text the executor reported; never allocates tasks. The
    /// result is the re-register flag, always false here.
    pub fn heart_beat_from_executor(
        &mut self,
        executor_id: String,
        state: Option<String>,
        now: u64,
    ) -> (r: Result<bool, SchedulerError>)
        requires
            old(self).wf(),
        ensures
            final(self).wf(),
            final(self).policy == old(self).policy,
            r matches Ok(b) && !b,
            final(self).state.heartbeats@ == upsert_heartbeat(
                old(self).state.heartbeats@,
                (ExecutorHeartbeat { executor_id, timestamp: now, state }),
            ),
            final(self).state.executors@ == old(self).state.executors@,
            final(self).state.slots@ == old(self).state.slots@,
            final(self).state.jobs@ == old(self).state.jobs@,
            final(self).state.stages@ == old(self).state.stages@,
            final(self).state.tasks@ == old(self).state.tasks@,
            old(self).state.consistent() ==> final(self).state.consistent(),
    {
        self.state.save_executor_heartbeat(ExecutorHeartbeat { executor_id, timestamp: now, state });
        Ok(false)
    }

    /// Persists a batch of reported task statuses with slot accounting
    /// and returns the distinct job ids the reports touch, so the caller
    /// can wake the dispatcher for each. Replays credit nothing twice.
    #[verifier::rlimit(50)]
    pub fn update_task_status(&mut self, task_status: &Vec<TaskStatus>) -> (r: Result<
        Vec<String>,
        SchedulerError,
    >)
        requires
            old(self).wf(),
        ensures
            final(self).wf(),
            final(self).policy == old(self).policy,
            ({
                let applied = apply_task_updates(
                    old(self).state.tasks@,
                    old(self).state.slots@,
                    task_status@,
                );
                final(self).state.tasks@ == applied.0 && final(self).state.slots@ == applied.1
            }),
            final(self).state.executors@ == old(self).state.executors@,
            final(self).state.heartbeats@ == old(self).state.heartbeats@,
            final(self).state.jobs@ == old(self).state.jobs@,
            final(self).state.stages@ == old(self).state.stages@,
            old(self).state.consistent() ==> final(self).state.consistent(),
            r matches Ok(jobs) && {
                &&& forall|i: int|
                    0 <= i < jobs@.len() ==> report_touches_job(
                        task_status@,
                        (#[trigger] jobs@[i])@,
                    )
                &&& forall|k: int|
                    0 <= k < task_status@.len() ==> has_job_entry(
                        jobs@,
                        (#[trigger] task_status@[k])@.task_id.job_id,
                    )
                &&& forall|i: int, j: int|
                    0 <= i < j < jobs@.len() ==> (#[trigger] jobs@[i])@ != (#[trigger] jobs@[j])@
            },
    {
        let mut jobs: Vec<String> = Vec::new();
        let mut k: usize = 0;
        while k < task_status.len()
            invariant
                old(self).wf(),
                self.wf(),
                self.policy == old(self).policy,
                k <= task_status@.len(),
                ({
                    let applied = apply_task_updates(
                        old(self).state.tasks@,
                        old(self).state.slots@,
                        task_status@.take(k as int),
                    );
                    self.state.tasks@ == applied.0 && self.state.slots@ == applied.1
                }),
                self.state.executors@ == old(self).state.executors@,
                self.state.heartbeats@ == old(self).state.heartbeats@,
                self.state.jobs@ == old(self).state.jobs@,
                self.state.stages@ == old(self).state.stages@,
                old(self).state.consistent() ==> self.state.consistent(),
                forall|i: int|
                    0 <= i < jobs@.len() ==> report_touches_job(
                        task_status@,
                        (#[trigger] jobs@[i])@,
                    ),
                forall|k2: int|
                    0 <= k2 < k ==> has_job_entry(
                        jobs@,
                        (#[trigger] task_status@[k2])@.task_id.job_id,
                    ),
                forall|i: int, j: int|
                    0 <= i < j < jobs@.len() ==> (#[trigger] jobs@[i])@ != (#[trigger] jobs@[j])@,
            decreases task_status@.len() - k,
        {
            let ghost jobs_before = jobs@;
            let ghost prefix = task_status@.take(k as int);
            proof {
                assert(task_status@.take(k as int + 1) =~= prefix.push(task_status@[k as int]));
                lemma_fold_snoc(
                    old(self).state.tasks@,
                    old(self).state.slots@,
                    prefix,
                    task_status@[k as int],
                );
            }
            self.state.apply_task_update(&task_status[k]);
            let jid = task_status[k].task_id.job_id.clone();
            if !contains_string(&jobs, &jid) {
                jobs.push(jid);
                proof {
                    assert(jobs@[jobs@.len() - 1]@ == task_status@[k as int]@.task_id.job_id);
                    assert forall|k2: int| 0 <= k2 < k + 1 implies has_job_entry(
                        jobs@,
                        (#[trigger] task_status@[k2])@.task_id.job_id,
                    ) by {
                        if k2 < k {
                            lemma_push_keeps_entry(
                                jobs_before,
                                jobs@[jobs@.len() - 1],
                                task_status@[k2]@.task_id.job_id,
                            );
                        } else {
                            assert(jobs@[jobs@.len() - 1]@ == task_status@[k2]@.task_id.job_id);
                        }
                    }
                }
            }
            k += 1;
        }
        proof {
            assert(task_status@.take(task_status@.len() as int) =~= task_status@);
        }
        Ok(jobs)
    }

    /// The persisted status of a job; an unknown id is `NotFound`.
    pub fn get_job_status(&self, job_id: &String) -> (r: Result<JobStatus, SchedulerError>)
        ensures
            match find_job(self.state.jobs@, job_id@) {
                Some(i) => r matches Ok(st) && st@ == self.state.jobs@[i].status@,
                None => r matches Err(e) && e@ is NotFound,
            },
    {
        match self.state.get_job_metadata(job_id) {
            Some(status) => Ok(status),
            None => Err(
                SchedulerError::NotFound { message: String::from_str("no such job") },
            ),
        }
    }

    /// True exactly when some task has not reached a terminal state.
    pub fn is_active(&self) -> (r: bool)
        ensures
            r == exists|i: int|
                0 <= i < self.state.tasks@.len() && !(#[trigger] self.state.tasks@[i])@.status
                    .is_terminal(),
    {
        let tasks = self.state.get_all_tasks();
        let mut k: usize = 0;
        while k < tasks.len()
            invariant
                k <= tasks@.len(),
                tasks@ == self.state.tasks@,
                forall|i: int| 0 <= i < k ==> (#[trigger] tasks@[i])@.status.is_terminal(),
            decreases tasks@.len() - k,
        {
            if !tasks[k].status.is_terminal() {
                return true;
            }
            k += 1;
        }
        false
    }

    /// The single advertised metric, with its target size of one.
    pub fn get_metric_spec(&self) -> (r: MetricSpec)
        ensures
            r.metric_name@ == "inflight_tasks"@,
            r.target_size == 1,
    {
        MetricSpec { metric_name: String::from_str("inflight_tasks"), target_size: 1 }
    }

    /// The gauge is pinned to a saturating constant, so an external
    /// autoscaler provisions its configured maximum whenever the
    /// scheduler reports active work.
    pub fn get_metrics(&self) -> (r: MetricValue)
        ensures
            r.metric_name@ == "inflight_tasks"@,
            r.metric_value == 10000000,
    {
        MetricValue { metric_name: String::from_str("inflight_tasks"), metric_value: 10000000 }
    }
}

/// Folding one more report at the end of a batch.
proof fn lemma_fold_snoc(
    tasks: Seq<TaskStatus>,
    slots: Seq<ExecutorData>,
    s: Seq<TaskStatus>,
    t: TaskStatus,
)
    ensures
        ({
            let f = apply_task_updates(tasks, slots, s);
            apply_task_updates(tasks, slots, s.push(t)).0 == spec_apply_update(f.0, f.1, t).0
                && apply_task_updates(tasks, slots, s.push(t)).1 == spec_apply_update(
                f.0,
                f.1,
                t,
            ).1
        }),
    decreases s.len(),
{
    if s.len() == 0 {
        assert(s.push(t)[0] == t);
        assert(s.push(t).drop_first() =~= Seq::<TaskStatus>::empty());
        let once = spec_apply_update(tasks, slots, t);
        assert(apply_task_updates(once.0, once.1, s.push(t).drop_first()) == (once.0, once.1));
    } else {
        let once = spec_apply_update(tasks, slots, s[0]);
        assert(s.push(t)[0] == s[0]);
        assert(s.push(t).drop_first() =~= s.drop_first().push(t));
        lemma_fold_snoc(once.0, once.1, s.drop_first(), t);
    }
}

/// The slot records after a poll's registration step: a first-time
/// caller gets a full slot account, a known caller changes nothing.
pub open spec fn poll_registered_slots(pre: SchedulerState, meta: ExecutorMetadata) -> Seq<
    ExecutorData,
> {
    if find_executor(pre.executors@, meta@.id) is None {
        upsert_slots(
            pre.slots@,
            (ExecutorData {
                executor_id: meta.id,
                total_task_slots: meta.specification.task_slots,
                available_task_slots: meta.specification.task_slots,
            }),
        )
    } else {
        pre.slots@
    }
}

/// Tasks and slots after a poll's report batch is applied, before any
/// assignment.
pub open spec fn poll_applied(
    pre: SchedulerState,
    meta: ExecutorMetadata,
    reports: Seq<TaskStatus>,
) -> (Seq<TaskStatus>, Seq<ExecutorData>) {
    apply_task_updates(pre.tasks@, poll_registered_slots(pre, meta), reports)
}

impl SchedulerServer {
    /// Generates a fresh seven-character alphanumeric job id and
    /// persists the job as `Queued`; planning follows separately. The id
    /// is drawn at random and taken only when no job holds it already,
    /// so an existing job's status is never rewound; if several draws in
    /// a row collide, the submission is refused rather than overwrite.
    pub fn submit_job(&mut self) -> (r: Result<String, SchedulerError>)
        requires
            old(self).wf(),
        ensures
            final(self).wf(),
            final(self).policy == old(self).policy,
            final(self).state.executors@ == old(self).state.executors@,
            final(self).state.heartbeats@ == old(self).state.heartbeats@,
            final(self).state.slots@ == old(self).state.slots@,
            final(self).state.stages@ == old(self).state.stages@,
            final(self).state.tasks@ == old(self).state.tasks@,
            old(self).state.consistent() ==> final(self).state.consistent(),
            r matches Ok(job_id) ==> {
                &&& job_id@.len() == 7
                &&& forall|i: int|
                    0 <= i < job_id@.len() ==> is_alphanumeric_char(#[trigger] job_id@[i])
                &&& find_job(old(self).state.jobs@, job_id@) is None
                &&& final(self).state.jobs@ == upsert_job(
                    old(self).state.jobs@,
                    (JobRecord { job_id, status: JobStatus::Queued }),
                )
            },
            r matches Err(e) ==> e@ is Internal && final(self).state.jobs@ == old(self).state.jobs@,
    {
        let mut attempts: usize = 0;
        while attempts < 8
            invariant
                self.wf(),
                self.policy == old(self).policy,
                self.state.executors@ == old(self).state.executors@,
                self.state.heartbeats@ == old(self).state.heartbeats@,
                self.state.slots@ == old(self).state.slots@,
                self.state.stages@ == old(self).state.stages@,
                self.state.tasks@ == old(self).state.tasks@,
                self.state.jobs@ == old(self).state.jobs@,
                old(self).state.consistent() ==> self.state.consistent(),
            decreases 8 - attempts,
        {
            let job_id = random_alphanumeric_id();
            if self.state.get_job_metadata(&job_id).is_none() {
                self.state.save_job_metadata(&job_id, JobStatus::Queued);
                return Ok(job_id);
            }
            attempts += 1;
        }
        Err(
            SchedulerError::Internal {
                message: String::from_str("could not draw an unused job id"),
            },
        )
    }

    /// One long poll from an executor, the sole scheduling signal in
    /// pull mode: rejected outright under push dispatch; a first-time
    /// caller is registered with a full slot account; the heartbeat is
    /// stamped with the caller's clock; the reported statuses are
    /// applied with slot accounting; and, when asked, at most one ready
    /// task is assigned, jobs in submission order, tasks in ascending
    /// stage then partition order.
    #[verifier::rlimit(100)]
    #[verifier::spinoff_prover]
    pub fn poll_work(
        &mut self,
        metadata: Option<ExecutorMetadata>,
        can_accept_task: bool,
        task_status: &Vec<TaskStatus>,
        now: u64,
    ) -> (r: Result<Option<TaskDefinition>, SchedulerError>)
        requires
            old(self).wf(),
        ensures
            final(self).wf(),
            final(self).policy == old(self).policy,
            old(self).policy is PushStaged ==> (r matches Err(e) && e@ is FailedPrecondition)
                && final(self).state == old(self).state,
            (old(self).policy is PullStaged && metadata is None) ==> ((r matches Err(e) && e@
                is InvalidArgument) && final(self).state == old(self).state),
            old(self).policy is PullStaged ==> (metadata matches Some(meta) ==> final(self).state.executors@ == (if find_executor(old(self).state.executors@, meta@.id)
                is None {
                upsert_executor(old(self).state.executors@, meta)
            } else {
                old(self).state.executors@
            })),
            old(self).policy is PullStaged ==> (metadata matches Some(meta) ==> final(self).state.heartbeats@ == upsert_heartbeat(
                old(self).state.heartbeats@,
                (ExecutorHeartbeat { executor_id: meta.id, timestamp: now, state: None }),
            )),
            old(self).policy is PullStaged && metadata is Some ==> final(self).state.jobs@ == old(self).state.jobs@ && final(self).state.stages@ == old(self).state.stages@,
            old(self).policy is PullStaged ==> (metadata matches Some(meta)
                ==> (!can_accept_task ==> (r matches Ok(None) && final(self).state.tasks@
                == poll_applied(old(self).state, meta, task_status@).0 && final(self).state.slots@ == poll_applied(old(self).state, meta, task_status@).1))),
            old(self).policy is PullStaged ==> (metadata matches Some(meta) ==> (can_accept_task
                ==> (r matches Ok(None) ==> ({
                let applied = poll_applied(old(self).state, meta, task_status@);
                &&& final(self).state.tasks@ == applied.0
                &&& final(self).state.slots@ == applied.1
                &&& forall|j: int|
                    0 <= j < old(self).state.jobs@.len() && (
                    #[trigger] old(self).state.jobs@[j]).status@ is Running ==> !(has_free_slot(
                        applied.1,
                        meta@.id,
                    ) && exists_schedulable(applied.0, old(self).state.jobs@[j].job_id@))
            })))),
            old(self).policy is PullStaged ==> (metadata matches Some(meta) ==> (can_accept_task
                ==> (r matches Ok(Some(td)) ==> ({
                let applied = poll_applied(old(self).state, meta, task_status@);
                &&& has_free_slot(applied.1, meta@.id)
                &&& exists|j: int|
                    {
                        &&& 0 <= j < old(self).state.jobs@.len()
                        &&& (#[trigger] old(self).state.jobs@[j]).status@ is Running
                        &&& old(self).state.jobs@[j].job_id@ == td.task_id@.job_id
                        &&& forall|j2: int|
                            0 <= j2 < j && (#[trigger] old(self).state.jobs@[j2]).status@
                                is Running ==> !exists_schedulable(
                                applied.0,
                                old(self).state.jobs@[j2].job_id@,
                            )
                    }
                &&& find_task(applied.0, td.task_id@) matches Some(i) && {
                    &&& task_schedulable(applied.0, i, td.task_id@.job_id)
                    &&& forall|j2: int|
                        task_schedulable(applied.0, j2, td.task_id@.job_id) && j2 != i
                            ==> crate::state::dispatched_before(
                            applied.0[i]@.task_id,
                            applied.0[j2]@.task_id,
                        )
                    &&& final(self).state.tasks@ == applied.0.update(
                        i,
                        (TaskStatus {
                            task_id: td.task_id,
                            status: (crate::domain::TaskState::Running {
                                executor_id: meta.id,
                                start_ts: now,
                            }),
                        }),
                    )
                }
                &&& find_stage(
                    old(self).state.stages@,
                    td.task_id@.job_id,
                    td.task_id@.stage_id,
                ) matches Some(k) && td.plan == old(self).state.stages@[k].plan
                    && td.output_partitioning == old(self).state.stages@[k].partitioning
                &&& final(self).state.slots@ == spec_debit(applied.1, meta@.id)
            })))),
            old(self).policy is PullStaged ==> (metadata matches Some(meta) ==> (can_accept_task
                ==> (r matches Err(e) ==> ({
                let applied = poll_applied(old(self).state, meta, task_status@);
                &&& e@ is Internal
                &&& final(self).state.tasks@ == applied.0
                &&& final(self).state.slots@ == applied.1
                &&& exists|j: int|
                    {
                        &&& 0 <= j < old(self).state.jobs@.len()
                        &&& (#[trigger] old(self).state.jobs@[j]).status@ is Running
                        &&& exists|i: int|
                            #[trigger] task_schedulable(
                                applied.0,
                                i,
                                old(self).state.jobs@[j].job_id@,
                            ) && find_stage(
                                old(self).state.stages@,
                                old(self).state.jobs@[j].job_id@,
                                applied.0[i]@.task_id.stage_id,
                            ) is None
                    }
            })))),
            (old(self).policy is PullStaged && metadata is Some && !can_accept_task) ==> r is Ok,
            old(self).policy is PullStaged ==> (metadata matches Some(meta) ==> ((old(self).state.consistent() && (find_executor(old(self).state.executors@, meta@.id) is None
                ==> running_count(old(self).state.tasks@, meta@.id) == 0)) ==> final(self).state.consistent())),
    {
        if let TaskSchedulingPolicy::PushStaged = self.policy {
            return Err(
                SchedulerError::FailedPrecondition {
                    message: String::from_str(
                        "poll work is not supported for push-based task scheduling",
                    ),
                },
            );
        }
        let meta = match metadata {
            Some(meta) => meta,
            None => {
                return Err(
                    SchedulerError::InvalidArgument {
                        message: String::from_str("missing metadata in request"),
                    },
                );
            },
        };
        let ghost meta0 = meta;
        let executor_id = meta.id.clone();
        let ghost consistent_entry = old(self).state.consistent() && (find_executor(
            old(self).state.executors@,
            meta@.id,
        ) is None ==> running_count(old(self).state.tasks@, meta@.id) == 0);
        // First poll doubles as registration, with a full slot account.
        if self.state.get_executor_metadata(&executor_id).is_none() {
            let data = ExecutorData {
                executor_id: executor_id.clone(),
                total_task_slots: meta.specification.task_slots,
                available_task_slots: meta.specification.task_slots,
            };
            proof {
                if consistent_entry {
                    crate::state::lemma_register_consistent(
                        old(self).state.tasks@,
                        old(self).state.slots@,
                        data,
                    );
                }
            }
            self.state.save_executor_metadata(meta);
            self.state.save_executor_data(data);
        } else {
            proof {
                crate::state::lemma_find_executor(old(self).state.executors@, executor_id@);
            }
        }
        self.state.save_executor_heartbeat(
            ExecutorHeartbeat { executor_id: executor_id.clone(), timestamp: now, state: None },
        );
        let ghost slots1 = self.state.slots@;
        let ghost executors1 = self.state.executors@;
        let ghost heartbeats1 = self.state.heartbeats@;
        let ghost jobs1 = self.state.jobs@;
        let ghost stages1 = self.state.stages@;
        let mut k: usize = 0;
        while k < task_status.len()
            invariant
                self.wf(),
                self.policy == old(self).policy,
                k <= task_status@.len(),
                ({
                    let applied = apply_task_updates(
                        old(self).state.tasks@,
                        slots1,
                        task_status@.take(k as int),
                    );
                    self.state.tasks@ == applied.0 && self.state.slots@ == applied.1
                }),
                self.state.executors@ == executors1,
                self.state.heartbeats@ == heartbeats1,
                self.state.jobs@ == jobs1,
                self.state.stages@ == stages1,
                consistent_entry ==> self.state.consistent(),
            decreases task_status@.len() - k,
        {
            let ghost prefix = task_status@.take(k as int);
            proof {
                assert(task_status@.take(k as int + 1) =~= prefix.push(task_status@[k as int]));
                lemma_fold_snoc(old(self).state.tasks@, slots1, prefix, task_status@[k as int]);
            }
            self.state.apply_task_update(&task_status[k]);
            k += 1;
        }
        proof {
            assert(task_status@.take(task_status@.len() as int) =~= task_status@);
        }
        let r: Result<Option<TaskDefinition>, SchedulerError> = if can_accept_task {
            match self.state.assign_next_schedulable_task(&executor_id, now) {
                Ok(task) => Ok(task),
                Err(e) => Err(e),
            }
        } else {
            Ok(None)
        };
        proof {
            let pre = old(self).state;
            let post = self.state;
            let applied = poll_applied(pre, meta0, task_status@);
            assert(poll_registered_slots(pre, meta0) == slots1);
            assert(!can_accept_task ==> (r matches Ok(None) && post.tasks@ == applied.0
                && post.slots@ == applied.1));
        }
        r
    }
}


/// The stage records the planner output persists for one job.
pub open spec fn stage_records(job_id: String, stages: Seq<QueryStage>) -> Seq<StageRecord>
    decreases stages.len(),
{
    if stages.len() == 0 {
        Seq::empty()
    } else {
        stage_records(job_id, stages.drop_last()).push(
            StageRecord {
                job_id,
                stage_id: stages.last().stage_id,
                partitioning: stages.last().partitioning,
                plan: stages.last().plan,
            },
        )
    }
}

/// The pending task records created for one stage: one per partition of
/// the stage's own plan output.
pub open spec fn pending_tasks_for_stage(job_id: String, stage: QueryStage) -> Seq<TaskStatus> {
    Seq::new(
        stage.plan.spec_output_partitioning().spec_partition_count() as nat,
        |p: int|
            TaskStatus {
                task_id: PartitionId {
                    job_id,
                    stage_id: stage.stage_id,
                    partition_id: p as u32,
                },
                status: TaskState::Pending,
            },
    )
}

/// The pending task records created for a whole stage list, in order.
pub open spec fn pending_tasks(job_id: String, stages: Seq<QueryStage>) -> Seq<TaskStatus>
    decreases stages.len(),
{
    if stages.len() == 0 {
        Seq::empty()
    } else {
        pending_tasks(job_id, stages.drop_last()) + pending_tasks_for_stage(
            job_id,
            stages.last(),
        )
    }
}

/// Every created task record belongs to the job, carries one of the
/// stage ids, and starts pending.
proof fn lemma_pending_tasks_ids(job_id: String, stages: Seq<QueryStage>)
    ensures
        forall|x: int|
            0 <= x < pending_tasks(job_id, stages).len() ==> {
                let t = #[trigger] pending_tasks(job_id, stages)[x];
                &&& t@.task_id.job_id == job_id@
                &&& t@.status is Pending
                &&& exists|k: int|
                    0 <= k < stages.len() && t@.task_id.stage_id == (
                    #[trigger] stages[k]).stage_id
            },
    decreases stages.len(),
{
    if stages.len() > 0 {
        lemma_pending_tasks_ids(job_id, stages.drop_last());
        let pre = pending_tasks(job_id, stages.drop_last());
        let cur = pending_tasks_for_stage(job_id, stages.last());
        assert forall|x: int| 0 <= x < pending_tasks(job_id, stages).len() implies {
            let t = #[trigger] pending_tasks(job_id, stages)[x];
            &&& t@.task_id.job_id == job_id@
            &&& t@.status is Pending
            &&& exists|k: int|
                0 <= k < stages.len() && t@.task_id.stage_id == (#[trigger] stages[k]).stage_id
        } by {
            if x < pre.len() {
                let t = pre[x];
                let k = choose|k: int|
                    0 <= k < stages.drop_last().len() && t@.task_id.stage_id == (
                    #[trigger] stages.drop_last()[k]).stage_id;
                assert(stages[k] == stages.drop_last()[k]);
            } else {
                assert(pending_tasks(job_id, stages)[x] == cur[x - pre.len()]);
                assert(stages[stages.len() - 1] == stages.last());
            }
        }
    }
}

/// Everything `plan_job` does, relative to the state it starts from.
pub open spec fn plan_job_result(
    pre: SchedulerState,
    job_id: String,
    plan: PlanNode,
    r: Result<(), SchedulerError>,
    post: SchedulerState,
) -> bool {
    &&& r is Ok <==> spec_plan_query_stages(job_id, plan) is Ok
    &&& r matches Err(e) ==> e@ is Internal
    &&& spec_plan_query_stages(job_id, plan) matches Err(name) ==> {
        &&& post.stages@ == pre.stages@
        &&& post.tasks@ == pre.tasks@
        &&& exists|rec: JobRecord|
            (#[trigger] rec.job_id)@ == job_id@ && rec.status@ == (JobStatusView::Failed {
                error: plan_failure_message(name@),
            }) && post.jobs@ == upsert_job(pre.jobs@, rec)
    }
    &&& spec_plan_query_stages(job_id, plan) matches Ok(stages) ==> {
        &&& post.stages@ == pre.stages@ + stage_records(job_id, stages)
        &&& post.tasks@ == pre.tasks@ + pending_tasks(job_id, stages)
        &&& post.jobs@ == upsert_job(
            pre.jobs@,
            (JobRecord { job_id, status: JobStatus::Running }),
        )
    }
}

fn job_is_fresh(tasks: &Vec<TaskStatus>, stages: &Vec<StageRecord>, job_id: &String) -> (r: bool)
    ensures
        r == ((forall|i: int|
            0 <= i < tasks@.len() ==> (#[trigger] tasks@[i])@.task_id.job_id != job_id@) && (
        forall|i: int| 0 <= i < stages@.len() ==> (#[trigger] stages@[i]).job_id@ != job_id@)),
{
    let mut i: usize = 0;
    while i < tasks.len()
        invariant
            i <= tasks@.len(),
            forall|j: int| 0 <= j < i ==> (#[trigger] tasks@[j])@.task_id.job_id != job_id@,
        decreases tasks@.len() - i,
    {
        if tasks[i].task_id.job_id == *job_id {
            proof {
                assert(tasks@[i as int]@.task_id.job_id == job_id@);
            }
            return false;
        }
        proof {
            assert(tasks@[i as int]@.task_id.job_id != job_id@);
        }
        i += 1;
    }
    let mut k: usize = 0;
    while k < stages.len()
        invariant
            k <= stages@.len(),
            forall|j: int| 0 <= j < k ==> (#[trigger] stages@[j]).job_id@ != job_id@,
        decreases stages@.len() - k,
    {
        if stages[k].job_id == *job_id {
            return false;
        }
        k += 1;
    }
    true
}

impl SchedulerServer {
    /// Plans a freshly queued job: splits the plan into stages, persists
    /// each stage and one pending task per partition, then marks the job
    /// running. A plan with an unsupported operator fails the job
    /// instead, persisting the operator's name inside the error.
    #[verifier::rlimit(100)]
    pub fn plan_job(&mut self, job_id: &String, plan: PlanNode) -> (r: Result<
        (),
        SchedulerError,
    >)
        requires
            old(self).wf(),
            plan.size() < 0x1_0000_0000,
            forall|i: int|
                0 <= i < old(self).state.tasks@.len() ==> (
                #[trigger] old(self).state.tasks@[i])@.task_id.job_id != job_id@,
            forall|i: int|
                0 <= i < old(self).state.stages@.len() ==> (
                #[trigger] old(self).state.stages@[i]).job_id@ != job_id@,
        ensures
            final(self).wf(),
            final(self).policy == old(self).policy,
            final(self).state.executors@ == old(self).state.executors@,
            final(self).state.heartbeats@ == old(self).state.heartbeats@,
            final(self).state.slots@ == old(self).state.slots@,
            old(self).state.consistent() ==> final(self).state.consistent(),
            r is Ok <==> spec_plan_query_stages(*job_id, plan) is Ok,
            r matches Err(e) ==> e@ is Internal,
            spec_plan_query_stages(*job_id, plan) matches Err(name) ==> {
                &&& final(self).state.stages@ == old(self).state.stages@
                &&& final(self).state.tasks@ == old(self).state.tasks@
                &&& exists|rec: JobRecord|
                    (#[trigger] rec.job_id)@ == job_id@ && rec.status@ == (
                    JobStatusView::Failed { error: plan_failure_message(name@) })
                        && final(self).state.jobs@ == upsert_job(old(self).state.jobs@, rec)
            },
            spec_plan_query_stages(*job_id, plan) matches Ok(stages) ==> {
                &&& final(self).state.stages@ == old(self).state.stages@ + stage_records(
                    *job_id,
                    stages,
                )
                &&& final(self).state.tasks@ == old(self).state.tasks@ + pending_tasks(
                    *job_id,
                    stages,
                )
                &&& final(self).state.jobs@ == upsert_job(
                    old(self).state.jobs@,
                    (JobRecord { job_id: *job_id, status: JobStatus::Running }),
                )
            },
    {
        let mut planner = DistributedPlanner::new();
        let stages = match planner.plan_query_stages(job_id, plan) {
            Ok(stages) => stages,
            Err(name) => {
                let message = String::from_str("unsupported operator in query plan: ").concat(
                    name.as_str(),
                );
                let error = message.clone();
                self.state.save_job_metadata(job_id, JobStatus::Failed { error });
                return Err(SchedulerError::Internal { message });
            },
        };
        let ghost stages_spec = stages@;
        let mut k: usize = 0;
        while k < stages.len()
            invariant
                self.wf(),
                self.policy == old(self).policy,
                k <= stages@.len(),
                stages@ == stages_spec,
                forall|i: int|
                    0 <= i < stages@.len() ==> (#[trigger] stages@[i]).stage_id == i,
                forall|i: int|
                    0 <= i < old(self).state.tasks@.len() ==> (
                    #[trigger] old(self).state.tasks@[i])@.task_id.job_id != job_id@,
                forall|i: int|
                    0 <= i < old(self).state.stages@.len() ==> (
                    #[trigger] old(self).state.stages@[i]).job_id@ != job_id@,
                self.state.stages@ == old(self).state.stages@ + stage_records(
                    *job_id,
                    stages@.take(k as int),
                ),
                self.state.tasks@ == old(self).state.tasks@ + pending_tasks(
                    *job_id,
                    stages@.take(k as int),
                ),
                self.state.executors@ == old(self).state.executors@,
                self.state.heartbeats@ == old(self).state.heartbeats@,
                self.state.slots@ == old(self).state.slots@,
                self.state.jobs@ == old(self).state.jobs@,
                forall|e: Seq<char>|
                    #[trigger] running_count(self.state.tasks@, e) == running_count(
                        old(self).state.tasks@,
                        e,
                    ),
            decreases stages@.len() - k,
        {
            let ghost stages_before = self.state.stages@;
            let ghost tasks_base = self.state.tasks@;
            let stage_id = stages[k].stage_id;
            let partitioning = stages[k].partitioning;
            let plan_copy = stages[k].plan.clone();
            let num_partitions = plan_copy.output_partitioning().partition_count();
            proof {
                crate::state::lemma_find_stage(stages_before, job_id@, stage_id);
                lemma_pending_tasks_ids(*job_id, stages_spec.take(k as int));
                assert(stages@.take(k as int + 1).drop_last() =~= stages@.take(k as int));
                match find_stage(stages_before, job_id@, stage_id) {
                    Some(i) => {
                        if i < old(self).state.stages@.len() {
                            assert(stages_before[i] == old(self).state.stages@[i]);
                            assert(false);
                        } else {
                            lemma_stage_records_ids(*job_id, stages_spec.take(k as int));
                            assert(false);
                        }
                    },
                    None => {},
                }
            }
            self.state.save_stage_plan(job_id, stage_id, partitioning, plan_copy);
            proof {
                assert(self.state.stages@ =~= old(self).state.stages@ + stage_records(
                    *job_id,
                    stages@.take(k as int + 1),
                ));
            }
            let mut p: u32 = 0;
            while p < num_partitions
                invariant
                    self.wf(),
                    self.policy == old(self).policy,
                    k < stages@.len(),
                    stages@ == stages_spec,
                    p <= num_partitions,
                    num_partitions == stages@[k as int].plan.spec_output_partitioning()
                        .spec_partition_count(),
                    stage_id == stages@[k as int].stage_id,
                    forall|i: int|
                        0 <= i < stages@.len() ==> (#[trigger] stages@[i]).stage_id == i,
                    forall|i: int|
                        0 <= i < old(self).state.tasks@.len() ==> (
                        #[trigger] old(self).state.tasks@[i])@.task_id.job_id != job_id@,
                    tasks_base == old(self).state.tasks@ + pending_tasks(
                        *job_id,
                        stages@.take(k as int),
                    ),
                    self.state.tasks@ == tasks_base + Seq::new(
                        p as nat,
                        |q: int|
                            TaskStatus {
                                task_id: PartitionId {
                                    job_id: *job_id,
                                    stage_id: stages@[k as int].stage_id,
                                    partition_id: q as u32,
                                },
                                status: TaskState::Pending,
                            },
                    ),
                    self.state.executors@ == old(self).state.executors@,
                    self.state.heartbeats@ == old(self).state.heartbeats@,
                    self.state.slots@ == old(self).state.slots@,
                    self.state.jobs@ == old(self).state.jobs@,
                    self.state.stages@ == old(self).state.stages@ + stage_records(
                        *job_id,
                        stages@.take(k as int + 1),
                    ),
                    forall|e: Seq<char>|
                        #[trigger] running_count(self.state.tasks@, e) == running_count(
                            old(self).state.tasks@,
                            e,
                        ),
                decreases num_partitions - p,
            {
                let pending = TaskStatus {
                    task_id: PartitionId {
                        job_id: job_id.clone(),
                        stage_id,
                        partition_id: p,
                    },
                    status: TaskState::Pending,
                };
                proof {
                    crate::state::lemma_find_task(self.state.tasks@, pending@.task_id);
                    lemma_pending_tasks_ids(*job_id, stages_spec.take(k as int));
                    match find_task(self.state.tasks@, pending@.task_id) {
                        Some(i) => {
                            if i < old(self).state.tasks@.len() {
                                assert(self.state.tasks@[i] == old(self).state.tasks@[i]);
                                assert(false);
                            } else if i < tasks_base.len() {
                                assert(self.state.tasks@[i] == pending_tasks(
                                    *job_id,
                                    stages@.take(k as int),
                                )[i - old(self).state.tasks@.len()]);
                                let kk = choose|kk: int|
                                    0 <= kk < stages@.take(k as int).len() && self.state.tasks@[i]@
                                        .task_id.stage_id == (
                                    #[trigger] stages@.take(k as int)[kk]).stage_id;
                                assert(stages@.take(k as int)[kk] == stages@[kk]);
                                assert(self.state.tasks@[i]@.task_id.stage_id == kk);
                                assert(pending@.task_id.stage_id == k);
                                assert(false);
                            } else {
                                assert(self.state.tasks@[i]@.task_id.partition_id < p);
                                assert(false);
                            }
                        },
                        None => {},
                    }
                }
                let ghost tasks_before_push = self.state.tasks@;
                self.state.save_task_status(&pending);
                proof {
                    assert(self.state.tasks@ =~= tasks_before_push.push(pending));
                    assert(self.state.tasks@ =~= tasks_base + Seq::new(
                        p as nat + 1,
                        |q: int|
                            TaskStatus {
                                task_id: PartitionId {
                                    job_id: *job_id,
                                    stage_id: stages@[k as int].stage_id,
                                    partition_id: q as u32,
                                },
                                status: TaskState::Pending,
                            },
                    ));
                    assert forall|e: Seq<char>| #[trigger] running_count(self.state.tasks@, e)
                        == running_count(old(self).state.tasks@, e) by {
                        crate::state::lemma_running_count_push(tasks_before_push, pending, e);
                    }
                }
                p += 1;
            }
            proof {
                assert(Seq::new(
                    num_partitions as nat,
                    |q: int|
                        TaskStatus {
                            task_id: PartitionId {
                                job_id: *job_id,
                                stage_id: stages@[k as int].stage_id,
                                partition_id: q as u32,
                            },
                            status: TaskState::Pending,
                        },
                ) =~= pending_tasks_for_stage(*job_id, stages@[k as int]));
                assert(stages@.take(k as int + 1).last() == stages@[k as int]);
                assert(self.state.tasks@ =~= old(self).state.tasks@ + pending_tasks(
                    *job_id,
                    stages@.take(k as int + 1),
                ));
            }
            k += 1;
        }
        proof {
            assert(stages@.take(stages@.len() as int) =~= stages@);
        }
        self.state.save_job_metadata(job_id, JobStatus::Running);
        Ok(())
    }
}

impl SchedulerServer {
    /// The planning entry for callers outside the verifier: checks at
    /// run time what `plan_job` relies on — the job has no stage or task
    /// records yet, and the plan is small enough to number its stages —
    /// and refuses the request as `InvalidArgument`, changing nothing,
    /// when a check fails.
    pub fn plan_job_checked(&mut self, job_id: &String, plan: PlanNode) -> (r: Result<
        (),
        SchedulerError,
    >)
        requires
            old(self).wf(),
        ensures
            final(self).wf(),
            final(self).policy == old(self).policy,
            final(self).state.executors@ == old(self).state.executors@,
            final(self).state.heartbeats@ == old(self).state.heartbeats@,
            final(self).state.slots@ == old(self).state.slots@,
            old(self).state.consistent() ==> final(self).state.consistent(),
            ({
                let fresh = (forall|i: int|
                    0 <= i < old(self).state.tasks@.len() ==> (
                    #[trigger] old(self).state.tasks@[i])@.task_id.job_id != job_id@) && (
                forall|i: int|
                    0 <= i < old(self).state.stages@.len() ==> (
                    #[trigger] old(self).state.stages@[i]).job_id@ != job_id@);
                &&& !(fresh && plan.size() < 0x1_0000_0000) ==> (r matches Err(e) && e@
                    is InvalidArgument && final(self).state == old(self).state)
                &&& (fresh && plan.size() < 0x1_0000_0000) ==> plan_job_result(
                    old(self).state,
                    *job_id,
                    plan,
                    r,
                    final(self).state,
                )
            }),
    {
        let ghost plan0 = plan;
        let fresh = job_is_fresh(&self.state.tasks, &self.state.stages, job_id);
        let count = plan.node_count();
        if !fresh || count >= 0x1_0000_0000 {
            return Err(
                SchedulerError::InvalidArgument {
                    message: String::from_str(
                        "job already has records, or the plan is too large to stage",
                    ),
                },
            );
        }
        let r = self.plan_job(job_id, plan);
        proof {
            assert(plan_job_result(old(self).state, *job_id, plan0, r, self.state));
        }
        r
    }
}

/// Error text persisted when planning hits an unsupported operator; the
/// operator's name is kept inside it.
pub open spec fn plan_failure_message(name: Seq<char>) -> Seq<char> {
    "unsupported operator in query plan: "@ + name
}

/// Every persisted stage record belongs to the job and carries its
/// stage's id.
proof fn lemma_stage_records_ids(job_id: String, stages: Seq<QueryStage>)
    ensures
        stage_records(job_id, stages).len() == stages.len(),
        forall|x: int|
            0 <= x < stages.len() ==> {
                let rec = #[trigger] stage_records(job_id, stages)[x];
                rec.job_id == job_id && rec.stage_id == stages[x].stage_id && rec.partitioning
                    == stages[x].partitioning && rec.plan == stages[x].plan
            },
    decreases stages.len(),
{
    if stages.len() > 0 {
        lemma_stage_records_ids(job_id, stages.drop_last());
        assert(forall|x: int|
            0 <= x < stages.len() - 1 ==> #[trigger] stages[x] == stages.drop_last()[x]);
    }
}


/// Total free slots across a snapshot of executors.
pub open spec fn total_available(s: Seq<ExecutorData>) -> int
    decreases s.len(),
{
    if s.len() == 0 {
        0
    } else {
        total_available(s.drop_last()) + s.last()@.available_task_slots
    }
}

proof fn lemma_total_available_update(s: Seq<ExecutorData>, i: int, d: ExecutorData)
    requires
        0 <= i < s.len(),
    ensures
        total_available(s.update(i, d)) == total_available(s) - s[i]@.available_task_slots
            + d@.available_task_slots,
    decreases s.len(),
{
    if i == s.len() - 1 {
        assert(s.update(i, d).drop_last() =~= s.drop_last());
    } else {
        lemma_total_available_update(s.drop_last(), i, d);
        assert(s.update(i, d).drop_last() =~= s.drop_last().update(i, d));
    }
}

proof fn lemma_total_available_nonneg(s: Seq<ExecutorData>)
    ensures
        total_available(s) >= 0,
    decreases s.len(),
{
    if s.len() > 0 {
        lemma_total_available_nonneg(s.drop_last());
    }
}

/// How many task records are still pending.
pub open spec fn pending_count(tasks: Seq<TaskStatus>) -> int
    decreases tasks.len(),
{
    if tasks.len() == 0 {
        0
    } else {
        pending_count(tasks.drop_last()) + if tasks.last()@.status is Pending {
            1int
        } else {
            0int
        }
    }
}

proof fn lemma_pending_count_bounds(tasks: Seq<TaskStatus>)
    ensures
        0 <= pending_count(tasks) <= tasks.len(),
    decreases tasks.len(),
{
    if tasks.len() > 0 {
        lemma_pending_count_bounds(tasks.drop_last());
    }
}

proof fn lemma_pending_count_update(tasks: Seq<TaskStatus>, i: int, t: TaskStatus)
    requires
        0 <= i < tasks.len(),
    ensures
        pending_count(tasks.update(i, t)) == pending_count(tasks) - (
        if tasks[i]@.status is Pending {
            1int
        } else {
            0int
        }) + (
        if t@.status is Pending {
            1int
        } else {
            0int
        }),
    decreases tasks.len(),
{
    if i == tasks.len() - 1 {
        assert(tasks.update(i, t).drop_last() =~= tasks.drop_last());
    } else {
        lemma_pending_count_update(tasks.drop_last(), i, t);
        assert(tasks.update(i, t).drop_last() =~= tasks.drop_last().update(i, t));
    }
}

/// Every batch in the result holds at least one task.
pub open spec fn batches_all_nonempty(ret: Seq<Vec<TaskDefinition>>) -> bool {
    forall|k: int| 0 <= k < ret.len() ==> (#[trigger] ret[k])@.len() >= 1
}

/// Round-robin fairness hypothesis over the state the fetch starts
/// from: every snapshot entry has a free slot both locally and in the
/// slot store, snapshot ids are distinct, the job has at least one ready
/// task per executor, and every ready task's stage plan is on record.
pub open spec fn round_robin_ready(
    snapshot: Seq<ExecutorData>,
    tasks: Seq<TaskStatus>,
    slots: Seq<ExecutorData>,
    stages: Seq<StageRecord>,
    job_id: Seq<char>,
) -> bool {
    &&& forall|k: int|
        0 <= k < snapshot.len() ==> (#[trigger] snapshot[k]@).available_task_slots >= 1
    &&& forall|k: int|
        0 <= k < snapshot.len() ==> has_free_slot(slots, (#[trigger] snapshot[k]@).executor_id)
    &&& forall|k1: int, k2: int|
        0 <= k1 < k2 < snapshot.len() ==> (#[trigger] snapshot[k1]@).executor_id != (
        #[trigger] snapshot[k2]@).executor_id
    &&& count_schedulable(tasks, job_id) >= snapshot.len()
    &&& forall|i: int|
        #[trigger] task_schedulable(tasks, i, job_id) ==> find_stage(
            stages,
            job_id,
            tasks[i]@.task_id.stage_id,
        ) is Some
}

/// Progress of the first round-robin sweep: executors not yet visited
/// still have their slots, enough ready tasks remain for them, and every
/// executor already visited holds a task.
pub open spec fn sweep_progress(
    snapshot: Seq<ExecutorData>,
    avail: Seq<ExecutorData>,
    slots: Seq<ExecutorData>,
    tasks: Seq<TaskStatus>,
    ret: Seq<Vec<TaskDefinition>>,
    job_id: Seq<char>,
    idx: int,
) -> bool {
    &&& forall|k: int|
        idx <= k < snapshot.len() ==> has_free_slot(slots, (#[trigger] snapshot[k]@).executor_id)
    &&& forall|k: int|
        idx <= k < snapshot.len() && k < avail.len() ==> (
        #[trigger] avail[k]@).available_task_slots == snapshot[k]@.available_task_slots
    &&& count_schedulable(tasks, job_id) >= snapshot.len() - idx
    &&& forall|k: int| 0 <= k < idx && k < ret.len() ==> (#[trigger] ret[k])@.len() >= 1
}


/// Some batch holds a task with this id.
pub open spec fn batches_contain(ret: Seq<Vec<TaskDefinition>>, id: PartitionIdView) -> bool {
    exists|i: int, j: int|
        #![trigger ret[i]@[j]]
        0 <= i < ret.len() && 0 <= j < ret[i]@.len() && ret[i]@[j].task_id@ == id
}

/// Total number of tasks across all batches.
pub open spec fn sum_batch_lens(ret: Seq<Vec<TaskDefinition>>) -> int
    decreases ret.len(),
{
    if ret.len() == 0 {
        0
    } else {
        sum_batch_lens(ret.drop_last()) + ret.last()@.len()
    }
}

/// How many tasks went to snapshot entries bearing this executor id.
pub open spec fn assigned_to(
    ret: Seq<Vec<TaskDefinition>>,
    snapshot: Seq<ExecutorData>,
    executor_id: Seq<char>,
) -> int
    decreases ret.len(),
{
    if ret.len() == 0 {
        0
    } else {
        assigned_to(ret.drop_last(), snapshot, executor_id) + (if ret.len() - 1 < snapshot.len()
            && snapshot[ret.len() - 1]@.executor_id == executor_id {
            ret.last()@.len() as int
        } else {
            0int
        })
    }
}

proof fn lemma_sum_batch_lens_update(
    ret: Seq<Vec<TaskDefinition>>,
    idx: int,
    v: Vec<TaskDefinition>,
)
    requires
        0 <= idx < ret.len(),
    ensures
        sum_batch_lens(ret.update(idx, v)) == sum_batch_lens(ret) - ret[idx]@.len() + v@.len(),
    decreases ret.len(),
{
    if idx == ret.len() - 1 {
        assert(ret.update(idx, v).drop_last() =~= ret.drop_last());
    } else {
        lemma_sum_batch_lens_update(ret.drop_last(), idx, v);
        assert(ret.update(idx, v).drop_last() =~= ret.drop_last().update(idx, v));
    }
}

proof fn lemma_assigned_to_update(
    ret: Seq<Vec<TaskDefinition>>,
    snapshot: Seq<ExecutorData>,
    idx: int,
    v: Vec<TaskDefinition>,
    executor_id: Seq<char>,
)
    requires
        0 <= idx < ret.len(),
    ensures
        assigned_to(ret.update(idx, v), snapshot, executor_id) == assigned_to(
            ret,
            snapshot,
            executor_id,
        ) + (if idx < snapshot.len() && snapshot[idx]@.executor_id == executor_id {
            v@.len() - ret[idx]@.len()
        } else {
            0int
        }),
    decreases ret.len(),
{
    if idx == ret.len() - 1 {
        assert(ret.update(idx, v).drop_last() =~= ret.drop_last());
    } else {
        lemma_assigned_to_update(ret.drop_last(), snapshot, idx, v, executor_id);
        assert(ret.update(idx, v).drop_last() =~= ret.drop_last().update(idx, v));
    }
}

proof fn lemma_assigned_to_nonneg(
    ret: Seq<Vec<TaskDefinition>>,
    snapshot: Seq<ExecutorData>,
    executor_id: Seq<char>,
)
    ensures
        assigned_to(ret, snapshot, executor_id) >= 0,
    decreases ret.len(),
{
    if ret.len() > 0 {
        lemma_assigned_to_nonneg(ret.drop_last(), snapshot, executor_id);
    }
}

/// Pushing one task onto batch `idx` adds exactly that task's id to the
/// batches' contents.
proof fn lemma_batches_contain_step(
    ret: Seq<Vec<TaskDefinition>>,
    ret2: Seq<Vec<TaskDefinition>>,
    idx: int,
    td: TaskDefinition,
    id: PartitionIdView,
)
    requires
        0 <= idx < ret.len(),
        ret2.len() == ret.len(),
        forall|k: int| 0 <= k < ret.len() && k != idx ==> #[trigger] ret2[k] == ret[k],
        ret2[idx]@ == ret[idx]@.push(td),
    ensures
        batches_contain(ret2, id) <==> (batches_contain(ret, id) || td.task_id@ == id),
{
    if batches_contain(ret, id) {
        let (i, j) = choose|i: int, j: int|
            #![trigger ret[i]@[j]]
            0 <= i < ret.len() && 0 <= j < ret[i]@.len() && ret[i]@[j].task_id@ == id;
        assert(ret2[i]@[j].task_id@ == id);
    }
    if td.task_id@ == id {
        assert(ret2[idx]@[ret[idx]@.len() as int].task_id@ == id);
    }
    if batches_contain(ret2, id) && !batches_contain(ret, id) {
        let (i, j) = choose|i: int, j: int|
            #![trigger ret2[i]@[j]]
            0 <= i < ret2.len() && 0 <= j < ret2[i]@.len() && ret2[i]@[j].task_id@ == id;
        if i != idx || j < ret[idx]@.len() {
            assert(ret[i]@[j].task_id@ == id);
        } else {
            assert(ret2[idx]@[j] == td);
        }
    }
}

/// Two task sequences with the same ids position-for-position answer
/// every lookup alike.
proof fn lemma_find_task_same_keys(
    a: Seq<TaskStatus>,
    b: Seq<TaskStatus>,
    id: PartitionIdView,
)
    requires
        a.len() == b.len(),
        forall|m: int| 0 <= m < a.len() ==> (#[trigger] a[m])@.task_id == b[m]@.task_id,
    ensures
        find_task(a, id) == find_task(b, id),
{
    crate::state::lemma_find_task(a, id);
    crate::state::lemma_find_task(b, id);
    match (find_task(a, id), find_task(b, id)) {
        (Some(x), Some(y)) => {
            if x < y {
                assert(b[x]@.task_id == id);
            } else if y < x {
                assert(a[y]@.task_id == id);
            }
        },
        (Some(x), None) => {
            assert(b[x]@.task_id == id);
        },
        (None, Some(y)) => {
            assert(a[y]@.task_id == id);
        },
        (None, None) => {},
    }
}

/// Everything a completed round-robin fetch did, relative to the state
/// and snapshot it started from: every returned definition names a task
/// of the job that was pending, carries the persisted stage plan and
/// partitioning, and is now running on its snapshot entry's executor;
/// no other task changed; the snapshot and the persisted slot records
/// are debited once per assignment; and the returned count is the total
/// handed out.
pub open spec fn fetch_outcome(
    pre: SchedulerState,
    snapshot0: Seq<ExecutorData>,
    job_id: Seq<char>,
    now: u64,
    ret: Seq<Vec<TaskDefinition>>,
    num_tasks: int,
    post_tasks: Seq<TaskStatus>,
    post_slots: Seq<ExecutorData>,
    snapshot1: Seq<ExecutorData>,
) -> bool {
    &&& ret.len() == snapshot0.len()
    &&& num_tasks == sum_batch_lens(ret)
    &&& forall|i: int, j: int|
        #![trigger ret[i]@[j]]
        0 <= i < ret.len() && 0 <= j < ret[i]@.len() ==> {
            let td = ret[i]@[j];
            &&& td.task_id@.job_id == job_id
            &&& find_stage(pre.stages@, job_id, td.task_id@.stage_id) matches Some(k) && td.plan
                == pre.stages@[k].plan && td.output_partitioning == pre.stages@[k].partitioning
            &&& find_task(pre.tasks@, td.task_id@) matches Some(m) && task_schedulable(
                pre.tasks@,
                m,
                job_id,
            ) && post_tasks[m] == (TaskStatus {
                task_id: td.task_id,
                status: (TaskState::Running {
                    executor_id: snapshot0[i].executor_id,
                    start_ts: now,
                }),
            })
        }
    &&& post_tasks.len() == pre.tasks@.len()
    &&& forall|m: int|
        0 <= m < pre.tasks@.len() && !batches_contain(ret, (#[trigger] pre.tasks@[m])@.task_id)
            ==> post_tasks[m] == pre.tasks@[m]
    &&& snapshot1.len() == snapshot0.len()
    &&& forall|i: int|
        0 <= i < snapshot0.len() ==> {
            &&& (#[trigger] snapshot1[i]).executor_id == snapshot0[i].executor_id
            &&& snapshot1[i]@.total_task_slots == snapshot0[i]@.total_task_slots
            &&& snapshot1[i]@.available_task_slots == snapshot0[i]@.available_task_slots
                - ret[i]@.len()
        }
    &&& post_slots.len() == pre.slots@.len()
    &&& forall|q: int|
        0 <= q < pre.slots@.len() ==> {
            &&& (#[trigger] post_slots[q])@.executor_id == pre.slots@[q]@.executor_id
            &&& post_slots[q]@.total_task_slots == pre.slots@[q]@.total_task_slots
            &&& post_slots[q]@.available_task_slots == pre.slots@[q]@.available_task_slots
                - assigned_to(ret, snapshot0, pre.slots@[q]@.executor_id)
        }
}

/// What the scheduler should do next for one queued job id.
pub enum DispatchDecision {
    /// No executor is live: wait briefly and enqueue the job id again.
    Backoff,
    /// Call the executors' task-launch interface with these batches, one
    /// entry per chosen executor.
    Launch(Vec<(String, Vec<TaskDefinition>)>),
}

impl SchedulerServer {
    /// Round-robin task fetch for one job over a snapshot of available
    /// executors: sweeps the snapshot, assigning one task per executor
    /// per sweep, until the job has no more ready work or the slots run
    /// out. Returns one task batch per snapshot entry and the number of
    /// tasks assigned in total. Whenever every snapshot executor has a
    /// free slot and the job has at least one ready task per executor,
    /// the first sweep hands every executor a task, so no batch is
    /// empty.
    #[verifier::rlimit(60)]
    pub fn fetch_tasks(
        &mut self,
        available_executors: &mut Vec<ExecutorData>,
        job_id: &String,
        now: u64,
    ) -> (r: Result<(Vec<Vec<TaskDefinition>>, usize), SchedulerError>)
        requires
            old(self).wf(),
            old(available_executors)@.len() > 0,
        ensures
            final(self).wf(),
            final(self).policy == old(self).policy,
            final(self).state.executors@ == old(self).state.executors@,
            final(self).state.heartbeats@ == old(self).state.heartbeats@,
            final(self).state.jobs@ == old(self).state.jobs@,
            final(self).state.stages@ == old(self).state.stages@,
            old(self).state.consistent() ==> final(self).state.consistent(),
            final(available_executors)@.len() == old(available_executors)@.len(),
            r matches Ok(p) ==> p.0@.len() == old(available_executors)@.len(),
            round_robin_ready(
                old(available_executors)@,
                old(self).state.tasks@,
                old(self).state.slots@,
                old(self).state.stages@,
                job_id@,
            ) ==> (r matches Ok(p) && batches_all_nonempty(p.0@)),
            r matches Ok(p) ==> fetch_outcome(
                old(self).state,
                old(available_executors)@,
                job_id@,
                now,
                p.0@,
                p.1 as int,
                final(self).state.tasks@,
                final(self).state.slots@,
                final(available_executors)@,
            ),
            r matches Err(e) ==> ({
                &&& e@ is Internal
                &&& exists|i: int|
                    #[trigger] task_schedulable(final(self).state.tasks@, i, job_id@)
                        && find_stage(
                        old(self).state.stages@,
                        job_id@,
                        final(self).state.tasks@[i]@.task_id.stage_id,
                    ) is None
                &&& final(self).state.tasks@.len() == old(self).state.tasks@.len()
                &&& forall|m: int|
                    0 <= m < old(self).state.tasks@.len() ==> (#[trigger] final(self).state.tasks@[m]) == old(self).state.tasks@[m] || (final(self).state.tasks@[m]@.task_id == old(self).state.tasks@[m]@.task_id && old(self).state.tasks@[m]@.status is Pending && final(self).state.tasks@[m]@.status
                        matches crate::domain::TaskStateView::Running { .. })
                &&& final(self).state.slots@.len() == old(self).state.slots@.len()
                &&& forall|q: int|
                    0 <= q < old(self).state.slots@.len() ==> (#[trigger] final(self).state.slots@[q])@.executor_id == old(self).state.slots@[q]@.executor_id
                        && final(self).state.slots@[q]@.total_task_slots == old(self).state.slots@[q]@.total_task_slots && final(self).state.slots@[q]@.available_task_slots <= old(self).state.slots@[q]@.available_task_slots
            }),
    {
        let ghost snapshot0 = old(available_executors)@;
        let ghost fair = round_robin_ready(
            snapshot0,
            old(self).state.tasks@,
            old(self).state.slots@,
            old(self).state.stages@,
            job_id@,
        );
        let mut ret: Vec<Vec<TaskDefinition>> = Vec::new();
        let mut fill: usize = 0;
        while fill < available_executors.len()
            invariant
                fill <= available_executors@.len(),
                ret@.len() == fill,
                available_executors@ == snapshot0,
                forall|k: int| 0 <= k < fill ==> (#[trigger] ret@[k])@.len() == 0,
                sum_batch_lens(ret@) == 0,
                forall|e: Seq<char>| #[trigger] assigned_to(ret@, snapshot0, e) == 0,
            decreases available_executors@.len() - fill,
        {
            let ghost ret_prev = ret@;
            ret.push(Vec::new());
            proof {
                assert(ret@.drop_last() =~= ret_prev);
                assert forall|e: Seq<char>| #[trigger] assigned_to(ret@, snapshot0, e)
                    == 0 by {
                    assert(assigned_to(ret_prev, snapshot0, e) == 0);
                }
            }
            fill += 1;
        }
        let mut num_tasks: usize = 0;
        let ghost pending0 = pending_count(old(self).state.tasks@);
        let task_bound = self.state.get_all_tasks().len();
        proof {
            lemma_pending_count_bounds(old(self).state.tasks@);
            assert(fetch_outcome(
                old(self).state,
                snapshot0,
                job_id@,
                now,
                ret@,
                num_tasks as int,
                self.state.tasks@,
                self.state.slots@,
                available_executors@,
            ));
        }
        loop
            invariant
                self.wf(),
                self.policy == old(self).policy,
                self.state.executors@ == old(self).state.executors@,
                self.state.heartbeats@ == old(self).state.heartbeats@,
                self.state.jobs@ == old(self).state.jobs@,
                self.state.stages@ == old(self).state.stages@,
                old(self).state.consistent() ==> self.state.consistent(),
                snapshot0 == old(available_executors)@,
                fair == round_robin_ready(
                    snapshot0,
                    old(self).state.tasks@,
                    old(self).state.slots@,
                    old(self).state.stages@,
                    job_id@,
                ),
                available_executors@.len() == snapshot0.len(),
                available_executors@.len() > 0,
                ret@.len() == available_executors@.len(),
                self.state.tasks@.len() == old(self).state.tasks@.len(),
                forall|i: int|
                    0 <= i < self.state.tasks@.len() ==> (
                    #[trigger] self.state.tasks@[i])@.task_id == old(self).state.tasks@[i]@.task_id,
                fetch_outcome(
                    old(self).state,
                    snapshot0,
                    job_id@,
                    now,
                    ret@,
                    num_tasks as int,
                    self.state.tasks@,
                    self.state.slots@,
                    available_executors@,
                ),
                crate::state::slot_ids_unique(old(self).state.slots@),
                crate::state::task_ids_unique(old(self).state.tasks@),
                pending0 <= task_bound,
                num_tasks + pending_count(self.state.tasks@) == pending0,
                pending_count(self.state.tasks@) >= 0,
                forall|k: int|
                    0 <= k < snapshot0.len() ==> (
                    #[trigger] available_executors@[k]@).executor_id
                        == snapshot0[k]@.executor_id,
                forall|i: int|
                    #[trigger] task_schedulable(self.state.tasks@, i, job_id@)
                        ==> task_schedulable(old(self).state.tasks@, i, job_id@),
                fair ==> (batches_all_nonempty(ret@) || sweep_progress(
                    snapshot0,
                    available_executors@,
                    self.state.slots@,
                    self.state.tasks@,
                    ret@,
                    job_id@,
                    0,
                )),
            ensures
                fair ==> batches_all_nonempty(ret@),
            decreases total_available(available_executors@),
        {
            proof {
                lemma_total_available_nonneg(available_executors@);
            }
            let ghost sweep_total = total_available(available_executors@);
            let mut has_tasks = true;
            let mut slots_exhausted = false;
            let mut idx: usize = 0;
            while idx < available_executors.len() && has_tasks && !slots_exhausted
                invariant
                    self.wf(),
                    self.policy == old(self).policy,
                    self.state.executors@ == old(self).state.executors@,
                    self.state.heartbeats@ == old(self).state.heartbeats@,
                    self.state.jobs@ == old(self).state.jobs@,
                    self.state.stages@ == old(self).state.stages@,
                    old(self).state.consistent() ==> self.state.consistent(),
                    snapshot0 == old(available_executors)@,
                    fair == round_robin_ready(
                        snapshot0,
                        old(self).state.tasks@,
                        old(self).state.slots@,
                        old(self).state.stages@,
                        job_id@,
                    ),
                    available_executors@.len() == snapshot0.len(),
                    available_executors@.len() > 0,
                    ret@.len() == available_executors@.len(),
                    idx <= available_executors@.len(),
                    self.state.tasks@.len() == old(self).state.tasks@.len(),
                    forall|i: int|
                        0 <= i < self.state.tasks@.len() ==> (
                        #[trigger] self.state.tasks@[i])@.task_id == old(self).state.tasks@[i]@.task_id,
                    fetch_outcome(
                        old(self).state,
                        snapshot0,
                        job_id@,
                        now,
                        ret@,
                        num_tasks as int,
                        self.state.tasks@,
                        self.state.slots@,
                        available_executors@,
                    ),
                    crate::state::slot_ids_unique(old(self).state.slots@),
                    crate::state::task_ids_unique(old(self).state.tasks@),
                    pending0 <= task_bound,
                    num_tasks + pending_count(self.state.tasks@) == pending0,
                    pending_count(self.state.tasks@) >= 0,
                    total_available(available_executors@) <= sweep_total,
                    idx == 0 ==> total_available(available_executors@) == sweep_total,
                    slots_exhausted ==> idx < available_executors@.len()
                        && available_executors@[idx as int]@.available_task_slots == 0,
                    (has_tasks && idx > 0) ==> total_available(available_executors@)
                        < sweep_total,
                    forall|k: int|
                        0 <= k < snapshot0.len() ==> (
                        #[trigger] available_executors@[k]@).executor_id
                            == snapshot0[k]@.executor_id,
                    forall|i: int|
                        #[trigger] task_schedulable(self.state.tasks@, i, job_id@)
                            ==> task_schedulable(old(self).state.tasks@, i, job_id@),
                    fair ==> (batches_all_nonempty(ret@) || sweep_progress(
                        snapshot0,
                        available_executors@,
                        self.state.slots@,
                        self.state.tasks@,
                        ret@,
                        job_id@,
                        idx as int,
                    )),
                    (fair && !has_tasks) ==> batches_all_nonempty(ret@),
                    (fair && slots_exhausted) ==> batches_all_nonempty(ret@),
                decreases available_executors@.len() - idx + (if slots_exhausted {
                    0int
                } else {
                    1int
                }),
            {
                if available_executors[idx].available_task_slots == 0 {
                    slots_exhausted = true;
                    proof {
                        if fair && !batches_all_nonempty(ret@) {
                            assert(available_executors@[idx as int]@.available_task_slots
                                == snapshot0[idx as int]@.available_task_slots);
                            assert(false);
                        }
                    }
                } else {
                    let executor_id = available_executors[idx].executor_id.clone();
                    let ghost avail_before = available_executors@;
                    let ghost tasks_before = self.state.tasks@;
                    let ghost slots_before = self.state.slots@;
                    let ghost ret_before = ret@;
                    match self.state.assign_next_schedulable_job_task(&executor_id, job_id, now) {
                        Ok(Some(td)) => {
                            let ghost td0 = td;
                            proof {
                                crate::state::lemma_find_task(tasks_before, td.task_id@);
                                match find_task(tasks_before, td.task_id@) {
                                    Some(i) => {
                                        let running = TaskStatus {
                                            task_id: td.task_id,
                                            status: (TaskState::Running {
                                                executor_id: executor_id,
                                                start_ts: now,
                                            }),
                                        };
                                        lemma_pending_count_update(tasks_before, i, running);
                                        lemma_pending_count_bounds(self.state.tasks@);
                                        lemma_schedulable_update(
                                            tasks_before,
                                            i,
                                            running,
                                            job_id@,
                                        );
                                        assert(self.state.tasks@ == tasks_before.update(
                                            i,
                                            running,
                                        ));
                                        assert forall|i2: int| #[trigger] task_schedulable(
                                            self.state.tasks@,
                                            i2,
                                            job_id@,
                                        ) implies task_schedulable(
                                            old(self).state.tasks@,
                                            i2,
                                            job_id@,
                                        ) by {
                                            if i2 == i {
                                                assert(!task_schedulable(
                                                    self.state.tasks@,
                                                    i,
                                                    job_id@,
                                                ));
                                            } else if 0 <= i2 < tasks_before.len() {
                                                assert(task_schedulable(
                                                    self.state.tasks@,
                                                    i2,
                                                    job_id@,
                                                ) == task_schedulable(
                                                    tasks_before,
                                                    i2,
                                                    job_id@,
                                                ));
                                            }
                                        }
                                        if fair {
                                            if !batches_all_nonempty(ret_before) {
                                                lemma_count_schedulable_update(
                                                    tasks_before,
                                                    i,
                                                    running,
                                                    job_id@,
                                                );
                                                assert(avail_before[idx as int]@.executor_id
                                                    == snapshot0[idx as int]@.executor_id);
                                                assert(executor_id@
                                                    == snapshot0[idx as int]@.executor_id);
                                                assert forall|k: int|
                                                    idx as int + 1 <= k < snapshot0.len() implies has_free_slot(
                                                    self.state.slots@,
                                                    (#[trigger] snapshot0[k]@).executor_id,
                                                ) by {
                                                    assert(snapshot0[idx as int]@.executor_id
                                                        != snapshot0[k]@.executor_id);
                                                    lemma_debit_preserves_other(
                                                        slots_before,
                                                        executor_id@,
                                                        snapshot0[k]@.executor_id,
                                                    );
                                                }
                                            }
                                        }
                                    },
                                    None => {},
                                }
                            }
                            let batch = &mut ret[idx];
                            batch.push(td);
                            let slots_left = available_executors[idx].available_task_slots - 1;
                            available_executors[idx].available_task_slots = slots_left;
                            proof {
                                lemma_total_available_update(
                                    avail_before,
                                    idx as int,
                                    available_executors@[idx as int],
                                );
                                assert(available_executors@ =~= avail_before.update(
                                    idx as int,
                                    available_executors@[idx as int],
                                ));
                            }
                            num_tasks += 1;
                            proof {
                                let pre = old(self).state;
                                let idxi = idx as int;
                                let newbatch = ret@[idxi];
                                crate::state::lemma_find_task(tasks_before, td0.task_id@);
                                match find_task(tasks_before, td0.task_id@) {
                                    None => {
                                        assert(false);
                                    },
                                    Some(mm) => {
                                        let running = TaskStatus {
                                            task_id: td0.task_id,
                                            status: (TaskState::Running {
                                                executor_id: executor_id,
                                                start_ts: now,
                                            }),
                                        };
                                        assert(self.state.tasks@ == tasks_before.update(
                                            mm,
                                            running,
                                        ));
                                        lemma_find_task_same_keys(
                                            tasks_before,
                                            pre.tasks@,
                                            td0.task_id@,
                                        );
                                        assert(executor_id == avail_before[idxi].executor_id);
                                        assert(avail_before[idxi].executor_id
                                            == snapshot0[idxi].executor_id);
                                        if batches_contain(ret_before, td0.task_id@) {
                                            let (bi, bj) = choose|bi: int, bj: int|
                                                #![trigger ret_before[bi]@[bj]]
                                                0 <= bi < ret_before.len() && 0 <= bj
                                                    < ret_before[bi]@.len()
                                                    && ret_before[bi]@[bj].task_id@
                                                    == td0.task_id@;
                                            assert(tasks_before[mm]@.status
                                                matches crate::domain::TaskStateView::Running {
                                                ..
                                            });
                                            assert(false);
                                        }
                                        assert(pre.tasks@[mm] == tasks_before[mm]);
                                        assert(newbatch@ == ret_before[idxi]@.push(td0));
                                        lemma_sum_batch_lens_update(ret_before, idxi, newbatch);
                                        assert forall|i2: int, j2: int|
                                            #![trigger ret@[i2]@[j2]]
                                            0 <= i2 < ret@.len() && 0 <= j2 < ret@[i2]@.len()
                                                implies {
                                            let td2 = ret@[i2]@[j2];
                                            &&& td2.task_id@.job_id == job_id@
                                            &&& find_stage(
                                                pre.stages@,
                                                job_id@,
                                                td2.task_id@.stage_id,
                                            ) matches Some(k) && td2.plan == pre.stages@[k].plan
                                                && td2.output_partitioning
                                                == pre.stages@[k].partitioning
                                            &&& find_task(pre.tasks@, td2.task_id@)
                                                matches Some(m) && pre.tasks@[m]@.status
                                                is Pending && self.state.tasks@[m] == (TaskStatus {
                                                task_id: td2.task_id,
                                                status: (TaskState::Running {
                                                    executor_id: snapshot0[i2].executor_id,
                                                    start_ts: now,
                                                }),
                                            })
                                        } by {
                                            if i2 == idxi && j2 == ret_before[idxi]@.len() {
                                                assert(ret@[i2]@[j2] == td0);
                                                assert(task_schedulable(
                                                    tasks_before,
                                                    mm,
                                                    job_id@,
                                                ));
                                                assert(task_schedulable(
                                                    pre.tasks@,
                                                    mm,
                                                    job_id@,
                                                ));
                                                assert(self.state.tasks@[mm] == running);
                                                assert(running == (TaskStatus {
                                                    task_id: td0.task_id,
                                                    status: (TaskState::Running {
                                                        executor_id: snapshot0[idxi].executor_id,
                                                        start_ts: now,
                                                    }),
                                                }));
                                            } else {
                                                assert(ret@[i2]@[j2] == ret_before[i2]@[j2]);
                                                let td2 = ret_before[i2]@[j2];
                                                crate::state::lemma_find_task(
                                                    pre.tasks@,
                                                    td2.task_id@,
                                                );
                                                match find_task(pre.tasks@, td2.task_id@) {
                                                    Some(m2p) => {
                                                        assert(0 <= m2p < pre.tasks@.len());
                                                        assert(tasks_before[m2p]
                                                            == (TaskStatus {
                                                            task_id: td2.task_id,
                                                            status: (TaskState::Running {
                                                                executor_id: snapshot0[i2].executor_id,
                                                                start_ts: now,
                                                            }),
                                                        }));
                                                        assert(tasks_before[mm]@.status
                                                            is Pending);
                                                        assert(m2p != mm);
                                                        assert(self.state.tasks@[m2p]
                                                            == tasks_before[m2p]);
                                                    },
                                                    None => {
                                                        assert(false);
                                                    },
                                                }
                                            }
                                        }
                                        assert forall|m2: int|
                                            0 <= m2 < pre.tasks@.len() && !batches_contain(
                                                ret@,
                                                (#[trigger] pre.tasks@[m2])@.task_id,
                                            ) implies self.state.tasks@[m2]
                                            == pre.tasks@[m2] by {
                                            lemma_batches_contain_step(
                                                ret_before,
                                                ret@,
                                                idxi,
                                                td0,
                                                pre.tasks@[m2]@.task_id,
                                            );
                                            assert(td0.task_id@ != pre.tasks@[m2]@.task_id);
                                            assert(m2 != mm);
                                            assert(self.state.tasks@[m2] == tasks_before[m2]);
                                        }
                                        crate::state::lemma_find_slots(
                                            slots_before,
                                            executor_id@,
                                        );
                                        assert(crate::state::slot_ids_unique(pre.slots@));
                                        assert forall|q: int|
                                            0 <= q < pre.slots@.len() implies {
                                            &&& (#[trigger] self.state.slots@[q])@.executor_id
                                                == pre.slots@[q]@.executor_id
                                            &&& self.state.slots@[q]@.total_task_slots
                                                == pre.slots@[q]@.total_task_slots
                                            &&& self.state.slots@[q]@.available_task_slots
                                                == pre.slots@[q]@.available_task_slots
                                                - assigned_to(
                                                ret@,
                                                snapshot0,
                                                pre.slots@[q]@.executor_id,
                                            )
                                        } by {
                                            lemma_assigned_to_update(
                                                ret_before,
                                                snapshot0,
                                                idxi,
                                                newbatch,
                                                pre.slots@[q]@.executor_id,
                                            );
                                            match find_slots(slots_before, executor_id@) {
                                                Some(qs) => {
                                                    assert(slots_before[qs]@.executor_id
                                                        == executor_id@);
                                                    assert(pre.slots@[qs]@.executor_id
                                                        == executor_id@);
                                                    if pre.slots@[q]@.executor_id
                                                        == executor_id@ {
                                                        assert(0 <= qs < pre.slots@.len());
                                                        assert(crate::state::slot_ids_unique(
                                                            pre.slots@,
                                                        ));
                                                        if q < qs {
                                                            assert(pre.slots@[q]@.executor_id
                                                                != pre.slots@[qs]@.executor_id);
                                                            assert(false);
                                                        }
                                                        if qs < q {
                                                            assert(pre.slots@[qs]@.executor_id
                                                                != pre.slots@[q]@.executor_id);
                                                            assert(false);
                                                        }
                                                        assert(q == qs);
                                                    } else {
                                                        assert(q != qs);
                                                        assert(self.state.slots@[q]
                                                            == slots_before[q]);
                                                    }
                                                },
                                                None => {
                                                    assert(false);
                                                },
                                            }
                                        }
                                        assert(fetch_outcome(
                                            pre,
                                            snapshot0,
                                            job_id@,
                                            now,
                                            ret@,
                                            num_tasks as int,
                                            self.state.tasks@,
                                            self.state.slots@,
                                            available_executors@,
                                        ));
                                    },
                                }
                            }
                        },
                        Ok(None) => {
                            proof {
                                if fair && !batches_all_nonempty(ret@) {
                                    lemma_count_schedulable_exists(tasks_before, job_id@, 0);
                                    assert(has_free_slot(slots_before, snapshot0[idx as int]@.executor_id));
                                    assert(available_executors@[idx as int]@.executor_id
                                        == snapshot0[idx as int]@.executor_id);
                                    assert(executor_id@ == snapshot0[idx as int]@.executor_id);
                                    assert(false);
                                }
                            }
                            has_tasks = false;
                        },
                        Err(e) => {
                            proof {
                                if fair {
                                    let i = choose|i: int|
                                        #[trigger] task_schedulable(tasks_before, i, job_id@)
                                            && find_stage(
                                            self.state.stages@,
                                            job_id@,
                                            tasks_before[i]@.task_id.stage_id,
                                        ) is None;
                                    assert(task_schedulable(
                                        old(self).state.tasks@,
                                        i,
                                        job_id@,
                                    ));
                                    assert(false);
                                }
                                let pre = old(self).state;
                                assert forall|m2: int| 0 <= m2 < pre.tasks@.len() implies ((
                                #[trigger] self.state.tasks@[m2]) == pre.tasks@[m2] || (
                                self.state.tasks@[m2]@.task_id == pre.tasks@[m2]@.task_id
                                    && pre.tasks@[m2]@.status is Pending
                                    && self.state.tasks@[m2]@.status
                                    matches crate::domain::TaskStateView::Running { .. })) by {
                                    if batches_contain(ret@, pre.tasks@[m2]@.task_id) {
                                        let (bi, bj) = choose|bi: int, bj: int|
                                            #![trigger ret@[bi]@[bj]]
                                            0 <= bi < ret@.len() && 0 <= bj < ret@[bi]@.len()
                                                && ret@[bi]@[bj].task_id@
                                                == pre.tasks@[m2]@.task_id;
                                        let td2 = ret@[bi]@[bj];
                                        crate::state::lemma_find_task(pre.tasks@, td2.task_id@);
                                        match find_task(pre.tasks@, td2.task_id@) {
                                            Some(mp) => {
                                                if mp < m2 {
                                                    assert(pre.tasks@[mp]@.task_id
                                                        != pre.tasks@[m2]@.task_id);
                                                    assert(false);
                                                }
                                                if m2 < mp {
                                                    assert(pre.tasks@[m2]@.task_id
                                                        != pre.tasks@[mp]@.task_id);
                                                    assert(false);
                                                }
                                                assert(pre.tasks@[m2]@.status is Pending);
                                                assert(self.state.tasks@[m2]@.status
                                                    matches crate::domain::TaskStateView::Running {
                                                    ..
                                                });
                                            },
                                            None => {
                                                assert(false);
                                            },
                                        }
                                    }
                                }
                                assert forall|q: int| 0 <= q < pre.slots@.len() implies ((
                                #[trigger] self.state.slots@[q])@.executor_id
                                    == pre.slots@[q]@.executor_id
                                    && self.state.slots@[q]@.total_task_slots
                                    == pre.slots@[q]@.total_task_slots
                                    && self.state.slots@[q]@.available_task_slots
                                    <= pre.slots@[q]@.available_task_slots) by {
                                    lemma_assigned_to_nonneg(
                                        ret@,
                                        snapshot0,
                                        pre.slots@[q]@.executor_id,
                                    );
                                }
                            }
                            return Err(e);
                        },
                    }
                    idx += 1;
                }
            }
            if !has_tasks {
                break;
            }
            if available_executors[0].available_task_slots == 0 {
                proof {
                    if fair && !batches_all_nonempty(ret@) {
                        assert(!slots_exhausted);
                        assert(idx >= available_executors@.len());
                        assert forall|k: int| 0 <= k < ret@.len() implies (
                        #[trigger] ret@[k])@.len() >= 1 by {
                            assert(0 <= k < idx as int && k < ret@.len());
                        }
                        assert(batches_all_nonempty(ret@));
                    }
                }
                break;
            }
            proof {
                if idx == 0 {
                    if slots_exhausted {
                        assert(available_executors@[0]@.available_task_slots == 0);
                        assert(false);
                    } else {
                        assert(false);
                    }
                }
                lemma_total_available_nonneg(available_executors@);
                assert(0 <= total_available(available_executors@) < sweep_total);
                if fair && !batches_all_nonempty(ret@) {
                    assert(sweep_progress(
                        snapshot0,
                        available_executors@,
                        self.state.slots@,
                        self.state.tasks@,
                        ret@,
                        job_id@,
                        idx as int,
                    ));
                    if idx < available_executors.len() {
                        assert(false);
                    }
                    assert(batches_all_nonempty(ret@));
                }
            }
        }
        proof {
            if fair {
                assert(batches_all_nonempty(ret@));
            }
        }
        Ok((ret, num_tasks))
    }

    /// One step of the push dispatcher for one queued job id: with no
    /// live executor the caller should back off and requeue; otherwise
    /// the round-robin fetch chooses the batches, and every non-empty
    /// batch is to be launched on its executor.
    pub fn plan_dispatch(&mut self, job_id: &String, now: u64, liveness_window: u64) -> (r: Result<
        DispatchDecision,
        SchedulerError,
    >)
        requires
            old(self).wf(),
        ensures
            final(self).wf(),
            final(self).policy == old(self).policy,
            old(self).state.consistent() ==> final(self).state.consistent(),
            final(self).state.executors@ == old(self).state.executors@,
            final(self).state.heartbeats@ == old(self).state.heartbeats@,
            final(self).state.jobs@ == old(self).state.jobs@,
            final(self).state.stages@ == old(self).state.stages@,
            r matches Ok(d) ==> ((d is Backoff) <==> crate::state::live_slots(
                old(self).state.slots@,
                old(self).state.heartbeats@,
                now,
                liveness_window,
            ).len() == 0),
            r matches Ok(d) ==> (d is Backoff ==> final(self).state.tasks@ == old(self).state.tasks@ && final(self).state.slots@ == old(self).state.slots@),
            r matches Ok(d) ==> (d matches DispatchDecision::Launch(launches) ==> exists|
                snapshot: Seq<ExecutorData>,
                snapshot_left: Seq<ExecutorData>,
                ret: Seq<Vec<TaskDefinition>>,
                n: int,
            |
                {
                    &&& #[trigger] fetch_outcome(
                        old(self).state,
                        snapshot,
                        job_id@,
                        now,
                        ret,
                        n,
                        final(self).state.tasks@,
                        final(self).state.slots@,
                        snapshot_left,
                    )
                    &&& crate::state::sorted_by_available_desc(snapshot)
                    &&& snapshot.to_multiset() == crate::state::live_slots(
                        old(self).state.slots@,
                        old(self).state.heartbeats@,
                        now,
                        liveness_window,
                    ).to_multiset()
                    &&& snapshot.len() > 0
                    &&& launches@.len() <= ret.len()
                    &&& forall|k: int|
                        0 <= k < launches@.len() ==> ((#[trigger] launches@[k]).0
                            == snapshot[k].executor_id && launches@[k].1@ == ret[k]@
                            && ret[k]@.len() >= 1)
                    &&& (launches@.len() < ret.len() ==> ret[launches@.len() as int]@.len()
                        == 0)
                }),
            r matches Err(e) ==> e@ is Internal,
    {
        let mut available = self.state.get_available_executors_data(now, liveness_window);
        proof {
            vstd::seq_lib::to_multiset_len(available@);
            vstd::seq_lib::to_multiset_len(
                crate::state::live_slots(
                    self.state.slots@,
                    self.state.heartbeats@,
                    now,
                    liveness_window,
                ),
            );
        }
        if available.len() == 0 {
            return Ok(DispatchDecision::Backoff);
        }
        let ghost snap_pre = available@;
        let (batches, num_tasks) = match self.fetch_tasks(&mut available, job_id, now) {
            Ok(p) => p,
            Err(e) => {
                return Err(e);
            },
        };
        let ghost snap_left = available@;
        let ghost ret0 = batches@;
        let ghost n0 = num_tasks as int;
        let mut launches: Vec<(String, Vec<TaskDefinition>)> = Vec::new();
        let batches = batches;
        let mut k: usize = 0;
        // Launch the non-empty prefix of the batches, one per executor:
        // assignment is round robin, so the first empty batch means no
        // further work was ready for the later executors either.
        while k < available.len() && k < batches.len() && batches[k].len() > 0
            invariant
                k <= available@.len(),
                k <= batches@.len(),
                available@.len() == snap_pre.len(),
                batches@ == ret0,
                launches@.len() == k,
                forall|kk: int|
                    0 <= kk < k ==> ((#[trigger] launches@[kk]).0 == snap_pre[kk].executor_id
                        && launches@[kk].1@ == ret0[kk]@ && ret0[kk]@.len() >= 1),
                forall|kk: int|
                    0 <= kk < available@.len() ==> (#[trigger] available@[kk]).executor_id
                        == snap_pre[kk].executor_id,
            decreases batches@.len() - k,
        {
            let executor_id = available[k].executor_id.clone();
            let mut tasks: Vec<TaskDefinition> = Vec::new();
            let mut m: usize = 0;
            while m < batches[k].len()
                invariant
                    k < batches@.len(),
                    m <= batches@[k as int]@.len(),
                    tasks@ =~= batches@[k as int]@.take(m as int),
                decreases batches@[k as int]@.len() - m,
            {
                tasks.push(batches[k][m].clone());
                proof {
                    assert(tasks@ =~= batches@[k as int]@.take(m as int + 1));
                }
                m += 1;
            }
            proof {
                assert(tasks@ =~= batches@[k as int]@);
            }
            launches.push((executor_id, tasks));
            k += 1;
        }
        proof {
            assert(forall|kk: int|
                0 <= kk < launches@.len() ==> (#[trigger] launches@[kk]).1@ == ret0[kk]@);
        }
        Ok(DispatchDecision::Launch(launches))
    }
}

/// Every task of the job has completed (vacuously false with no tasks,
/// see `job_has_task`).
pub open spec fn job_tasks_all_completed(tasks: Seq<TaskStatus>, job_id: Seq<char>) -> bool {
    forall|i: int|
        0 <= i < tasks.len() ==> ((#[trigger] tasks[i])@.task_id.job_id == job_id
            ==> tasks[i]@.status matches crate::domain::TaskStateView::Completed { .. })
}

/// The job has at least one task record.
pub open spec fn job_has_task(tasks: Seq<TaskStatus>, job_id: Seq<char>) -> bool {
    exists|i: int| 0 <= i < tasks.len() && (#[trigger] tasks[i])@.task_id.job_id == job_id
}

/// Some task of the job failed terminally.
pub open spec fn job_task_failed(tasks: Seq<TaskStatus>, job_id: Seq<char>) -> bool {
    exists|i: int|
        0 <= i < tasks.len() && (#[trigger] tasks[i])@.task_id.job_id == job_id && tasks[i]@.status
            matches crate::domain::TaskStateView::Failed { .. }
}

/// The record a failed job is settled to: `Failed`, carrying the error
/// of one of the job's terminally failed tasks.
pub open spec fn failed_job_record(
    tasks: Seq<TaskStatus>,
    job_id: Seq<char>,
    rec: JobRecord,
) -> bool {
    &&& rec.job_id@ == job_id
    &&& rec.status@ matches JobStatusView::Failed { error } && exists|i: int|
        0 <= i < tasks.len() && (#[trigger] tasks[i])@.task_id.job_id == job_id
            && tasks[i]@.status == (crate::domain::TaskStateView::Failed { error })
}

impl SchedulerServer {
    /// Settles a job's overall status from its tasks: `Completed` exactly
    /// when the job has tasks and every one of them completed; `Failed`,
    /// carrying a failed task's error, when any task failed terminally;
    /// untouched otherwise. The control plane calls this for every job a
    /// status update touches.
    pub fn refresh_job_status(&mut self, job_id: &String)
        requires
            old(self).wf(),
        ensures
            final(self).wf(),
            final(self).policy == old(self).policy,
            final(self).state.executors@ == old(self).state.executors@,
            final(self).state.heartbeats@ == old(self).state.heartbeats@,
            final(self).state.slots@ == old(self).state.slots@,
            final(self).state.stages@ == old(self).state.stages@,
            final(self).state.tasks@ == old(self).state.tasks@,
            old(self).state.consistent() ==> final(self).state.consistent(),
            job_task_failed(old(self).state.tasks@, job_id@) ==> exists|rec: JobRecord|
                #[trigger] failed_job_record(old(self).state.tasks@, job_id@, rec)
                    && final(self).state.jobs@ == upsert_job(old(self).state.jobs@, rec),
            (!job_task_failed(old(self).state.tasks@, job_id@) && job_has_task(
                old(self).state.tasks@,
                job_id@,
            ) && job_tasks_all_completed(old(self).state.tasks@, job_id@))
                ==> final(self).state.jobs@ == upsert_job(
                old(self).state.jobs@,
                (JobRecord { job_id: *job_id, status: JobStatus::Completed }),
            ),
            (!job_task_failed(old(self).state.tasks@, job_id@) && !(job_has_task(
                old(self).state.tasks@,
                job_id@,
            ) && job_tasks_all_completed(old(self).state.tasks@, job_id@)))
                ==> final(self).state.jobs@ == old(self).state.jobs@,
    {
        let tasks = self.state.get_all_tasks();
        let mut has_task = false;
        let mut all_completed = true;
        let mut failed_error: Option<String> = None;
        let mut k: usize = 0;
        while k < tasks.len()
            invariant
                k <= tasks@.len(),
                tasks@ == self.state.tasks@,
                has_task == exists|i: int|
                    0 <= i < k && (#[trigger] tasks@[i])@.task_id.job_id == job_id@,
                all_completed == forall|i: int|
                    0 <= i < k ==> ((#[trigger] tasks@[i])@.task_id.job_id == job_id@
                        ==> tasks@[i]@.status matches crate::domain::TaskStateView::Completed {
                        ..
                    }),
                match failed_error {
                    Some(e) => exists|i: int|
                        0 <= i < k && (#[trigger] tasks@[i])@.task_id.job_id == job_id@
                            && tasks@[i]@.status == (crate::domain::TaskStateView::Failed {
                            error: e@,
                        }),
                    None => forall|i: int|
                        0 <= i < k ==> !((#[trigger] tasks@[i])@.task_id.job_id == job_id@
                            && tasks@[i]@.status matches crate::domain::TaskStateView::Failed {
                            ..
                        }),
                },
            decreases tasks@.len() - k,
        {
            if tasks[k].task_id.job_id == *job_id {
                has_task = true;
                match &tasks[k].status {
                    TaskState::Completed { .. } => {},
                    TaskState::Failed { error } => {
                        all_completed = false;
                        if failed_error.is_none() {
                            failed_error = Some(error.clone());
                        }
                    },
                    _ => {
                        all_completed = false;
                    },
                }
            }
            k += 1;
        }
        match failed_error {
            Some(error) => {
                let ghost rec = (JobRecord {
                    job_id: *job_id,
                    status: (JobStatus::Failed { error: error }),
                });
                self.state.save_job_metadata(job_id, JobStatus::Failed { error });
                proof {
                    assert(failed_job_record(old(self).state.tasks@, job_id@, rec));
                    assert(self.state.jobs@ == upsert_job(old(self).state.jobs@, rec));
                }
            },
            None => {
                if has_task && all_completed {
                    self.state.save_job_metadata(job_id, JobStatus::Completed);
                }
            },
        }
    }
}


fn contains_string(v: &Vec<String>, id: &String) -> (r: bool)
    ensures
        r == has_job_entry(v@, id@),
{
    let mut k: usize = 0;
    while k < v.len()
        invariant
            k <= v@.len(),
            forall|i: int| 0 <= i < k ==> (#[trigger] v@[i])@ != id@,
        decreases v@.len() - k,
    {
        if v[k] == *id {
            return true;
        }
        k += 1;
    }
    false
}

} // verus!
