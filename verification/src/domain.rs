//! The entities the scheduler persists and exchanges: executors, jobs,
//! stages and tasks, together with their mathematical views.
//!
//! Exec values hold `String` ids; the view of each entity replaces every
//! string by its character sequence, so contracts can state equality and
//! lookups abstractly.

use vstd::prelude::*;
use crate::plan::{Partitioning, PlanNode};

verus! {

/// One task handed to an executor: the task's identity, the physical
/// sub-plan it must run, and the partitioning its output is written with.
#[derive(Debug)]
pub struct TaskDefinition {
    pub task_id: PartitionId,
    pub plan: PlanNode,
    pub output_partitioning: Partitioning,
}

impl Clone for TaskDefinition {
    fn clone(&self) -> (r: Self)
        ensures
            r == *self,
    {
        TaskDefinition {
            task_id: self.task_id.clone(),
            plan: self.plan.clone(),
            output_partitioning: self.output_partitioning,
        }
    }
}

/// How tasks reach executors: executors poll for work, or the scheduler
/// pushes batches to registered executors.
#[derive(Clone, Copy, PartialEq, Eq, Structural, Debug)]
pub enum TaskSchedulingPolicy {
    PullStaged,
    PushStaged,
}

/// Identity of one task: one partition of one stage of one job.
#[derive(Debug)]
pub struct PartitionId {
    pub job_id: String,
    pub stage_id: u32,
    pub partition_id: u32,
}

#[verifier::ext_equal]
pub struct PartitionIdView {
    pub job_id: Seq<char>,
    pub stage_id: u32,
    pub partition_id: u32,
}

impl View for PartitionId {
    type V = PartitionIdView;

    open spec fn view(&self) -> PartitionIdView {
        PartitionIdView {
            job_id: self.job_id@,
            stage_id: self.stage_id,
            partition_id: self.partition_id,
        }
    }
}

impl Clone for PartitionId {
    fn clone(&self) -> (r: Self)
        ensures
            r == *self,
    {
        PartitionId {
            job_id: self.job_id.clone(),
            stage_id: self.stage_id,
            partition_id: self.partition_id,
        }
    }
}

/// Lifecycle state of a task. `Pending` is unassigned; `Running` holds
/// the executor the task was handed to and when; `Completed` and
/// `Failed` are terminal.
#[derive(Debug)]
pub enum TaskState {
    Pending,
    Running { executor_id: String, start_ts: u64 },
    Completed { executor_id: String },
    Failed { error: String },
}

#[verifier::ext_equal]
pub enum TaskStateView {
    Pending,
    Running { executor_id: Seq<char>, start_ts: u64 },
    Completed { executor_id: Seq<char> },
    Failed { error: Seq<char> },
}

impl View for TaskState {
    type V = TaskStateView;

    open spec fn view(&self) -> TaskStateView {
        match self {
            TaskState::Pending => TaskStateView::Pending,
            TaskState::Running { executor_id, start_ts } => TaskStateView::Running {
                executor_id: executor_id@,
                start_ts: *start_ts,
            },
            TaskState::Completed { executor_id } => TaskStateView::Completed {
                executor_id: executor_id@,
            },
            TaskState::Failed { error } => TaskStateView::Failed { error: error@ },
        }
    }
}

impl Clone for TaskState {
    fn clone(&self) -> (r: Self)
        ensures
            r == *self,
    {
        match self {
            TaskState::Pending => TaskState::Pending,
            TaskState::Running { executor_id, start_ts } => TaskState::Running {
                executor_id: executor_id.clone(),
                start_ts: *start_ts,
            },
            TaskState::Completed { executor_id } => TaskState::Completed {
                executor_id: executor_id.clone(),
            },
            TaskState::Failed { error } => TaskState::Failed { error: error.clone() },
        }
    }
}

impl TaskStateView {
    /// Rank in the lifecycle order `Pending < Running < terminal`.
    /// Transitions may never decrease it.
    pub open spec fn rank(self) -> int {
        match self {
            TaskStateView::Pending => 0,
            TaskStateView::Running { .. } => 1,
            TaskStateView::Completed { .. } => 2,
            TaskStateView::Failed { .. } => 2,
        }
    }

    /// A terminal state never changes again.
    pub open spec fn is_terminal(self) -> bool {
        self is Completed || self is Failed
    }

    /// The task occupies a slot on `executor_id`.
    pub open spec fn is_running_on(self, executor_id: Seq<char>) -> bool {
        self matches TaskStateView::Running { executor_id: e, .. } && e == executor_id
    }
}

impl TaskState {
    pub fn is_terminal(&self) -> (r: bool)
        ensures
            r == self@.is_terminal(),
    {
        match self {
            TaskState::Completed { .. } => true,
            TaskState::Failed { .. } => true,
            _ => false,
        }
    }

    pub fn rank(&self) -> (r: u32)
        ensures
            r as int == self@.rank(),
    {
        match self {
            TaskState::Pending => 0,
            TaskState::Running { .. } => 1,
            TaskState::Completed { .. } => 2,
            TaskState::Failed { .. } => 2,
        }
    }
}

/// A task record: identity plus current lifecycle state.
#[derive(Debug)]
pub struct TaskStatus {
    pub task_id: PartitionId,
    pub status: TaskState,
}

#[verifier::ext_equal]
pub struct TaskStatusView {
    pub task_id: PartitionIdView,
    pub status: TaskStateView,
}

impl View for TaskStatus {
    type V = TaskStatusView;

    open spec fn view(&self) -> TaskStatusView {
        TaskStatusView { task_id: self.task_id@, status: self.status@ }
    }
}

impl Clone for TaskStatus {
    fn clone(&self) -> (r: Self)
        ensures
            r == *self,
    {
        TaskStatus { task_id: self.task_id.clone(), status: self.status.clone() }
    }
}

/// Compute capacity an executor advertises at registration.
#[derive(Clone, Copy, PartialEq, Eq, Structural, Debug)]
pub struct ExecutorSpecification {
    pub task_slots: u32,
}

/// Identity and network coordinates of an executor.
#[derive(Debug)]
pub struct ExecutorMetadata {
    pub id: String,
    pub host: String,
    pub port: u16,
    pub grpc_port: u16,
    pub specification: ExecutorSpecification,
}

#[verifier::ext_equal]
pub struct ExecutorMetadataView {
    pub id: Seq<char>,
    pub host: Seq<char>,
    pub port: u16,
    pub grpc_port: u16,
    pub specification: ExecutorSpecification,
}

impl View for ExecutorMetadata {
    type V = ExecutorMetadataView;

    open spec fn view(&self) -> ExecutorMetadataView {
        ExecutorMetadataView {
            id: self.id@,
            host: self.host@,
            port: self.port,
            grpc_port: self.grpc_port,
            specification: self.specification,
        }
    }
}

impl Clone for ExecutorMetadata {
    fn clone(&self) -> (r: Self)
        ensures
            r == *self,
    {
        ExecutorMetadata {
            id: self.id.clone(),
            host: self.host.clone(),
            port: self.port,
            grpc_port: self.grpc_port,
            specification: self.specification,
        }
    }
}

/// Slot accounting for one executor. Invariant of interest:
/// `available_task_slots <= total_task_slots`, and at quiescent points
/// `available + running tasks on the executor == total`.
#[derive(Debug)]
pub struct ExecutorData {
    pub executor_id: String,
    pub total_task_slots: u32,
    pub available_task_slots: u32,
}

#[verifier::ext_equal]
pub struct ExecutorDataView {
    pub executor_id: Seq<char>,
    pub total_task_slots: u32,
    pub available_task_slots: u32,
}

impl View for ExecutorData {
    type V = ExecutorDataView;

    open spec fn view(&self) -> ExecutorDataView {
        ExecutorDataView {
            executor_id: self.executor_id@,
            total_task_slots: self.total_task_slots,
            available_task_slots: self.available_task_slots,
        }
    }
}

impl Clone for ExecutorData {
    fn clone(&self) -> (r: Self)
        ensures
            r == *self,
    {
        ExecutorData {
            executor_id: self.executor_id.clone(),
            total_task_slots: self.total_task_slots,
            available_task_slots: self.available_task_slots,
        }
    }
}

/// Last-heartbeat record for one executor; `timestamp` is seconds since
/// the epoch as the caller measured it, `state` whatever status text the
/// executor chose to report.
#[derive(Debug)]
pub struct ExecutorHeartbeat {
    pub executor_id: String,
    pub timestamp: u64,
    pub state: Option<String>,
}

#[verifier::ext_equal]
pub struct ExecutorHeartbeatView {
    pub executor_id: Seq<char>,
    pub timestamp: u64,
    pub state: Option<Seq<char>>,
}

impl View for ExecutorHeartbeat {
    type V = ExecutorHeartbeatView;

    open spec fn view(&self) -> ExecutorHeartbeatView {
        ExecutorHeartbeatView {
            executor_id: self.executor_id@,
            timestamp: self.timestamp,
            state: match self.state {
                Some(s) => Some(s@),
                None => None,
            },
        }
    }
}

impl Clone for ExecutorHeartbeat {
    fn clone(&self) -> (r: Self)
        ensures
            r == *self,
    {
        ExecutorHeartbeat {
            executor_id: self.executor_id.clone(),
            timestamp: self.timestamp,
            state: match &self.state {
                Some(s) => Some(s.clone()),
                None => None,
            },
        }
    }
}

/// Lifecycle of a job: one-way through `Queued -> Running -> terminal`.
#[derive(Debug)]
pub enum JobStatus {
    Queued,
    Running,
    Completed,
    Failed { error: String },
}

#[verifier::ext_equal]
pub enum JobStatusView {
    Queued,
    Running,
    Completed,
    Failed { error: Seq<char> },
}

impl View for JobStatus {
    type V = JobStatusView;

    open spec fn view(&self) -> JobStatusView {
        match self {
            JobStatus::Queued => JobStatusView::Queued,
            JobStatus::Running => JobStatusView::Running,
            JobStatus::Completed => JobStatusView::Completed,
            JobStatus::Failed { error } => JobStatusView::Failed { error: error@ },
        }
    }
}

impl Clone for JobStatus {
    fn clone(&self) -> (r: Self)
        ensures
            r == *self,
    {
        match self {
            JobStatus::Queued => JobStatus::Queued,
            JobStatus::Running => JobStatus::Running,
            JobStatus::Completed => JobStatus::Completed,
            JobStatus::Failed { error } => JobStatus::Failed { error: error.clone() },
        }
    }
}

/// Errors the scheduler hands to its callers, named after the status
/// codes the control plane reports them as.
#[derive(Debug)]
pub enum SchedulerError {
    /// The request itself is malformed (missing metadata, unknown kind).
    InvalidArgument { message: String },
    /// The call is not allowed under the configured policy.
    FailedPrecondition { message: String },
    /// The requested entity does not exist.
    NotFound { message: String },
    /// A broken internal invariant or a failed persistence call.
    Internal { message: String },
}

#[verifier::ext_equal]
pub enum SchedulerErrorView {
    InvalidArgument { message: Seq<char> },
    FailedPrecondition { message: Seq<char> },
    NotFound { message: Seq<char> },
    Internal { message: Seq<char> },
}

impl View for SchedulerError {
    type V = SchedulerErrorView;

    open spec fn view(&self) -> SchedulerErrorView {
        match self {
            SchedulerError::InvalidArgument { message } => SchedulerErrorView::InvalidArgument {
                message: message@,
            },
            SchedulerError::FailedPrecondition { message } => SchedulerErrorView::FailedPrecondition {
                message: message@,
            },
            SchedulerError::NotFound { message } => SchedulerErrorView::NotFound {
                message: message@,
            },
            SchedulerError::Internal { message } => SchedulerErrorView::Internal {
                message: message@,
            },
        }
    }
}

impl SchedulerError {
    /// Human-readable message carried by the error.
    pub fn message(&self) -> (r: &String)
        ensures
            self@ matches SchedulerErrorView::InvalidArgument { message } ==> r@ == message,
            self@ matches SchedulerErrorView::FailedPrecondition { message } ==> r@ == message,
            self@ matches SchedulerErrorView::NotFound { message } ==> r@ == message,
            self@ matches SchedulerErrorView::Internal { message } ==> r@ == message,
    {
        match self {
            SchedulerError::InvalidArgument { message } => message,
            SchedulerError::FailedPrecondition { message } => message,
            SchedulerError::NotFound { message } => message,
            SchedulerError::Internal { message } => message,
        }
    }
}

} // verus!
