use ballista_scheduler::config::ConfigBackend;
use ballista_scheduler::domain::{
    ExecutorData, ExecutorHeartbeat, ExecutorMetadata, ExecutorSpecification, JobStatus,
    PartitionId, SchedulerError, TaskSchedulingPolicy, TaskState, TaskStatus,
};
use ballista_scheduler::plan::{Partitioning, PlanNode, QueryStage};
use ballista_scheduler::planner::DistributedPlanner;
use ballista_scheduler::server::{DispatchDecision, SchedulerServer};

fn executor_meta(id: &str, task_slots: u32) -> ExecutorMetadata {
    ExecutorMetadata {
        id: id.to_string(),
        host: "".to_string(),
        port: 0,
        grpc_port: 0,
        specification: ExecutorSpecification { task_slots },
    }
}

fn two_stage_plan() -> PlanNode {
    // scan + partial aggregate, a hash repartition boundary, then the
    // final aggregate under a gathering coalesce.
    PlanNode::Coalesce {
        child: Box::new(PlanNode::Unary {
            name: "aggregate_final".to_string(),
            child: Box::new(PlanNode::Repartition {
                partitioning: Partitioning::Hash { partition_count: 2 },
                child: Box::new(PlanNode::Unary {
                    name: "aggregate_partial".to_string(),
                    child: Box::new(PlanNode::Leaf {
                        name: "scan".to_string(),
                        partition_count: 2,
                    }),
                }),
            }),
        }),
    }
}

#[test]
fn test_poll_work() {
    let mut scheduler = SchedulerServer::new(0);
    let exec_meta = executor_meta("abc", 2);
    let response = scheduler
        .poll_work(Some(exec_meta.clone()), false, &vec![], 0)
        .expect("Received error response");
    // no response task since we told the scheduler we didn't want to accept one
    assert!(response.is_none());
    // executor should be registered
    assert_eq!(scheduler.state.get_executors_metadata().len(), 1);

    let response = scheduler
        .poll_work(Some(exec_meta.clone()), true, &vec![], 0)
        .expect("Received error response");
    // still no response task since there are no tasks in the scheduler
    assert!(response.is_none());
    // executor should be registered
    assert_eq!(scheduler.state.get_executors_metadata().len(), 1);
}

#[test]
fn poll_work_registers_slots() {
    let mut scheduler = SchedulerServer::new(0);
    scheduler
        .poll_work(Some(executor_meta("abc", 2)), false, &vec![], 0)
        .unwrap();
    let data = scheduler
        .state
        .get_executor_data(&"abc".to_string())
        .expect("slots registered");
    assert_eq!(data.total_task_slots, 2);
    assert_eq!(data.available_task_slots, 2);
}

#[test]
fn poll_work_rejected_under_push_policy() {
    let mut scheduler = SchedulerServer::new_with_policy(TaskSchedulingPolicy::PushStaged, 0);
    let err = scheduler
        .poll_work(Some(executor_meta("abc", 2)), false, &vec![], 0)
        .unwrap_err();
    assert!(matches!(err, SchedulerError::FailedPrecondition { .. }));
}

#[test]
fn poll_work_missing_metadata_is_invalid() {
    let mut scheduler = SchedulerServer::new(0);
    let err = scheduler.poll_work(None, false, &vec![], 0).unwrap_err();
    assert!(matches!(err, SchedulerError::InvalidArgument { .. }));
}

#[test]
fn poll_work_hands_out_ready_task() {
    let mut scheduler = SchedulerServer::new(0);
    let job = "j1".to_string();
    scheduler.state.save_job_metadata(&job, JobStatus::Running);
    scheduler.state.save_stage_plan(
        &job,
        0,
        Partitioning::Single,
        PlanNode::Leaf { name: "scan".to_string(), partition_count: 1 },
    );
    scheduler.state.save_task_status(&TaskStatus {
        task_id: PartitionId { job_id: job.clone(), stage_id: 0, partition_id: 0 },
        status: TaskState::Pending,
    });
    let task = scheduler
        .poll_work(Some(executor_meta("abc", 2)), true, &vec![], 0)
        .expect("Received error response")
        .expect("a ready task");
    assert_eq!(task.task_id.job_id, "j1");
    assert_eq!(task.task_id.stage_id, 0);
    assert_eq!(task.task_id.partition_id, 0);
    assert_eq!(task.output_partitioning, Partitioning::Single);
    // the task is now recorded as running on the executor, one slot used
    let data = scheduler.state.get_executor_data(&"abc".to_string()).unwrap();
    assert_eq!(data.available_task_slots, 1);
    let stored = &scheduler.state.get_all_tasks()[0];
    match &stored.status {
        TaskState::Running { executor_id, start_ts } => {
            assert_eq!(executor_id, "abc");
            // the assignment is stamped with the poll's clock reading
            assert_eq!(*start_ts, 0);
        }
        other => panic!("expected running, got {:?}", other),
    }
}

#[test]
fn stage_dependency_respected() {
    // A stage-1 task is not handed out while stage 0 is incomplete.
    let mut scheduler = SchedulerServer::new(0);
    let job = "j1".to_string();
    scheduler.state.save_job_metadata(&job, JobStatus::Running);
    for stage_id in 0..2 {
        scheduler.state.save_stage_plan(
            &job,
            stage_id,
            Partitioning::Single,
            PlanNode::Leaf { name: "scan".to_string(), partition_count: 1 },
        );
    }
    scheduler.state.save_task_status(&TaskStatus {
        task_id: PartitionId { job_id: job.clone(), stage_id: 0, partition_id: 0 },
        status: TaskState::Running { executor_id: "abc".to_string(), start_ts: 5 },
    });
    scheduler.state.save_task_status(&TaskStatus {
        task_id: PartitionId { job_id: job.clone(), stage_id: 1, partition_id: 0 },
        status: TaskState::Pending,
    });
    // stage 0 still running: nothing may be assigned
    let task = scheduler
        .poll_work(Some(executor_meta("abc", 2)), true, &vec![], 0)
        .unwrap();
    assert!(task.is_none());
    // stage 0 completes: now the stage-1 task is handed out
    let report = TaskStatus {
        task_id: PartitionId { job_id: job.clone(), stage_id: 0, partition_id: 0 },
        status: TaskState::Completed { executor_id: "abc".to_string() },
    };
    let task = scheduler
        .poll_work(Some(executor_meta("abc", 2)), true, &vec![report], 0)
        .unwrap()
        .expect("stage 1 ready now");
    assert_eq!(task.task_id.stage_id, 1);
}

#[test]
fn assignment_order_is_stage_then_partition() {
    let mut scheduler = SchedulerServer::new(0);
    let job = "j1".to_string();
    scheduler.state.save_job_metadata(&job, JobStatus::Running);
    scheduler.state.save_stage_plan(
        &job,
        0,
        Partitioning::Hash { partition_count: 2 },
        PlanNode::Leaf { name: "scan".to_string(), partition_count: 2 },
    );
    // insert partition 1 before partition 0
    for partition_id in [1u32, 0u32] {
        scheduler.state.save_task_status(&TaskStatus {
            task_id: PartitionId { job_id: job.clone(), stage_id: 0, partition_id },
            status: TaskState::Pending,
        });
    }
    let task = scheduler
        .poll_work(Some(executor_meta("abc", 2)), true, &vec![], 0)
        .unwrap()
        .unwrap();
    assert_eq!(task.task_id.partition_id, 0);
}

#[test]
fn register_executor_is_idempotent() {
    let mut scheduler = SchedulerServer::new_with_policy(TaskSchedulingPolicy::PushStaged, 0);
    for _ in 0..3 {
        let ok = scheduler
            .register_executor(Some(executor_meta("abc", 2)))
            .unwrap();
        assert!(ok);
    }
    assert_eq!(scheduler.state.get_executors_metadata().len(), 1);
    let data = scheduler.state.get_executor_data(&"abc".to_string()).unwrap();
    assert_eq!(data.total_task_slots, 2);
    assert_eq!(data.available_task_slots, 2);
}

#[test]
fn update_task_status_frees_slot_once() {
    let mut scheduler = SchedulerServer::new_with_policy(TaskSchedulingPolicy::PushStaged, 0);
    scheduler.register_executor(Some(executor_meta("abc", 2))).unwrap();
    let job = "j1".to_string();
    scheduler.state.save_job_metadata(&job, JobStatus::Running);
    scheduler.state.save_stage_plan(
        &job,
        0,
        Partitioning::Single,
        PlanNode::Leaf { name: "scan".to_string(), partition_count: 1 },
    );
    scheduler.state.save_task_status(&TaskStatus {
        task_id: PartitionId { job_id: job.clone(), stage_id: 0, partition_id: 0 },
        status: TaskState::Pending,
    });
    let td = scheduler
        .state
        .assign_next_schedulable_job_task(&"abc".to_string(), &job, 5)
        .unwrap()
        .unwrap();
    assert_eq!(
        scheduler.state.get_executor_data(&"abc".to_string()).unwrap().available_task_slots,
        1
    );
    let report = TaskStatus {
        task_id: td.task_id.clone(),
        status: TaskState::Completed { executor_id: "abc".to_string() },
    };
    let jobs = scheduler.update_task_status(&vec![report.clone()]).unwrap();
    assert_eq!(jobs.len(), 1);
    assert_eq!(jobs[0], "j1");
    assert_eq!(
        scheduler.state.get_executor_data(&"abc".to_string()).unwrap().available_task_slots,
        2
    );
    // replaying the same report must not credit the slot again
    scheduler.update_task_status(&vec![report]).unwrap();
    assert_eq!(
        scheduler.state.get_executor_data(&"abc".to_string()).unwrap().available_task_slots,
        2
    );
}

#[test]
fn slot_invariant_holds_across_lifecycle() {
    // available + running == total, after registration, assignment and
    // completion alike.
    let mut scheduler = SchedulerServer::new(0);
    let job = "j1".to_string();
    scheduler.state.save_job_metadata(&job, JobStatus::Running);
    scheduler.state.save_stage_plan(
        &job,
        0,
        Partitioning::Hash { partition_count: 2 },
        PlanNode::Leaf { name: "scan".to_string(), partition_count: 2 },
    );
    for partition_id in 0..2 {
        scheduler.state.save_task_status(&TaskStatus {
            task_id: PartitionId { job_id: job.clone(), stage_id: 0, partition_id },
            status: TaskState::Pending,
        });
    }
    let check = |scheduler: &SchedulerServer| {
        let data = scheduler.state.get_executor_data(&"abc".to_string()).unwrap();
        let running = scheduler
            .state
            .get_all_tasks()
            .iter()
            .filter(|t| matches!(&t.status, TaskState::Running { executor_id, .. } if executor_id == "abc"))
            .count() as u32;
        assert_eq!(data.available_task_slots + running, data.total_task_slots);
    };
    let mut scheduler = scheduler;
    scheduler
        .poll_work(Some(executor_meta("abc", 2)), false, &vec![], 0)
        .unwrap();
    check(&scheduler);
    let td = scheduler
        .poll_work(Some(executor_meta("abc", 2)), true, &vec![], 0)
        .unwrap()
        .unwrap();
    check(&scheduler);
    let done = TaskStatus {
        task_id: td.task_id.clone(),
        status: TaskState::Completed { executor_id: "abc".to_string() },
    };
    scheduler
        .poll_work(Some(executor_meta("abc", 2)), false, &vec![done], 0)
        .unwrap();
    check(&scheduler);
}

#[test]
fn planner_splits_at_repartition() {
    let mut planner = DistributedPlanner::new();
    let stages = planner
        .plan_query_stages(&"job".to_string(), two_stage_plan())
        .expect("plannable");
    assert_eq!(stages.len(), 2);
    assert_eq!(stages[0].stage_id, 0);
    assert_eq!(stages[1].stage_id, 1);
    assert_eq!(stages[0].partitioning, Partitioning::Hash { partition_count: 2 });
    assert_eq!(stages[1].partitioning, Partitioning::Single);
    // stage 0 runs one task per scan partition
    assert_eq!(stages[0].plan.output_partitioning().partition_count(), 2);
    // the final stage gathers to a single partition
    assert_eq!(stages[1].plan.output_partitioning().partition_count(), 1);
}

#[test]
fn planner_is_deterministic() {
    let describe = |stages: &Vec<QueryStage>| -> Vec<(u32, Partitioning, u32)> {
        stages
            .iter()
            .map(|s| (s.stage_id, s.partitioning, s.plan.output_partitioning().partition_count()))
            .collect()
    };
    let mut planner = DistributedPlanner::new();
    let first = planner.plan_query_stages(&"job".to_string(), two_stage_plan()).unwrap();
    let second = planner.plan_query_stages(&"job".to_string(), two_stage_plan()).unwrap();
    assert_eq!(describe(&first), describe(&second));
}

#[test]
fn planner_rejects_unsupported_operator() {
    let mut planner = DistributedPlanner::new();
    let plan = PlanNode::Unary {
        name: "projection".to_string(),
        child: Box::new(PlanNode::Unsupported { name: "window_exec".to_string() }),
    };
    let err = planner.plan_query_stages(&"job".to_string(), plan).unwrap_err();
    assert_eq!(err, "window_exec");
}

#[test]
fn plan_job_persists_stages_and_marks_running() {
    let mut scheduler = SchedulerServer::new_with_policy(TaskSchedulingPolicy::PushStaged, 0);
    let job = "j1".to_string();
    scheduler.state.save_job_metadata(&job, JobStatus::Queued);
    scheduler.plan_job(&job, two_stage_plan()).expect("plannable");
    assert!(matches!(scheduler.get_job_status(&job).unwrap(), JobStatus::Running));
    // stage 0 has two partitions, stage 1 one: three pending tasks
    assert_eq!(scheduler.state.get_all_tasks().len(), 3);
}

#[test]
fn plan_job_failure_keeps_operator_name() {
    let mut scheduler = SchedulerServer::new(0);
    let job = "j1".to_string();
    scheduler.state.save_job_metadata(&job, JobStatus::Queued);
    let plan = PlanNode::Unsupported { name: "window_exec".to_string() };
    assert!(scheduler.plan_job(&job, plan).is_err());
    match scheduler.get_job_status(&job).unwrap() {
        JobStatus::Failed { error } => assert!(error.contains("window_exec")),
        other => panic!("expected failed, got {:?}", other),
    }
}

#[test]
fn get_job_status_unknown_is_not_found() {
    let scheduler = SchedulerServer::new(0);
    let err = scheduler.get_job_status(&"nope".to_string()).unwrap_err();
    assert!(matches!(err, SchedulerError::NotFound { .. }));
}

#[test]
fn submit_job_yields_seven_char_alphanumeric_id() {
    let mut scheduler = SchedulerServer::new(0);
    let job_id = scheduler.submit_job().expect("fresh id available");
    assert_eq!(job_id.chars().count(), 7);
    assert!(job_id.chars().all(|c| c.is_ascii_alphanumeric()));
    assert!(matches!(scheduler.get_job_status(&job_id).unwrap(), JobStatus::Queued));
}

#[test]
fn terminal_report_for_unknown_task_is_persisted() {
    // Both report paths persist terminal statuses even when the record
    // is new to the store.
    let mut scheduler = SchedulerServer::new(0);
    let report = TaskStatus {
        task_id: PartitionId { job_id: "j1".to_string(), stage_id: 0, partition_id: 0 },
        status: TaskState::Completed { executor_id: "abc".to_string() },
    };
    scheduler.update_task_status(&vec![report]).unwrap();
    assert_eq!(scheduler.state.get_all_tasks().len(), 1);
    assert!(matches!(
        scheduler.state.get_all_tasks()[0].status,
        TaskState::Completed { .. }
    ));
    // a running echo, by contrast, is dropped: it carries no slot debit
    let echo = TaskStatus {
        task_id: PartitionId { job_id: "j1".to_string(), stage_id: 0, partition_id: 1 },
        status: TaskState::Running { executor_id: "abc".to_string(), start_ts: 5 },
    };
    scheduler.update_task_status(&vec![echo]).unwrap();
    assert_eq!(scheduler.state.get_all_tasks().len(), 1);
}

#[test]
fn plan_job_checked_refuses_stale_job() {
    let mut scheduler = SchedulerServer::new(0);
    let job = "j1".to_string();
    scheduler.state.save_job_metadata(&job, JobStatus::Queued);
    scheduler.plan_job_checked(&job, two_stage_plan()).expect("fresh job plans");
    // planning the same job again finds its records and refuses
    let err = scheduler.plan_job_checked(&job, two_stage_plan()).unwrap_err();
    assert!(matches!(err, SchedulerError::InvalidArgument { .. }));
}

#[test]
fn round_robin_spreads_tasks_over_executors() {
    let mut scheduler = SchedulerServer::new_with_policy(TaskSchedulingPolicy::PushStaged, 0);
    scheduler.register_executor(Some(executor_meta("e1", 2))).unwrap();
    scheduler.register_executor(Some(executor_meta("e2", 2))).unwrap();
    let job = "j1".to_string();
    scheduler.state.save_job_metadata(&job, JobStatus::Running);
    scheduler.state.save_stage_plan(
        &job,
        0,
        Partitioning::Hash { partition_count: 2 },
        PlanNode::Leaf { name: "scan".to_string(), partition_count: 2 },
    );
    for partition_id in 0..2 {
        scheduler.state.save_task_status(&TaskStatus {
            task_id: PartitionId { job_id: job.clone(), stage_id: 0, partition_id },
            status: TaskState::Pending,
        });
    }
    let mut snapshot = vec![
        ExecutorData {
            executor_id: "e1".to_string(),
            total_task_slots: 2,
            available_task_slots: 2,
        },
        ExecutorData {
            executor_id: "e2".to_string(),
            total_task_slots: 2,
            available_task_slots: 2,
        },
    ];
    let (batches, num_tasks) = scheduler.fetch_tasks(&mut snapshot, &job, 5).unwrap();
    assert_eq!(num_tasks, 2);
    // with two ready tasks and two free executors, each got exactly one
    assert_eq!(batches[0].len(), 1);
    assert_eq!(batches[1].len(), 1);
}

#[test]
fn dispatch_backs_off_without_executors() {
    let mut scheduler = SchedulerServer::new_with_policy(TaskSchedulingPolicy::PushStaged, 0);
    let decision = scheduler.plan_dispatch(&"j1".to_string(), 100, 60).unwrap();
    assert!(matches!(decision, DispatchDecision::Backoff));
}

#[test]
fn dispatch_launches_on_live_executor() {
    let mut scheduler = SchedulerServer::new_with_policy(TaskSchedulingPolicy::PushStaged, 0);
    scheduler.register_executor(Some(executor_meta("e1", 2))).unwrap();
    scheduler
        .heart_beat_from_executor("e1".to_string(), None, 100)
        .unwrap();
    let job = "j1".to_string();
    scheduler.state.save_job_metadata(&job, JobStatus::Running);
    scheduler.state.save_stage_plan(
        &job,
        0,
        Partitioning::Single,
        PlanNode::Leaf { name: "scan".to_string(), partition_count: 1 },
    );
    scheduler.state.save_task_status(&TaskStatus {
        task_id: PartitionId { job_id: job.clone(), stage_id: 0, partition_id: 0 },
        status: TaskState::Pending,
    });
    match scheduler.plan_dispatch(&job, 110, 60).unwrap() {
        DispatchDecision::Launch(launches) => {
            assert_eq!(launches.len(), 1);
            assert_eq!(launches[0].0, "e1");
            assert_eq!(launches[0].1.len(), 1);
        }
        DispatchDecision::Backoff => panic!("executor is live; expected a launch"),
    }
}

#[test]
fn stale_heartbeats_are_filtered_and_sorted() {
    let mut scheduler = SchedulerServer::new_with_policy(TaskSchedulingPolicy::PushStaged, 0);
    scheduler.register_executor(Some(executor_meta("slow", 1))).unwrap();
    scheduler.register_executor(Some(executor_meta("fast", 4))).unwrap();
    scheduler.register_executor(Some(executor_meta("dead", 8))).unwrap();
    scheduler.heart_beat_from_executor("slow".to_string(), None, 100).unwrap();
    scheduler.heart_beat_from_executor("fast".to_string(), Some("ready".to_string()), 100).unwrap();
    scheduler.heart_beat_from_executor("dead".to_string(), None, 10).unwrap();
    let available = scheduler.state.get_available_executors_data(110, 30);
    let ids: Vec<&str> = available.iter().map(|d| d.executor_id.as_str()).collect();
    assert_eq!(ids, vec!["fast", "slow"]);
}

#[test]
fn autoscaler_gauge_follows_active_tasks() {
    let mut scheduler = SchedulerServer::new(0);
    assert!(!scheduler.is_active());
    let task_id = PartitionId { job_id: "j1".to_string(), stage_id: 0, partition_id: 0 };
    scheduler.state.save_task_status(&TaskStatus {
        task_id: task_id.clone(),
        status: TaskState::Pending,
    });
    assert!(scheduler.is_active());
    assert_eq!(scheduler.get_metric_spec().metric_name, "inflight_tasks");
    assert_eq!(scheduler.get_metric_spec().target_size, 1);
    assert_eq!(scheduler.get_metrics().metric_value, 10000000);
    scheduler.state.save_task_status(&TaskStatus {
        task_id,
        status: TaskState::Failed { error: "boom".to_string() },
    });
    assert!(!scheduler.is_active());
}

#[test]
fn terminal_task_states_never_regress() {
    let mut scheduler = SchedulerServer::new(0);
    let task_id = PartitionId { job_id: "j1".to_string(), stage_id: 0, partition_id: 0 };
    scheduler.state.save_task_status(&TaskStatus {
        task_id: task_id.clone(),
        status: TaskState::Completed { executor_id: "abc".to_string() },
    });
    // a stale pending or running report must not rewind the record
    scheduler.state.save_task_status(&TaskStatus {
        task_id: task_id.clone(),
        status: TaskState::Pending,
    });
    scheduler.state.save_task_status(&TaskStatus {
        task_id,
        status: TaskState::Running { executor_id: "abc".to_string(), start_ts: 5 },
    });
    assert!(matches!(
        scheduler.state.get_all_tasks()[0].status,
        TaskState::Completed { .. }
    ));
}

#[test]
fn config_backend_parses_ignoring_case() {
    assert!(matches!(ConfigBackend::parse("etcd"), Ok(ConfigBackend::Etcd)));
    assert!(matches!(ConfigBackend::parse("ETCD"), Ok(ConfigBackend::Etcd)));
    assert!(matches!(
        ConfigBackend::parse("Standalone"),
        Ok(ConfigBackend::Standalone)
    ));
    assert!(ConfigBackend::parse("postgres").is_err());
}

#[test]
fn job_status_settles_from_tasks() {
    let mut scheduler = SchedulerServer::new(0);
    let job = "j1".to_string();
    scheduler.state.save_job_metadata(&job, JobStatus::Running);
    for partition_id in 0..2 {
        scheduler.state.save_task_status(&TaskStatus {
            task_id: PartitionId { job_id: job.clone(), stage_id: 0, partition_id },
            status: TaskState::Running { executor_id: "abc".to_string(), start_ts: 5 },
        });
    }
    // still running: nothing settles
    scheduler.refresh_job_status(&job);
    assert!(matches!(scheduler.get_job_status(&job).unwrap(), JobStatus::Running));
    // one task completes: the job is not complete yet
    scheduler.state.save_task_status(&TaskStatus {
        task_id: PartitionId { job_id: job.clone(), stage_id: 0, partition_id: 0 },
        status: TaskState::Completed { executor_id: "abc".to_string() },
    });
    scheduler.refresh_job_status(&job);
    assert!(matches!(scheduler.get_job_status(&job).unwrap(), JobStatus::Running));
    // the other completes: the job is complete
    scheduler.state.save_task_status(&TaskStatus {
        task_id: PartitionId { job_id: job.clone(), stage_id: 0, partition_id: 1 },
        status: TaskState::Completed { executor_id: "abc".to_string() },
    });
    scheduler.refresh_job_status(&job);
    assert!(matches!(scheduler.get_job_status(&job).unwrap(), JobStatus::Completed));
}

#[test]
fn job_fails_when_a_task_fails() {
    let mut scheduler = SchedulerServer::new(0);
    let job = "j1".to_string();
    scheduler.state.save_job_metadata(&job, JobStatus::Running);
    scheduler.state.save_task_status(&TaskStatus {
        task_id: PartitionId { job_id: job.clone(), stage_id: 0, partition_id: 0 },
        status: TaskState::Failed { error: "task exploded".to_string() },
    });
    scheduler.refresh_job_status(&job);
    match scheduler.get_job_status(&job).unwrap() {
        JobStatus::Failed { error } => assert_eq!(error, "task exploded"),
        other => panic!("expected failed, got {:?}", other),
    }
}
