use ballista_scheduler::codec::{
    decode_executor_data, decode_executor_heartbeat, decode_executor_metadata, decode_job_status,
    decode_task_status, encode_executor_data, encode_executor_heartbeat, encode_executor_metadata,
    encode_job_status, encode_task_status,
};
use ballista_scheduler::domain::{
    ExecutorData, ExecutorHeartbeat, ExecutorMetadata, ExecutorSpecification, JobStatus,
    PartitionId, TaskState, TaskStatus,
};

#[test]
fn executor_metadata_round_trip() {
    let meta = ExecutorMetadata {
        id: "exec-1".to_string(),
        host: "10.0.0.7".to_string(),
        port: 50051,
        grpc_port: 50052,
        specification: ExecutorSpecification { task_slots: 4 },
    };
    let bytes = encode_executor_metadata(&meta);
    let back = decode_executor_metadata(&bytes).expect("decodes");
    assert_eq!(back.id, meta.id);
    assert_eq!(back.host, meta.host);
    assert_eq!(back.port, meta.port);
    assert_eq!(back.grpc_port, meta.grpc_port);
    assert_eq!(back.specification.task_slots, 4);
}

#[test]
fn executor_metadata_round_trip_non_ascii_host() {
    let meta = ExecutorMetadata {
        id: "exec-\u{00e9}".to_string(),
        host: "h\u{00f8}st".to_string(),
        port: 1,
        grpc_port: 2,
        specification: ExecutorSpecification { task_slots: 1 },
    };
    let bytes = encode_executor_metadata(&meta);
    let back = decode_executor_metadata(&bytes).expect("decodes");
    assert_eq!(back.id, meta.id);
    assert_eq!(back.host, meta.host);
}

#[test]
fn executor_data_round_trip() {
    let data = ExecutorData {
        executor_id: "abc".to_string(),
        total_task_slots: 8,
        available_task_slots: 3,
    };
    let bytes = encode_executor_data(&data);
    let back = decode_executor_data(&bytes).expect("decodes");
    assert_eq!(back.executor_id, "abc");
    assert_eq!(back.total_task_slots, 8);
    assert_eq!(back.available_task_slots, 3);
}

#[test]
fn executor_heartbeat_round_trip() {
    let hb = ExecutorHeartbeat {
        executor_id: "abc".to_string(),
        timestamp: 1_700_000_000,
        state: None,
    };
    let bytes = encode_executor_heartbeat(&hb);
    let back = decode_executor_heartbeat(&bytes).expect("decodes");
    assert_eq!(back.executor_id, "abc");
    assert_eq!(back.timestamp, 1_700_000_000);
    assert!(back.state.is_none());
    let hb = ExecutorHeartbeat {
        executor_id: "abc".to_string(),
        timestamp: 1_700_000_001,
        state: Some("busy".to_string()),
    };
    let bytes = encode_executor_heartbeat(&hb);
    let back = decode_executor_heartbeat(&bytes).expect("decodes");
    assert_eq!(back.state.as_deref(), Some("busy"));
}

#[test]
fn job_status_round_trip_all_variants() {
    for status in [
        JobStatus::Queued,
        JobStatus::Running,
        JobStatus::Completed,
        JobStatus::Failed { error: "planner exploded".to_string() },
    ] {
        let bytes = encode_job_status(&status);
        let back = decode_job_status(&bytes).expect("decodes");
        match (&status, &back) {
            (JobStatus::Queued, JobStatus::Queued) => {}
            (JobStatus::Running, JobStatus::Running) => {}
            (JobStatus::Completed, JobStatus::Completed) => {}
            (JobStatus::Failed { error: a }, JobStatus::Failed { error: b }) => {
                assert_eq!(a, b)
            }
            (a, b) => panic!("mismatch: {:?} vs {:?}", a, b),
        }
    }
}

#[test]
fn task_status_round_trip_all_states() {
    for status in [
        TaskState::Pending,
        TaskState::Running { executor_id: "abc".to_string(), start_ts: 5 },
        TaskState::Completed { executor_id: "abc".to_string() },
        TaskState::Failed { error: "oom".to_string() },
    ] {
        let task = TaskStatus {
            task_id: PartitionId { job_id: "j1".to_string(), stage_id: 3, partition_id: 9 },
            status,
        };
        let bytes = encode_task_status(&task);
        let back = decode_task_status(&bytes).expect("decodes");
        assert_eq!(back.task_id.job_id, "j1");
        assert_eq!(back.task_id.stage_id, 3);
        assert_eq!(back.task_id.partition_id, 9);
        match (&task.status, &back.status) {
            (TaskState::Pending, TaskState::Pending) => {}
            (
                TaskState::Running { executor_id: a, start_ts: ta },
                TaskState::Running { executor_id: b, start_ts: tb },
            ) => {
                assert_eq!(a, b);
                assert_eq!(ta, tb);
            }
            (
                TaskState::Completed { executor_id: a },
                TaskState::Completed { executor_id: b },
            ) => assert_eq!(a, b),
            (TaskState::Failed { error: a }, TaskState::Failed { error: b }) => {
                assert_eq!(a, b)
            }
            (a, b) => panic!("mismatch: {:?} vs {:?}", a, b),
        }
    }
}

#[test]
fn truncated_records_are_rejected() {
    let data = ExecutorData {
        executor_id: "abc".to_string(),
        total_task_slots: 8,
        available_task_slots: 3,
    };
    let mut bytes = encode_executor_data(&data);
    bytes.pop();
    assert!(decode_executor_data(&bytes).is_none());
    assert!(decode_job_status(&vec![9u8]).is_none());
    assert!(decode_task_status(&vec![]).is_none());
}

#[test]
fn trailing_bytes_are_rejected() {
    let hb = ExecutorHeartbeat { executor_id: "abc".to_string(), timestamp: 7, state: None };
    let mut bytes = encode_executor_heartbeat(&hb);
    bytes.push(0);
    assert!(decode_executor_heartbeat(&bytes).is_none());
}
