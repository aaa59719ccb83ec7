use ballista_scheduler::codec::{decode_task_status, encode_task_status};
use ballista_scheduler::domain::{PartitionId, TaskState, TaskStatus};
use ballista_scheduler::store::{KvStore, StoreKey};

fn task_key(job_id: &str, stage_id: u32, partition_id: u32) -> StoreKey {
    StoreKey::Task { job_id: job_id.to_string(), stage_id, partition_id }
}

#[test]
fn get_returns_latest_write() {
    let mut store = KvStore::new();
    let key = StoreKey::Job { job_id: "j1".to_string() };
    assert!(store.get(&key).is_none());
    store.put(StoreKey::Job { job_id: "j1".to_string() }, vec![1, 2, 3]);
    assert_eq!(store.get(&key).unwrap(), &vec![1, 2, 3]);
    store.put(StoreKey::Job { job_id: "j1".to_string() }, vec![9]);
    assert_eq!(store.get(&key).unwrap(), &vec![9]);
    // one record per key, however many writes
    assert_eq!(store.entries.len(), 1);
}

#[test]
fn keys_of_different_kinds_do_not_collide() {
    let mut store = KvStore::new();
    store.put(StoreKey::Executor { executor_id: "abc".to_string() }, vec![1]);
    store.put(StoreKey::Heartbeat { executor_id: "abc".to_string() }, vec![2]);
    store.put(StoreKey::Slots { executor_id: "abc".to_string() }, vec![3]);
    assert_eq!(
        store.get(&StoreKey::Executor { executor_id: "abc".to_string() }).unwrap(),
        &vec![1]
    );
    assert_eq!(
        store.get(&StoreKey::Heartbeat { executor_id: "abc".to_string() }).unwrap(),
        &vec![2]
    );
    assert_eq!(
        store.get(&StoreKey::Slots { executor_id: "abc".to_string() }).unwrap(),
        &vec![3]
    );
}

#[test]
fn scan_tasks_returns_task_values_in_order() {
    let mut store = KvStore::new();
    store.put(StoreKey::Job { job_id: "j1".to_string() }, vec![0]);
    store.put(task_key("j1", 0, 0), vec![10]);
    store.put(StoreKey::Slots { executor_id: "abc".to_string() }, vec![1]);
    store.put(task_key("j1", 0, 1), vec![11]);
    let tasks = store.scan_tasks();
    assert_eq!(tasks.len(), 2);
    assert_eq!(tasks[0], &vec![10]);
    assert_eq!(tasks[1], &vec![11]);
}

#[test]
fn persisted_task_record_decodes_back() {
    let task = TaskStatus {
        task_id: PartitionId { job_id: "j1".to_string(), stage_id: 0, partition_id: 0 },
        status: TaskState::Running { executor_id: "abc".to_string(), start_ts: 5 },
    };
    let mut store = KvStore::new();
    store.put(task_key("j1", 0, 0), encode_task_status(&task));
    let bytes = store.get(&task_key("j1", 0, 0)).unwrap();
    let back = decode_task_status(bytes).expect("decodes");
    assert_eq!(back.task_id.job_id, "j1");
    assert!(matches!(back.status, TaskState::Running { .. }));
}
