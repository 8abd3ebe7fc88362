use scheduler_core::config::SessionConfig;
use scheduler_core::errors::SchedulerError;
use scheduler_core::executor_manager::{ExecutorData, ExecutorManager, ExecutorMetadata};
use scheduler_core::scheduler_state::SchedulerState;
use scheduler_core::execution_graph::StagePlan;
use scheduler_core::table_factory::DeltaTableFactory;

fn metadata(id: &str, slots: usize) -> ExecutorMetadata {
    ExecutorMetadata {
        id: id.to_string(),
        host: format!("{}.example", id),
        port: 8080,
        grpc_port: 9090,
        task_slots: slots,
    }
}

fn data(id: &str, slots: usize) -> ExecutorData {
    ExecutorData {
        executor_id: id.to_string(),
        total_task_slots: slots,
        available_task_slots: slots,
    }
}

#[test]
fn test_register_and_lookup() {
    let mut manager = ExecutorManager::new(60_000);
    let tokens = manager
        .register_executor(metadata("executor-1", 2), data("executor-1", 2), false, 0)
        .unwrap();
    assert!(tokens.is_empty());
    let found = manager.get_executor_metadata(&"executor-1".to_string()).unwrap();
    assert_eq!(found.host, "executor-1.example");
    assert_eq!(found.task_slots, 2);
    assert_eq!(
        manager.get_executor_metadata(&"executor-9".to_string()),
        Err(SchedulerError::ExecutorUnknown),
    );
}

#[test]
fn test_register_twice_is_rejected() {
    let mut manager = ExecutorManager::new(60_000);
    manager
        .register_executor(metadata("executor-1", 2), data("executor-1", 2), false, 0)
        .unwrap();
    assert_eq!(
        manager.register_executor(metadata("executor-1", 2), data("executor-1", 2), false, 0),
        Err(SchedulerError::ExecutorAlreadyRegistered),
    );
}

#[test]
fn test_register_mismatched_data_is_rejected() {
    let mut manager = ExecutorManager::new(60_000);
    assert_eq!(
        manager.register_executor(metadata("executor-1", 2), data("executor-2", 2), false, 0),
        Err(SchedulerError::InvalidRegistration),
    );
    assert_eq!(
        manager.register_executor(metadata("executor-1", 2), data("executor-1", 3), false, 0),
        Err(SchedulerError::InvalidRegistration),
    );
}

#[test]
fn test_reserve_round_robin() {
    let mut manager = ExecutorManager::new(60_000);
    manager
        .register_executor(metadata("executor-1", 3), data("executor-1", 3), false, 0)
        .unwrap();
    manager
        .register_executor(metadata("executor-2", 3), data("executor-2", 3), false, 0)
        .unwrap();
    let tokens = manager.reserve_slots(3);
    assert_eq!(tokens.len(), 3);
    // one pass takes one slot from each executor before coming back
    assert_eq!(tokens[0].executor_id, "executor-1");
    assert_eq!(tokens[1].executor_id, "executor-2");
    assert_eq!(tokens[2].executor_id, "executor-1");
}

#[test]
fn test_cancel_tolerates_unknown_executor() {
    let mut manager = ExecutorManager::new(60_000);
    manager
        .register_executor(metadata("executor-1", 1), data("executor-1", 1), false, 0)
        .unwrap();
    let mut tokens = manager.reserve_slots(1);
    // a token for an executor that was never registered is dropped silently
    tokens.push(scheduler_core::executor_manager::ExecutorReservation {
        executor_id: "executor-gone".to_string(),
        slot: 0,
    });
    manager.cancel_reservations(tokens);
    assert_eq!(manager.reserve_slots(1).len(), 1);
}

#[test]
fn test_heartbeat_and_expiry() {
    let mut manager = ExecutorManager::new(1_000);
    manager
        .register_executor(metadata("executor-1", 1), data("executor-1", 1), false, 500)
        .unwrap();
    let id = "executor-1".to_string();
    assert_eq!(manager.is_expired(&id, 1_200), Ok(false));
    assert_eq!(manager.is_expired(&id, 2_000), Ok(true));
    manager.heartbeat(&id, 1_800).unwrap();
    assert_eq!(manager.is_expired(&id, 2_000), Ok(false));
    assert_eq!(
        manager.heartbeat(&"executor-9".to_string(), 1_800),
        Err(SchedulerError::ExecutorUnknown),
    );
}

#[test]
fn test_deregister_executor() {
    let mut manager = ExecutorManager::new(60_000);
    manager
        .register_executor(metadata("executor-1", 2), data("executor-1", 2), false, 0)
        .unwrap();
    manager.deregister_executor(&"executor-1".to_string()).unwrap();
    assert_eq!(
        manager.get_executor_metadata(&"executor-1".to_string()),
        Err(SchedulerError::ExecutorUnknown),
    );
    assert_eq!(manager.reserve_slots(2).len(), 0);
    assert_eq!(
        manager.deregister_executor(&"executor-1".to_string()),
        Err(SchedulerError::ExecutorUnknown),
    );
}

#[test]
fn test_session_lifecycle() {
    let mut state = SchedulerState::new("scheduler-a:50050".to_string(), 60_000, 4);
    let mut config = SessionConfig::new();
    config.set("ballista.shuffle.partitions".to_string(), "4".to_string());
    config.set("ballista.with_information_schema".to_string(), "true".to_string());
    let session_id = state.create_session(config);
    assert_eq!(session_id, 0);

    let stored = state.get_session(session_id).unwrap();
    let key = "ballista.with_information_schema".to_string();
    assert_eq!(stored.get(&key), Some(&"true".to_string()));

    let mut replacement = SessionConfig::new();
    replacement.set("ballista.shuffle.partitions".to_string(), "8".to_string());
    state.update_session(session_id, replacement).unwrap();
    let stored = state.get_session(session_id).unwrap();
    let key = "ballista.shuffle.partitions".to_string();
    assert_eq!(stored.get(&key), Some(&"8".to_string()));
    assert_eq!(
        state.get_session(7).err(),
        Some(SchedulerError::SessionUnknown),
    );
}

#[test]
fn test_config_first_value_wins() {
    let mut config = SessionConfig::new();
    config.set("a".to_string(), "1".to_string());
    config.set("a".to_string(), "2".to_string());
    assert_eq!(config.get(&"a".to_string()), Some(&"1".to_string()));
    assert_eq!(config.get(&"b".to_string()), None);
}

#[test]
fn test_submit_errors() {
    let mut state = SchedulerState::new("scheduler-a:50050".to_string(), 60_000, 4);
    let plan = vec![StagePlan { partitions: 1, inputs: vec![] }];

    // sessions must exist before a job can bind to them
    assert_eq!(
        state.submit_job("job-1".to_string(), 0, &plan).err(),
        Some(SchedulerError::SessionUnknown),
    );
    let session_id = state.create_session(SessionConfig::new());

    // a stage may only read earlier stages
    let bad = vec![StagePlan { partitions: 1, inputs: vec![0] }];
    assert_eq!(
        state.submit_job("job-1".to_string(), session_id, &bad).err(),
        Some(SchedulerError::InvalidJobPlan),
    );

    state.submit_job("job-1".to_string(), session_id, &plan).unwrap();
    assert_eq!(
        state.submit_job("job-1".to_string(), session_id, &plan).err(),
        Some(SchedulerError::JobAlreadyExists),
    );
}

#[test]
fn test_update_statuses_unknown_executor() {
    let mut state = SchedulerState::new("scheduler-a:50050".to_string(), 60_000, 4);
    assert_eq!(
        state
            .update_task_statuses(&"executor-1".to_string(), &vec![])
            .err(),
        Some(SchedulerError::ExecutorUnknown),
    );
}

#[test]
fn test_register_table_factory() {
    let factory = DeltaTableFactory::new();
    assert_eq!(factory.table_type(), "DELTATABLE");
}

#[test]
fn test_shuffle_partitions_parsing() {
    let mut config = SessionConfig::new();
    assert_eq!(config.shuffle_partitions(16), 16);
    config.set("ballista.shuffle.partitions".to_string(), "4".to_string());
    assert_eq!(config.shuffle_partitions(16), 4);

    let mut bad = SessionConfig::new();
    bad.set("ballista.shuffle.partitions".to_string(), "four".to_string());
    assert_eq!(bad.shuffle_partitions(16), 16);

    let mut big = SessionConfig::new();
    big.set(
        "ballista.shuffle.partitions".to_string(),
        "99999999999999999999999999".to_string(),
    );
    assert_eq!(big.shuffle_partitions(16), 16);

    assert_eq!(scheduler_core::config::parse_usize("1024"), Some(1024));
    assert_eq!(scheduler_core::config::parse_usize(""), None);
    assert_eq!(scheduler_core::config::parse_usize("12a"), None);
}
