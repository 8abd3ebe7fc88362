use scheduler_core::config::SessionConfig;
use scheduler_core::events::SchedulerEvent;
use scheduler_core::execution_graph::{StagePlan, StatusUpdate, TaskStatus};
use scheduler_core::executor_manager::{ExecutorData, ExecutorMetadata, ExecutorReservation};
use scheduler_core::scheduler_state::SchedulerState;

fn test_executors(total_executors: usize, slots_per_executor: usize) -> Vec<(ExecutorMetadata, ExecutorData)> {
    let mut result: Vec<(ExecutorMetadata, ExecutorData)> = vec![];
    for i in 0..total_executors {
        result.push((
            ExecutorMetadata {
                id: format!("executor-{}", i + 1),
                host: format!("host-{}", i + 1),
                port: 8080,
                grpc_port: 9090,
                task_slots: slots_per_executor,
            },
            ExecutorData {
                executor_id: format!("executor-{}", i + 1),
                total_task_slots: slots_per_executor,
                available_task_slots: slots_per_executor,
            },
        ));
    }
    result
}

fn fresh_state() -> SchedulerState {
    SchedulerState::new_with_default_scheduler_name(60_000, 4)
}

/// A two-stage plan shaped like an aggregation: one leaf partition feeding
/// a shuffle stage with the configured partition count.
fn test_graph(shuffle_partitions: usize) -> Vec<StagePlan> {
    vec![
        StagePlan { partitions: 1, inputs: vec![] },
        StagePlan { partitions: shuffle_partitions, inputs: vec![0] },
    ]
}

fn session_with_four_partitions(state: &mut SchedulerState) -> u64 {
    let mut config = SessionConfig::new();
    config.set(
        "ballista.shuffle.partitions".to_string(),
        "4".to_string(),
    );
    state.create_session(config)
}

fn completed(job_id: &str, stage_id: usize, partition_id: usize) -> TaskStatus {
    TaskStatus {
        job_id: job_id.to_string(),
        stage_id,
        partition_id,
        status: StatusUpdate::Completed,
    }
}

fn failed(job_id: &str, stage_id: usize, partition_id: usize, retriable: bool) -> TaskStatus {
    TaskStatus {
        job_id: job_id.to_string(),
        stage_id,
        partition_id,
        status: StatusUpdate::Failed { reason: "simulated failure".to_string(), retriable },
    }
}

// We should free any reservations which are not assigned.
#[test]
fn test_offer_free_reservations() {
    let mut state = fresh_state();
    let (executor_metadata, executor_data) = test_executors(1, 4)[0].clone();
    let reservations = state
        .register_executor(executor_metadata, executor_data, true, 0)
        .unwrap();
    assert_eq!(reservations.len(), 4);

    let (assignments, new_reservations) = state.offer_reservation(reservations);
    assert!(assignments.is_empty());
    assert!(new_reservations.is_empty());

    // all reservations were cancelled, so we can reserve them again
    let reservations = state.reserve_slots(4);
    assert_eq!(reservations.len(), 4);
}

// We should fill unbound reservations with any available task.
#[test]
fn test_offer_fill_reservations() {
    let mut state = fresh_state();
    let session_id = session_with_four_partitions(&mut state);

    // four jobs, each with one pending leaf task
    for job in ["job-1", "job-2", "job-3", "job-4"] {
        state
            .submit_job(job.to_string(), session_id, &test_graph(4))
            .unwrap();
    }

    let (executor_metadata, executor_data) = test_executors(1, 4)[0].clone();
    let reservations = state
        .register_executor(executor_metadata, executor_data, true, 0)
        .unwrap();

    let (assignments, new_reservations) = state.offer_reservation(reservations);
    assert_eq!(assignments.len(), 4);
    assert!(new_reservations.is_empty());

    // all task slots are bound, so nothing can be reserved
    let reservations = state.reserve_slots(4);
    assert_eq!(reservations.len(), 0);
}

// Pending tasks that found no slot should trigger a new reservation round.
#[test]
fn test_offer_resubmit_pending() {
    let mut state = fresh_state();
    let session_id = session_with_four_partitions(&mut state);

    state
        .submit_job("job-1".to_string(), session_id, &test_graph(4))
        .unwrap();

    let (executor_metadata, executor_data) = test_executors(1, 4)[0].clone();
    state
        .register_executor(executor_metadata, executor_data, false, 0)
        .unwrap();

    // complete the leaf stage out of band: its four-partition consumer
    // becomes pending
    state
        .update_task_statuses(&"executor-1".to_string(), &vec![completed("job-1", 0, 0)])
        .unwrap();

    let reservations = state.reserve_slots(1);
    assert_eq!(reservations.len(), 1);

    // one of the four pending tasks fills the offer; the other three get
    // fresh reservations so the loop can re-enter
    let (assignments, new_reservations) = state.offer_reservation(reservations);
    assert_eq!(assignments.len(), 1);
    assert_eq!(new_reservations.len(), 3);

    let reservations = state.reserve_slots(4);
    assert_eq!(reservations.len(), 0);
}

// offer_reservation with no reservations is a no-op.
#[test]
fn test_offer_nothing() {
    let mut state = fresh_state();
    let session_id = session_with_four_partitions(&mut state);
    state
        .submit_job("job-1".to_string(), session_id, &test_graph(4))
        .unwrap();
    let (executor_metadata, executor_data) = test_executors(1, 4)[0].clone();
    state
        .register_executor(executor_metadata, executor_data, false, 0)
        .unwrap();

    let (assignments, new_reservations) = state.offer_reservation(vec![]);
    assert!(assignments.is_empty());
    assert!(new_reservations.is_empty());
    // no side effects: the pool is untouched
    assert_eq!(state.reserve_slots(4).len(), 4);
}

// reserve_slots never fails; it just returns what is available.
#[test]
fn test_reserve_more_than_available() {
    let mut state = fresh_state();
    let (executor_metadata, executor_data) = test_executors(1, 4)[0].clone();
    state
        .register_executor(executor_metadata, executor_data, false, 0)
        .unwrap();
    let reservations = state.reserve_slots(10);
    assert_eq!(reservations.len(), 4);
}

// Cancelling the same reservation twice equals cancelling it once.
#[test]
fn test_cancel_idempotent() {
    let mut state = fresh_state();
    let (executor_metadata, executor_data) = test_executors(1, 4)[0].clone();
    let reservations = state
        .register_executor(executor_metadata, executor_data, true, 0)
        .unwrap();
    let token: ExecutorReservation = reservations[0].clone();
    state.cancel_reservations(vec![token.clone()]);
    state.cancel_reservations(vec![token]);
    // only one slot came back: the second cancellation was a no-op
    assert_eq!(state.reserve_slots(4).len(), 1);
}

// A job with no partitions completes on submission.
#[test]
fn test_empty_job_completes_immediately() {
    let mut state = fresh_state();
    let session_id = session_with_four_partitions(&mut state);
    let events = state
        .submit_job(
            "job-1".to_string(),
            session_id,
            &vec![StagePlan { partitions: 0, inputs: vec![] }],
        )
        .unwrap();
    assert_eq!(events.len(), 3);
    assert_eq!(events[0], SchedulerEvent::JobSubmitted { job_id: "job-1".to_string() });
    assert_eq!(events[1], SchedulerEvent::JobCompleted { job_id: "job-1".to_string() });
    assert_eq!(events[2], SchedulerEvent::ReservationsNeeded { count: 0 });
}

// A failed launch re-queues the task and returns the slot to the pool.
#[test]
fn test_retry_on_launch_failure() {
    let mut state = fresh_state();
    let session_id = session_with_four_partitions(&mut state);
    state
        .submit_job(
            "job-1".to_string(),
            session_id,
            &vec![StagePlan { partitions: 1, inputs: vec![] }],
        )
        .unwrap();
    let (executor_metadata, executor_data) = test_executors(1, 4)[0].clone();
    state
        .register_executor(executor_metadata, executor_data, false, 0)
        .unwrap();

    let reservations = state.reserve_slots(1);
    let (assignments, _) = state.offer_reservation(reservations);
    assert_eq!(assignments.len(), 1);
    let a = &assignments[0];
    assert_eq!(a.job_id, "job-1");

    let events = state.task_launch_failed(
        &a.executor_id.clone(),
        &a.job_id.clone(),
        a.stage_id,
        a.partition_id,
    );
    assert!(events.is_empty());

    // slot accounting is unchanged: all four slots are free again
    let reservations = state.reserve_slots(4);
    assert_eq!(reservations.len(), 4);

    // and the task is pending again: it can be assigned anew
    let (assignments, _) = state.offer_reservation(reservations);
    assert_eq!(assignments.len(), 1);
}

// The fifth failure of a partition (budget 4) fails the whole job.
#[test]
fn test_attempt_budget_exhaustion() {
    let mut state = fresh_state();
    let session_id = session_with_four_partitions(&mut state);
    state
        .submit_job(
            "job-1".to_string(),
            session_id,
            &vec![StagePlan { partitions: 1, inputs: vec![] }],
        )
        .unwrap();
    let (executor_metadata, executor_data) = test_executors(1, 4)[0].clone();
    let executor_id = "executor-1".to_string();
    state
        .register_executor(executor_metadata, executor_data, false, 0)
        .unwrap();

    let mut failures = 0;
    loop {
        let reservations = state.reserve_slots(1);
        assert_eq!(reservations.len(), 1);
        let (assignments, _) = state.offer_reservation(reservations);
        assert_eq!(assignments.len(), 1);
        let (events, tokens) = state
            .update_task_statuses(&executor_id, &vec![failed("job-1", 0, 0, true)])
            .unwrap();
        failures += 1;
        // the worker's slot comes back each time
        assert_eq!(tokens.len(), 1);
        state.cancel_reservations(tokens);
        if failures < 5 {
            assert!(events.is_empty());
        } else {
            assert_eq!(
                events,
                vec![SchedulerEvent::JobFailed {
                    job_id: "job-1".to_string(),
                    reason: "simulated failure".to_string(),
                }],
            );
            break;
        }
    }

    // the failed job holds no slots and schedules nothing further
    assert_eq!(state.reserve_slots(4).len(), 4);
    let reservations = state.reserve_slots(0);
    assert!(reservations.is_empty());
}

// A fatal failure cancels the job's other running tasks and reclaims
// their slots.
#[test]
fn test_fatal_failure_reclaims_running_tasks() {
    let mut state = fresh_state();
    let session_id = session_with_four_partitions(&mut state);
    state
        .submit_job(
            "job-1".to_string(),
            session_id,
            &vec![StagePlan { partitions: 3, inputs: vec![] }],
        )
        .unwrap();
    let (executor_metadata, executor_data) = test_executors(1, 4)[0].clone();
    let executor_id = "executor-1".to_string();
    let reservations = state
        .register_executor(executor_metadata, executor_data, true, 0)
        .unwrap();
    let (assignments, _) = state.offer_reservation(reservations);
    assert_eq!(assignments.len(), 3);

    let (events, tokens) = state
        .update_task_statuses(&executor_id, &vec![failed("job-1", 0, 0, false)])
        .unwrap();
    assert_eq!(
        events,
        vec![SchedulerEvent::JobFailed {
            job_id: "job-1".to_string(),
            reason: "simulated failure".to_string(),
        }],
    );
    // one slot for the failed task, one for each cancelled running task
    assert_eq!(tokens.len(), 3);
    state.cancel_reservations(tokens);
    assert_eq!(state.reserve_slots(4).len(), 4);
}

// Completing a stage unblocks its consumers; completing the terminal
// stage completes the job.
#[test]
fn test_completion_cascade() {
    let mut state = fresh_state();
    let session_id = session_with_four_partitions(&mut state);
    state
        .submit_job(
            "job-1".to_string(),
            session_id,
            &vec![
                StagePlan { partitions: 2, inputs: vec![] },
                StagePlan { partitions: 2, inputs: vec![0] },
            ],
        )
        .unwrap();
    let (executor_metadata, executor_data) = test_executors(1, 4)[0].clone();
    let executor_id = "executor-1".to_string();
    let reservations = state
        .register_executor(executor_metadata, executor_data, true, 0)
        .unwrap();

    // only the two leaf partitions are runnable
    let (assignments, new_reservations) = state.offer_reservation(reservations);
    assert_eq!(assignments.len(), 2);
    assert!(new_reservations.is_empty());

    let (events, first_token) = state
        .update_task_statuses(&executor_id, &vec![completed("job-1", 0, 0)])
        .unwrap();
    assert!(events.is_empty());
    assert_eq!(first_token.len(), 1);

    let (events, second_token) = state
        .update_task_statuses(&executor_id, &vec![completed("job-1", 0, 1)])
        .unwrap();
    assert_eq!(
        events,
        vec![SchedulerEvent::StageCompleted { job_id: "job-1".to_string(), stage: 0 }],
    );
    assert_eq!(second_token.len(), 1);

    // the consumer stage became pending: the two freed slots fill it
    let mut tokens = first_token;
    tokens.extend(second_token);
    let (assignments, _) = state.offer_reservation(tokens);
    assert_eq!(assignments.len(), 2);
    assert!(assignments.iter().all(|a| a.stage_id == 1));

    let (events, _) = state
        .update_task_statuses(&executor_id, &vec![completed("job-1", 1, 0)])
        .unwrap();
    assert!(events.is_empty());
    let (events, _) = state
        .update_task_statuses(&executor_id, &vec![completed("job-1", 1, 1)])
        .unwrap();
    assert_eq!(
        events,
        vec![
            SchedulerEvent::StageCompleted { job_id: "job-1".to_string(), stage: 1 },
            SchedulerEvent::JobCompleted { job_id: "job-1".to_string() },
        ],
    );
}

// Delivering the same completion twice is a no-op the second time.
#[test]
fn test_status_idempotent() {
    let mut state = fresh_state();
    let session_id = session_with_four_partitions(&mut state);
    state
        .submit_job("job-1".to_string(), session_id, &test_graph(4))
        .unwrap();
    let (executor_metadata, executor_data) = test_executors(1, 4)[0].clone();
    let executor_id = "executor-1".to_string();
    state
        .register_executor(executor_metadata, executor_data, false, 0)
        .unwrap();
    let reservations = state.reserve_slots(1);
    let (assignments, _) = state.offer_reservation(reservations);
    assert_eq!(assignments.len(), 1);

    let (events, tokens) = state
        .update_task_statuses(&executor_id, &vec![completed("job-1", 0, 0)])
        .unwrap();
    assert_eq!(events.len(), 1);
    assert_eq!(tokens.len(), 1);
    state.cancel_reservations(tokens);

    // the second delivery raises nothing and frees nothing
    let (events, tokens) = state
        .update_task_statuses(&executor_id, &vec![completed("job-1", 0, 0)])
        .unwrap();
    assert!(events.is_empty());
    assert!(tokens.is_empty());
    assert_eq!(state.reserve_slots(4).len(), 4);
}

// An offer is matched to a task with input data on the offering executor
// before any older pending task.
#[test]
fn test_locality_preference() {
    let mut state = fresh_state();
    let session_id = session_with_four_partitions(&mut state);

    // the older job has a plain pending leaf
    state
        .submit_job(
            "job-old".to_string(),
            session_id,
            &vec![StagePlan { partitions: 1, inputs: vec![] }],
        )
        .unwrap();
    // the newer job gets shuffle data onto executor-2
    state
        .submit_job(
            "job-new".to_string(),
            session_id,
            &vec![
                StagePlan { partitions: 1, inputs: vec![] },
                StagePlan { partitions: 1, inputs: vec![0] },
            ],
        )
        .unwrap();
    for (executor_metadata, executor_data) in test_executors(2, 1) {
        state
            .register_executor(executor_metadata, executor_data, false, 0)
            .unwrap();
    }
    // run job-new's leaf on executor-2 and complete it there
    state
        .update_task_statuses(&"executor-2".to_string(), &vec![completed("job-new", 0, 0)])
        .unwrap();

    // an offer from executor-2 prefers the local shuffle task over the
    // older job's leaf
    let reservations = state.reserve_slots(2);
    assert_eq!(reservations.len(), 2);
    let from_two: Vec<ExecutorReservation> = reservations
        .iter()
        .filter(|t| t.executor_id == "executor-2")
        .cloned()
        .collect();
    assert_eq!(from_two.len(), 1);
    let (assignments, _) = state.offer_reservation(from_two);
    assert_eq!(assignments.len(), 1);
    assert_eq!(assignments[0].job_id, "job-new");
    assert_eq!(assignments[0].stage_id, 1);
}

// Cancelling a job reclaims the slots of its running tasks.
#[test]
fn test_cancel_job() {
    let mut state = fresh_state();
    let session_id = session_with_four_partitions(&mut state);
    state
        .submit_job(
            "job-1".to_string(),
            session_id,
            &vec![StagePlan { partitions: 2, inputs: vec![] }],
        )
        .unwrap();
    let (executor_metadata, executor_data) = test_executors(1, 4)[0].clone();
    let reservations = state
        .register_executor(executor_metadata, executor_data, true, 0)
        .unwrap();
    let (assignments, _) = state.offer_reservation(reservations);
    assert_eq!(assignments.len(), 2);

    let tokens = state.cancel_job(&"job-1".to_string()).unwrap();
    assert_eq!(tokens.len(), 2);
    state.cancel_reservations(tokens);
    assert_eq!(state.reserve_slots(4).len(), 4);

    // cancelling an already-cancelled job tears down nothing further
    let tokens = state.cancel_job(&"job-1".to_string()).unwrap();
    assert!(tokens.is_empty());
    assert_eq!(
        state.cancel_job(&"job-9".to_string()).err(),
        Some(scheduler_core::errors::SchedulerError::JobUnknown),
    );
}

// A worker that stops heartbeating is removed and its work re-queued.
#[test]
fn test_expire_executor_requeues_tasks() {
    let mut state = fresh_state();
    let session_id = session_with_four_partitions(&mut state);
    state
        .submit_job(
            "job-1".to_string(),
            session_id,
            &vec![StagePlan { partitions: 1, inputs: vec![] }],
        )
        .unwrap();
    let executors = test_executors(2, 1);
    let (executor_metadata, executor_data) = executors[0].clone();
    let reservations = state
        .register_executor(executor_metadata, executor_data, true, 0)
        .unwrap();
    let (assignments, _) = state.offer_reservation(reservations);
    assert_eq!(assignments.len(), 1);
    assert_eq!(assignments[0].executor_id, "executor-1");

    // within the timeout nothing happens
    let (expired, events) = state.expire_executor(&"executor-1".to_string(), 10_000).unwrap();
    assert!(!expired);
    assert!(events.is_empty());

    // past the timeout the worker goes away and its task is pending again
    let (expired, _) = state.expire_executor(&"executor-1".to_string(), 120_000).unwrap();
    assert!(expired);
    assert_eq!(
        state.get_executor_metadata(&"executor-1".to_string()).err(),
        Some(scheduler_core::errors::SchedulerError::ExecutorUnknown),
    );
    let (executor_metadata, executor_data) = executors[1].clone();
    let reservations = state
        .register_executor(executor_metadata, executor_data, true, 0)
        .unwrap();
    let (assignments, _) = state.offer_reservation(reservations);
    assert_eq!(assignments.len(), 1);
    assert_eq!(assignments[0].executor_id, "executor-2");
}

// A heartbeat refreshes liveness: the worker survives an expiry sweep that
// would otherwise have removed it.
#[test]
fn test_heartbeat_defers_expiry() {
    let mut state = fresh_state();
    let (executor_metadata, executor_data) = test_executors(1, 2)[0].clone();
    state
        .register_executor(executor_metadata, executor_data, false, 0)
        .unwrap();
    let id = "executor-1".to_string();

    state.heartbeat(&id, 50_000).unwrap();
    // 50_000 + 60_000 timeout > 100_000: still alive
    let (expired, events) = state.expire_executor(&id, 100_000).unwrap();
    assert!(!expired);
    assert!(events.is_empty());

    // without a further heartbeat the same sweep later removes it
    let (expired, _) = state.expire_executor(&id, 120_000).unwrap();
    assert!(expired);
    assert_eq!(
        state.heartbeat(&id, 130_000),
        Err(scheduler_core::errors::SchedulerError::ExecutorUnknown),
    );
}
