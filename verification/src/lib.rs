//! Core state machine of a distributed SQL query scheduler.
//!
//! The crate models the scheduler of a cluster that executes query plans as
//! graphs of stages: an executor manager that accounts for worker capacity as
//! reservable task slots, a task manager that owns each job's execution graph
//! and drives its tasks from `Pending` through `Running` to a terminal state,
//! a session manager that stores per-query configuration, and a scheduler
//! state that composes the three behind the event-driven entry points
//! `submit_job`, `offer_reservation` and `update_task_statuses`.
//!
//! Two invariants organise the whole design: slots are conserved (for every
//! live executor, free slots plus outstanding reservations plus running tasks
//! equal its capacity), and every partition runs at most once at a time.

pub mod config;
pub mod counting;
pub mod errors;
pub mod events;
pub mod execution_graph;
pub mod executor_manager;
pub mod scheduler_state;
pub mod session_manager;
pub mod table_factory;
pub mod task_manager;
