use vstd::prelude::*;

verus! {

/// Errors returned by the scheduler's public operations.
#[derive(Clone, Copy, Debug, PartialEq, Eq, Structural)]
pub enum SchedulerError {
    /// The named executor is not registered.
    ExecutorUnknown,
    /// An executor with this id is already registered.
    ExecutorAlreadyRegistered,
    /// The registration's slot counts or executor id do not line up.
    InvalidRegistration,
    /// The named session does not exist.
    SessionUnknown,
    /// A job with this id was already submitted.
    JobAlreadyExists,
    /// No job with this id is known.
    JobUnknown,
    /// A stage names an input that is not an earlier stage.
    InvalidJobPlan,
    /// The job graph would hold more tasks than this process can count.
    TooManyTasks,
}

} // verus!
