use vstd::prelude::*;

verus! {

/// A message a manager hands back to the scheduler's event loop, asking for
/// further action.
#[derive(Clone, Debug, PartialEq, Eq)]
pub enum SchedulerEvent {
    /// A job's execution graph was built and queued.
    JobSubmitted { job_id: String },
    /// Every partition of the named stage completed; dependent stages were
    /// unblocked.
    StageCompleted { job_id: String, stage: usize },
    /// The job's terminal stage completed.
    JobCompleted { job_id: String },
    /// The job failed for good; its remaining work was cancelled.
    JobFailed { job_id: String, reason: String },
    /// This many partitions are ready to run: the loop should solicit slots.
    ReservationsNeeded { count: usize },
}

#[verifier::ext_equal]
pub ghost enum EventModel {
    JobSubmitted { job: Seq<char> },
    StageCompleted { job: Seq<char>, stage: int },
    JobCompleted { job: Seq<char> },
    JobFailed { job: Seq<char>, reason: Seq<char> },
    ReservationsNeeded { count: int },
}

impl View for SchedulerEvent {
    type V = EventModel;

    open spec fn view(&self) -> EventModel {
        match self {
            SchedulerEvent::JobSubmitted { job_id } => EventModel::JobSubmitted { job: job_id@ },
            SchedulerEvent::StageCompleted { job_id, stage } => EventModel::StageCompleted {
                job: job_id@,
                stage: *stage as int,
            },
            SchedulerEvent::JobCompleted { job_id } => EventModel::JobCompleted { job: job_id@ },
            SchedulerEvent::JobFailed { job_id, reason } => EventModel::JobFailed {
                job: job_id@,
                reason: reason@,
            },
            SchedulerEvent::ReservationsNeeded { count } => EventModel::ReservationsNeeded {
                count: *count as int,
            },
        }
    }
}

/// The models of a vector of events, in order.
pub open spec fn event_models(v: Seq<SchedulerEvent>) -> Seq<EventModel> {
    v.map_values(|e: SchedulerEvent| e@)
}

pub proof fn lemma_event_models_push(v: Seq<SchedulerEvent>, e: SchedulerEvent)
    ensures
        event_models(v.push(e)) == event_models(v).push(e@),
{
    assert(event_models(v.push(e)) =~= event_models(v).push(e@));
}

} // verus!
