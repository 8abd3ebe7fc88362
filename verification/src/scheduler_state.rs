use vstd::prelude::*;

use crate::config::SessionConfig;
use crate::counting::{count_where, lemma_count_where_concat, lemma_count_where_member_at};
use crate::errors::SchedulerError;
use crate::events::{event_models, EventModel, SchedulerEvent};
use crate::execution_graph::{
    graph_init, is_running_on, pending_in_graph, plan_models, plan_valid, seq_eq_fn,
    string_models, StagePlan, TaskModel, TaskStatus, TaskStatusModel,
};
use crate::executor_manager::{
    cancel_all, count_reservations_for, em_wf, has_executor, lemma_cancel_all_frame,
    lemma_cancel_all_live, lemma_cancel_all_wf,
    lemma_mint_step, lemma_reservation_models_push, lemma_unique_ids, mint_relation,
    outstanding_of, reservation_live, reservation_models, reservations_valid,
    reserve_relation, total_available, ExecutorData, ExecutorManager,
    ExecutorManagerModel, ExecutorMetadata, ExecutorReservation, ReservationModel,
};
use crate::session_manager::{has_session, SessionManager};
use crate::task_manager::{
    assignment_for, assignment_models, fill_ok, has_job, pending_active, running_on,
    status_models, tm_apply_all, tm_apply_status, tm_wf,
    lemma_running_member, lemma_running_on_nonneg, lemma_running_on_zero,
    lemma_tm_apply_all_facts, lemma_tm_apply_all_running, AssignmentModel, TaskAssignment,
    TaskManager, TaskManagerModel,
};

verus! {

/// The top of the scheduler: the three managers composed behind the
/// event-driven entry points the RPC surface calls.
pub struct SchedulerState {
    pub executor_manager: ExecutorManager,
    pub task_manager: TaskManager,
    pub session_manager: SessionManager,
    pub scheduler_name: String,
}

#[verifier::ext_equal]
pub ghost struct SchedulerModel {
    pub em: ExecutorManagerModel,
    pub tm: TaskManagerModel,
    pub sessions: Seq<Seq<(Seq<char>, Seq<char>)>>,
    pub name: Seq<char>,
}

impl View for SchedulerState {
    type V = SchedulerModel;

    open spec fn view(&self) -> SchedulerModel {
        SchedulerModel {
            em: self.executor_manager@,
            tm: self.task_manager@,
            sessions: self.session_manager@,
            name: self.scheduler_name@,
        }
    }
}

/// The scheduler's global invariant.
///
/// Beyond each manager's own well-formedness it ties the two slot ledgers
/// together: an executor's bound slots are exactly its running tasks, so
/// for every live executor, free slots plus outstanding reservations plus
/// running tasks equal its capacity — no reservation is ever lost — and a
/// task only ever runs on a live executor.
pub open spec fn state_wf(m: SchedulerModel) -> bool {
    &&& em_wf(m.em)
    &&& tm_wf(m.tm)
    &&& forall|i: int|
        0 <= i < m.em.executors.len() ==> (#[trigger] m.em.executors[i]).bound == running_on(
            m.tm,
            m.em.executors[i].meta.id,
        )
    &&& forall|j: int, s: int, p: int|
        #![trigger m.tm.jobs[j].stages[s].tasks[p]]
        0 <= j < m.tm.jobs.len() && 0 <= s < m.tm.jobs[j].stages.len() && 0 <= p
            < m.tm.jobs[j].stages[s].tasks.len() ==> (m.tm.jobs[j].stages[s].tasks[p] matches
            TaskModel::Running { executor_id, .. } ==> has_executor(m.em, executor_id))
}

/// Law (reservation conservation): in every well-formed scheduler state,
/// each live executor's free slots, outstanding reservations and running
/// tasks exactly cover its capacity. Every operation of this module keeps
/// `state_wf`, so the equation survives any sequence of registrations,
/// reservations, cancellations, offers and status updates.
pub proof fn lemma_reservation_conservation(m: SchedulerModel, i: int)
    requires
        state_wf(m),
        0 <= i < m.em.executors.len(),
    ensures
        m.em.executors[i].available + outstanding_of(m.em.executors[i]) + running_on(
            m.tm,
            m.em.executors[i].meta.id,
        ) == m.em.executors[i].meta.task_slots,
{
    assert(crate::executor_manager::entry_wf(m.em.executors[i]));
}

impl SchedulerState {
    /// A scheduler with no executors, jobs or sessions.
    pub fn new(
        scheduler_name: String,
        executor_timeout_ms: u64,
        max_task_failures: usize,
    ) -> (r: Self)
        requires
            max_task_failures < usize::MAX,
        ensures
            state_wf(r@),
            r@.em.executors.len() == 0,
            r@.tm.jobs.len() == 0,
            r@.sessions.len() == 0,
            r@.name == scheduler_name@,
            r@.tm.max_task_failures == max_task_failures as int,
            r@.em.timeout == executor_timeout_ms as int,
    {
        SchedulerState {
            executor_manager: ExecutorManager::new(executor_timeout_ms),
            task_manager: TaskManager::new(max_task_failures),
            session_manager: SessionManager::new(),
            scheduler_name,
        }
    }

    /// A scheduler under the default name, for in-process use.
    pub fn new_with_default_scheduler_name(
        executor_timeout_ms: u64,
        max_task_failures: usize,
    ) -> (r: Self)
        requires
            max_task_failures < usize::MAX,
        ensures
            state_wf(r@),
            r@.em.executors.len() == 0,
            r@.tm.jobs.len() == 0,
            r@.sessions.len() == 0,
            r@.name == "localhost:50050"@,
            r@.tm.max_task_failures == max_task_failures as int,
            r@.em.timeout == executor_timeout_ms as int,
    {
        SchedulerState::new("localhost:50050".to_owned(), executor_timeout_ms, max_task_failures)
    }

    /// Registers a worker, optionally carving its whole capacity out as
    /// reservations at once.
    pub fn register_executor(
        &mut self,
        metadata: ExecutorMetadata,
        data: ExecutorData,
        reserve_all: bool,
        now: u64,
    ) -> (r: Result<Vec<ExecutorReservation>, SchedulerError>)
        requires
            state_wf(old(self)@),
        ensures
            state_wf(final(self)@),
            final(self)@.tm == old(self)@.tm,
            final(self)@.sessions == old(self)@.sessions,
            final(self)@.name == old(self)@.name,
            ({
                let bad = data.executor_id@ != metadata.id@ || data.total_task_slots
                    != metadata.task_slots || data.available_task_slots != data.total_task_slots;
                &&& (bad ==> (r matches Err(SchedulerError::InvalidRegistration)) && final(self)@
                    == old(self)@)
                &&& (!bad && has_executor(old(self)@.em, metadata.id@) ==> (r matches Err(
                    SchedulerError::ExecutorAlreadyRegistered,
                )) && final(self)@ == old(self)@)
                &&& (!bad && !has_executor(old(self)@.em, metadata.id@) ==> (r matches Ok(rs) && {
                    &&& rs@.len() == if reserve_all {
                        metadata.task_slots as int
                    } else {
                        0int
                    }
                    &&& forall|k: int|
                        0 <= k < rs@.len() ==> (#[trigger] rs@[k])@ == (ReservationModel {
                            executor_id: metadata.id@,
                            slot: k,
                        })
                    &&& reservations_valid(final(self)@.em, reservation_models(rs@))
                    &&& final(self)@.em.executors.len() == old(self)@.em.executors.len() + 1
                    &&& forall|i: int|
                        0 <= i < old(self)@.em.executors.len()
                            ==> #[trigger] final(self)@.em.executors[i] == old(
                            self,
                        )@.em.executors[i]
                }))
            }),
    {
        let ghost m0 = self@;
        let ghost id = metadata.id@;
        let r = self.executor_manager.register_executor(metadata, data, reserve_all, now);
        proof {
            if r is Ok && !has_executor(m0.em, id) {
                // the new executor has no running tasks: a running task on it
                // would have made it a live executor already
                assert forall|j: int, s: int, p: int|
                    #![trigger m0.tm.jobs[j].stages[s].tasks[p]]
                    0 <= j < m0.tm.jobs.len() && 0 <= s < m0.tm.jobs[j].stages.len() && 0 <= p
                        < m0.tm.jobs[j].stages[s].tasks.len() implies !is_running_on(
                    m0.tm.jobs[j].stages[s].tasks[p],
                    id,
                ) by {
                    match m0.tm.jobs[j].stages[s].tasks[p] {
                        TaskModel::Running { executor_id, .. } => {
                            if executor_id == id {
                                assert(has_executor(m0.em, executor_id));
                            }
                        },
                        _ => {},
                    }
                }
                lemma_running_on_zero(m0.tm, id);
                let c = self@.em;
                assert(c.executors.len() == m0.em.executors.len() + 1);
                assert forall|i: int|
                    0 <= i < c.executors.len() implies (#[trigger] c.executors[i]).bound
                    == running_on(self@.tm, c.executors[i].meta.id) by {
                    if i < m0.em.executors.len() {
                        assert(c.executors[i] == m0.em.executors[i]);
                    } else {
                        assert(c.executors[i].bound == 0);
                        assert(c.executors[i].meta.id == id);
                    }
                }
                assert forall|j: int, s: int, p: int|
                    #![trigger self@.tm.jobs[j].stages[s].tasks[p]]
                    0 <= j < self@.tm.jobs.len() && 0 <= s < self@.tm.jobs[j].stages.len() && 0
                        <= p < self@.tm.jobs[j].stages[s].tasks.len() implies (
                self@.tm.jobs[j].stages[s].tasks[p] matches TaskModel::Running {
                    executor_id,
                    ..
                } ==> has_executor(self@.em, executor_id)) by {
                    match self@.tm.jobs[j].stages[s].tasks[p] {
                        TaskModel::Running { executor_id, .. } => {
                            assert(has_executor(m0.em, executor_id));
                            let w = choose|w: int|
                                0 <= w < m0.em.executors.len() && (
                                #[trigger] m0.em.executors[w]).meta.id == executor_id;
                            assert((#[trigger] self@.em.executors[w]).meta.id == executor_id);
                        },
                        _ => {},
                    }
                }
                // the fresh tokens are live and pairwise distinct
                if let Ok(rs) = &r {
                    let models = reservation_models(rs@);
                    let newidx = m0.em.executors.len() as int;
                    assert forall|k: int| 0 <= k < models.len() implies reservation_live(
                        self@.em,
                        #[trigger] models[k],
                    ) by {
                        assert(models[k] == rs@[k]@);
                        assert((#[trigger] self@.em.executors[newidx]).meta.id == id);
                        assert(self@.em.executors[newidx].reserved[models[k].slot]);
                    }
                    assert forall|k1: int, k2: int|
                        #![trigger models[k1], models[k2]]
                        0 <= k1 < k2 < models.len() implies !(models[k1].executor_id
                        == models[k2].executor_id && models[k1].slot == models[k2].slot) by {
                        assert(models[k1] == rs@[k1]@);
                        assert(models[k2] == rs@[k2]@);
                    }
                }
            }
        }
        r
    }

    /// Returns a copy of the cached metadata for `executor_id`.
    pub fn get_executor_metadata(&self, executor_id: &String) -> (r: Result<
        ExecutorMetadata,
        SchedulerError,
    >)
        requires
            state_wf(self@),
        ensures
            match r {
                Ok(m) => has_executor(self@.em, executor_id@) && forall|i: int|
                    0 <= i < self@.em.executors.len() && (#[trigger] self@.em.executors[i]).meta.id
                        == executor_id@ ==> m@ == self@.em.executors[i].meta,
                Err(e) => e == SchedulerError::ExecutorUnknown && !has_executor(
                    self@.em,
                    executor_id@,
                ),
            },
    {
        self.executor_manager.get_executor_metadata(executor_id)
    }

    /// Records a liveness ping from a worker.
    pub fn heartbeat(&mut self, executor_id: &String, now: u64) -> (r: Result<
        (),
        SchedulerError,
    >)
        requires
            state_wf(old(self)@),
        ensures
            state_wf(final(self)@),
            final(self)@.tm == old(self)@.tm,
            final(self)@.sessions == old(self)@.sessions,
            final(self)@.name == old(self)@.name,
            match r {
                Ok(()) => has_executor(old(self)@.em, executor_id@)
                    && final(self)@.em.executors.len() == old(self)@.em.executors.len()
                    && final(self)@.em.timeout == old(self)@.em.timeout && forall|i: int|
                    0 <= i < old(self)@.em.executors.len()
                        ==> #[trigger] final(self)@.em.executors[i] == (if old(self)@.em.executors[
                        i
                    ].meta.id == executor_id@ {
                        crate::executor_manager::ExecutorEntryModel {
                            last_heartbeat: now as int,
                            ..old(self)@.em.executors[i]
                        }
                    } else {
                        old(self)@.em.executors[i]
                    }),
                Err(e) => e == SchedulerError::ExecutorUnknown && !has_executor(
                    old(self)@.em,
                    executor_id@,
                ) && final(self)@ == old(self)@,
            },
    {
        let ghost m0 = self@;
        let r = self.executor_manager.heartbeat(executor_id, now);
        proof {
            if r is Ok {
                assert forall|i: int|
                    0 <= i < self@.em.executors.len() implies (
                #[trigger] self@.em.executors[i]).bound == running_on(
                    self@.tm,
                    self@.em.executors[i].meta.id,
                ) by {
                    assert(m0.em.executors[i].bound == running_on(m0.tm, m0.em.executors[i].meta.id));
                }
                assert forall|j: int, s: int, p: int|
                    #![trigger self@.tm.jobs[j].stages[s].tasks[p]]
                    0 <= j < self@.tm.jobs.len() && 0 <= s < self@.tm.jobs[j].stages.len() && 0
                        <= p < self@.tm.jobs[j].stages[s].tasks.len() implies (
                self@.tm.jobs[j].stages[s].tasks[p] matches TaskModel::Running {
                    executor_id: e2,
                    ..
                } ==> has_executor(self@.em, e2)) by {
                    match self@.tm.jobs[j].stages[s].tasks[p] {
                        TaskModel::Running { executor_id: e2, .. } => {
                            assert(has_executor(m0.em, e2));
                            let w = choose|w: int|
                                0 <= w < m0.em.executors.len() && (
                                #[trigger] m0.em.executors[w]).meta.id == e2;
                            assert((#[trigger] self@.em.executors[w]).meta.id == e2);
                        },
                        _ => {},
                    }
                }
            }
        }
        r
    }

    /// Draws up to `n` free reservations from the global pool, round robin
    /// over the executors so no cold worker is starved. Returns fewer than
    /// `n` exactly when the pool ran dry — never an error.
    pub fn reserve_slots(&mut self, n: usize) -> (r: Vec<ExecutorReservation>)
        requires
            state_wf(old(self)@),
        ensures
            state_wf(final(self)@),
            final(self)@.tm == old(self)@.tm,
            final(self)@.sessions == old(self)@.sessions,
            final(self)@.name == old(self)@.name,
            reserve_relation(old(self)@.em, final(self)@.em, reservation_models(r@)),
            reservations_valid(final(self)@.em, reservation_models(r@)),
            r@.len() == if n as int <= total_available(old(self)@.em) {
                n as int
            } else {
                total_available(old(self)@.em)
            },
    {
        let ghost m0 = self@;
        let r = self.executor_manager.reserve_slots(n);
        proof {
            lemma_preserved_executors_wf(m0, self@);
        }
        r
    }

    /// Returns still-outstanding tokens to their executors' free pools;
    /// stale tokens are silently dropped, so cancelling a token twice is
    /// the same as cancelling it once.
    pub fn cancel_reservations(&mut self, reservations: Vec<ExecutorReservation>)
        requires
            state_wf(old(self)@),
        ensures
            state_wf(final(self)@),
            final(self)@.tm == old(self)@.tm,
            final(self)@.sessions == old(self)@.sessions,
            final(self)@.name == old(self)@.name,
            final(self)@.em == cancel_all(old(self)@.em, reservation_models(reservations@)),
    {
        let ghost m0 = self@;
        let ghost models = reservation_models(reservations@);
        self.executor_manager.cancel_reservations(reservations);
        proof {
            lemma_cancel_all_frame(m0.em, models);
            lemma_preserved_executors_wf(m0, self@);
        }
    }

    /// Creates a session bound to `config` and returns its id.
    pub fn create_session(&mut self, config: SessionConfig) -> (r: u64)
        requires
            state_wf(old(self)@),
            old(self)@.sessions.len() < u64::MAX as int,
        ensures
            state_wf(final(self)@),
            final(self)@.em == old(self)@.em,
            final(self)@.tm == old(self)@.tm,
            r as int == old(self)@.sessions.len(),
            final(self)@.sessions == old(self)@.sessions.push(config@),
    {
        self.session_manager.create_session(config)
    }

    /// Replaces the configuration of an existing session.
    pub fn update_session(&mut self, session_id: u64, config: SessionConfig) -> (r: Result<
        (),
        SchedulerError,
    >)
        requires
            state_wf(old(self)@),
        ensures
            state_wf(final(self)@),
            final(self)@.em == old(self)@.em,
            final(self)@.tm == old(self)@.tm,
            match r {
                Ok(()) => has_session(old(self)@.sessions, session_id as int)
                    && final(self)@.sessions == old(self)@.sessions.update(
                    session_id as int,
                    config@,
                ),
                Err(e) => e == SchedulerError::SessionUnknown && !has_session(
                    old(self)@.sessions,
                    session_id as int,
                ) && final(self)@ == old(self)@,
            },
    {
        self.session_manager.update_session(session_id, config)
    }

    /// Submits a job: builds its execution graph and reports, through the
    /// returned events, that it was queued, whether it completed on
    /// arrival (a job whose terminal stage has no partitions is complete
    /// at once), and how many slots the event loop should solicit for its
    /// initially ready partitions.
    pub fn submit_job(&mut self, job_id: String, session_id: u64, plan: &Vec<StagePlan>) -> (r:
        Result<Vec<SchedulerEvent>, SchedulerError>)
        requires
            state_wf(old(self)@),
        ensures
            state_wf(final(self)@),
            final(self)@.em == old(self)@.em,
            final(self)@.sessions == old(self)@.sessions,
            final(self)@.name == old(self)@.name,
            ({
                let plans = plan_models(plan@);
                let sess = has_session(old(self)@.sessions, session_id as int);
                let dup = has_job(old(self)@.tm, job_id@);
                let g = graph_init(
                    job_id@,
                    session_id as int,
                    plans,
                    old(self)@.tm.max_task_failures,
                );
                &&& (!sess ==> (r matches Err(SchedulerError::SessionUnknown)) && final(self)@
                    == old(self)@)
                &&& (sess && dup ==> (r matches Err(SchedulerError::JobAlreadyExists))
                    && final(self)@ == old(self)@)
                &&& (sess && !dup && !plan_valid(plans) ==> (r matches Err(
                    SchedulerError::InvalidJobPlan,
                )) && final(self)@ == old(self)@)
                &&& (sess && !dup && plan_valid(plans) && crate::execution_graph::plan_cells(plans)
                    + old(self)@.tm.total_cells > usize::MAX as int ==> (r matches Err(
                    SchedulerError::TooManyTasks,
                )) && final(self)@ == old(self)@)
                &&& (sess && !dup && plan_valid(plans) && crate::execution_graph::plan_cells(plans)
                    + old(self)@.tm.total_cells <= usize::MAX as int ==> (r matches Ok(evs) && {
                    &&& final(self)@.tm.jobs == old(self)@.tm.jobs.push(g)
                    &&& event_models(evs@) == seq![EventModel::JobSubmitted { job: job_id@ }] + (
                    if g.status is Completed {
                        seq![EventModel::JobCompleted { job: job_id@ }]
                    } else {
                        Seq::<EventModel>::empty()
                    }) + seq![EventModel::ReservationsNeeded { count: pending_in_graph(g) }]
                }))
            }),
    {
        let ghost m0 = self@;
        if !(session_id < self.session_manager.sessions.len() as u64) {
            return Err(SchedulerError::SessionUnknown);
        }
        let job_name = job_id.clone();
        match self.task_manager.submit_job(job_id, session_id, plan) {
            Err(e) => Err(e),
            Ok(()) => {
                let ghost g = graph_init(
                    job_name@,
                    session_id as int,
                    plan_models(plan@),
                    m0.tm.max_task_failures,
                );
                proof {
                    assert(self@.tm.jobs == m0.tm.jobs.push(g));
                    assert(self@.tm.jobs[m0.tm.jobs.len() as int] == g);
                }
                let idx = self.task_manager.jobs.len() - 1;
                let completed = match &self.task_manager.jobs[idx].status {
                    crate::execution_graph::JobStatus::Completed => true,
                    _ => false,
                };
                let ready = self.task_manager.jobs[idx].pending_tasks();
                proof {
                    assert(completed == (g.status is Completed));
                    assert(ready as int == pending_in_graph(g));
                }
                let mut events: Vec<SchedulerEvent> = Vec::new();
                events.push(SchedulerEvent::JobSubmitted { job_id: job_name.clone() });
                if completed {
                    events.push(SchedulerEvent::JobCompleted { job_id: job_name.clone() });
                }
                events.push(SchedulerEvent::ReservationsNeeded { count: ready });
                proof {
                    // the new graph starts nothing running, so each
                    // executor's ledger still matches its running tasks
                    assert forall|sx: int, px: int|
                        #![trigger g.stages[sx].tasks[px]]
                        0 <= sx < g.stages.len() && 0 <= px < g.stages[sx].tasks.len() implies !(
                    g.stages[sx].tasks[px] is Running) by {
                        assert(g.stages[sx] == crate::execution_graph::stage_init(
                            plan_models(plan@),
                            sx,
                        ));
                    }
                    assert forall|i: int|
                        0 <= i < self@.em.executors.len() implies (
                    #[trigger] self@.em.executors[i]).bound == running_on(
                        self@.tm,
                        self@.em.executors[i].meta.id,
                    ) by {
                        let id = self@.em.executors[i].meta.id;
                        assert(m0.em.executors[i].bound == running_on(m0.tm, id));
                        crate::counting::lemma_sum_by_push(
                            m0.tm.jobs,
                            crate::task_manager::graph_running_fn(id),
                            g,
                        );
                        crate::execution_graph::lemma_no_running_zero(g, id);
                    }
                    assert forall|j: int, sx: int, px: int|
                        #![trigger self@.tm.jobs[j].stages[sx].tasks[px]]
                        0 <= j < self@.tm.jobs.len() && 0 <= sx < self@.tm.jobs[j].stages.len()
                            && 0 <= px < self@.tm.jobs[j].stages[sx].tasks.len() implies (
                    self@.tm.jobs[j].stages[sx].tasks[px] matches TaskModel::Running {
                        executor_id,
                        ..
                    } ==> has_executor(self@.em, executor_id)) by {
                        if j < m0.tm.jobs.len() {
                            assert(self@.tm.jobs[j] == m0.tm.jobs[j]);
                        } else {
                            assert(self@.tm.jobs[j] == g);
                            assert(!(g.stages[sx].tasks[px] is Running));
                        }
                    }
                    assert(event_models(events@) =~= seq![
                        EventModel::JobSubmitted { job: job_name@ },
                    ] + (if g.status is Completed {
                        seq![EventModel::JobCompleted { job: job_name@ }]
                    } else {
                        Seq::<EventModel>::empty()
                    }) + seq![EventModel::ReservationsNeeded { count: pending_in_graph(g) }]);
                }
                Ok(events)
            },
        }
    }

    /// Processes offered reservations: fills them with pending tasks,
    /// consumes the token of each filled offer, returns unfilled tokens to
    /// the pool, and — when every offer found work and more work remains —
    /// draws fresh reservations so the event loop can re-enter. Every
    /// input token ends in exactly one of: bound to a launched task,
    /// cancelled back to the free pool, or (never) lost; the returned
    /// assignments are what the caller dispatches to the executors.
    pub fn offer_reservation(&mut self, reservations: Vec<ExecutorReservation>) -> (r: (
        Vec<TaskAssignment>,
        Vec<ExecutorReservation>,
    ))
        requires
            state_wf(old(self)@),
            reservations_valid(old(self)@.em, reservation_models(reservations@)),
        ensures
            state_wf(final(self)@),
            final(self)@.sessions == old(self)@.sessions,
            final(self)@.name == old(self)@.name,
            reservations@.len() == 0 ==> final(self)@ == old(self)@ && r.0@.len() == 0
                && r.1@.len() == 0,
            fill_ok(
                old(self)@.tm,
                reservation_models(reservations@),
                assignment_models(r.0@),
                final(self)@.tm,
            ),
            r.0@.len() as int == if reservations@.len() as int <= pending_active(old(self)@.tm) {
                reservations@.len() as int
            } else {
                pending_active(old(self)@.tm)
            },
            forall|x: int|
                0 <= x < r.0@.len() ==> (#[trigger] assignment_models(r.0@)[x]).executor_id
                    == reservation_models(reservations@)[x].executor_id,
            reservations_valid(final(self)@.em, reservation_models(r.1@)),
            final(self)@.em.executors.len() == old(self)@.em.executors.len(),
            forall|i: int|
                0 <= i < old(self)@.em.executors.len() ==> {
                    let o = old(self)@.em.executors[i];
                    let c = #[trigger] final(self)@.em.executors[i];
                    &&& c.meta == o.meta
                    &&& c.bound == o.bound + count_where(
                        assignment_models(r.0@),
                        assignment_for(o.meta.id),
                    )
                    &&& c.available + outstanding_of(c) == o.available + outstanding_of(o)
                        - count_where(assignment_models(r.0@), assignment_for(o.meta.id))
                    &&& c.available == o.available + (if r.0@.len() < reservations@.len() {
                        count_reservations_for(
                            reservation_models(reservations@).skip(r.0@.len() as int),
                            o.meta.id,
                        )
                    } else {
                        0int
                    }) - count_reservations_for(reservation_models(r.1@), o.meta.id)
                },
            reservations@.len() > 0 ==> r.1@.len() as int == (if r.0@.len()
                < reservations@.len() {
                0int
            } else if pending_active(old(self)@.tm) - r.0@.len() > 0 {
                if pending_active(old(self)@.tm) - r.0@.len() <= total_available(old(self)@.em) {
                    pending_active(old(self)@.tm) - r.0@.len()
                } else {
                    total_available(old(self)@.em)
                }
            } else {
                0int
            }),
    {
        let ghost m0 = self@;
        let ghost rs = reservation_models(reservations@);
        if reservations.len() == 0 {
            let out: (Vec<TaskAssignment>, Vec<ExecutorReservation>) = (Vec::new(), Vec::new());
            proof {
                assert(assignment_models(out.0@) =~= Seq::<AssignmentModel>::empty());
                assert(reservation_models(out.1@) =~= Seq::<ReservationModel>::empty());
                crate::task_manager::lemma_pending_choosable(m0.tm);
            }
            return out;
        }
        let (assignments, unassigned, pending) = self.task_manager.fill_reservations(
            &reservations,
        );
        let ghost tm1 = self@.tm;
        let ghost assigns = assignment_models(assignments@);
        // consume the token of each filled offer: its slot is now bound to
        // the launched task
        let mut k: usize = 0;
        while k < assignments.len()
            invariant
                em_wf(self@.em),
                em_wf(m0.em),
                state_wf(m0),
                self@.tm == tm1,
                self@.sessions == m0.sessions,
                self@.name == m0.name,
                0 <= k <= assignments.len(),
                assigns == assignment_models(assignments@),
                assigns.len() == assignments@.len(),
                assigns.len() <= rs.len(),
                rs == reservation_models(reservations@),
                rs.len() == reservations@.len(),
                reservations_valid(m0.em, rs),
                tm_wf(tm1),
                fill_ok(m0.tm, rs, assigns, tm1),
                assigns.len() as int == if rs.len() as int <= pending_active(m0.tm) {
                    rs.len() as int
                } else {
                    pending_active(m0.tm)
                },
                pending_active(tm1) == pending_active(m0.tm) - assigns.len(),
                pending as int == pending_active(tm1),
                unassigned@.len() == rs.len() - assigns.len(),
                forall|x: int|
                    0 <= x < unassigned@.len() ==> (#[trigger] reservation_models(unassigned@)[x])
                        == rs[assigns.len() + x],
                forall|x: int|
                    0 <= x < assigns.len() ==> (#[trigger] assigns[x]).executor_id
                        == rs[x].executor_id,
                tm1.jobs.len() == m0.tm.jobs.len(),
                forall|j: int|
                    0 <= j < m0.tm.jobs.len() ==> crate::execution_graph::same_structure(
                        m0.tm.jobs[j],
                        #[trigger] tm1.jobs[j],
                    ),
                forall|e: Seq<char>|
                    #![trigger running_on(tm1, e)]
                    running_on(tm1, e) == running_on(m0.tm, e) + count_where(
                        assigns,
                        assignment_for(e),
                    ),
                forall|j: int, sx: int, px: int|
                    #![trigger tm1.jobs[j].stages[sx].tasks[px]]
                    0 <= j < tm1.jobs.len() && 0 <= sx < tm1.jobs[j].stages.len() && 0 <= px
                        < tm1.jobs[j].stages[sx].tasks.len() ==> (tm1.jobs[j].stages[sx].tasks[px]
                        is Running ==> tm1.jobs[j].stages[sx].tasks[px]
                        == m0.tm.jobs[j].stages[sx].tasks[px] || (exists|x: int|
                        0 <= x < assigns.len() && (#[trigger] assigns[x]).job_index == j
                            && assigns[x].stage_id == sx && assigns[x].partition_id == px
                            && tm1.jobs[j].stages[sx].tasks[px]->Running_executor_id == assigns[
                            x
                        ].executor_id)),
                self@.em.executors.len() == m0.em.executors.len(),
                self@.em.timeout == m0.em.timeout,
                forall|i: int|
                    0 <= i < m0.em.executors.len() ==> {
                        let o = m0.em.executors[i];
                        let c = #[trigger] self@.em.executors[i];
                        &&& c.meta == o.meta
                        &&& c.available == o.available
                        &&& c.last_heartbeat == o.last_heartbeat
                        &&& c.reserved.len() == o.reserved.len()
                        &&& c.bound == o.bound + count_where(
                            assigns.take(k as int),
                            assignment_for(o.meta.id),
                        )
                        &&& outstanding_of(c) == outstanding_of(o) - count_where(
                            assigns.take(k as int),
                            assignment_for(o.meta.id),
                        )
                    },
                forall|x: int| k <= x < rs.len() ==> reservation_live(self@.em, #[trigger] rs[x]),
            decreases assignments.len() - k,
        {
            let ghost emb = self@.em;
            proof {
                assert(reservation_live(self@.em, rs[k as int]));
                assert(reservations@[k as int]@ == rs[k as int]);
            }
            self.executor_manager.bind_reservation(&reservations[k]);
            proof {
                let rk = rs[k as int];
                assert forall|i: int| 0 <= i < m0.em.executors.len() implies {
                    let o = m0.em.executors[i];
                    let c = #[trigger] self@.em.executors[i];
                    &&& c.meta == o.meta
                    &&& c.available == o.available
                    &&& c.last_heartbeat == o.last_heartbeat
                    &&& c.reserved.len() == o.reserved.len()
                    &&& c.bound == o.bound + count_where(
                        assigns.take(k as int + 1),
                        assignment_for(o.meta.id),
                    )
                    &&& outstanding_of(c) == outstanding_of(o) - count_where(
                        assigns.take(k as int + 1),
                        assignment_for(o.meta.id),
                    )
                } by {
                    let o = m0.em.executors[i];
                    crate::counting::lemma_count_where_take_step(
                        assigns,
                        assignment_for(o.meta.id),
                        k as int,
                    );
                    if emb.executors[i].meta.id == rk.executor_id {
                        crate::counting::lemma_count_where_update(
                            emb.executors[i].reserved,
                            crate::executor_manager::is_true(),
                            rk.slot,
                            false,
                        );
                        assert(assignment_for(o.meta.id)(assigns[k as int]));
                    } else {
                        assert(self@.em.executors[i] == emb.executors[i]);
                        assert(!assignment_for(o.meta.id)(assigns[k as int]));
                    }
                }
                assert forall|x: int|
                    k + 1 <= x < rs.len() implies reservation_live(
                    self@.em,
                    #[trigger] rs[x],
                ) by {
                    let wx = choose|wx: int|
                        0 <= wx < emb.executors.len() && (#[trigger] emb.executors[wx]).meta.id
                            == rs[x].executor_id && 0 <= rs[x].slot < emb.executors[
                        wx
                        ].reserved.len() && emb.executors[wx].reserved[rs[x].slot];
                    if emb.executors[wx].meta.id == rk.executor_id {
                        assert(!(rs[x].executor_id == rk.executor_id && rs[x].slot == rk.slot));
                        assert(self@.em.executors[wx].reserved[rs[x].slot]);
                    } else {
                        assert(self@.em.executors[wx] == emb.executors[wx]);
                    }
                    assert((#[trigger] self@.em.executors[wx]).meta.id == rs[x].executor_id);
                }
            }
            k += 1;
        }
        proof {
            assert(assigns.take(assigns.len() as int) =~= assigns);
            // the executor ledger matches the task manager again
            assert forall|i: int|
                0 <= i < self@.em.executors.len() implies (
            #[trigger] self@.em.executors[i]).bound == running_on(
                self@.tm,
                self@.em.executors[i].meta.id,
            ) by {
                let id = self@.em.executors[i].meta.id;
                assert(m0.em.executors[i].bound == running_on(m0.tm, id));
                assert(running_on(tm1, id) == running_on(m0.tm, id) + count_where(
                    assigns,
                    assignment_for(id),
                ));
            }
            assert forall|j: int, sx: int, px: int|
                #![trigger self@.tm.jobs[j].stages[sx].tasks[px]]
                0 <= j < self@.tm.jobs.len() && 0 <= sx < self@.tm.jobs[j].stages.len() && 0 <= px
                    < self@.tm.jobs[j].stages[sx].tasks.len() implies (
            self@.tm.jobs[j].stages[sx].tasks[px] matches TaskModel::Running {
                executor_id,
                ..
            } ==> has_executor(self@.em, executor_id)) by {
                assert(self@.tm.jobs[j].stages[sx].tasks[px] == tm1.jobs[j].stages[sx].tasks[
                    px
                ]);
                assert(crate::execution_graph::same_structure(m0.tm.jobs[j], tm1.jobs[j]));
                match self@.tm.jobs[j].stages[sx].tasks[px] {
                    TaskModel::Running { executor_id, .. } => {
                        if tm1.jobs[j].stages[sx].tasks[px] == m0.tm.jobs[j].stages[sx].tasks[
                            px
                        ] {
                            assert(m0.tm.jobs[j].stages[sx].tasks[px] matches TaskModel::Running {
                                executor_id: e3,
                                ..
                            } && e3 == executor_id);
                            assert(has_executor(m0.em, executor_id));
                            let w = choose|w: int|
                                0 <= w < m0.em.executors.len() && (
                                #[trigger] m0.em.executors[w]).meta.id == executor_id;
                            assert((#[trigger] self@.em.executors[w]).meta.id == executor_id);
                        } else {
                            let x = choose|x: int|
                                0 <= x < assigns.len() && (#[trigger] assigns[x]).job_index == j
                                    && assigns[x].stage_id == sx && assigns[x].partition_id == px
                                    && tm1.jobs[j].stages[sx].tasks[px]->Running_executor_id
                                    == assigns[x].executor_id;
                            assert(executor_id == assigns[x].executor_id);
                            assert(assigns[x].executor_id == rs[x].executor_id);
                            assert(reservation_live(m0.em, rs[x]));
                            let w = choose|w: int|
                                0 <= w < m0.em.executors.len() && (
                                #[trigger] m0.em.executors[w]).meta.id == rs[x].executor_id && 0
                                    <= rs[x].slot < m0.em.executors[w].reserved.len()
                                    && m0.em.executors[w].reserved[rs[x].slot];
                            assert((#[trigger] self@.em.executors[w]).meta.id == rs[
                                x
                            ].executor_id);
                        }
                    },
                    _ => {},
                }
            }
            assert(state_wf(self@));
        }
        let ghost emb2 = self@.em;
        if unassigned.len() > 0 {
            let ghost unas = reservation_models(unassigned@);
            self.executor_manager.cancel_reservations(unassigned);
            proof {
                lemma_cancel_all_frame(emb2, unas);
                lemma_cancel_all_wf(emb2, unas);
                // the unfilled tokens are exactly the input suffix, still
                // live and pairwise distinct, so each returns one slot to
                // its executor's free pool
                assert(unas =~= rs.skip(assigns.len() as int));
                assert forall|k1: int, k2: int|
                    #![trigger unas[k1], unas[k2]]
                    0 <= k1 < k2 < unas.len() implies !(unas[k1].executor_id
                    == unas[k2].executor_id && unas[k1].slot == unas[k2].slot) by {
                    assert(unas[k1] == rs[assigns.len() + k1]);
                    assert(unas[k2] == rs[assigns.len() + k2]);
                }
                assert forall|k: int| 0 <= k < unas.len() implies reservation_live(
                    emb2,
                    #[trigger] unas[k],
                ) by {
                    assert(unas[k] == rs[assigns.len() + k]);
                    assert(reservation_live(emb2, rs[assigns.len() + k]));
                }
                lemma_cancel_all_live(emb2, unas);
                assert forall|i: int|
                    0 <= i < m0.em.executors.len() implies (
                #[trigger] self@.em.executors[i]).available == m0.em.executors[i].available
                    + count_reservations_for(
                    rs.skip(assigns.len() as int),
                    m0.em.executors[i].meta.id,
                ) by {
                    assert(self@.em.executors[i].available == emb2.executors[i].available
                        + count_reservations_for(unas, emb2.executors[i].meta.id));
                }
                assert forall|i: int|
                    0 <= i < self@.em.executors.len() implies (
                #[trigger] self@.em.executors[i]).bound == running_on(
                    self@.tm,
                    self@.em.executors[i].meta.id,
                ) by {
                    assert(emb2.executors[i].bound == running_on(
                        self@.tm,
                        emb2.executors[i].meta.id,
                    ));
                }
                assert forall|j: int, sx: int, px: int|
                    #![trigger self@.tm.jobs[j].stages[sx].tasks[px]]
                    0 <= j < self@.tm.jobs.len() && 0 <= sx < self@.tm.jobs[j].stages.len() && 0
                        <= px < self@.tm.jobs[j].stages[sx].tasks.len() implies (
                self@.tm.jobs[j].stages[sx].tasks[px] matches TaskModel::Running {
                    executor_id,
                    ..
                } ==> has_executor(self@.em, executor_id)) by {
                    match self@.tm.jobs[j].stages[sx].tasks[px] {
                        TaskModel::Running { executor_id, .. } => {
                            assert(has_executor(emb2, executor_id));
                            let w = choose|w: int|
                                0 <= w < emb2.executors.len() && (
                                #[trigger] emb2.executors[w]).meta.id == executor_id;
                            assert((#[trigger] self@.em.executors[w]).meta.id == executor_id);
                        },
                        _ => {},
                    }
                }
            }
            let none: Vec<ExecutorReservation> = Vec::new();
            proof {
                assert(reservation_models(none@) =~= Seq::<ReservationModel>::empty());
            }
            (assignments, none)
        } else if pending > 0 {
            let fresh = self.executor_manager.reserve_slots(pending);
            proof {
                assert(total_available(emb2) == total_available(m0.em)) by {
                    crate::counting::lemma_sum_by_congruent(
                        emb2.executors,
                        m0.em.executors,
                        crate::executor_manager::entry_available_fn(),
                        crate::executor_manager::entry_available_fn(),
                    );
                }
                assert forall|i: int|
                    0 <= i < self@.em.executors.len() implies (
                #[trigger] self@.em.executors[i]).bound == running_on(
                    self@.tm,
                    self@.em.executors[i].meta.id,
                ) by {
                    assert(emb2.executors[i].bound == running_on(
                        self@.tm,
                        emb2.executors[i].meta.id,
                    ));
                    assert(crate::executor_manager::reserve_entry_relation(
                        emb2.executors[i],
                        self@.em.executors[i],
                        reservation_models(fresh@),
                    ));
                }
                assert forall|i: int|
                    0 <= i < m0.em.executors.len() implies (
                #[trigger] self@.em.executors[i]).available == m0.em.executors[i].available
                    - count_reservations_for(
                    reservation_models(fresh@),
                    m0.em.executors[i].meta.id,
                ) by {
                    assert(crate::executor_manager::reserve_entry_relation(
                        emb2.executors[i],
                        self@.em.executors[i],
                        reservation_models(fresh@),
                    ));
                }
                assert forall|j: int, sx: int, px: int|
                    #![trigger self@.tm.jobs[j].stages[sx].tasks[px]]
                    0 <= j < self@.tm.jobs.len() && 0 <= sx < self@.tm.jobs[j].stages.len() && 0
                        <= px < self@.tm.jobs[j].stages[sx].tasks.len() implies (
                self@.tm.jobs[j].stages[sx].tasks[px] matches TaskModel::Running {
                    executor_id,
                    ..
                } ==> has_executor(self@.em, executor_id)) by {
                    match self@.tm.jobs[j].stages[sx].tasks[px] {
                        TaskModel::Running { executor_id, .. } => {
                            assert(has_executor(emb2, executor_id));
                            let w = choose|w: int|
                                0 <= w < emb2.executors.len() && (
                                #[trigger] emb2.executors[w]).meta.id == executor_id;
                            assert(crate::executor_manager::reserve_entry_relation(
                                emb2.executors[w],
                                self@.em.executors[w],
                                reservation_models(fresh@),
                            ));
                            assert((#[trigger] self@.em.executors[w]).meta.id == executor_id);
                        },
                        _ => {},
                    }
                }
            }
            (assignments, fresh)
        } else {
            let none: Vec<ExecutorReservation> = Vec::new();
            proof {
                assert(reservation_models(none@) =~= Seq::<ReservationModel>::empty());
            }
            (assignments, none)
        }
    }

    /// Ingests a batch of worker statuses, handing back the raised events
    /// and one fresh reservation per executor slot that a terminated task
    /// released, so the event loop can re-offer them.
    pub fn update_task_statuses(&mut self, executor_id: &String, statuses: &Vec<TaskStatus>) -> (r:
        Result<(Vec<SchedulerEvent>, Vec<ExecutorReservation>), SchedulerError>)
        requires
            state_wf(old(self)@),
        ensures
            state_wf(final(self)@),
            final(self)@.sessions == old(self)@.sessions,
            final(self)@.name == old(self)@.name,
            match r {
                Err(e) => e == SchedulerError::ExecutorUnknown && !has_executor(
                    old(self)@.em,
                    executor_id@,
                ) && final(self)@ == old(self)@,
                Ok((events, tokens)) => has_executor(old(self)@.em, executor_id@) && ({
                    let eff = tm_apply_all(old(self)@.tm, status_models(statuses@), executor_id@);
                    &&& final(self)@.tm == eff.tm
                    &&& event_models(events@) == eff.events
                    &&& tokens@.len() == eff.freed.len()
                    &&& forall|x: int|
                        0 <= x < tokens@.len() ==> (#[trigger] reservation_models(
                            tokens@,
                        )[x]).executor_id == eff.freed[x]
                    &&& reservations_valid(final(self)@.em, reservation_models(tokens@))
                    &&& final(self)@.em.executors.len() == old(self)@.em.executors.len()
                    &&& forall|i: int|
                        0 <= i < old(self)@.em.executors.len() ==> {
                            let o = old(self)@.em.executors[i];
                            let c = #[trigger] final(self)@.em.executors[i];
                            &&& c.meta == o.meta
                            &&& c.available == o.available
                            &&& c.bound == o.bound - count_where(eff.freed, seq_eq_fn(o.meta.id))
                            &&& outstanding_of(c) == outstanding_of(o) + count_where(
                                eff.freed,
                                seq_eq_fn(o.meta.id),
                            )
                        }
                }),
            },
    {
        let ghost m0 = self@;
        match self.executor_manager.get_executor_metadata(executor_id) {
            Err(e) => {
                return Err(e);
            },
            Ok(_) => {},
        }
        let (events, freed) = self.task_manager.update_task_statuses(executor_id, statuses);
        let ghost tm2 = self@.tm;
        let ghost fm = string_models(freed@);
        let ghost em0 = self@.em;
        proof {
            lemma_tm_apply_all_facts(m0.tm, status_models(statuses@), executor_id@);
            assert(em0 == m0.em);
            // the ledger before minting: every executor's bound slots are
            // its remaining running tasks plus its entries in the freed list
            assert forall|i: int| 0 <= i < em0.executors.len() implies (
            #[trigger] em0.executors[i]).bound == running_on(tm2, em0.executors[i].meta.id)
                + count_where(fm, seq_eq_fn(em0.executors[i].meta.id)) by {
                let id = em0.executors[i].meta.id;
                assert(m0.em.executors[i].bound == running_on(m0.tm, id));
                lemma_tm_apply_all_running(m0.tm, status_models(statuses@), executor_id@, id);
            }
            // every freed name is a live executor: it was running a task
            assert forall|x: int| 0 <= x < fm.len() implies has_executor(
                em0,
                #[trigger] fm[x],
            ) by {
                let f = fm[x];
                lemma_count_where_member_at(fm, seq_eq_fn(f), x);
                lemma_tm_apply_all_running(m0.tm, status_models(statuses@), executor_id@, f);
                lemma_running_on_nonneg(tm2, f);
                assert(running_on(m0.tm, f) >= 1);
                lemma_running_member(m0.tm, f);
            }
        }
        proof {
            // the helper's precondition: each executor has at least as many
            // bound slots as freed entries naming it
            assert forall|i: int| 0 <= i < em0.executors.len() implies (
            #[trigger] em0.executors[i]).bound >= count_where(
                fm,
                seq_eq_fn(em0.executors[i].meta.id),
            ) by {
                lemma_running_on_nonneg(tm2, em0.executors[i].meta.id);
            }
        }
        let tokens = self.mint_freed_slots(&freed);

        proof {
            assert(fm.take(fm.len() as int) =~= fm);
            // the ledger ties back together: minted exactly the freed slots
            assert forall|i: int|
                0 <= i < self@.em.executors.len() implies (
            #[trigger] self@.em.executors[i]).bound == running_on(
                self@.tm,
                self@.em.executors[i].meta.id,
            ) by {
                let id = em0.executors[i].meta.id;
                assert(crate::executor_manager::mint_entry_relation(
                    em0.executors[i],
                    self@.em.executors[i],
                    reservation_models(tokens@),
                ));
                crate::counting::lemma_count_where_congruent(
                    reservation_models(tokens@),
                    fm,
                    crate::executor_manager::names_executor(id),
                    seq_eq_fn(id),
                );
            }
            assert forall|j: int, sx: int, px: int|
                #![trigger self@.tm.jobs[j].stages[sx].tasks[px]]
                0 <= j < self@.tm.jobs.len() && 0 <= sx < self@.tm.jobs[j].stages.len() && 0 <= px
                    < self@.tm.jobs[j].stages[sx].tasks.len() implies (
            self@.tm.jobs[j].stages[sx].tasks[px] matches TaskModel::Running {
                executor_id: e2,
                ..
            } ==> has_executor(self@.em, e2)) by {
                match self@.tm.jobs[j].stages[sx].tasks[px] {
                    TaskModel::Running { executor_id: e2, .. } => {
                        assert(crate::execution_graph::same_structure(
                            m0.tm.jobs[j],
                            self@.tm.jobs[j],
                        ));
                        assert(self@.tm.jobs[j].stages[sx].tasks[px] == m0.tm.jobs[j].stages[
                            sx
                        ].tasks[px]);
                        assert(m0.tm.jobs[j].stages[sx].tasks[px] matches TaskModel::Running {
                            executor_id: e3,
                            ..
                        } && e3 == e2);
                        assert(has_executor(m0.em, e2));
                        let w = choose|w: int|
                            0 <= w < m0.em.executors.len() && (
                            #[trigger] m0.em.executors[w]).meta.id == e2;
                        assert(crate::executor_manager::mint_entry_relation(
                            em0.executors[w],
                            self@.em.executors[w],
                            reservation_models(tokens@),
                        ));
                        assert((#[trigger] self@.em.executors[w]).meta.id == e2);
                    },
                    _ => {},
                }
            }
            // per-executor accounting for the caller
            assert forall|i: int| 0 <= i < m0.em.executors.len() implies {
                let o = m0.em.executors[i];
                let c = #[trigger] self@.em.executors[i];
                &&& c.meta == o.meta
                &&& c.available == o.available
                &&& c.bound == o.bound - count_where(fm, seq_eq_fn(o.meta.id))
                &&& outstanding_of(c) == outstanding_of(o) + count_where(fm, seq_eq_fn(o.meta.id))
            } by {
                let o = m0.em.executors[i];
                assert(crate::executor_manager::mint_entry_relation(
                    em0.executors[i],
                    self@.em.executors[i],
                    reservation_models(tokens@),
                ));
                crate::counting::lemma_count_where_congruent(
                    reservation_models(tokens@),
                    fm,
                    crate::executor_manager::names_executor(o.meta.id),
                    seq_eq_fn(o.meta.id),
                );
            }
        }
        Ok((events, tokens))
    }

    /// Deregisters a worker that has missed heartbeats for longer than the
    /// configured timeout, judged against the caller's clock `now`. Every
    /// task it was running is surfaced as a retriable failure — re-queued,
    /// or escalated when its budget is exhausted, raising the same events a
    /// worker-reported failure would — and then the worker and its slots
    /// are removed. A worker still within its timeout is left untouched.
    pub fn expire_executor(&mut self, executor_id: &String, now: u64) -> (r: Result<
        (bool, Vec<SchedulerEvent>),
        SchedulerError,
    >)
        requires
            state_wf(old(self)@),
        ensures
            state_wf(final(self)@),
            final(self)@.sessions == old(self)@.sessions,
            final(self)@.name == old(self)@.name,
            match r {
                Err(e) => e == SchedulerError::ExecutorUnknown && !has_executor(
                    old(self)@.em,
                    executor_id@,
                ) && final(self)@ == old(self)@,
                Ok((expired, events)) => {
                    &&& has_executor(old(self)@.em, executor_id@)
                    &&& forall|i: int|
                        0 <= i < old(self)@.em.executors.len() && (#[trigger] old(
                            self,
                        )@.em.executors[i]).meta.id == executor_id@ ==> expired == (old(
                            self,
                        )@.em.executors[i].last_heartbeat + old(self)@.em.timeout < now as int)
                    &&& (!expired ==> final(self)@ == old(self)@ && events@.len() == 0)
                    &&& (expired ==> !has_executor(final(self)@.em, executor_id@)
                        && final(self)@.em.executors.len() == old(self)@.em.executors.len() - 1
                        && running_on(final(self)@.tm, executor_id@) == 0)
                },
            },
    {
        let ghost m0 = self@;
        match self.executor_manager.is_expired(executor_id, now) {
            Err(e) => {
                return Err(e);
            },
            Ok(false) => {
                return Ok((false, Vec::new()));
            },
            Ok(true) => {},
        }
        let mut events: Vec<SchedulerEvent> = Vec::new();
        let mut done = false;
        while !done
            invariant
                state_wf(self@),
                m0 == old(self)@,
                self@.sessions == m0.sessions,
                self@.name == m0.name,
                self@.em.executors.len() == m0.em.executors.len(),
                has_executor(m0.em, executor_id@),
                has_executor(self@.em, executor_id@),
                forall|i: int|
                    0 <= i < m0.em.executors.len() && (#[trigger] m0.em.executors[i]).meta.id
                        == executor_id@ ==> m0.em.executors[i].last_heartbeat + m0.em.timeout
                        < now as int,
                running_on(self@.tm, executor_id@) >= 0,
                done ==> running_on(self@.tm, executor_id@) == 0,
            decreases running_on(self@.tm, executor_id@), (if done {
                0int
            } else {
                1int
            }),
        {
            let ghost mb = self@;
            match self.task_manager.find_running_on(executor_id) {
                None => {
                    proof {
                        lemma_running_on_zero(self@.tm, executor_id@);
                    }
                    done = true;
                },
                Some((j, s, p)) => {
                    let job_name = self.task_manager.jobs[j].job_id.clone();
                    let status = TaskStatus {
                        job_id: job_name.clone(),
                        stage_id: s,
                        partition_id: p,
                        status: crate::execution_graph::StatusUpdate::Failed {
                            reason: "executor lost".to_owned(),
                            retriable: true,
                        },
                    };
                    let statuses = vec![status];
                    let ghost st = statuses@[0]@;
                    let batch = self.update_task_statuses(executor_id, &statuses);
                    match batch {
                        Err(_) => {
                            proof {
                                assert(false);
                            }
                        },
                        Ok((mut evs, tokens)) => {
                            events.append(&mut evs);
                            proof {
                                // the failed task released at least one slot
                                // of the lost worker, so its running count
                                // strictly fell
                                let sts = status_models(statuses@);
                                assert(sts.len() == 1);
                                assert(sts.drop_last() =~= Seq::<TaskStatusModel>::empty());
                                assert(sts.last() == st);
                                let prev = tm_apply_all(mb.tm, sts.drop_last(), executor_id@);
                                assert(prev.tm == mb.tm && prev.freed == Seq::<
                                    Seq<char>,
                                >::empty());
                                let step = tm_apply_status(mb.tm, st, executor_id@);
                                assert((#[trigger] mb.tm.jobs[j as int]).job_id == st.job_id);
                                assert(crate::task_manager::has_job(mb.tm, st.job_id));
                                assert(crate::task_manager::job_index_of(mb.tm, st.job_id)
                                    == j as int) by {
                                    let w = crate::task_manager::job_index_of(mb.tm, st.job_id);
                                    assert(0 <= w < mb.tm.jobs.len() && mb.tm.jobs[w].job_id
                                        == st.job_id);
                                    if w != j as int {
                                        crate::task_manager::lemma_unique_job_ids(
                                            mb.tm,
                                            w,
                                            j as int,
                                        );
                                    }
                                }
                                let geff = crate::execution_graph::apply_status(
                                    mb.tm.jobs[j as int],
                                    st,
                                    executor_id@,
                                );
                                assert(geff.freed.len() >= 1 && geff.freed[0] == executor_id@)
                                    by {
                                    let t = mb.tm.jobs[j as int].stages[s as int].tasks[p as int];
                                    match t {
                                        TaskModel::Running { executor_id: e0, attempts } => {
                                            assert(e0 == executor_id@);
                                            if attempts + 1 <= mb.tm.jobs[
                                                j as int
                                            ].max_task_failures {
                                                assert(geff.freed =~= seq![e0]);
                                            } else {
                                                assert(geff.freed[0] == (seq![e0]
                                                    + crate::execution_graph::sweep_freed(
                                                    crate::execution_graph::set_task(
                                                        mb.tm.jobs[j as int],
                                                        s as int,
                                                        p as int,
                                                        TaskModel::Failed {
                                                            reason: st.status->Failed_reason,
                                                        },
                                                    ),
                                                ))[0]);
                                            }
                                        },
                                        _ => {
                                            assert(false);
                                        },
                                    }
                                }
                                assert(step.freed == geff.freed);
                                assert(Seq::<Seq<char>>::empty() + step.freed =~= step.freed);
                                let whole = tm_apply_all(mb.tm, sts, executor_id@);
                                assert(whole.freed == step.freed);
                                lemma_count_where_member_at(
                                    whole.freed,
                                    seq_eq_fn(executor_id@),
                                    0,
                                );
                                lemma_tm_apply_all_running(mb.tm, sts, executor_id@, executor_id@);
                                lemma_running_on_nonneg(self@.tm, executor_id@);
                                // the worker itself stays registered
                                let wx = choose|wx: int|
                                    0 <= wx < mb.em.executors.len() && (
                                    #[trigger] mb.em.executors[wx]).meta.id == executor_id@;
                                assert((#[trigger] self@.em.executors[wx]).meta.id
                                    == executor_id@);
                            }
                            let ghost emx = self@.em;
                            self.cancel_reservations(tokens);
                            proof {
                                lemma_cancel_all_frame(emx, reservation_models(tokens@));
                                let wx = choose|wx: int|
                                    0 <= wx < mb.em.executors.len() && (
                                    #[trigger] mb.em.executors[wx]).meta.id == executor_id@;
                                assert((#[trigger] emx.executors[wx]).meta.id == executor_id@);
                                assert((#[trigger] self@.em.executors[wx]).meta.id
                                    == executor_id@);
                            }
                        },
                    }
                },
            }
        }
        let ghost pre = self@;
        match self.executor_manager.deregister_executor(executor_id) {
            Err(_) => {
                proof {
                    assert(false);
                }
            },
            Ok(()) => {},
        }
        proof {
            let w = choose|w: int|
                0 <= w < pre.em.executors.len() && (#[trigger] pre.em.executors[w]).meta.id
                    == executor_id@ && self@.em.executors == pre.em.executors.remove(w);
            assert forall|x: int|
                0 <= x < self@.em.executors.len() implies (#[trigger] self@.em.executors[x]).bound
                == running_on(self@.tm, self@.em.executors[x].meta.id) by {
                if x < w {
                    assert(self@.em.executors[x] == pre.em.executors[x]);
                    assert(pre.em.executors[x].bound == running_on(
                        pre.tm,
                        pre.em.executors[x].meta.id,
                    ));
                } else {
                    assert(self@.em.executors[x] == pre.em.executors[x + 1]);
                    assert(pre.em.executors[x + 1].bound == running_on(
                        pre.tm,
                        pre.em.executors[x + 1].meta.id,
                    ));
                }
            }
            assert forall|j2: int, sx: int, px: int|
                #![trigger self@.tm.jobs[j2].stages[sx].tasks[px]]
                0 <= j2 < self@.tm.jobs.len() && 0 <= sx < self@.tm.jobs[j2].stages.len() && 0
                    <= px < self@.tm.jobs[j2].stages[sx].tasks.len() implies (
            self@.tm.jobs[j2].stages[sx].tasks[px] matches TaskModel::Running {
                executor_id: e2,
                ..
            } ==> has_executor(self@.em, e2)) by {
                match self@.tm.jobs[j2].stages[sx].tasks[px] {
                    TaskModel::Running { executor_id: e2, .. } => {
                        assert(has_executor(pre.em, e2));
                        let w2 = choose|w2: int|
                            0 <= w2 < pre.em.executors.len() && (
                            #[trigger] pre.em.executors[w2]).meta.id == e2;
                        if e2 == executor_id@ {
                            crate::task_manager::lemma_running_at_least(
                                pre.tm,
                                e2,
                                j2,
                                sx,
                                px,
                            );
                        }
                        assert(e2 != executor_id@);
                        if w2 != w {
                            let shifted: int = if w2 < w {
                                w2
                            } else {
                                w2 - 1
                            };
                            assert((#[trigger] self@.em.executors[shifted]).meta.id == e2);
                        } else {
                            assert(pre.em.executors[w2].meta.id == executor_id@);
                        }
                    },
                    _ => {},
                }
            }
            assert(!has_executor(self@.em, executor_id@)) by {
                if has_executor(self@.em, executor_id@) {
                    let wx = choose|wx: int|
                        0 <= wx < self@.em.executors.len() && (
                        #[trigger] self@.em.executors[wx]).meta.id == executor_id@;
                    let orig: int = if wx < w {
                        wx
                    } else {
                        wx + 1
                    };
                    assert(pre.em.executors[orig].meta.id == executor_id@);
                    lemma_unique_ids(pre.em, orig, w);
                }
            }
        }
        Ok((true, events))
    }

    /// Turns each entry of `freed` — an executor whose running task just
    /// ended — into a fresh outstanding reservation token for the caller
    /// to hand out again.
    fn mint_freed_slots(&mut self, freed: &Vec<String>) -> (tokens: Vec<ExecutorReservation>)
        requires
            em_wf(old(self)@.em),
            forall|x: int|
                0 <= x < freed@.len() ==> has_executor(
                    old(self)@.em,
                    #[trigger] string_models(freed@)[x],
                ),
            forall|i: int|
                0 <= i < old(self)@.em.executors.len() ==> (#[trigger] old(
                    self,
                )@.em.executors[i]).bound >= count_where(
                    string_models(freed@),
                    seq_eq_fn(old(self)@.em.executors[i].meta.id),
                ),
        ensures
            final(self)@.tm == old(self)@.tm,
            final(self)@.sessions == old(self)@.sessions,
            final(self)@.name == old(self)@.name,
            em_wf(final(self)@.em),
            mint_relation(old(self)@.em, final(self)@.em, reservation_models(tokens@)),
            tokens@.len() == freed@.len(),
            forall|x: int|
                0 <= x < tokens@.len() ==> (#[trigger] reservation_models(tokens@)[x]).executor_id
                    == string_models(freed@)[x],
    {
        let ghost em0 = self@.em;
        let ghost fm = string_models(freed@);
        let mut tokens: Vec<ExecutorReservation> = Vec::new();
        proof {
            assert(reservation_models(tokens@) =~= Seq::<ReservationModel>::empty());
        }
        let mut k: usize = 0;
        while k < freed.len()
            invariant
                em_wf(em0),
                em0 == old(self)@.em,
                em_wf(self@.em),
                self@.tm == old(self)@.tm,
                self@.sessions == old(self)@.sessions,
                self@.name == old(self)@.name,
                0 <= k <= freed.len(),
                fm == string_models(freed@),
                fm.len() == freed@.len(),
                tokens@.len() == k,
                mint_relation(em0, self@.em, reservation_models(tokens@)),
                forall|x: int|
                    0 <= x < k ==> (#[trigger] reservation_models(tokens@)[x]).executor_id
                        == fm[x],
                forall|i: int|
                    0 <= i < em0.executors.len() ==> (#[trigger] em0.executors[i]).bound
                        >= count_where(fm, seq_eq_fn(em0.executors[i].meta.id)),
                forall|x: int| 0 <= x < fm.len() ==> has_executor(em0, #[trigger] fm[x]),
            decreases freed.len() - k,
        {
            let ghost emc = self@.em;
            proof {
                assert(freed@[k as int]@ == fm[k as int]);
                let f = fm[k as int];
                assert(has_executor(em0, f));
                let w0 = choose|w0: int|
                    0 <= w0 < em0.executors.len() && (#[trigger] em0.executors[w0]).meta.id == f;
                assert(crate::executor_manager::mint_entry_relation(
                    em0.executors[w0],
                    emc.executors[w0],
                    reservation_models(tokens@),
                ));
                assert((#[trigger] emc.executors[w0]).meta.id == f);
                assert(has_executor(emc, f));
                // its bound count is still positive: the freed list names it
                // once for each slot yet to be minted
                assert(fm =~= fm.take(k as int) + fm.skip(k as int));
                crate::counting::lemma_count_where_concat(
                    fm.take(k as int),
                    fm.skip(k as int),
                    seq_eq_fn(f),
                );
                assert(fm.skip(k as int)[0] == f);
                lemma_count_where_member_at(fm.skip(k as int), seq_eq_fn(f), 0);
                crate::counting::lemma_count_where_congruent(
                    reservation_models(tokens@),
                    fm.take(k as int),
                    crate::executor_manager::names_executor(f),
                    seq_eq_fn(f),
                );
                crate::counting::lemma_count_where_bounds(fm.take(k as int), seq_eq_fn(f));
                assert forall|i: int|
                    0 <= i < emc.executors.len() && (#[trigger] emc.executors[i]).meta.id == f
                    implies emc.executors[i].bound > 0 by {
                    if i != w0 {
                        lemma_unique_ids(em0, i, w0);
                    }
                }
            }
            let token = self.executor_manager.free_running_slot(&freed[k]);
            proof {
                let f = fm[k as int];
                let w0 = choose|w0: int|
                    0 <= w0 < em0.executors.len() && (#[trigger] em0.executors[w0]).meta.id == f;
                assert((#[trigger] emc.executors[w0]).meta.id == f);
                assert(self@.em.executors =~= emc.executors.update(
                    w0,
                    crate::executor_manager::ExecutorEntryModel {
                        bound: emc.executors[w0].bound - 1,
                        reserved: emc.executors[w0].reserved.update(token@.slot, true),
                        ..emc.executors[w0]
                    },
                )) by {
                    assert forall|i: int|
                        0 <= i < emc.executors.len() && i != w0 implies #[trigger] self@.em.executors[i]
                        == emc.executors[i] by {
                        lemma_unique_ids(em0, i, w0);
                        assert(emc.executors[i].meta.id != f);
                    }
                }
                lemma_mint_step(em0, emc, self@.em, reservation_models(tokens@), w0, token@);
                lemma_reservation_models_push(tokens@, token);
            }
            tokens.push(token);
            k += 1;
        }
        tokens
    }

    /// Cancels a job outright: every partition still in flight is torn
    /// down, and the slots of its running tasks come back as fresh
    /// reservations for the event loop to re-offer.
    pub fn cancel_job(&mut self, job_id: &String) -> (r: Result<
        Vec<ExecutorReservation>,
        SchedulerError,
    >)
        requires
            state_wf(old(self)@),
        ensures
            state_wf(final(self)@),
            final(self)@.sessions == old(self)@.sessions,
            final(self)@.name == old(self)@.name,
            match r {
                Err(e) => e == SchedulerError::JobUnknown && !has_job(old(self)@.tm, job_id@)
                    && final(self)@ == old(self)@,
                Ok(tokens) => has_job(old(self)@.tm, job_id@) && ({
                    let jx = crate::task_manager::job_index_of(old(self)@.tm, job_id@);
                    let eff = crate::execution_graph::cancel_job_model(old(self)@.tm.jobs[jx]);
                    &&& final(self)@.tm.jobs == old(self)@.tm.jobs.update(jx, eff.graph)
                    &&& tokens@.len() == eff.freed.len()
                    &&& forall|x: int|
                        0 <= x < tokens@.len() ==> (#[trigger] reservation_models(
                            tokens@,
                        )[x]).executor_id == eff.freed[x]
                    &&& reservations_valid(final(self)@.em, reservation_models(tokens@))
                    &&& final(self)@.em.executors.len() == old(self)@.em.executors.len()
                    &&& forall|i: int|
                        0 <= i < old(self)@.em.executors.len() ==> {
                            let o = old(self)@.em.executors[i];
                            let c = #[trigger] final(self)@.em.executors[i];
                            &&& c.meta == o.meta
                            &&& c.available == o.available
                            &&& c.bound == o.bound - count_where(eff.freed, seq_eq_fn(o.meta.id))
                            &&& outstanding_of(c) == outstanding_of(o) + count_where(
                                eff.freed,
                                seq_eq_fn(o.meta.id),
                            )
                        }
                }),
            },
    {
        let ghost m0 = self@;
        let mut freed: Vec<String> = Vec::new();
        proof {
            assert(string_models(freed@) =~= Seq::<Seq<char>>::empty());
        }
        match self.task_manager.cancel_job(job_id, &mut freed) {
            Err(e) => {
                return Err(e);
            },
            Ok(()) => {},
        }
        let ghost tm2 = self@.tm;
        let ghost em0 = self@.em;
        let ghost jx = crate::task_manager::job_index_of(m0.tm, job_id@);
        let ghost eff = crate::execution_graph::cancel_job_model(m0.tm.jobs[jx]);
        let ghost fm = string_models(freed@);
        proof {
            assert(Seq::<Seq<char>>::empty() + eff.freed =~= eff.freed);
            assert(fm == eff.freed);
            assert forall|i: int| 0 <= i < em0.executors.len() implies (
            #[trigger] em0.executors[i]).bound == running_on(tm2, em0.executors[i].meta.id)
                + count_where(fm, seq_eq_fn(em0.executors[i].meta.id)) by {
                let id = em0.executors[i].meta.id;
                assert(m0.em.executors[i].bound == running_on(m0.tm, id));
                assert(running_on(tm2, id) == running_on(m0.tm, id) - count_where(
                    fm,
                    seq_eq_fn(id),
                ));
            }
            assert forall|i: int| 0 <= i < em0.executors.len() implies (
            #[trigger] em0.executors[i]).bound >= count_where(
                fm,
                seq_eq_fn(em0.executors[i].meta.id),
            ) by {
                lemma_running_on_nonneg(tm2, em0.executors[i].meta.id);
            }
            assert forall|x: int| 0 <= x < fm.len() implies has_executor(
                em0,
                #[trigger] fm[x],
            ) by {
                let f = fm[x];
                lemma_count_where_member_at(fm, seq_eq_fn(f), x);
                lemma_running_on_nonneg(tm2, f);
                assert(running_on(m0.tm, f) >= 1);
                lemma_running_member(m0.tm, f);
            }
        }
        let tokens = self.mint_freed_slots(&freed);
        proof {
            assert forall|i: int|
                0 <= i < self@.em.executors.len() implies (
            #[trigger] self@.em.executors[i]).bound == running_on(
                self@.tm,
                self@.em.executors[i].meta.id,
            ) by {
                let id = em0.executors[i].meta.id;
                assert(crate::executor_manager::mint_entry_relation(
                    em0.executors[i],
                    self@.em.executors[i],
                    reservation_models(tokens@),
                ));
                crate::counting::lemma_count_where_congruent(
                    reservation_models(tokens@),
                    fm,
                    crate::executor_manager::names_executor(id),
                    seq_eq_fn(id),
                );
            }
            assert forall|j: int, sx: int, px: int|
                #![trigger self@.tm.jobs[j].stages[sx].tasks[px]]
                0 <= j < self@.tm.jobs.len() && 0 <= sx < self@.tm.jobs[j].stages.len() && 0 <= px
                    < self@.tm.jobs[j].stages[sx].tasks.len() implies (
            self@.tm.jobs[j].stages[sx].tasks[px] matches TaskModel::Running {
                executor_id: e2,
                ..
            } ==> has_executor(self@.em, e2)) by {
                match self@.tm.jobs[j].stages[sx].tasks[px] {
                    TaskModel::Running { executor_id: e2, .. } => {
                        assert(crate::execution_graph::same_structure(
                            m0.tm.jobs[j],
                            self@.tm.jobs[j],
                        ));
                        assert(self@.tm.jobs[j].stages[sx].tasks[px] == m0.tm.jobs[j].stages[
                            sx
                        ].tasks[px]);
                        assert(m0.tm.jobs[j].stages[sx].tasks[px] matches TaskModel::Running {
                            executor_id: e3,
                            ..
                        } && e3 == e2);
                        assert(has_executor(m0.em, e2));
                        let w = choose|w: int|
                            0 <= w < m0.em.executors.len() && (
                            #[trigger] m0.em.executors[w]).meta.id == e2;
                        assert(crate::executor_manager::mint_entry_relation(
                            em0.executors[w],
                            self@.em.executors[w],
                            reservation_models(tokens@),
                        ));
                        assert((#[trigger] self@.em.executors[w]).meta.id == e2);
                    },
                    _ => {},
                }
            }
            assert forall|i: int| 0 <= i < m0.em.executors.len() implies {
                let o = m0.em.executors[i];
                let c = #[trigger] self@.em.executors[i];
                &&& c.meta == o.meta
                &&& c.available == o.available
                &&& c.bound == o.bound - count_where(eff.freed, seq_eq_fn(o.meta.id))
                &&& outstanding_of(c) == outstanding_of(o) + count_where(
                    eff.freed,
                    seq_eq_fn(o.meta.id),
                )
            } by {
                let o = m0.em.executors[i];
                assert(crate::executor_manager::mint_entry_relation(
                    em0.executors[i],
                    self@.em.executors[i],
                    reservation_models(tokens@),
                ));
                crate::counting::lemma_count_where_congruent(
                    reservation_models(tokens@),
                    fm,
                    crate::executor_manager::names_executor(o.meta.id),
                    seq_eq_fn(o.meta.id),
                );
            }
        }
        Ok(tokens)
    }

    /// A dispatched task could not be launched on its executor: the
    /// partition is treated like a retriable failure reported by that
    /// executor (re-queued, or escalated when its budget is exhausted) and
    /// the bound slot goes straight back to the executor's free pool, so
    /// the slot accounting is unchanged by the failed round trip.
    pub fn task_launch_failed(
        &mut self,
        executor_id: &String,
        job_id: &String,
        stage_id: usize,
        partition_id: usize,
    ) -> (r: Vec<SchedulerEvent>)
        requires
            state_wf(old(self)@),
        ensures
            state_wf(final(self)@),
            final(self)@.sessions == old(self)@.sessions,
            final(self)@.name == old(self)@.name,
            ({
                let st = TaskStatusModel {
                    job_id: job_id@,
                    stage_id: stage_id as int,
                    partition_id: partition_id as int,
                    status: crate::execution_graph::StatusUpdateModel::Failed {
                        reason: "task launch failed"@,
                        retriable: true,
                    },
                };
                let eff = tm_apply_status(old(self)@.tm, st, executor_id@);
                &&& final(self)@.tm == eff.tm
                &&& event_models(r@) == eff.events
                &&& final(self)@.em.executors.len() == old(self)@.em.executors.len()
                &&& forall|i: int|
                    0 <= i < old(self)@.em.executors.len() ==> {
                        let o = old(self)@.em.executors[i];
                        let c = #[trigger] final(self)@.em.executors[i];
                        &&& c.meta == o.meta
                        &&& c.available == o.available + count_where(
                            eff.freed,
                            seq_eq_fn(o.meta.id),
                        )
                        &&& c.bound == o.bound - count_where(eff.freed, seq_eq_fn(o.meta.id))
                        &&& outstanding_of(c) == outstanding_of(o)
                    }
            }),
    {
        let ghost m0 = self@;
        let status = TaskStatus {
            job_id: job_id.clone(),
            stage_id,
            partition_id,
            status: crate::execution_graph::StatusUpdate::Failed {
                reason: "task launch failed".to_owned(),
                retriable: true,
            },
        };
        let statuses = vec![status];
        let ghost st = statuses@[0]@;
        let (events, freed) = self.task_manager.update_task_statuses(executor_id, &statuses);
        let ghost tm2 = self@.tm;
        let ghost fm = string_models(freed@);
        let ghost em0 = self@.em;
        proof {
            // a batch of one status is exactly one application
            assert(status_models(statuses@) =~= seq![st]);
            let sts = status_models(statuses@);
            assert(sts.drop_last() =~= Seq::<TaskStatusModel>::empty());
            assert(sts.last() == st);
            let eff = tm_apply_status(m0.tm, st, executor_id@);
            let prev = tm_apply_all(m0.tm, sts.drop_last(), executor_id@);
            assert(sts.len() == 1);
            assert(prev.tm == m0.tm && prev.events == Seq::<EventModel>::empty() && prev.freed
                == Seq::<Seq<char>>::empty());
            assert(Seq::<EventModel>::empty() + eff.events =~= eff.events);
            assert(Seq::<Seq<char>>::empty() + eff.freed =~= eff.freed);
            assert(tm_apply_all(m0.tm, sts, executor_id@).tm == eff.tm);
            assert(tm_apply_all(m0.tm, sts, executor_id@).events == eff.events);
            assert(tm_apply_all(m0.tm, sts, executor_id@).freed == eff.freed);
            lemma_tm_apply_all_facts(m0.tm, sts, executor_id@);
            assert forall|i: int| 0 <= i < em0.executors.len() implies (
            #[trigger] em0.executors[i]).bound == running_on(tm2, em0.executors[i].meta.id)
                + count_where(fm, seq_eq_fn(em0.executors[i].meta.id)) by {
                let id = em0.executors[i].meta.id;
                assert(m0.em.executors[i].bound == running_on(m0.tm, id));
                lemma_tm_apply_all_running(m0.tm, sts, executor_id@, id);
            }
            assert forall|x: int| 0 <= x < fm.len() implies has_executor(
                em0,
                #[trigger] fm[x],
            ) by {
                let f = fm[x];
                lemma_count_where_member_at(fm, seq_eq_fn(f), x);
                lemma_tm_apply_all_running(m0.tm, sts, executor_id@, f);
                lemma_running_on_nonneg(tm2, f);
                assert(running_on(m0.tm, f) >= 1);
                lemma_running_member(m0.tm, f);
            }
            assert(fm.take(0) =~= Seq::<Seq<char>>::empty());
        }
        // the failed launch never reached the worker: each released slot
        // returns straight to the free pool
        let mut k: usize = 0;
        while k < freed.len()
            invariant
                em_wf(em0),
                em_wf(self@.em),
                tm_wf(tm2),
                self@.tm == tm2,
                self@.sessions == m0.sessions,
                self@.name == m0.name,
                0 <= k <= freed.len(),
                fm == string_models(freed@),
                fm.len() == freed@.len(),
                self@.em.executors.len() == em0.executors.len(),
                self@.em.timeout == em0.timeout,
                forall|i: int|
                    0 <= i < em0.executors.len() ==> {
                        let o = em0.executors[i];
                        let c = #[trigger] self@.em.executors[i];
                        &&& c.meta == o.meta
                        &&& c.last_heartbeat == o.last_heartbeat
                        &&& c.reserved == o.reserved
                        &&& c.available == o.available + count_where(
                            fm.take(k as int),
                            seq_eq_fn(o.meta.id),
                        )
                        &&& c.bound == o.bound - count_where(
                            fm.take(k as int),
                            seq_eq_fn(o.meta.id),
                        )
                    },
                forall|i: int|
                    0 <= i < em0.executors.len() ==> (#[trigger] em0.executors[i]).bound
                        == running_on(tm2, em0.executors[i].meta.id) + count_where(
                        fm,
                        seq_eq_fn(em0.executors[i].meta.id),
                    ),
                forall|x: int| 0 <= x < fm.len() ==> has_executor(em0, #[trigger] fm[x]),
            decreases freed.len() - k,
        {
            let ghost emc = self@.em;
            proof {
                assert(freed@[k as int]@ == fm[k as int]);
                let f = fm[k as int];
                assert(has_executor(em0, f));
                let w0 = choose|w0: int|
                    0 <= w0 < em0.executors.len() && (#[trigger] em0.executors[w0]).meta.id == f;
                assert((#[trigger] emc.executors[w0]).meta.id == f);
                assert(has_executor(emc, f));
                assert(fm =~= fm.take(k as int) + fm.skip(k as int));
                crate::counting::lemma_count_where_concat(
                    fm.take(k as int),
                    fm.skip(k as int),
                    seq_eq_fn(f),
                );
                assert(fm.skip(k as int)[0] == f);
                lemma_count_where_member_at(fm.skip(k as int), seq_eq_fn(f), 0);
                lemma_running_on_nonneg(tm2, f);
                assert forall|i: int|
                    0 <= i < emc.executors.len() && (#[trigger] emc.executors[i]).meta.id == f
                    implies emc.executors[i].bound > 0 by {
                    if i != w0 {
                        lemma_unique_ids(em0, i, w0);
                    }
                }
            }
            self.executor_manager.unbind_to_available(&freed[k]);
            proof {
                let f = fm[k as int];
                assert forall|i: int| 0 <= i < em0.executors.len() implies {
                    let o = em0.executors[i];
                    let c = #[trigger] self@.em.executors[i];
                    &&& c.meta == o.meta
                    &&& c.last_heartbeat == o.last_heartbeat
                    &&& c.reserved == o.reserved
                    &&& c.available == o.available + count_where(
                        fm.take(k as int + 1),
                        seq_eq_fn(o.meta.id),
                    )
                    &&& c.bound == o.bound - count_where(
                        fm.take(k as int + 1),
                        seq_eq_fn(o.meta.id),
                    )
                } by {
                    let o = em0.executors[i];
                    crate::counting::lemma_count_where_take_step(
                        fm,
                        seq_eq_fn(o.meta.id),
                        k as int,
                    );
                    if emc.executors[i].meta.id == f {
                        assert(seq_eq_fn(o.meta.id)(fm[k as int]));
                    } else {
                        assert(self@.em.executors[i] == emc.executors[i]);
                        assert(!seq_eq_fn(o.meta.id)(fm[k as int]));
                    }
                }
            }
            k += 1;
        }
        proof {
            assert(fm.take(fm.len() as int) =~= fm);
            assert forall|i: int|
                0 <= i < self@.em.executors.len() implies (
            #[trigger] self@.em.executors[i]).bound == running_on(
                self@.tm,
                self@.em.executors[i].meta.id,
            ) by {
                assert(em0.executors[i].bound == running_on(tm2, em0.executors[i].meta.id)
                    + count_where(fm, seq_eq_fn(em0.executors[i].meta.id)));
            }
            assert forall|j: int, sx: int, px: int|
                #![trigger self@.tm.jobs[j].stages[sx].tasks[px]]
                0 <= j < self@.tm.jobs.len() && 0 <= sx < self@.tm.jobs[j].stages.len() && 0 <= px
                    < self@.tm.jobs[j].stages[sx].tasks.len() implies (
            self@.tm.jobs[j].stages[sx].tasks[px] matches TaskModel::Running {
                executor_id: e2,
                ..
            } ==> has_executor(self@.em, e2)) by {
                match self@.tm.jobs[j].stages[sx].tasks[px] {
                    TaskModel::Running { executor_id: e2, .. } => {
                        assert(crate::execution_graph::same_structure(
                            m0.tm.jobs[j],
                            self@.tm.jobs[j],
                        ));
                        assert(self@.tm.jobs[j].stages[sx].tasks[px] == m0.tm.jobs[j].stages[
                            sx
                        ].tasks[px]);
                        assert(m0.tm.jobs[j].stages[sx].tasks[px] matches TaskModel::Running {
                            executor_id: e3,
                            ..
                        } && e3 == e2);
                        assert(has_executor(m0.em, e2));
                        let w = choose|w: int|
                            0 <= w < m0.em.executors.len() && (
                            #[trigger] m0.em.executors[w]).meta.id == e2;
                        assert((#[trigger] self@.em.executors[w]).meta.id == e2);
                    },
                    _ => {},
                }
            }
        }
        events
    }


    /// Looks a session's configuration up by id.
    pub fn get_session(&self, session_id: u64) -> (r: Result<&SessionConfig, SchedulerError>)
        ensures
            match r {
                Ok(c) => has_session(self@.sessions, session_id as int) && c@ == self@.sessions[
                    session_id as int
                ],
                Err(e) => e == SchedulerError::SessionUnknown && !has_session(
                    self@.sessions,
                    session_id as int,
                ),
            },
    {
        self.session_manager.get_session(session_id)
    }
}

/// An executor-manager change that keeps every executor's id, bound count
/// and position keeps the cross-manager invariant.
proof fn lemma_preserved_executors_wf(m0: SchedulerModel, m1: SchedulerModel)
    requires
        state_wf(m0),
        em_wf(m1.em),
        tm_wf(m1.tm),
        m1.tm == m0.tm,
        m1.em.executors.len() == m0.em.executors.len(),
        forall|i: int|
            0 <= i < m0.em.executors.len() ==> (#[trigger] m1.em.executors[i]).meta
                == m0.em.executors[i].meta && m1.em.executors[i].bound == m0.em.executors[i].bound,
    ensures
        state_wf(m1),
{
    assert forall|i: int|
        0 <= i < m1.em.executors.len() implies (#[trigger] m1.em.executors[i]).bound == running_on(
        m1.tm,
        m1.em.executors[i].meta.id,
    ) by {
        assert(m0.em.executors[i].bound == running_on(m0.tm, m0.em.executors[i].meta.id));
    }
    assert forall|j: int, s: int, p: int|
        #![trigger m1.tm.jobs[j].stages[s].tasks[p]]
        0 <= j < m1.tm.jobs.len() && 0 <= s < m1.tm.jobs[j].stages.len() && 0 <= p
            < m1.tm.jobs[j].stages[s].tasks.len() implies (m1.tm.jobs[j].stages[s].tasks[p] matches
        TaskModel::Running { executor_id, .. } ==> has_executor(m1.em, executor_id)) by {
        match m1.tm.jobs[j].stages[s].tasks[p] {
            TaskModel::Running { executor_id, .. } => {
                assert(has_executor(m0.em, executor_id));
                let w = choose|w: int|
                    0 <= w < m0.em.executors.len() && (#[trigger] m0.em.executors[w]).meta.id
                        == executor_id;
                assert((#[trigger] m1.em.executors[w]).meta.id == executor_id);
            },
            _ => {},
        }
    }
}

} // verus!
