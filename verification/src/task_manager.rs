use vstd::prelude::*;

use crate::counting::{
    count_where, lemma_count_where_bounds, lemma_count_where_member_at, lemma_count_where_push,
    lemma_sum_by_member_le, lemma_sum_by_nonneg, lemma_sum_by_update, lemma_sum_by_zero, sum_by,
};
use crate::errors::SchedulerError;
use crate::events::{event_models, EventModel, SchedulerEvent};
use crate::execution_graph::{
    apply_status, cells, graph_init, graph_wf, pending_fn, pending_in_graph, plan_cells,
    plan_models, plan_valid, running_in_graph, set_task, stage_is_local, string_models,
    ExecutionGraph, GraphModel, JobStatus, StagePlan, TaskModel, TaskState, TaskStatus,
};
use crate::executor_manager::{
    lemma_reservation_models_push, reservation_models, ExecutorReservation, ReservationModel,
};

verus! {

// ---------------------------------------------------------------------------
// Data
// ---------------------------------------------------------------------------

/// A task matched to a reservation, ready to hand to the executor.
#[derive(Clone, Debug)]
pub struct TaskAssignment {
    pub executor_id: String,
    pub job_id: String,
    /// Index of the job in the manager's submission order.
    pub job_index: usize,
    pub stage_id: usize,
    pub partition_id: usize,
}

#[verifier::ext_equal]
pub ghost struct AssignmentModel {
    pub executor_id: Seq<char>,
    pub job_id: Seq<char>,
    pub job_index: int,
    pub stage_id: int,
    pub partition_id: int,
}

impl View for TaskAssignment {
    type V = AssignmentModel;

    open spec fn view(&self) -> AssignmentModel {
        AssignmentModel {
            executor_id: self.executor_id@,
            job_id: self.job_id@,
            job_index: self.job_index as int,
            stage_id: self.stage_id as int,
            partition_id: self.partition_id as int,
        }
    }
}

pub open spec fn assignment_models(v: Seq<TaskAssignment>) -> Seq<AssignmentModel> {
    v.map_values(|a: TaskAssignment| a@)
}

pub open spec fn assignment_for(e: Seq<char>) -> spec_fn(AssignmentModel) -> bool {
    |a: AssignmentModel| a.executor_id == e
}

/// Owns every live job's execution graph; matches reservations to pending
/// tasks and ingests worker status updates.
pub struct TaskManager {
    pub jobs: Vec<ExecutionGraph>,
    /// Retry budget handed to every graph this manager builds.
    pub max_task_failures: usize,
    /// Partitions across all jobs; kept so that counting scans cannot
    /// overflow.
    pub total_cells: usize,
}

#[verifier::ext_equal]
pub ghost struct TaskManagerModel {
    pub jobs: Seq<GraphModel>,
    pub max_task_failures: int,
    pub total_cells: int,
}

impl View for TaskManager {
    type V = TaskManagerModel;

    open spec fn view(&self) -> TaskManagerModel {
        TaskManagerModel {
            jobs: Seq::new(self.jobs@.len(), |j: int| self.jobs@[j]@),
            max_task_failures: self.max_task_failures as int,
            total_cells: self.total_cells as int,
        }
    }
}

// ---------------------------------------------------------------------------
// Spec helpers
// ---------------------------------------------------------------------------

pub open spec fn graph_cells_fn() -> spec_fn(GraphModel) -> int {
    |g: GraphModel| cells(g)
}

pub open spec fn tm_wf(m: TaskManagerModel) -> bool {
    &&& 0 <= m.max_task_failures < usize::MAX as int
    &&& m.total_cells == sum_by(m.jobs, graph_cells_fn())
    &&& m.total_cells <= usize::MAX as int
    &&& forall|j: int|
        0 <= j < m.jobs.len() ==> graph_wf(#[trigger] m.jobs[j]) && m.jobs[j].max_task_failures
            == m.max_task_failures
    &&& forall|i: int, j: int|
        #![trigger m.jobs[i], m.jobs[j]]
        0 <= i < m.jobs.len() && 0 <= j < m.jobs.len() && i != j ==> m.jobs[i].job_id
            != m.jobs[j].job_id
}

pub open spec fn has_job(m: TaskManagerModel, id: Seq<char>) -> bool {
    exists|j: int| 0 <= j < m.jobs.len() && (#[trigger] m.jobs[j]).job_id == id
}

pub proof fn lemma_unique_job_ids(m: TaskManagerModel, i: int, j: int)
    requires
        tm_wf(m),
        0 <= i < m.jobs.len(),
        0 <= j < m.jobs.len(),
        i != j,
    ensures
        m.jobs[i].job_id != m.jobs[j].job_id,
{
}

pub open spec fn graph_running_fn(e: Seq<char>) -> spec_fn(GraphModel) -> int {
    |g: GraphModel| running_in_graph(g, e)
}

/// Tasks running on executor `e` across all jobs.
pub open spec fn running_on(m: TaskManagerModel, e: Seq<char>) -> int {
    sum_by(m.jobs, graph_running_fn(e))
}

pub open spec fn active_pending_fn() -> spec_fn(GraphModel) -> int {
    |g: GraphModel|
        if g.status is Active {
            pending_in_graph(g)
        } else {
            0
        }
}

/// Pending partitions of jobs that are still running their course: the pool
/// `fill_reservations` draws from.
pub open spec fn pending_active(m: TaskManagerModel) -> int {
    sum_by(m.jobs, active_pending_fn())
}

/// A partition that an offer could be matched to.
pub open spec fn task_choosable(m: TaskManagerModel, j: int, s: int, p: int) -> bool {
    &&& 0 <= j < m.jobs.len()
    &&& m.jobs[j].status is Active
    &&& 0 <= s < m.jobs[j].stages.len()
    &&& 0 <= p < m.jobs[j].stages[s].tasks.len()
    &&& m.jobs[j].stages[s].tasks[p] is Pending
}

pub open spec fn any_choosable(m: TaskManagerModel) -> bool {
    exists|j: int, s: int, p: int| task_choosable(m, j, s, p)
}

/// A choosable partition whose stage already has input data on `e`.
pub open spec fn task_local(m: TaskManagerModel, e: Seq<char>, j: int, s: int, p: int) -> bool {
    task_choosable(m, j, s, p) && stage_is_local(m.jobs[j], s, e)
}

pub open spec fn any_local(m: TaskManagerModel, e: Seq<char>) -> bool {
    exists|j: int, s: int, p: int| task_local(m, e, j, s, p)
}

/// Scan order: oldest job first, then lowest stage, then lowest partition.
pub open spec fn lex_before(j1: int, s1: int, p1: int, j2: int, s2: int, p2: int) -> bool {
    j1 < j2 || (j1 == j2 && (s1 < s2 || (s1 == s2 && p1 < p2)))
}

pub open spec fn is_first_choosable(m: TaskManagerModel, j: int, s: int, p: int) -> bool {
    &&& task_choosable(m, j, s, p)
    &&& forall|j2: int, s2: int, p2: int|
        lex_before(j2, s2, p2, j, s, p) ==> !task_choosable(m, j2, s2, p2)
}

pub open spec fn is_first_local(
    m: TaskManagerModel,
    e: Seq<char>,
    j: int,
    s: int,
    p: int,
) -> bool {
    &&& task_local(m, e, j, s, p)
    &&& forall|j2: int, s2: int, p2: int|
        lex_before(j2, s2, p2, j, s, p) ==> !task_local(m, e, j2, s2, p2)
}

/// What one matching step does: the picked partition moves from pending to
/// running on the offering executor.
pub open spec fn fill_step_result(
    m: TaskManagerModel,
    e: Seq<char>,
    a: AssignmentModel,
) -> TaskManagerModel {
    TaskManagerModel {
        jobs: m.jobs.update(
            a.job_index,
            set_task(
                m.jobs[a.job_index],
                a.stage_id,
                a.partition_id,
                TaskModel::Running {
                    executor_id: e,
                    attempts: m.jobs[a.job_index].stages[a.stage_id].tasks[
                        a.partition_id
                    ]->Pending_attempts,
                },
            ),
        ),
        ..m
    }
}

/// One matching step: the partition picked for an offer from executor `e`
/// is the first local choosable one, or, when nothing is local, the first
/// choosable one in scan order.
pub open spec fn fill_step_ok(m: TaskManagerModel, e: Seq<char>, a: AssignmentModel) -> bool {
    &&& 0 <= a.job_index < m.jobs.len()
    &&& m.jobs[a.job_index].job_id == a.job_id
    &&& a.executor_id == e
    &&& task_choosable(m, a.job_index, a.stage_id, a.partition_id)
    &&& (any_local(m, e) ==> is_first_local(m, e, a.job_index, a.stage_id, a.partition_id))
    &&& (!any_local(m, e) ==> is_first_choosable(m, a.job_index, a.stage_id, a.partition_id))
}

/// The whole matching pass: reservations are walked in order; each gets the
/// policy's first pending task while one exists; as soon as none is left,
/// the rest of the walk assigns nothing.
pub open spec fn fill_ok(
    m: TaskManagerModel,
    rs: Seq<ReservationModel>,
    assigns: Seq<AssignmentModel>,
    m2: TaskManagerModel,
) -> bool
    decreases rs.len(),
{
    if rs.len() == 0 {
        assigns.len() == 0 && m2 == m
    } else if !any_choosable(m) {
        assigns.len() == 0 && m2 == m
    } else {
        &&& assigns.len() >= 1
        &&& fill_step_ok(m, rs[0].executor_id, assigns[0])
        &&& fill_ok(
            fill_step_result(m, rs[0].executor_id, assigns[0]),
            rs.drop_first(),
            assigns.drop_first(),
            m2,
        )
    }
}

/// Extends a full pass by one more consumed reservation.
proof fn lemma_fill_ok_snoc(
    m0: TaskManagerModel,
    rs: Seq<ReservationModel>,
    assigns: Seq<AssignmentModel>,
    m1: TaskManagerModel,
    r: ReservationModel,
    a: AssignmentModel,
    m2: TaskManagerModel,
)
    requires
        fill_ok(m0, rs, assigns, m1),
        assigns.len() == rs.len(),
        any_choosable(m1),
        fill_step_ok(m1, r.executor_id, a),
        m2 == fill_step_result(m1, r.executor_id, a),
    ensures
        fill_ok(m0, rs.push(r), assigns.push(a), m2),
    decreases rs.len(),
{
    assert(rs.push(r)[0] == if rs.len() == 0 { r } else { rs[0] });
    if rs.len() == 0 {
        assert(m1 == m0);
        assert(rs.push(r).drop_first() =~= Seq::<ReservationModel>::empty());
        assert(assigns.push(a).drop_first() =~= Seq::<AssignmentModel>::empty());
        assert(fill_ok(m2, rs.push(r).drop_first(), assigns.push(a).drop_first(), m2));
    } else {
        assert(any_choosable(m0)) by {
            if !any_choosable(m0) {
                assert(assigns.len() == 0);
            }
        }
        let mid = fill_step_result(m0, rs[0].executor_id, assigns[0]);
        lemma_fill_ok_snoc(mid, rs.drop_first(), assigns.drop_first(), m1, r, a, m2);
        assert(rs.push(r).drop_first() =~= rs.drop_first().push(r));
        assert(assigns.push(a).drop_first() =~= assigns.drop_first().push(a));
        assert(assigns.push(a)[0] == assigns[0]);
    }
}

/// Once the pool is empty, any remaining reservations pass through.
proof fn lemma_fill_ok_stop(
    m0: TaskManagerModel,
    rs: Seq<ReservationModel>,
    assigns: Seq<AssignmentModel>,
    m1: TaskManagerModel,
    suffix: Seq<ReservationModel>,
)
    requires
        fill_ok(m0, rs, assigns, m1),
        assigns.len() == rs.len(),
        !any_choosable(m1),
    ensures
        fill_ok(m0, rs + suffix, assigns, m1),
    decreases rs.len(),
{
    if rs.len() == 0 {
        assert(m1 == m0);
        assert(rs + suffix =~= suffix);
        if suffix.len() > 0 {
            assert(fill_ok(m0, suffix, assigns, m1));
        }
    } else {
        assert(any_choosable(m0)) by {
            if !any_choosable(m0) {
                assert(assigns.len() == 0);
            }
        }
        let mid = fill_step_result(m0, rs[0].executor_id, assigns[0]);
        lemma_fill_ok_stop(mid, rs.drop_first(), assigns.drop_first(), m1, suffix);
        assert((rs + suffix).drop_first() =~= rs.drop_first() + suffix);
        assert((rs + suffix)[0] == rs[0]);
    }
}

/// The matching pool is nonempty exactly when some active job still has a
/// pending partition.
pub proof fn lemma_pending_choosable(m: TaskManagerModel)
    requires
        tm_wf(m),
    ensures
        pending_active(m) > 0 <==> any_choosable(m),
        pending_active(m) >= 0,
{
    assert forall|j: int| 0 <= j < m.jobs.len() implies active_pending_fn()(
        #[trigger] m.jobs[j],
    ) >= 0 by {
        if m.jobs[j].status is Active {
            lemma_pending_in_graph_nonneg(m.jobs[j]);
        }
    }
    lemma_sum_by_nonneg(m.jobs, active_pending_fn());
    if pending_active(m) > 0 {
        assert(!(forall|j: int|
            0 <= j < m.jobs.len() ==> active_pending_fn()(#[trigger] m.jobs[j]) == 0)) by {
            if forall|j: int| 0 <= j < m.jobs.len() ==> active_pending_fn()(#[trigger] m.jobs[j])
                == 0 {
                lemma_sum_by_zero(m.jobs, active_pending_fn());
            }
        }
        let j = choose|j: int|
            0 <= j < m.jobs.len() && active_pending_fn()(#[trigger] m.jobs[j]) != 0;
        assert(m.jobs[j].status is Active);
        assert(pending_in_graph(m.jobs[j]) != 0);
        lemma_pending_in_graph_member(m.jobs[j]);
        let (s, p) = choose|s: int, p: int|
            0 <= s < m.jobs[j].stages.len() && 0 <= p < m.jobs[j].stages[s].tasks.len() && (
            #[trigger] m.jobs[j].stages[s].tasks[p]) is Pending;
        assert(task_choosable(m, j, s, p));
    }
    if any_choosable(m) {
        let (j, s, p) = choose|j: int, s: int, p: int| task_choosable(m, j, s, p);
        lemma_pending_in_graph_at_least(m.jobs[j], s, p);
        assert(active_pending_fn()(m.jobs[j]) >= 1);
        lemma_sum_by_member_le(m.jobs, active_pending_fn(), j);
    }
}

pub proof fn lemma_pending_in_graph_nonneg(g: GraphModel)
    ensures
        pending_in_graph(g) >= 0,
{
    assert forall|s: int| 0 <= s < g.stages.len() implies crate::execution_graph::stage_count_fn(
        pending_fn(),
    )(#[trigger] g.stages[s]) >= 0 by {
        lemma_count_where_bounds(g.stages[s].tasks, pending_fn());
    }
    lemma_sum_by_nonneg(g.stages, crate::execution_graph::stage_count_fn(pending_fn()));
}

proof fn lemma_pending_in_graph_member(g: GraphModel)
    requires
        pending_in_graph(g) != 0,
    ensures
        exists|s: int, p: int|
            0 <= s < g.stages.len() && 0 <= p < g.stages[s].tasks.len() && (
            #[trigger] g.stages[s].tasks[p]) is Pending,
{
    let f = crate::execution_graph::stage_count_fn(pending_fn());
    assert(!(forall|s: int| 0 <= s < g.stages.len() ==> f(#[trigger] g.stages[s]) == 0)) by {
        if forall|s: int| 0 <= s < g.stages.len() ==> f(#[trigger] g.stages[s]) == 0 {
            lemma_sum_by_zero(g.stages, f);
        }
    }
    let s = choose|s: int| 0 <= s < g.stages.len() && f(#[trigger] g.stages[s]) != 0;
    assert(count_where(g.stages[s].tasks, pending_fn()) != 0);
    lemma_count_where_bounds(g.stages[s].tasks, pending_fn());
    crate::counting::lemma_count_where_member(g.stages[s].tasks, pending_fn());
    let p = choose|p: int|
        0 <= p < g.stages[s].tasks.len() && pending_fn()(#[trigger] g.stages[s].tasks[p]);
    assert((g.stages[s].tasks[p]) is Pending);
}

proof fn lemma_pending_in_graph_at_least(g: GraphModel, s: int, p: int)
    requires
        0 <= s < g.stages.len(),
        0 <= p < g.stages[s].tasks.len(),
        g.stages[s].tasks[p] is Pending,
    ensures
        pending_in_graph(g) >= 1,
{
    let f = crate::execution_graph::stage_count_fn(pending_fn());
    lemma_count_where_member_at(g.stages[s].tasks, pending_fn(), p);
    assert(f(g.stages[s]) >= 1);
    assert forall|x: int| 0 <= x < g.stages.len() implies f(#[trigger] g.stages[x]) >= 0 by {
        lemma_count_where_bounds(g.stages[x].tasks, pending_fn());
    }
    lemma_sum_by_member_le(g.stages, f, s);
}

// ---------------------------------------------------------------------------
// Status folding model
// ---------------------------------------------------------------------------

pub open spec fn status_models(v: Seq<TaskStatus>) -> Seq<crate::execution_graph::TaskStatusModel> {
    v.map_values(|s: TaskStatus| s@)
}

#[verifier::ext_equal]
pub ghost struct TaskManagerEffect {
    pub tm: TaskManagerModel,
    pub events: Seq<EventModel>,
    pub freed: Seq<Seq<char>>,
}

pub open spec fn job_index_of(m: TaskManagerModel, id: Seq<char>) -> int {
    choose|j: int| 0 <= j < m.jobs.len() && (#[trigger] m.jobs[j]).job_id == id
}

/// One status lands on the graph of the job it names; a status for an
/// unknown job changes nothing.
pub open spec fn tm_apply_status(
    m: TaskManagerModel,
    st: crate::execution_graph::TaskStatusModel,
    from: Seq<char>,
) -> TaskManagerEffect {
    if has_job(m, st.job_id) {
        let j = job_index_of(m, st.job_id);
        let eff = apply_status(m.jobs[j], st, from);
        TaskManagerEffect {
            tm: TaskManagerModel { jobs: m.jobs.update(j, eff.graph), ..m },
            events: eff.events,
            freed: eff.freed,
        }
    } else {
        TaskManagerEffect { tm: m, events: Seq::empty(), freed: Seq::empty() }
    }
}

/// A batch of statuses lands in order; events and freed slots concatenate.
pub open spec fn tm_apply_all(
    m: TaskManagerModel,
    sts: Seq<crate::execution_graph::TaskStatusModel>,
    from: Seq<char>,
) -> TaskManagerEffect
    decreases sts.len(),
{
    if sts.len() == 0 {
        TaskManagerEffect { tm: m, events: Seq::empty(), freed: Seq::empty() }
    } else {
        let prev = tm_apply_all(m, sts.drop_last(), from);
        let step = tm_apply_status(prev.tm, sts.last(), from);
        TaskManagerEffect {
            tm: step.tm,
            events: prev.events + step.events,
            freed: prev.freed + step.freed,
        }
    }
}

/// One status keeps the manager well-formed and its jobs in place.
pub proof fn lemma_tm_apply_status_facts(
    m: TaskManagerModel,
    st: crate::execution_graph::TaskStatusModel,
    from: Seq<char>,
)
    requires
        tm_wf(m),
    ensures
        tm_wf(tm_apply_status(m, st, from).tm),
        tm_apply_status(m, st, from).tm.jobs.len() == m.jobs.len(),
        tm_apply_status(m, st, from).tm.max_task_failures == m.max_task_failures,
        tm_apply_status(m, st, from).tm.total_cells == m.total_cells,
        forall|j: int|
            0 <= j < m.jobs.len() ==> (#[trigger] tm_apply_status(m, st, from).tm.jobs[j]).job_id
                == m.jobs[j].job_id && crate::execution_graph::same_structure(
                m.jobs[j],
                tm_apply_status(m, st, from).tm.jobs[j],
            ),
        forall|j: int, s: int, p: int|
            #![trigger tm_apply_status(m, st, from).tm.jobs[j].stages[s].tasks[p]]
            {
                let b = tm_apply_status(m, st, from).tm;
                0 <= j < b.jobs.len() && 0 <= s < b.jobs[j].stages.len() && 0 <= p
                    < b.jobs[j].stages[s].tasks.len() ==> (b.jobs[j].stages[s].tasks[p] is Running
                    ==> b.jobs[j].stages[s].tasks[p] == m.jobs[j].stages[s].tasks[p])
            },
{
    if has_job(m, st.job_id) {
        let j = job_index_of(m, st.job_id);
        assert(0 <= j < m.jobs.len() && m.jobs[j].job_id == st.job_id);
        crate::execution_graph::lemma_apply_status_wf(m.jobs[j], st, from);
        let b = tm_apply_status(m, st, from).tm;
        let eff = apply_status(m.jobs[j], st, from);
        assert(cells(eff.graph) == cells(m.jobs[j])) by {
            crate::execution_graph::lemma_same_structure_cells(m.jobs[j], eff.graph);
        }
        lemma_sum_by_update(m.jobs, graph_cells_fn(), j, eff.graph);
        assert forall|x: int| 0 <= x < b.jobs.len() implies graph_wf(#[trigger] b.jobs[x])
            && b.jobs[x].max_task_failures == b.max_task_failures by {
            if x != j {
                assert(b.jobs[x] == m.jobs[x]);
            }
        }
        assert forall|x: int, y: int|
            #![trigger b.jobs[x], b.jobs[y]]
            0 <= x < b.jobs.len() && 0 <= y < b.jobs.len() && x != y implies b.jobs[x].job_id
            != b.jobs[y].job_id by {
            lemma_unique_job_ids(m, x, y);
        }
        assert forall|x: int|
            0 <= x < m.jobs.len() implies crate::execution_graph::same_structure(
            m.jobs[x],
            #[trigger] b.jobs[x],
        ) by {
            if x != j {
                assert(b.jobs[x] == m.jobs[x]);
            }
        }
    }
}

/// One status frees exactly the slots its freed list names.
pub proof fn lemma_tm_apply_status_running(
    m: TaskManagerModel,
    st: crate::execution_graph::TaskStatusModel,
    from: Seq<char>,
    e: Seq<char>,
)
    requires
        tm_wf(m),
    ensures
        running_on(tm_apply_status(m, st, from).tm, e) == running_on(m, e) - count_where(
            tm_apply_status(m, st, from).freed,
            crate::execution_graph::seq_eq_fn(e),
        ),
{
    if has_job(m, st.job_id) {
        let j = job_index_of(m, st.job_id);
        assert(0 <= j < m.jobs.len() && m.jobs[j].job_id == st.job_id);
        let eff = apply_status(m.jobs[j], st, from);
        crate::execution_graph::lemma_apply_status_running(m.jobs[j], st, from, e);
        lemma_sum_by_update(m.jobs, graph_running_fn(e), j, eff.graph);
    }
}

/// Folding a batch: well-formedness, frame, and slot accounting.
pub proof fn lemma_tm_apply_all_facts(
    m: TaskManagerModel,
    sts: Seq<crate::execution_graph::TaskStatusModel>,
    from: Seq<char>,
)
    requires
        tm_wf(m),
    ensures
        tm_wf(tm_apply_all(m, sts, from).tm),
        tm_apply_all(m, sts, from).tm.jobs.len() == m.jobs.len(),
        tm_apply_all(m, sts, from).tm.max_task_failures == m.max_task_failures,
        forall|j: int|
            0 <= j < m.jobs.len() ==> (#[trigger] tm_apply_all(m, sts, from).tm.jobs[j]).job_id
                == m.jobs[j].job_id && crate::execution_graph::same_structure(
                m.jobs[j],
                tm_apply_all(m, sts, from).tm.jobs[j],
            ),
        forall|j: int, s: int, p: int|
            #![trigger tm_apply_all(m, sts, from).tm.jobs[j].stages[s].tasks[p]]
            {
                let b = tm_apply_all(m, sts, from).tm;
                0 <= j < b.jobs.len() && 0 <= s < b.jobs[j].stages.len() && 0 <= p
                    < b.jobs[j].stages[s].tasks.len() ==> (b.jobs[j].stages[s].tasks[p] is Running
                    ==> b.jobs[j].stages[s].tasks[p] == m.jobs[j].stages[s].tasks[p])
            },
    decreases sts.len(),
{
    if sts.len() > 0 {
        lemma_tm_apply_all_facts(m, sts.drop_last(), from);
        let prev = tm_apply_all(m, sts.drop_last(), from);
        lemma_tm_apply_status_facts(prev.tm, sts.last(), from);
        let b = tm_apply_all(m, sts, from).tm;
        assert forall|x: int|
            0 <= x < m.jobs.len() implies crate::execution_graph::same_structure(
            m.jobs[x],
            #[trigger] b.jobs[x],
        ) by {
            assert(crate::execution_graph::same_structure(m.jobs[x], prev.tm.jobs[x]));
            assert(crate::execution_graph::same_structure(prev.tm.jobs[x], b.jobs[x]));
        }
        assert forall|j: int, s: int, p: int|
            #![trigger b.jobs[j].stages[s].tasks[p]]
            0 <= j < b.jobs.len() && 0 <= s < b.jobs[j].stages.len() && 0 <= p
                < b.jobs[j].stages[s].tasks.len() implies (b.jobs[j].stages[s].tasks[p] is Running
            ==> b.jobs[j].stages[s].tasks[p] == m.jobs[j].stages[s].tasks[p]) by {
            if b.jobs[j].stages[s].tasks[p] is Running {
                assert(b.jobs[j].stages[s].tasks[p] == prev.tm.jobs[j].stages[s].tasks[p]);
            }
        }
    }
}

pub proof fn lemma_tm_apply_all_running(
    m: TaskManagerModel,
    sts: Seq<crate::execution_graph::TaskStatusModel>,
    from: Seq<char>,
    e: Seq<char>,
)
    requires
        tm_wf(m),
    ensures
        running_on(tm_apply_all(m, sts, from).tm, e) == running_on(m, e) - count_where(
            tm_apply_all(m, sts, from).freed,
            crate::execution_graph::seq_eq_fn(e),
        ),
    decreases sts.len(),
{
    if sts.len() > 0 {
        lemma_tm_apply_all_running(m, sts.drop_last(), from, e);
        lemma_tm_apply_all_facts(m, sts.drop_last(), from);
        let prev = tm_apply_all(m, sts.drop_last(), from);
        lemma_tm_apply_status_running(prev.tm, sts.last(), from, e);
        crate::counting::lemma_count_where_concat(
            prev.freed,
            tm_apply_status(prev.tm, sts.last(), from).freed,
            crate::execution_graph::seq_eq_fn(e),
        );
    }
}

/// One matching step moves one slot of the offering executor from the
/// pending pool to the running pool, and nothing else.
proof fn lemma_fill_step_running(
    m: TaskManagerModel,
    e: Seq<char>,
    a: AssignmentModel,
    e2: Seq<char>,
)
    requires
        fill_step_ok(m, e, a),
    ensures
        running_on(fill_step_result(m, e, a), e2) == running_on(m, e2) + if e2 == e {
            1int
        } else {
            0int
        },
{
    let g = m.jobs[a.job_index];
    let t = TaskModel::Running {
        executor_id: e,
        attempts: g.stages[a.stage_id].tasks[a.partition_id]->Pending_attempts,
    };
    crate::execution_graph::lemma_graph_count_set_task(
        g,
        a.stage_id,
        a.partition_id,
        t,
        crate::execution_graph::running_on_fn(e2),
    );
    lemma_sum_by_update(
        m.jobs,
        graph_running_fn(e2),
        a.job_index,
        set_task(g, a.stage_id, a.partition_id, t),
    );
}

proof fn lemma_fill_step_pending(m: TaskManagerModel, e: Seq<char>, a: AssignmentModel)
    requires
        fill_step_ok(m, e, a),
    ensures
        pending_active(fill_step_result(m, e, a)) == pending_active(m) - 1,
{
    let g = m.jobs[a.job_index];
    let t = TaskModel::Running {
        executor_id: e,
        attempts: g.stages[a.stage_id].tasks[a.partition_id]->Pending_attempts,
    };
    crate::execution_graph::lemma_graph_count_set_task(
        g,
        a.stage_id,
        a.partition_id,
        t,
        pending_fn(),
    );
    lemma_sum_by_update(
        m.jobs,
        active_pending_fn(),
        a.job_index,
        set_task(g, a.stage_id, a.partition_id, t),
    );
}

/// One matching step keeps the manager well-formed and its frame intact.
proof fn lemma_fill_step_frame(m: TaskManagerModel, e: Seq<char>, a: AssignmentModel)
    requires
        tm_wf(m),
        fill_step_ok(m, e, a),
    ensures
        tm_wf(fill_step_result(m, e, a)),
        fill_step_result(m, e, a).jobs.len() == m.jobs.len(),
        fill_step_result(m, e, a).max_task_failures == m.max_task_failures,
        fill_step_result(m, e, a).total_cells == m.total_cells,
        forall|j: int|
            0 <= j < m.jobs.len() ==> (#[trigger] fill_step_result(m, e, a).jobs[j]).job_id
                == m.jobs[j].job_id,
{
    let g = m.jobs[a.job_index];
    let attempts = g.stages[a.stage_id].tasks[a.partition_id]->Pending_attempts;
    let t = TaskModel::Running { executor_id: e, attempts };
    let g2 = set_task(g, a.stage_id, a.partition_id, t);
    crate::execution_graph::lemma_assign_wf(g, a.stage_id, a.partition_id, e, attempts);
    let b = fill_step_result(m, e, a);
    assert(cells(g2) == cells(g)) by {
        crate::execution_graph::lemma_same_structure_cells(g, g2);
    }
    lemma_sum_by_update(m.jobs, graph_cells_fn(), a.job_index, g2);
    assert forall|x: int| 0 <= x < b.jobs.len() implies graph_wf(#[trigger] b.jobs[x])
        && b.jobs[x].max_task_failures == b.max_task_failures by {
        if x != a.job_index {
            assert(b.jobs[x] == m.jobs[x]);
        }
    }
    assert forall|x: int, y: int|
        #![trigger b.jobs[x], b.jobs[y]]
        0 <= x < b.jobs.len() && 0 <= y < b.jobs.len() && x != y implies b.jobs[x].job_id
        != b.jobs[y].job_id by {
        lemma_unique_job_ids(m, x, y);
    }
}

/// A pending partition never outnumbers the graph's partitions.
proof fn lemma_pending_le_cells(g: GraphModel)
    ensures
        pending_in_graph(g) <= cells(g),
{
    let f = crate::execution_graph::stage_count_fn(pending_fn());
    assert forall|s: int| 0 <= s < g.stages.len() implies f(#[trigger] g.stages[s])
        <= crate::execution_graph::stage_size_fn()(g.stages[s]) by {
        lemma_count_where_bounds(g.stages[s].tasks, pending_fn());
    }
    crate::counting::lemma_sum_by_le(g.stages, f, crate::execution_graph::stage_size_fn());
}

/// Which partitions an offer scan may stop at.
pub open spec fn scan_cond(
    m: TaskManagerModel,
    e: Seq<char>,
    local_only: bool,
    j: int,
    s: int,
    p: int,
) -> bool {
    task_choosable(m, j, s, p) && (local_only ==> stage_is_local(m.jobs[j], s, e))
}

// ---------------------------------------------------------------------------
// Operations
// ---------------------------------------------------------------------------

impl TaskManager {
    /// A manager with no jobs and the given retry budget.
    pub fn new(max_task_failures: usize) -> (r: Self)
        requires
            max_task_failures < usize::MAX,
        ensures
            tm_wf(r@),
            r@.jobs.len() == 0,
            r@.max_task_failures == max_task_failures as int,
    {
        let r = TaskManager { jobs: Vec::new(), max_task_failures, total_cells: 0 };
        proof {
            assert(r@.jobs =~= Seq::<GraphModel>::empty());
        }
        r
    }

    /// Builds and queues the execution graph for a fresh job submission.
    pub fn submit_job(&mut self, job_id: String, session_id: u64, plan: &Vec<StagePlan>) -> (r:
        Result<(), SchedulerError>)
        requires
            tm_wf(old(self)@),
        ensures
            tm_wf(final(self)@),
            ({
                let plans = plan_models(plan@);
                let dup = has_job(old(self)@, job_id@);
                &&& (dup ==> (r matches Err(SchedulerError::JobAlreadyExists)) && final(self)@
                    == old(self)@)
                &&& (!dup && !plan_valid(plans) ==> (r matches Err(
                    SchedulerError::InvalidJobPlan,
                )) && final(self)@ == old(self)@)
                &&& (!dup && plan_valid(plans) && plan_cells(plans) + old(self)@.total_cells
                    > usize::MAX as int ==> (r matches Err(SchedulerError::TooManyTasks))
                    && final(self)@ == old(self)@)
                &&& (!dup && plan_valid(plans) && plan_cells(plans) + old(self)@.total_cells
                    <= usize::MAX as int ==> (r matches Ok(())) && final(self)@.jobs == old(self)@.jobs.push(
                    graph_init(
                        job_id@,
                        session_id as int,
                        plans,
                        old(self)@.max_task_failures,
                    ),
                ) && final(self)@.max_task_failures == old(self)@.max_task_failures)
            }),
    {
        let ghost plans = plan_models(plan@);
        let mut i: usize = 0;
        while i < self.jobs.len()
            invariant
                0 <= i <= self.jobs.len(),
                self@ == old(self)@,
                tm_wf(self@),
                forall|x: int| 0 <= x < i ==> (#[trigger] self@.jobs[x]).job_id != job_id@,
            decreases self.jobs.len() - i,
        {
            if self.jobs[i].job_id == job_id {
                proof {
                    assert((#[trigger] old(self)@.jobs[i as int]).job_id == job_id@);
                    assert(has_job(old(self)@, job_id@));
                }
                return Err(SchedulerError::JobAlreadyExists);
            }
            i += 1;
        }
        let graph = match ExecutionGraph::new(job_id, session_id, plan, self.max_task_failures) {
            Ok(g) => g,
            Err(e) => {
                proof {
                    if e == SchedulerError::TooManyTasks {
                        assert(plan_cells(plans) > usize::MAX as int);
                        assert(self@.total_cells >= 0) by {
                            assert forall|x: int|
                                0 <= x < self@.jobs.len() implies graph_cells_fn()(
                                #[trigger] self@.jobs[x],
                            ) >= 0 by {
                                lemma_cells_nonneg(self@.jobs[x]);
                            }
                            lemma_sum_by_nonneg(self@.jobs, graph_cells_fn());
                        }
                    }
                }
                return Err(e);
            },
        };
        // count the new graph's partitions into the global budget
        let mut added: usize = 0;
        let mut c: usize = 0;
        while c < plan.len()
            invariant
                0 <= c <= plan.len(),
                plans == plan_models(plan@),
                plans.len() == plan@.len(),
                plan_valid(plans),
                plan_cells(plans) <= usize::MAX as int,
                forall|x: int| 0 <= x < plans.len() ==> (#[trigger] plans[x]) == plan@[x]@,
                added as int == plan_cells(plans.take(c as int)),
            decreases plan.len() - c,
        {
            proof {
                crate::counting::lemma_sum_by_take_step(
                    plans,
                    crate::execution_graph::plan_size_fn(),
                    c as int,
                );
                assert forall|x: int|
                    0 <= x < plans.len() implies crate::execution_graph::plan_size_fn()(
                    #[trigger] plans[x],
                ) >= 0 by {}
                crate::counting::lemma_sum_by_take_le(
                    plans,
                    crate::execution_graph::plan_size_fn(),
                    c as int + 1,
                );
            }
            added = added + plan[c].partitions;
            c += 1;
        }
        proof {
            assert(plans.take(plans.len() as int) =~= plans);
        }
        match self.total_cells.checked_add(added) {
            Some(t) => {
                let ghost before = self@;
                self.total_cells = t;
                self.jobs.push(graph);
                proof {
                    assert(self@.jobs =~= before.jobs.push(graph@));
                    assert(cells(graph@) == plan_cells(plans)) by {
                        crate::counting::lemma_sum_by_congruent(
                            graph@.stages,
                            plans,
                            crate::execution_graph::stage_size_fn(),
                            crate::execution_graph::plan_size_fn(),
                        );
                    }
                    crate::counting::lemma_sum_by_push(before.jobs, graph_cells_fn(), graph@);
                    assert forall|x: int| 0 <= x < self@.jobs.len() implies graph_wf(
                        #[trigger] self@.jobs[x],
                    ) && self@.jobs[x].max_task_failures == self@.max_task_failures by {
                        if x < before.jobs.len() {
                            assert(self@.jobs[x] == before.jobs[x]);
                        }
                    }
                    assert forall|x: int, y: int|
                        #![trigger self@.jobs[x], self@.jobs[y]]
                        0 <= x < self@.jobs.len() && 0 <= y < self@.jobs.len() && x != y
                        implies self@.jobs[x].job_id != self@.jobs[y].job_id by {
                        if x < before.jobs.len() && y < before.jobs.len() {
                            lemma_unique_job_ids(before, x, y);
                        } else if x < before.jobs.len() {
                            assert(self@.jobs[y].job_id == graph@.job_id);
                        } else {
                            assert(self@.jobs[x].job_id == graph@.job_id);
                        }
                    }
                }
                Ok(())
            },
            None => {
                Err(SchedulerError::TooManyTasks)
            },
        }
    }

    /// Looks for the first offerable partition in scan order, restricted to
    /// stages with input data on the offering executor when `local_only`.
    fn scan_task(&self, executor_id: &String, local_only: bool) -> (r: Option<
        (usize, usize, usize),
    >)
        requires
            tm_wf(self@),
        ensures
            match r {
                Some(t) => scan_cond(
                    self@,
                    executor_id@,
                    local_only,
                    t.0 as int,
                    t.1 as int,
                    t.2 as int,
                ) && forall|j2: int, s2: int, p2: int|
                    lex_before(j2, s2, p2, t.0 as int, t.1 as int, t.2 as int) ==> !(
                    #[trigger] scan_cond(self@, executor_id@, local_only, j2, s2, p2)),
                None => forall|j2: int, s2: int, p2: int|
                    !(#[trigger] scan_cond(self@, executor_id@, local_only, j2, s2, p2)),
            },
    {
        let mut j: usize = 0;
        while j < self.jobs.len()
            invariant
                0 <= j <= self.jobs.len(),
                tm_wf(self@),
                forall|j2: int, s2: int, p2: int|
                    j2 < j ==> !(#[trigger] scan_cond(self@, executor_id@, local_only, j2, s2, p2)),
            decreases self.jobs.len() - j,
        {
            let active = match &self.jobs[j].status {
                JobStatus::Active => true,
                _ => false,
            };
            if active {
                let ns = self.jobs[j].stages.len();
                let mut s: usize = 0;
                while s < ns
                    invariant
                        0 <= s <= ns,
                        j < self.jobs.len(),
                        tm_wf(self@),
                        ns == self@.jobs[j as int].stages.len(),
                        self@.jobs[j as int].status is Active,
                        forall|j2: int, s2: int, p2: int|
                            j2 < j ==> !(#[trigger] scan_cond(
                                self@,
                                executor_id@,
                                local_only,
                                j2,
                                s2,
                                p2,
                            )),
                        forall|s2: int, p2: int|
                            s2 < s ==> !(#[trigger] scan_cond(
                                self@,
                                executor_id@,
                                local_only,
                                j as int,
                                s2,
                                p2,
                            )),
                    decreases ns - s,
                {
                    proof {
                        assert(graph_wf(self@.jobs[j as int]));
                        assert forall|k: int|
                            0 <= k < self@.jobs[j as int].stages[s as int].inputs.len() implies 0
                            <= (#[trigger] self@.jobs[j as int].stages[s as int].inputs[k])
                            < self@.jobs[j as int].stages.len() by {
                            assert(self@.jobs[j as int].stages[s as int].inputs[k] < s as int);
                        }
                    }
                    let use_stage = if local_only {
                        self.jobs[j].stage_local_to(s, executor_id)
                    } else {
                        true
                    };
                    if use_stage {
                        let np = self.jobs[j].stages[s].tasks.len();
                        let mut p: usize = 0;
                        while p < np
                            invariant
                                0 <= p <= np,
                                j < self.jobs.len(),
                                s < self@.jobs[j as int].stages.len(),
                                tm_wf(self@),
                                np == self@.jobs[j as int].stages[s as int].tasks.len(),
                                self@.jobs[j as int].status is Active,
                                local_only ==> stage_is_local(
                                    self@.jobs[j as int],
                                    s as int,
                                    executor_id@,
                                ),
                                forall|j2: int, s2: int, p2: int|
                                    j2 < j ==> !(#[trigger] scan_cond(
                                        self@,
                                        executor_id@,
                                        local_only,
                                        j2,
                                        s2,
                                        p2,
                                    )),
                                forall|s2: int, p2: int|
                                    s2 < s ==> !(#[trigger] scan_cond(
                                        self@,
                                        executor_id@,
                                        local_only,
                                        j as int,
                                        s2,
                                        p2,
                                    )),
                                forall|p2: int|
                                    p2 < p ==> !(#[trigger] scan_cond(
                                        self@,
                                        executor_id@,
                                        local_only,
                                        j as int,
                                        s as int,
                                        p2,
                                    )),
                            decreases np - p,
                        {
                            let hit = match &self.jobs[j].stages[s].tasks[p] {
                                TaskState::Pending { .. } => true,
                                _ => false,
                            };
                            if hit {
                                proof {
                                    assert(self@.jobs[j as int].stages[s as int].tasks[p as int]
                                        is Pending);
                                    assert(scan_cond(
                                        self@,
                                        executor_id@,
                                        local_only,
                                        j as int,
                                        s as int,
                                        p as int,
                                    ));
                                }
                                return Some((j, s, p));
                            }
                            proof {
                                assert(!(self@.jobs[j as int].stages[s as int].tasks[p as int]
                                    is Pending));
                                assert(!scan_cond(
                                    self@,
                                    executor_id@,
                                    local_only,
                                    j as int,
                                    s as int,
                                    p as int,
                                ));
                            }
                            p += 1;
                        }
                        proof {
                            assert forall|p2: int|
                                !(#[trigger] scan_cond(
                                    self@,
                                    executor_id@,
                                    local_only,
                                    j as int,
                                    s as int,
                                    p2,
                                )) by {
                                if 0 <= p2 < np {
                                } else {
                                    assert(!task_choosable(self@, j as int, s as int, p2));
                                }
                            }
                        }
                    } else {
                        proof {
                            assert forall|p2: int|
                                !(#[trigger] scan_cond(
                                    self@,
                                    executor_id@,
                                    local_only,
                                    j as int,
                                    s as int,
                                    p2,
                                )) by {}
                        }
                    }
                    s += 1;
                }
                proof {
                    assert forall|s2: int, p2: int|
                        !(#[trigger] scan_cond(
                            self@,
                            executor_id@,
                            local_only,
                            j as int,
                            s2,
                            p2,
                        )) by {
                        if 0 <= s2 < ns {
                        } else {
                            assert(!task_choosable(self@, j as int, s2, p2));
                        }
                    }
                }
            } else {
                proof {
                    assert(!(self@.jobs[j as int].status is Active));
                    assert forall|s2: int, p2: int|
                        !(#[trigger] scan_cond(
                            self@,
                            executor_id@,
                            local_only,
                            j as int,
                            s2,
                            p2,
                        )) by {
                        assert(!task_choosable(self@, j as int, s2, p2));
                    }
                }
            }
            j += 1;
        }
        proof {
            assert forall|j2: int, s2: int, p2: int|
                !(#[trigger] scan_cond(self@, executor_id@, local_only, j2, s2, p2)) by {
                if 0 <= j2 < self@.jobs.len() {
                } else {
                    assert(!task_choosable(self@, j2, s2, p2));
                }
            }
        }
        None
    }

    /// Picks the partition the matching policy owes an offer from
    /// `executor_id`: the first local pending task, else the first pending
    /// task, else nothing.
    fn pick_task(&self, executor_id: &String) -> (r: Option<(usize, usize, usize)>)
        requires
            tm_wf(self@),
        ensures
            match r {
                Some(t) => {
                    &&& task_choosable(self@, t.0 as int, t.1 as int, t.2 as int)
                    &&& (any_local(self@, executor_id@) ==> is_first_local(
                        self@,
                        executor_id@,
                        t.0 as int,
                        t.1 as int,
                        t.2 as int,
                    ))
                    &&& (!any_local(self@, executor_id@) ==> is_first_choosable(
                        self@,
                        t.0 as int,
                        t.1 as int,
                        t.2 as int,
                    ))
                },
                None => !any_choosable(self@),
            },
    {
        match self.scan_task(executor_id, true) {
            Some(t) => {
                proof {
                    assert(task_local(
                        self@,
                        executor_id@,
                        t.0 as int,
                        t.1 as int,
                        t.2 as int,
                    ));
                    assert(any_local(self@, executor_id@));
                    assert forall|j2: int, s2: int, p2: int|
                        lex_before(j2, s2, p2, t.0 as int, t.1 as int, t.2 as int)
                        implies !task_local(self@, executor_id@, j2, s2, p2) by {
                        assert(!scan_cond(self@, executor_id@, true, j2, s2, p2));
                    }
                }
                Some(t)
            },
            None => {
                proof {
                    assert forall|j2: int, s2: int, p2: int|
                        !task_local(self@, executor_id@, j2, s2, p2) by {
                        assert(!scan_cond(self@, executor_id@, true, j2, s2, p2));
                    }
                    assert(!any_local(self@, executor_id@));
                }
                match self.scan_task(executor_id, false) {
                    Some(t) => {
                        proof {
                            assert(task_choosable(self@, t.0 as int, t.1 as int, t.2 as int));
                            assert forall|j2: int, s2: int, p2: int|
                                lex_before(j2, s2, p2, t.0 as int, t.1 as int, t.2 as int)
                                implies !task_choosable(self@, j2, s2, p2) by {
                                assert(!scan_cond(self@, executor_id@, false, j2, s2, p2));
                            }
                        }
                        Some(t)
                    },
                    None => {
                        proof {
                            assert forall|j2: int, s2: int, p2: int|
                                !task_choosable(self@, j2, s2, p2) by {
                                assert(!scan_cond(self@, executor_id@, false, j2, s2, p2));
                            }
                        }
                        None
                    },
                }
            },
        }
    }

    /// How many partitions of still-active jobs are ready to run.
    pub fn pending_active_tasks(&self) -> (n: usize)
        requires
            tm_wf(self@),
        ensures
            n as int == pending_active(self@),
    {
        proof {
            assert forall|x: int| 0 <= x < self@.jobs.len() implies graph_cells_fn()(
                #[trigger] self@.jobs[x],
            ) >= 0 by {
                lemma_cells_nonneg(self@.jobs[x]);
            }
        }
        let mut n: usize = 0;
        let mut j: usize = 0;
        while j < self.jobs.len()
            invariant
                0 <= j <= self.jobs.len(),
                tm_wf(self@),
                n as int == sum_by(self@.jobs.take(j as int), active_pending_fn()),
                n as int <= sum_by(self@.jobs.take(j as int), graph_cells_fn()),
            decreases self.jobs.len() - j,
        {
            proof {
                crate::counting::lemma_sum_by_take_step(self@.jobs, active_pending_fn(), j as int);
                crate::counting::lemma_sum_by_take_step(self@.jobs, graph_cells_fn(), j as int);
                assert forall|x: int| 0 <= x < self@.jobs.len() implies graph_cells_fn()(
                    #[trigger] self@.jobs[x],
                ) >= 0 by {
                    lemma_cells_nonneg(self@.jobs[x]);
                }
                crate::counting::lemma_sum_by_take_le(self@.jobs, graph_cells_fn(), j as int + 1);
                lemma_pending_le_cells(self@.jobs[j as int]);
            }
            let active = match &self.jobs[j].status {
                JobStatus::Active => true,
                _ => false,
            };
            if active {
                let t = self.jobs[j].pending_tasks();
                proof {
                    assert(active_pending_fn()(self@.jobs[j as int]) == pending_in_graph(
                        self@.jobs[j as int],
                    ));
                }
                n = n + t;
            } else {
                proof {
                    assert(active_pending_fn()(self@.jobs[j as int]) == 0);
                }
            }
            j += 1;
        }
        proof {
            assert(self@.jobs.take(self@.jobs.len() as int) =~= self@.jobs);
        }
        n
    }

    /// The matching pass of §offer handling: walks the offered reservations
    /// in order, assigns each the first pending task the locality policy
    /// owes it, and reports the reservations left over and the pending
    /// tasks that found no slot in this pass.
    pub fn fill_reservations(&mut self, reservations: &Vec<ExecutorReservation>) -> (r: (
        Vec<TaskAssignment>,
        Vec<ExecutorReservation>,
        usize,
    ))
        requires
            tm_wf(old(self)@),
        ensures
            tm_wf(final(self)@),
            ({
                let rs = reservation_models(reservations@);
                let assigns = assignment_models(r.0@);
                let unassigned = reservation_models(r.1@);
                &&& fill_ok(old(self)@, rs, assigns, final(self)@)
                &&& assigns.len() == if rs.len() as int <= pending_active(old(self)@) {
                    rs.len() as int
                } else {
                    pending_active(old(self)@)
                }
                &&& forall|x: int|
                    0 <= x < assigns.len() ==> (#[trigger] assigns[x]).executor_id
                        == rs[x].executor_id
                &&& unassigned.len() == rs.len() - assigns.len()
                &&& forall|x: int|
                    0 <= x < unassigned.len() ==> (#[trigger] unassigned[x]) == rs[assigns.len()
                        + x]
                &&& pending_active(final(self)@) == pending_active(old(self)@) - assigns.len()
                &&& r.2 as int == pending_active(final(self)@)
                &&& final(self)@.jobs.len() == old(self)@.jobs.len()
                &&& final(self)@.max_task_failures == old(self)@.max_task_failures
                &&& forall|j: int|
                    0 <= j < old(self)@.jobs.len() ==> (#[trigger] final(self)@.jobs[j]).job_id
                        == old(self)@.jobs[j].job_id && crate::execution_graph::same_structure(
                        old(self)@.jobs[j],
                        final(self)@.jobs[j],
                    )
                &&& forall|e: Seq<char>|
                    #![trigger running_on(final(self)@, e)]
                    running_on(final(self)@, e) == running_on(old(self)@, e) + count_where(
                        assigns,
                        assignment_for(e),
                    )
                &&& forall|j: int, s: int, p: int|
                    #![trigger final(self)@.jobs[j].stages[s].tasks[p]]
                    0 <= j < final(self)@.jobs.len() && 0 <= s < final(self)@.jobs[j].stages.len()
                        && 0 <= p < final(self)@.jobs[j].stages[s].tasks.len()
                        ==> (final(self)@.jobs[j].stages[s].tasks[p] is Running
                        ==> final(self)@.jobs[j].stages[s].tasks[p]
                        == old(self)@.jobs[j].stages[s].tasks[p] || (
                    exists|x: int|
                        0 <= x < assigns.len() && (#[trigger] assigns[x]).job_index == j
                            && assigns[x].stage_id == s && assigns[x].partition_id == p
                            && final(self)@.jobs[j].stages[s].tasks[p]->Running_executor_id
                            == assigns[x].executor_id))
            }),
    {
        let ghost m0 = self@;
        let ghost rs = reservation_models(reservations@);
        let mut assignments: Vec<TaskAssignment> = Vec::new();
        let mut k: usize = 0;
        let mut stalled = false;
        proof {
            assert(rs.take(0) =~= Seq::<ReservationModel>::empty());
            assert(assignment_models(assignments@) =~= Seq::<AssignmentModel>::empty());
            lemma_pending_choosable(m0);
        }
        while k < reservations.len() && !stalled
            invariant
                tm_wf(self@),
                tm_wf(m0),
                m0 == old(self)@,
                rs == reservation_models(reservations@),
                rs.len() == reservations@.len(),
                0 <= k <= reservations.len(),
                assignments@.len() == k,
                fill_ok(m0, rs.take(k as int), assignment_models(assignments@), self@),
                forall|x: int|
                    0 <= x < k ==> (#[trigger] assignment_models(assignments@)[x]).executor_id
                        == rs[x].executor_id,
                pending_active(self@) == pending_active(m0) - k,
                self@.jobs.len() == m0.jobs.len(),
                self@.max_task_failures == m0.max_task_failures,
                forall|j: int|
                    0 <= j < m0.jobs.len() ==> (#[trigger] self@.jobs[j]).job_id
                        == m0.jobs[j].job_id && crate::execution_graph::same_structure(
                        m0.jobs[j],
                        self@.jobs[j],
                    ),
                forall|e: Seq<char>|
                    #![trigger running_on(self@, e)]
                    running_on(self@, e) == running_on(m0, e) + count_where(
                        assignment_models(assignments@),
                        assignment_for(e),
                    ),
                forall|j: int, s: int, p: int|
                    #![trigger self@.jobs[j].stages[s].tasks[p]]
                    0 <= j < self@.jobs.len() && 0 <= s < self@.jobs[j].stages.len() && 0 <= p
                        < self@.jobs[j].stages[s].tasks.len() ==> (self@.jobs[j].stages[s].tasks[p]
                        is Running ==> self@.jobs[j].stages[s].tasks[p]
                        == m0.jobs[j].stages[s].tasks[p] || (exists|x: int|
                        0 <= x < assignment_models(assignments@).len() && (
                        #[trigger] assignment_models(assignments@)[x]).job_index == j
                            && assignment_models(assignments@)[x].stage_id == s
                            && assignment_models(assignments@)[x].partition_id == p
                            && self@.jobs[j].stages[s].tasks[p]->Running_executor_id
                            == assignment_models(assignments@)[x].executor_id)),
                stalled ==> !any_choosable(self@),
            decreases reservations.len() - k, (if stalled {
                0int
            } else {
                1int
            }),
        {
            let executor = reservations[k].executor_id.clone();
            proof {
                assert(executor@ == rs[k as int].executor_id);
            }
            match self.pick_task(&executor) {
                Some((j, s, p)) => {
                    let ghost before = self@;
                    let assignment = TaskAssignment {
                        executor_id: executor.clone(),
                        job_id: self.jobs[j].job_id.clone(),
                        job_index: j,
                        stage_id: s,
                        partition_id: p,
                    };
                    proof {
                        assert(task_choosable(before, j as int, s as int, p as int));
                        assert(fill_step_ok(before, executor@, assignment@));
                    }
                    let ghost asg_before = assignment_models(assignments@);
                    self.jobs[j].assign_task(s, p, &executor);
                    proof {
                        let a = assignment@;
                        assert(self@.jobs =~= before.jobs.update(
                            a.job_index,
                            set_task(
                                before.jobs[a.job_index],
                                a.stage_id,
                                a.partition_id,
                                TaskModel::Running {
                                    executor_id: executor@,
                                    attempts: before.jobs[a.job_index].stages[a.stage_id].tasks[
                                        a.partition_id
                                    ]->Pending_attempts,
                                },
                            ),
                        ));
                        assert(self@ =~= fill_step_result(before, executor@, a));
                        lemma_fill_step_frame(before, executor@, a);
                        lemma_fill_step_pending(before, executor@, a);
                        assert forall|j2: int|
                            0 <= j2 < m0.jobs.len()
                            implies crate::execution_graph::same_structure(
                            m0.jobs[j2],
                            #[trigger] self@.jobs[j2],
                        ) by {
                            if j2 == a.job_index {
                                assert(crate::execution_graph::same_structure(
                                    before.jobs[j2],
                                    self@.jobs[j2],
                                ));
                            } else {
                                assert(self@.jobs[j2] == before.jobs[j2]);
                            }
                        }

                        lemma_fill_ok_snoc(
                            m0,
                            rs.take(k as int),
                            asg_before,
                            before,
                            rs[k as int],
                            a,
                            self@,
                        );
                        assert(rs.take(k as int + 1) =~= rs.take(k as int).push(rs[k as int]));
                        assert(assignment_models(assignments@.push(assignment)) =~= asg_before.push(
                            a,
                        ));
                        assert forall|e: Seq<char>|
                            #![trigger running_on(self@, e)]
                            running_on(self@, e) == running_on(m0, e) + count_where(
                                asg_before.push(a),
                                assignment_for(e),
                            ) by {
                            lemma_fill_step_running(before, executor@, a, e);
                            lemma_count_where_push(asg_before, assignment_for(e), a);
                        }
                    }
                    assignments.push(assignment);
                    proof {
                        let a = assignment@;
                        let asg = assignment_models(assignments@);
                        assert(asg[k as int] == a);
                        assert forall|j2: int, s2: int, p2: int|
                            #![trigger self@.jobs[j2].stages[s2].tasks[p2]]
                            0 <= j2 < self@.jobs.len() && 0 <= s2 < self@.jobs[j2].stages.len()
                                && 0 <= p2 < self@.jobs[j2].stages[s2].tasks.len()
                                && self@.jobs[j2].stages[s2].tasks[p2] is Running
                                && !(self@.jobs[j2].stages[s2].tasks[p2]
                                == m0.jobs[j2].stages[s2].tasks[p2]) implies exists|x: int|
                            0 <= x < asg.len() && (#[trigger] asg[x]).job_index == j2 && asg[
                            x
                            ].stage_id == s2 && asg[x].partition_id == p2
                                && self@.jobs[j2].stages[s2].tasks[p2]->Running_executor_id
                                == asg[x].executor_id by {
                            if j2 == a.job_index && s2 == a.stage_id && p2 == a.partition_id {
                                assert(asg[k as int].job_index == j2 && asg[k as int].stage_id
                                    == s2 && asg[k as int].partition_id == p2);
                                assert(self@.jobs[j2].stages[s2].tasks[p2] == (TaskModel::Running {
                                    executor_id: a.executor_id,
                                    attempts: before.jobs[a.job_index].stages[a.stage_id].tasks[
                                        a.partition_id
                                    ]->Pending_attempts,
                                }));
                            } else {
                                assert(self@.jobs[j2].stages[s2].tasks[p2]
                                    == before.jobs[j2].stages[s2].tasks[p2]);
                                assert(asg =~= asg_before.push(a));
                                let x = choose|x: int|
                                    0 <= x < asg_before.len() && (#[trigger] asg_before[x]).job_index
                                        == j2 && asg_before[x].stage_id == s2
                                        && asg_before[x].partition_id == p2
                                        && before.jobs[j2].stages[s2].tasks[
                                        p2
                                    ]->Running_executor_id == asg_before[x].executor_id;
                                assert(asg[x] == asg_before[x]);
                            }
                        }
                    }
                    k += 1;
                },
                None => {
                    stalled = true;
                },
            }
        }
        let ghost assigns = assignment_models(assignments@);
        proof {
            if stalled {
                lemma_fill_ok_stop(m0, rs.take(k as int), assigns, self@, rs.skip(k as int));
                assert(rs.take(k as int) + rs.skip(k as int) =~= rs);
                lemma_pending_choosable(self@);
                assert(pending_active(self@) == 0);
            } else {
                assert(rs.take(k as int) =~= rs);
                lemma_pending_choosable(self@);
            }
        }
        let mut unassigned: Vec<ExecutorReservation> = Vec::new();
        let mut i: usize = k;
        while i < reservations.len()
            invariant
                k <= i <= reservations.len(),
                rs == reservation_models(reservations@),
                rs.len() == reservations@.len(),
                unassigned@.len() == i - k,
                forall|x: int|
                    0 <= x < unassigned@.len() ==> (#[trigger] reservation_models(unassigned@)[x])
                        == rs[k as int + x],
            decreases reservations.len() - i,
        {
            let token = ExecutorReservation {
                executor_id: reservations[i].executor_id.clone(),
                slot: reservations[i].slot,
            };
            proof {
                assert(token@ == rs[i as int]);
                lemma_reservation_models_push(unassigned@, token);
            }
            unassigned.push(token);
            i += 1;
        }
        let pending = self.pending_active_tasks();
        (assignments, unassigned, pending)
    }

    /// The first task currently running on `executor_id`, if any.
    pub fn find_running_on(&self, executor_id: &String) -> (r: Option<(usize, usize, usize)>)
        ensures
            match r {
                Some(t) => 0 <= t.0 < self@.jobs.len() && 0 <= t.1
                    < self@.jobs[t.0 as int].stages.len() && 0 <= t.2
                    < self@.jobs[t.0 as int].stages[t.1 as int].tasks.len()
                    && crate::execution_graph::is_running_on(
                    self@.jobs[t.0 as int].stages[t.1 as int].tasks[t.2 as int],
                    executor_id@,
                ),
                None => forall|j: int, s: int, p: int|
                    #![trigger self@.jobs[j].stages[s].tasks[p]]
                    0 <= j < self@.jobs.len() && 0 <= s < self@.jobs[j].stages.len() && 0 <= p
                        < self@.jobs[j].stages[s].tasks.len()
                        ==> !crate::execution_graph::is_running_on(
                        self@.jobs[j].stages[s].tasks[p],
                        executor_id@,
                    ),
            },
    {
        let mut j: usize = 0;
        while j < self.jobs.len()
            invariant
                0 <= j <= self.jobs.len(),
                forall|j2: int, s2: int, p2: int|
                    #![trigger self@.jobs[j2].stages[s2].tasks[p2]]
                    0 <= j2 < j && 0 <= s2 < self@.jobs[j2].stages.len() && 0 <= p2
                        < self@.jobs[j2].stages[s2].tasks.len()
                        ==> !crate::execution_graph::is_running_on(
                        self@.jobs[j2].stages[s2].tasks[p2],
                        executor_id@,
                    ),
            decreases self.jobs.len() - j,
        {
            let ns = self.jobs[j].stages.len();
            let mut s: usize = 0;
            while s < ns
                invariant
                    0 <= s <= ns,
                    j < self.jobs.len(),
                    ns == self@.jobs[j as int].stages.len(),
                    forall|j2: int, s2: int, p2: int|
                        #![trigger self@.jobs[j2].stages[s2].tasks[p2]]
                        0 <= j2 < j && 0 <= s2 < self@.jobs[j2].stages.len() && 0 <= p2
                            < self@.jobs[j2].stages[s2].tasks.len()
                            ==> !crate::execution_graph::is_running_on(
                            self@.jobs[j2].stages[s2].tasks[p2],
                            executor_id@,
                        ),
                    forall|s2: int, p2: int|
                        #![trigger self@.jobs[j as int].stages[s2].tasks[p2]]
                        0 <= s2 < s && 0 <= p2 < self@.jobs[j as int].stages[s2].tasks.len()
                            ==> !crate::execution_graph::is_running_on(
                            self@.jobs[j as int].stages[s2].tasks[p2],
                            executor_id@,
                        ),
                decreases ns - s,
            {
                let np = self.jobs[j].stages[s].tasks.len();
                let mut p: usize = 0;
                while p < np
                    invariant
                        0 <= p <= np,
                        j < self.jobs.len(),
                        s < self@.jobs[j as int].stages.len(),
                        np == self@.jobs[j as int].stages[s as int].tasks.len(),
                        forall|p2: int|
                            #![trigger self@.jobs[j as int].stages[s as int].tasks[p2]]
                            0 <= p2 < p ==> !crate::execution_graph::is_running_on(
                                self@.jobs[j as int].stages[s as int].tasks[p2],
                                executor_id@,
                            ),
                    decreases np - p,
                {
                    let hit = match &self.jobs[j].stages[s].tasks[p] {
                        TaskState::Running { executor_id: e, .. } => *e == *executor_id,
                        _ => false,
                    };
                    proof {
                        assert(hit == crate::execution_graph::is_running_on(
                            self@.jobs[j as int].stages[s as int].tasks[p as int],
                            executor_id@,
                        ));
                    }
                    if hit {
                        return Some((j, s, p));
                    }
                    p += 1;
                }
                s += 1;
            }
            j += 1;
        }
        None
    }

    /// Cancels a job outright, collecting the executor of each running
    /// partition it tears down so the caller can reclaim the slots.
    pub fn cancel_job(&mut self, job_id: &String, freed: &mut Vec<String>) -> (r: Result<
        (),
        SchedulerError,
    >)
        requires
            tm_wf(old(self)@),
        ensures
            tm_wf(final(self)@),
            match r {
                Err(e) => e == SchedulerError::JobUnknown && !has_job(old(self)@, job_id@)
                    && final(self)@ == old(self)@ && final(freed)@ == old(freed)@,
                Ok(()) => has_job(old(self)@, job_id@) && ({
                    let jx = job_index_of(old(self)@, job_id@);
                    let eff = crate::execution_graph::cancel_job_model(old(self)@.jobs[jx]);
                    &&& final(self)@.jobs == old(self)@.jobs.update(jx, eff.graph)
                    &&& final(self)@.max_task_failures == old(self)@.max_task_failures
                    &&& final(self)@.total_cells == old(self)@.total_cells
                    &&& string_models(final(freed)@) == string_models(old(freed)@) + eff.freed
                    &&& forall|e: Seq<char>|
                        #![trigger running_on(final(self)@, e)]
                        running_on(final(self)@, e) == running_on(old(self)@, e) - count_where(
                            eff.freed,
                            crate::execution_graph::seq_eq_fn(e),
                        )
                    &&& forall|j: int, s: int, p: int|
                        #![trigger final(self)@.jobs[j].stages[s].tasks[p]]
                        0 <= j < final(self)@.jobs.len() && 0 <= s
                            < final(self)@.jobs[j].stages.len() && 0 <= p
                            < final(self)@.jobs[j].stages[s].tasks.len()
                            ==> (final(self)@.jobs[j].stages[s].tasks[p] is Running
                            ==> final(self)@.jobs[j].stages[s].tasks[p]
                            == old(self)@.jobs[j].stages[s].tasks[p])
                    &&& forall|j: int|
                        0 <= j < old(self)@.jobs.len()
                            ==> crate::execution_graph::same_structure(
                            old(self)@.jobs[j],
                            #[trigger] final(self)@.jobs[j],
                        )
                }),
            },
    {
        let ghost m0 = self@;
        let mut i: usize = 0;
        while i < self.jobs.len()
            invariant
                0 <= i <= self.jobs.len(),
                self@ == m0,
                m0 == old(self)@,
                tm_wf(self@),
                freed@ == old(freed)@,
                forall|x: int| 0 <= x < i ==> (#[trigger] self@.jobs[x]).job_id != job_id@,
            decreases self.jobs.len() - i,
        {
            if self.jobs[i].job_id == *job_id {
                proof {
                    assert((#[trigger] m0.jobs[i as int]).job_id == job_id@);
                    assert(has_job(m0, job_id@));
                    assert(job_index_of(m0, job_id@) == i as int) by {
                        let w = job_index_of(m0, job_id@);
                        assert(0 <= w < m0.jobs.len() && m0.jobs[w].job_id == job_id@);
                        if w != i as int {
                            lemma_unique_job_ids(m0, w, i as int);
                        }
                    }
                }
                let ghost g0 = self@.jobs[i as int];
                self.jobs[i].cancel_graph(freed);
                proof {
                    let eff = crate::execution_graph::cancel_job_model(g0);
                    assert(self@.jobs =~= m0.jobs.update(i as int, eff.graph));
                    crate::execution_graph::lemma_cancel_job_wf(g0);
                    assert(cells(eff.graph) == cells(g0)) by {
                        crate::execution_graph::lemma_same_structure_cells(g0, eff.graph);
                    }
                    lemma_sum_by_update(m0.jobs, graph_cells_fn(), i as int, eff.graph);
                    assert forall|x: int| 0 <= x < self@.jobs.len() implies graph_wf(
                        #[trigger] self@.jobs[x],
                    ) && self@.jobs[x].max_task_failures == self@.max_task_failures by {
                        if x != i as int {
                            assert(self@.jobs[x] == m0.jobs[x]);
                        }
                    }
                    assert forall|x: int, y: int|
                        #![trigger self@.jobs[x], self@.jobs[y]]
                        0 <= x < self@.jobs.len() && 0 <= y < self@.jobs.len() && x != y
                        implies self@.jobs[x].job_id != self@.jobs[y].job_id by {
                        lemma_unique_job_ids(m0, x, y);
                        assert(crate::execution_graph::same_job(g0, eff.graph));
                    }
                    assert forall|e: Seq<char>|
                        #![trigger running_on(self@, e)]
                        running_on(self@, e) == running_on(m0, e) - count_where(
                            eff.freed,
                            crate::execution_graph::seq_eq_fn(e),
                        ) by {
                        crate::execution_graph::lemma_cancel_job_running(g0, e);
                        lemma_sum_by_update(m0.jobs, graph_running_fn(e), i as int, eff.graph);
                    }
                    assert forall|x: int|
                        0 <= x < m0.jobs.len() implies crate::execution_graph::same_structure(
                        m0.jobs[x],
                        #[trigger] self@.jobs[x],
                    ) by {
                        if x != i as int {
                            assert(self@.jobs[x] == m0.jobs[x]);
                        }
                    }
                }
                return Ok(());
            }
            i += 1;
        }
        Err(SchedulerError::JobUnknown)
    }

    /// Ingests a batch of worker statuses, in order, producing the raised
    /// events and one entry per executor slot a running task released.
    pub fn update_task_statuses(&mut self, executor_id: &String, statuses: &Vec<TaskStatus>) -> (r:
        (Vec<SchedulerEvent>, Vec<String>))
        requires
            tm_wf(old(self)@),
        ensures
            tm_wf(final(self)@),
            ({
                let eff = tm_apply_all(old(self)@, status_models(statuses@), executor_id@);
                &&& final(self)@ == eff.tm
                &&& event_models(r.0@) == eff.events
                &&& string_models(r.1@) == eff.freed
            }),
    {
        let ghost m0 = self@;
        let ghost sts = status_models(statuses@);
        let mut events: Vec<SchedulerEvent> = Vec::new();
        let mut freed: Vec<String> = Vec::new();
        proof {
            assert(sts.take(0) =~= Seq::<crate::execution_graph::TaskStatusModel>::empty());
            assert(event_models(events@) =~= Seq::<EventModel>::empty());
            assert(string_models(freed@) =~= Seq::<Seq<char>>::empty());
        }
        let mut k: usize = 0;
        while k < statuses.len()
            invariant
                tm_wf(self@),
                tm_wf(m0),
                m0 == old(self)@,
                sts == status_models(statuses@),
                sts.len() == statuses@.len(),
                0 <= k <= statuses.len(),
                ({
                    let eff = tm_apply_all(m0, sts.take(k as int), executor_id@);
                    &&& self@ == eff.tm
                    &&& event_models(events@) == eff.events
                    &&& string_models(freed@) == eff.freed
                }),
            decreases statuses.len() - k,
        {
            let ghost before = self@;
            let ghost st = sts[k as int];
            proof {
                assert(st == statuses@[k as int]@);
                assert(sts.take(k as int + 1).drop_last() =~= sts.take(k as int));
                assert(sts.take(k as int + 1).last() == st);
                lemma_tm_apply_status_facts(before, st, executor_id@);
            }
            let mut i: usize = 0;
            let mut found = false;
            while i < self.jobs.len() && !found
                invariant
                    0 <= i <= self.jobs.len(),
                    tm_wf(self@),
                    self@ == before,
                    st == statuses@[k as int]@,
                    k < statuses@.len(),
                    !found ==> forall|x: int|
                        0 <= x < i ==> (#[trigger] self@.jobs[x]).job_id != st.job_id,
                    found ==> i < self.jobs.len() && self@.jobs[i as int].job_id == st.job_id,
                decreases self.jobs.len() - i, (if found {
                    0int
                } else {
                    1int
                }),
            {
                if self.jobs[i].job_id == statuses[k].job_id {
                    found = true;
                } else {
                    i += 1;
                }
            }
            if found {
                proof {
                    assert((#[trigger] before.jobs[i as int]).job_id == st.job_id);
                    assert(has_job(before, st.job_id));
                    assert(job_index_of(before, st.job_id) == i as int) by {
                        let w = job_index_of(before, st.job_id);
                        assert(0 <= w < before.jobs.len() && before.jobs[w].job_id == st.job_id);
                        if w != i as int {
                            lemma_unique_job_ids(before, w, i as int);
                        }
                    }
                }
                self.jobs[i].apply_task_status(&statuses[k], executor_id, &mut events, &mut freed);
                proof {
                    let eff = apply_status(before.jobs[i as int], st, executor_id@);
                    assert(self@.jobs =~= before.jobs.update(i as int, eff.graph));
                    assert(self@ =~= tm_apply_status(before, st, executor_id@).tm);
                }
            } else {
                proof {
                    assert(!has_job(before, st.job_id));
                    assert(tm_apply_status(before, st, executor_id@).tm == before);
                    assert(event_models(events@) + tm_apply_status(
                        before,
                        st,
                        executor_id@,
                    ).events =~= event_models(events@));
                    assert(string_models(freed@) + tm_apply_status(
                        before,
                        st,
                        executor_id@,
                    ).freed =~= string_models(freed@));
                }
            }
            k += 1;
        }
        proof {
            assert(sts.take(sts.len() as int) =~= sts);
        }
        (events, freed)
    }
}

pub proof fn lemma_cells_nonneg(g: GraphModel)
    ensures
        cells(g) >= 0,
{
    assert forall|s: int|
        0 <= s < g.stages.len() implies crate::execution_graph::stage_size_fn()(
        #[trigger] g.stages[s],
    ) >= 0 by {}
    lemma_sum_by_nonneg(g.stages, crate::execution_graph::stage_size_fn());
}


/// Nothing runs on an executor no task names.
pub proof fn lemma_running_on_zero(m: TaskManagerModel, e: Seq<char>)
    requires
        forall|j: int, s: int, p: int|
            #![trigger m.jobs[j].stages[s].tasks[p]]
            0 <= j < m.jobs.len() && 0 <= s < m.jobs[j].stages.len() && 0 <= p
                < m.jobs[j].stages[s].tasks.len() ==> !crate::execution_graph::is_running_on(
                m.jobs[j].stages[s].tasks[p],
                e,
            ),
    ensures
        running_on(m, e) == 0,
{
    assert forall|j: int| 0 <= j < m.jobs.len() implies graph_running_fn(e)(#[trigger] m.jobs[j])
        == 0 by {
        crate::execution_graph::lemma_no_running_zero(m.jobs[j], e);
    }
    lemma_sum_by_zero(m.jobs, graph_running_fn(e));
}

pub proof fn lemma_running_on_nonneg(m: TaskManagerModel, e: Seq<char>)
    ensures
        running_on(m, e) >= 0,
{
    assert forall|j: int| 0 <= j < m.jobs.len() implies graph_running_fn(e)(#[trigger] m.jobs[j])
        >= 0 by {
        crate::execution_graph::lemma_running_in_graph_nonneg(m.jobs[j], e);
    }
    lemma_sum_by_nonneg(m.jobs, graph_running_fn(e));
}

/// A positive running count names a concrete running task.
pub proof fn lemma_running_member(m: TaskManagerModel, e: Seq<char>)
    requires
        running_on(m, e) > 0,
    ensures
        exists|j: int, s: int, p: int|
            #![trigger m.jobs[j].stages[s].tasks[p]]
            0 <= j < m.jobs.len() && 0 <= s < m.jobs[j].stages.len() && 0 <= p
                < m.jobs[j].stages[s].tasks.len() && crate::execution_graph::is_running_on(
                m.jobs[j].stages[s].tasks[p],
                e,
            ),
{
    if forall|j: int, s: int, p: int|
        #![trigger m.jobs[j].stages[s].tasks[p]]
        0 <= j < m.jobs.len() && 0 <= s < m.jobs[j].stages.len() && 0 <= p
            < m.jobs[j].stages[s].tasks.len() ==> !crate::execution_graph::is_running_on(
            m.jobs[j].stages[s].tasks[p],
            e,
        ) {
        lemma_running_on_zero(m, e);
    }
}

/// One running task makes the count positive.
pub proof fn lemma_running_at_least(m: TaskManagerModel, e: Seq<char>, j: int, s: int, p: int)
    requires
        0 <= j < m.jobs.len(),
        0 <= s < m.jobs[j].stages.len(),
        0 <= p < m.jobs[j].stages[s].tasks.len(),
        crate::execution_graph::is_running_on(m.jobs[j].stages[s].tasks[p], e),
    ensures
        running_on(m, e) >= 1,
{
    let g = m.jobs[j];
    let f = crate::execution_graph::stage_count_fn(crate::execution_graph::running_on_fn(e));
    lemma_count_where_member_at(
        g.stages[s].tasks,
        crate::execution_graph::running_on_fn(e),
        p,
    );
    assert(f(g.stages[s]) >= 1);
    assert forall|x: int| 0 <= x < g.stages.len() implies f(#[trigger] g.stages[x]) >= 0 by {
        lemma_count_where_bounds(
            g.stages[x].tasks,
            crate::execution_graph::running_on_fn(e),
        );
    }
    lemma_sum_by_member_le(g.stages, f, s);
    assert(graph_running_fn(e)(g) >= 1);
    assert forall|x: int| 0 <= x < m.jobs.len() implies graph_running_fn(e)(#[trigger] m.jobs[x])
        >= 0 by {
        crate::execution_graph::lemma_running_in_graph_nonneg(m.jobs[x], e);
    }
    lemma_sum_by_member_le(m.jobs, graph_running_fn(e), j);
}

/// Law (no task double-run, matching side): the matching step only ever
/// starts a partition that is pending, never one that is already running;
/// together with the single state each partition holds, at most one attempt
/// of a partition runs at any time.
pub proof fn lemma_assign_only_pending(m: TaskManagerModel, e: Seq<char>, a: AssignmentModel)
    requires
        fill_step_ok(m, e, a),
    ensures
        m.jobs[a.job_index].stages[a.stage_id].tasks[a.partition_id] is Pending,
        !(m.jobs[a.job_index].stages[a.stage_id].tasks[a.partition_id] is Running),
{
}

} // verus!
