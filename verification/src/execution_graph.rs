use vstd::prelude::*;

use crate::counting::{
    count_where, lemma_count_where_concat, lemma_count_where_congruent, lemma_count_where_none,
    lemma_count_where_update, lemma_sum_by_congruent, lemma_sum_by_take_step, lemma_sum_by_update,
    lemma_sum_by_zero, sum_by,
};
use crate::counting::lemma_sum_by_take_le;
use crate::errors::SchedulerError;
use crate::events::{event_models, lemma_event_models_push, EventModel, SchedulerEvent};
use vstd::pervasive::unreached;

verus! {

// ---------------------------------------------------------------------------
// Data
// ---------------------------------------------------------------------------

/// The lifecycle of one partition of a stage. A partition is one atomic unit
/// of work; at any moment it holds exactly one of these states, so at most
/// one attempt of it can be running.
#[derive(Clone, Debug, PartialEq, Eq)]
pub enum TaskState {
    /// Waiting for input stages to complete.
    Blocked,
    /// Ready to run, after `attempts` failed attempts.
    Pending { attempts: usize },
    /// Running on `executor_id`, after `attempts` failed attempts.
    Running { executor_id: String, attempts: usize },
    /// Finished; its output lives on `executor_id`.
    Completed { executor_id: String },
    /// Failed for good.
    Failed { reason: String },
    /// Cancelled because its job ended early.
    Cancelled,
}

#[verifier::ext_equal]
pub ghost enum TaskModel {
    Blocked,
    Pending { attempts: int },
    Running { executor_id: Seq<char>, attempts: int },
    Completed { executor_id: Seq<char> },
    Failed { reason: Seq<char> },
    Cancelled,
}

impl View for TaskState {
    type V = TaskModel;

    open spec fn view(&self) -> TaskModel {
        match self {
            TaskState::Blocked => TaskModel::Blocked,
            TaskState::Pending { attempts } => TaskModel::Pending { attempts: *attempts as int },
            TaskState::Running { executor_id, attempts } => TaskModel::Running {
                executor_id: executor_id@,
                attempts: *attempts as int,
            },
            TaskState::Completed { executor_id } => TaskModel::Completed {
                executor_id: executor_id@,
            },
            TaskState::Failed { reason } => TaskModel::Failed { reason: reason@ },
            TaskState::Cancelled => TaskModel::Cancelled,
        }
    }
}

/// One stage of a job plan: how many partitions it runs and which earlier
/// stages feed it.
#[derive(Clone, Debug)]
pub struct StagePlan {
    pub partitions: usize,
    pub inputs: Vec<usize>,
}

#[verifier::ext_equal]
pub ghost struct StagePlanModel {
    pub partitions: int,
    pub inputs: Seq<int>,
}

impl View for StagePlan {
    type V = StagePlanModel;

    open spec fn view(&self) -> StagePlanModel {
        StagePlanModel {
            partitions: self.partitions as int,
            inputs: self.inputs@.map_values(|x: usize| x as int),
        }
    }
}

pub open spec fn plan_models(v: Seq<StagePlan>) -> Seq<StagePlanModel> {
    v.map_values(|p: StagePlan| p@)
}

pub struct Stage {
    /// Indices of earlier stages whose output this stage reads.
    pub inputs: Vec<usize>,
    pub tasks: Vec<TaskState>,
}

#[verifier::ext_equal]
pub ghost struct StageModel {
    pub inputs: Seq<int>,
    pub tasks: Seq<TaskModel>,
}

impl View for Stage {
    type V = StageModel;

    open spec fn view(&self) -> StageModel {
        StageModel {
            inputs: self.inputs@.map_values(|x: usize| x as int),
            tasks: Seq::new(self.tasks@.len(), |p: int| self.tasks@[p]@),
        }
    }
}

#[derive(Clone, Debug, PartialEq, Eq)]
pub enum JobStatus {
    Active,
    Completed,
    Failed { reason: String },
    Cancelled,
}

#[verifier::ext_equal]
pub ghost enum JobStatusModel {
    Active,
    Completed,
    Failed { reason: Seq<char> },
    Cancelled,
}

impl View for JobStatus {
    type V = JobStatusModel;

    open spec fn view(&self) -> JobStatusModel {
        match self {
            JobStatus::Active => JobStatusModel::Active,
            JobStatus::Completed => JobStatusModel::Completed,
            JobStatus::Failed { reason } => JobStatusModel::Failed { reason: reason@ },
            JobStatus::Cancelled => JobStatusModel::Cancelled,
        }
    }
}

/// The per-job execution graph: an ordered list of stages, each a list of
/// task states, with the last stage as the job's terminal stage.
pub struct ExecutionGraph {
    pub job_id: String,
    pub session_id: u64,
    pub status: JobStatus,
    pub stages: Vec<Stage>,
    /// Retry budget: a partition that fails more than this many times in a
    /// retriable way escalates to a fatal failure.
    pub max_task_failures: usize,
}

#[verifier::ext_equal]
pub ghost struct GraphModel {
    pub job_id: Seq<char>,
    pub session_id: int,
    pub status: JobStatusModel,
    pub stages: Seq<StageModel>,
    pub max_task_failures: int,
}

impl View for ExecutionGraph {
    type V = GraphModel;

    open spec fn view(&self) -> GraphModel {
        GraphModel {
            job_id: self.job_id@,
            session_id: self.session_id as int,
            status: self.status@,
            stages: Seq::new(self.stages@.len(), |s: int| self.stages@[s]@),
            max_task_failures: self.max_task_failures as int,
        }
    }
}

/// One worker-reported status for one partition.
#[derive(Clone, Debug)]
pub struct TaskStatus {
    pub job_id: String,
    pub stage_id: usize,
    pub partition_id: usize,
    pub status: StatusUpdate,
}

#[derive(Clone, Debug, PartialEq, Eq)]
pub enum StatusUpdate {
    /// A liveness marker: the attempt is still running.
    Running,
    /// The attempt finished; its output stayed on the reporting executor.
    Completed,
    /// The attempt failed; retriable failures re-queue the partition.
    Failed { reason: String, retriable: bool },
}

#[verifier::ext_equal]
pub ghost enum StatusUpdateModel {
    Running,
    Completed,
    Failed { reason: Seq<char>, retriable: bool },
}

impl View for StatusUpdate {
    type V = StatusUpdateModel;

    open spec fn view(&self) -> StatusUpdateModel {
        match self {
            StatusUpdate::Running => StatusUpdateModel::Running,
            StatusUpdate::Completed => StatusUpdateModel::Completed,
            StatusUpdate::Failed { reason, retriable } => StatusUpdateModel::Failed {
                reason: reason@,
                retriable: *retriable,
            },
        }
    }
}

#[verifier::ext_equal]
pub ghost struct TaskStatusModel {
    pub job_id: Seq<char>,
    pub stage_id: int,
    pub partition_id: int,
    pub status: StatusUpdateModel,
}

impl View for TaskStatus {
    type V = TaskStatusModel;

    open spec fn view(&self) -> TaskStatusModel {
        TaskStatusModel {
            job_id: self.job_id@,
            stage_id: self.stage_id as int,
            partition_id: self.partition_id as int,
            status: self.status@,
        }
    }
}

// ---------------------------------------------------------------------------
// Spec helpers
// ---------------------------------------------------------------------------

pub open spec fn is_running_on(t: TaskModel, e: Seq<char>) -> bool {
    match t {
        TaskModel::Running { executor_id, .. } => executor_id == e,
        _ => false,
    }
}

pub open spec fn running_on_fn(e: Seq<char>) -> spec_fn(TaskModel) -> bool {
    |t: TaskModel| is_running_on(t, e)
}

pub open spec fn pending_fn() -> spec_fn(TaskModel) -> bool {
    |t: TaskModel| t is Pending
}

pub open spec fn stage_count_fn(f: spec_fn(TaskModel) -> bool) -> spec_fn(StageModel) -> int {
    |st: StageModel| count_where(st.tasks, f)
}

/// How many partitions of the whole graph satisfy `f`.
pub open spec fn graph_count(g: GraphModel, f: spec_fn(TaskModel) -> bool) -> int {
    sum_by(g.stages, stage_count_fn(f))
}

/// Running tasks assigned to executor `e` across the whole graph.
pub open spec fn running_in_graph(g: GraphModel, e: Seq<char>) -> int {
    graph_count(g, running_on_fn(e))
}

/// Partitions ready to run across the whole graph.
pub open spec fn pending_in_graph(g: GraphModel) -> int {
    graph_count(g, pending_fn())
}

pub open spec fn stage_size_fn() -> spec_fn(StageModel) -> int {
    |st: StageModel| st.tasks.len() as int
}

/// How many partitions the whole graph holds.
pub open spec fn cells(g: GraphModel) -> int {
    sum_by(g.stages, stage_size_fn())
}

pub open spec fn plan_size_fn() -> spec_fn(StagePlanModel) -> int {
    |p: StagePlanModel| p.partitions
}

/// How many partitions a plan asks for.
pub open spec fn plan_cells(plans: Seq<StagePlanModel>) -> int {
    sum_by(plans, plan_size_fn())
}

/// A stage is complete exactly when every one of its partitions completed.
pub open spec fn stage_complete(st: StageModel) -> bool {
    forall|p: int| 0 <= p < st.tasks.len() ==> (#[trigger] st.tasks[p]) is Completed
}

/// A stage is ready when all its input stages are complete.
pub open spec fn stage_ready(g: GraphModel, s: int) -> bool {
    forall|k: int|
        0 <= k < g.stages[s].inputs.len() ==> stage_complete(
            g.stages[#[trigger] g.stages[s].inputs[k]],
        )
}

/// The job is done when its terminal (last) stage is complete.
pub open spec fn terminal_complete(g: GraphModel) -> bool {
    g.stages.len() == 0 || stage_complete(g.stages[g.stages.len() - 1])
}

pub open spec fn task_terminal(t: TaskModel) -> bool {
    t is Completed || t is Failed || t is Cancelled
}

/// Well-formedness of an execution graph.
///
/// The readiness clauses carry the stage-dependency discipline: a partition
/// may hold a state past `Blocked` only when every input partition has
/// completed, and an active job never leaves a ready partition blocked.
pub open spec fn graph_wf(g: GraphModel) -> bool {
    &&& 0 <= g.max_task_failures < usize::MAX as int
    &&& cells(g) <= usize::MAX as int
    &&& forall|s: int, k: int|
        0 <= s < g.stages.len() && 0 <= k < g.stages[s].inputs.len() ==> 0 <= (
        #[trigger] g.stages[s].inputs[k]) < s
    &&& forall|s: int, p: int|
        #![trigger g.stages[s].tasks[p]]
        0 <= s < g.stages.len() && 0 <= p < g.stages[s].tasks.len() ==> {
            &&& ((g.stages[s].tasks[p] is Pending || g.stages[s].tasks[p] is Running
                || g.stages[s].tasks[p] is Completed) ==> stage_ready(g, s))
            &&& (g.status is Active && g.stages[s].tasks[p] is Blocked ==> !stage_ready(g, s))
            &&& (g.stages[s].tasks[p] matches TaskModel::Pending { attempts } ==> 0 <= attempts
                <= g.max_task_failures)
            &&& (g.stages[s].tasks[p] matches TaskModel::Running { attempts, .. } ==> 0 <= attempts
                <= g.max_task_failures)
            &&& ((g.status is Failed || g.status is Cancelled) ==> task_terminal(
                g.stages[s].tasks[p],
            ))
        }
    &&& (g.status is Active ==> !terminal_complete(g))
    &&& (g.status is Completed ==> terminal_complete(g))
}

// ---------------------------------------------------------------------------
// Status application model
// ---------------------------------------------------------------------------

pub open spec fn string_models(v: Seq<String>) -> Seq<Seq<char>> {
    v.map_values(|s: String| s@)
}

pub proof fn lemma_string_models_push(v: Seq<String>, s: String)
    ensures
        string_models(v.push(s)) == string_models(v).push(s@),
{
    assert(string_models(v.push(s)) =~= string_models(v).push(s@));
}

pub open spec fn seq_eq_fn(e: Seq<char>) -> spec_fn(Seq<char>) -> bool {
    |x: Seq<char>| x == e
}

/// The outcome of applying one status update: the new graph, the events it
/// raised, and one entry per executor whose running task released its slot.
#[verifier::ext_equal]
pub ghost struct GraphEffect {
    pub graph: GraphModel,
    pub events: Seq<EventModel>,
    pub freed: Seq<Seq<char>>,
}

pub open spec fn set_task(g: GraphModel, s: int, p: int, t: TaskModel) -> GraphModel {
    GraphModel {
        stages: g.stages.update(
            s,
            StageModel { tasks: g.stages[s].tasks.update(p, t), ..g.stages[s] },
        ),
        ..g
    }
}

/// Every blocked partition of a ready stage becomes pending.
pub open spec fn unblock_all(g: GraphModel) -> GraphModel {
    GraphModel {
        stages: Seq::new(
            g.stages.len(),
            |s: int|
                StageModel {
                    inputs: g.stages[s].inputs,
                    tasks: Seq::new(
                        g.stages[s].tasks.len(),
                        |p: int|
                            if g.stages[s].tasks[p] is Blocked && stage_ready(g, s) {
                                TaskModel::Pending { attempts: 0 }
                            } else {
                                g.stages[s].tasks[p]
                            },
                    ),
                },
        ),
        ..g
    }
}

pub open spec fn cancelled_task(t: TaskModel) -> TaskModel {
    match t {
        TaskModel::Blocked => TaskModel::Cancelled,
        TaskModel::Pending { .. } => TaskModel::Cancelled,
        TaskModel::Running { .. } => TaskModel::Cancelled,
        _ => t,
    }
}

/// Every partition that has not reached a terminal state is cancelled.
pub open spec fn cancel_sweep(g: GraphModel) -> GraphModel {
    GraphModel {
        stages: Seq::new(
            g.stages.len(),
            |s: int|
                StageModel {
                    inputs: g.stages[s].inputs,
                    tasks: Seq::new(
                        g.stages[s].tasks.len(),
                        |p: int| cancelled_task(g.stages[s].tasks[p]),
                    ),
                },
        ),
        ..g
    }
}

pub open spec fn freed_of_task(t: TaskModel) -> Seq<Seq<char>> {
    match t {
        TaskModel::Running { executor_id, .. } => seq![executor_id],
        _ => seq![],
    }
}

/// The executors of the running tasks of a stage, in partition order.
pub open spec fn sweep_freed_tasks(ts: Seq<TaskModel>) -> Seq<Seq<char>>
    decreases ts.len(),
{
    if ts.len() == 0 {
        Seq::empty()
    } else {
        sweep_freed_tasks(ts.drop_last()) + freed_of_task(ts.last())
    }
}

pub open spec fn sweep_freed_stages(ss: Seq<StageModel>) -> Seq<Seq<char>>
    decreases ss.len(),
{
    if ss.len() == 0 {
        Seq::empty()
    } else {
        sweep_freed_stages(ss.drop_last()) + sweep_freed_tasks(ss.last().tasks)
    }
}

/// The executors of all running tasks of the graph, in scan order.
pub open spec fn sweep_freed(g: GraphModel) -> Seq<Seq<char>> {
    sweep_freed_stages(g.stages)
}

pub open spec fn status_noop(g: GraphModel) -> GraphEffect {
    GraphEffect { graph: g, events: Seq::empty(), freed: Seq::empty() }
}

/// A partition completed: record where its output lives, unblock whatever
/// became ready, and raise the completion events. For a job that already
/// ended, only the partition's state is recorded.
pub open spec fn apply_completed(
    g: GraphModel,
    s: int,
    p: int,
    loc: Seq<char>,
    freed0: Seq<Seq<char>>,
) -> GraphEffect {
    let g1 = set_task(g, s, p, TaskModel::Completed { executor_id: loc });
    if g.status is Active {
        let g2 = unblock_all(g1);
        let now_complete = stage_complete(g1.stages[s]);
        let done = terminal_complete(g1);
        let g3 = GraphModel {
            status: if done {
                JobStatusModel::Completed
            } else {
                JobStatusModel::Active
            },
            ..g2
        };
        GraphEffect {
            graph: g3,
            events: (if now_complete {
                seq![EventModel::StageCompleted { job: g.job_id, stage: s }]
            } else {
                Seq::empty()
            }) + (if done {
                seq![EventModel::JobCompleted { job: g.job_id }]
            } else {
                Seq::empty()
            }),
            freed: freed0,
        }
    } else {
        GraphEffect { graph: g1, events: Seq::empty(), freed: freed0 }
    }
}

/// A partition failed for good: the job fails, and every other partition
/// still in flight is cancelled, reclaiming the slots of the running ones.
pub open spec fn apply_fatal(
    g: GraphModel,
    s: int,
    p: int,
    reason: Seq<char>,
    freed0: Seq<Seq<char>>,
) -> GraphEffect {
    let g1 = set_task(g, s, p, TaskModel::Failed { reason });
    if g.status is Active {
        let g2 = cancel_sweep(g1);
        let g3 = GraphModel { status: JobStatusModel::Failed { reason }, ..g2 };
        GraphEffect {
            graph: g3,
            events: seq![EventModel::JobFailed { job: g.job_id, reason }],
            freed: freed0 + sweep_freed(g1),
        }
    } else {
        GraphEffect { graph: g1, events: Seq::empty(), freed: freed0 }
    }
}

/// What one worker-reported status does to the graph. `from` is the
/// reporting executor, which is where a completed partition's output lives
/// when the graph has no running attempt on record. Statuses for unknown
/// partitions, for partitions already in a terminal state, and liveness
/// markers change nothing: delivering the same completion twice is the same
/// as delivering it once.
pub open spec fn apply_status(g: GraphModel, st: TaskStatusModel, from: Seq<char>) -> GraphEffect {
    if !(0 <= st.stage_id < g.stages.len() && 0 <= st.partition_id
        < g.stages[st.stage_id].tasks.len()) {
        status_noop(g)
    } else {
        let t = g.stages[st.stage_id].tasks[st.partition_id];
        match st.status {
            StatusUpdateModel::Running => status_noop(g),
            StatusUpdateModel::Completed => match t {
                TaskModel::Running { executor_id, .. } => apply_completed(
                    g,
                    st.stage_id,
                    st.partition_id,
                    executor_id,
                    seq![executor_id],
                ),
                TaskModel::Pending { .. } => apply_completed(
                    g,
                    st.stage_id,
                    st.partition_id,
                    from,
                    Seq::empty(),
                ),
                _ => status_noop(g),
            },
            StatusUpdateModel::Failed { reason, retriable } => match t {
                TaskModel::Running { executor_id, attempts } => {
                    if retriable && attempts + 1 <= g.max_task_failures {
                        GraphEffect {
                            graph: set_task(
                                g,
                                st.stage_id,
                                st.partition_id,
                                TaskModel::Pending { attempts: attempts + 1 },
                            ),
                            events: Seq::empty(),
                            freed: seq![executor_id],
                        }
                    } else {
                        apply_fatal(g, st.stage_id, st.partition_id, reason, seq![executor_id])
                    }
                },
                TaskModel::Pending { .. } => {
                    if retriable {
                        status_noop(g)
                    } else {
                        apply_fatal(g, st.stage_id, st.partition_id, reason, Seq::empty())
                    }
                },
                _ => status_noop(g),
            },
        }
    }
}

// ---------------------------------------------------------------------------
// Lemmas about status application
// ---------------------------------------------------------------------------

/// Two graphs with the same stage layout.
pub open spec fn same_structure(a: GraphModel, b: GraphModel) -> bool {
    &&& a.stages.len() == b.stages.len()
    &&& forall|s: int|
        0 <= s < a.stages.len() ==> (#[trigger] a.stages[s]).inputs == b.stages[s].inputs && a.stages[s].tasks.len() == b.stages[s].tasks.len()
}

/// Two graphs with the same layout whose partitions agree on completion.
pub open spec fn completion_equal(a: GraphModel, b: GraphModel) -> bool {
    &&& same_structure(a, b)
    &&& forall|s: int, p: int|
        #![trigger a.stages[s].tasks[p], b.stages[s].tasks[p]]
        0 <= s < a.stages.len() && 0 <= p < a.stages[s].tasks.len() ==> ((a.stages[s].tasks[p]
            is Completed) <==> (b.stages[s].tasks[p] is Completed))
}

/// Every input reference lands inside the graph.
pub open spec fn inputs_valid(g: GraphModel) -> bool {
    forall|s: int, k: int|
        0 <= s < g.stages.len() && 0 <= k < g.stages[s].inputs.len() ==> 0 <= (
        #[trigger] g.stages[s].inputs[k]) < g.stages.len()
}

pub proof fn lemma_wf_inputs_valid(g: GraphModel)
    requires
        graph_wf(g),
    ensures
        inputs_valid(g),
{
}

/// Completion-equal graphs agree on readiness and on being done.
pub proof fn lemma_completion_ready(a: GraphModel, b: GraphModel)
    requires
        completion_equal(a, b),
        inputs_valid(a),
    ensures
        forall|s: int| 0 <= s < a.stages.len() ==> (stage_ready(a, s) <==> stage_ready(b, s)),
        terminal_complete(a) <==> terminal_complete(b),
{
    assert forall|x: int| 0 <= x < a.stages.len() implies (stage_complete(#[trigger] a.stages[x])
        <==> stage_complete(b.stages[x])) by {
        if stage_complete(a.stages[x]) {
            assert forall|p: int| 0 <= p < b.stages[x].tasks.len() implies (
            #[trigger] b.stages[x].tasks[p]) is Completed by {
                assert(a.stages[x].tasks[p] is Completed);
            }
        }
        if stage_complete(b.stages[x]) {
            assert forall|p: int| 0 <= p < a.stages[x].tasks.len() implies (
            #[trigger] a.stages[x].tasks[p]) is Completed by {
                assert(b.stages[x].tasks[p] is Completed);
            }
        }
    }
    assert forall|s: int| 0 <= s < a.stages.len() implies (stage_ready(a, s) <==> stage_ready(
        b,
        s,
    )) by {
        if stage_ready(a, s) {
            assert forall|k: int| 0 <= k < b.stages[s].inputs.len() implies stage_complete(
                b.stages[#[trigger] b.stages[s].inputs[k]],
            ) by {
                assert(a.stages[s].inputs[k] == b.stages[s].inputs[k]);
                assert(stage_complete(a.stages[a.stages[s].inputs[k]]));
            }
        }
        if stage_ready(b, s) {
            assert forall|k: int| 0 <= k < a.stages[s].inputs.len() implies stage_complete(
                a.stages[#[trigger] a.stages[s].inputs[k]],
            ) by {
                assert(stage_complete(b.stages[a.stages[s].inputs[k]]));
            }
        }
    }
}

/// Completing one partition can only extend completion, so readiness grows.
pub proof fn lemma_ready_monotone(a: GraphModel, b: GraphModel)
    requires
        same_structure(a, b),
        inputs_valid(a),
        forall|s: int, p: int|
            #![trigger a.stages[s].tasks[p], b.stages[s].tasks[p]]
            0 <= s < a.stages.len() && 0 <= p < a.stages[s].tasks.len() ==> ((a.stages[s].tasks[p]
                is Completed) ==> (b.stages[s].tasks[p] is Completed)),
    ensures
        forall|s: int| 0 <= s < a.stages.len() && stage_ready(a, s) ==> stage_ready(b, s),
        terminal_complete(a) ==> terminal_complete(b),
{
    assert forall|x: int|
        0 <= x < a.stages.len() && stage_complete(#[trigger] a.stages[x]) implies stage_complete(
        b.stages[x],
    ) by {
        assert forall|p: int| 0 <= p < b.stages[x].tasks.len() implies (
        #[trigger] b.stages[x].tasks[p]) is Completed by {
            assert(a.stages[x].tasks[p] is Completed);
        }
    }
    assert forall|s: int| 0 <= s < a.stages.len() && stage_ready(a, s) implies stage_ready(
        b,
        s,
    ) by {
        assert forall|k: int| 0 <= k < b.stages[s].inputs.len() implies stage_complete(
            b.stages[#[trigger] b.stages[s].inputs[k]],
        ) by {
            assert(a.stages[s].inputs[k] == b.stages[s].inputs[k]);
            assert(stage_complete(a.stages[a.stages[s].inputs[k]]));
        }
    }
}

/// How replacing one partition's state moves any partition count.
pub proof fn lemma_graph_count_set_task(
    g: GraphModel,
    s: int,
    p: int,
    t: TaskModel,
    f: spec_fn(TaskModel) -> bool,
)
    requires
        0 <= s < g.stages.len(),
        0 <= p < g.stages[s].tasks.len(),
    ensures
        graph_count(set_task(g, s, p, t), f) == graph_count(g, f) + (if f(t) {
            1int
        } else {
            0int
        }) - (if f(g.stages[s].tasks[p]) {
            1int
        } else {
            0int
        }),
{
    let st2 = StageModel { tasks: g.stages[s].tasks.update(p, t), ..g.stages[s] };
    lemma_count_where_update(g.stages[s].tasks, f, p, t);
    lemma_sum_by_update(g.stages, stage_count_fn(f), s, st2);
}

/// Graphs whose partitions agree under `f` have the same count.
pub proof fn lemma_graph_count_congruent(a: GraphModel, b: GraphModel, f: spec_fn(TaskModel) -> bool)
    requires
        same_structure(a, b),
        forall|s: int, p: int|
            #![trigger a.stages[s].tasks[p], b.stages[s].tasks[p]]
            0 <= s < a.stages.len() && 0 <= p < a.stages[s].tasks.len() ==> f(a.stages[s].tasks[p])
                == f(b.stages[s].tasks[p]),
    ensures
        graph_count(a, f) == graph_count(b, f),
{
    assert forall|s: int| 0 <= s < a.stages.len() implies stage_count_fn(f)(
        #[trigger] a.stages[s],
    ) == stage_count_fn(f)(b.stages[s]) by {
        lemma_count_where_congruent(a.stages[s].tasks, b.stages[s].tasks, f, f);
    }
    lemma_sum_by_congruent(a.stages, b.stages, stage_count_fn(f), stage_count_fn(f));
}

pub proof fn lemma_same_structure_cells(a: GraphModel, b: GraphModel)
    requires
        same_structure(a, b),
    ensures
        cells(a) == cells(b),
{
    lemma_sum_by_congruent(a.stages, b.stages, stage_size_fn(), stage_size_fn());
}

/// The freed list of one stage's sweep counts exactly its running tasks.
pub proof fn lemma_sweep_freed_tasks_count(ts: Seq<TaskModel>, e: Seq<char>)
    ensures
        count_where(sweep_freed_tasks(ts), seq_eq_fn(e)) == count_where(ts, running_on_fn(e)),
    decreases ts.len(),
{
    if ts.len() > 0 {
        lemma_sweep_freed_tasks_count(ts.drop_last(), e);
        lemma_count_where_concat(
            sweep_freed_tasks(ts.drop_last()),
            freed_of_task(ts.last()),
            seq_eq_fn(e),
        );
        match ts.last() {
            TaskModel::Running { executor_id, .. } => {
                let fr = freed_of_task(ts.last());
                assert(fr.len() == 1);
                assert(fr.last() == executor_id);
                assert(fr.drop_last() =~= Seq::<Seq<char>>::empty());
                assert(count_where(fr.drop_last(), seq_eq_fn(e)) == 0);
                assert(seq_eq_fn(e)(executor_id) == (executor_id == e));
                assert(count_where(fr, seq_eq_fn(e)) == if executor_id == e {
                    1int
                } else {
                    0int
                });
            },
            _ => {
                assert(count_where(freed_of_task(ts.last()), seq_eq_fn(e)) == 0);
            },
        }
    }
}

/// The freed list of a full sweep counts exactly the graph's running tasks.
pub proof fn lemma_sweep_freed_count(g: GraphModel, e: Seq<char>)
    ensures
        count_where(sweep_freed(g), seq_eq_fn(e)) == running_in_graph(g, e),
{
    lemma_sweep_freed_stages_count(g.stages, e);
}

pub proof fn lemma_sweep_freed_stages_count(ss: Seq<StageModel>, e: Seq<char>)
    ensures
        count_where(sweep_freed_stages(ss), seq_eq_fn(e)) == sum_by(
            ss,
            stage_count_fn(running_on_fn(e)),
        ),
    decreases ss.len(),
{
    if ss.len() > 0 {
        lemma_sweep_freed_stages_count(ss.drop_last(), e);
        lemma_count_where_concat(
            sweep_freed_stages(ss.drop_last()),
            sweep_freed_tasks(ss.last().tasks),
            seq_eq_fn(e),
        );
        lemma_sweep_freed_tasks_count(ss.last().tasks, e);
    }
}

/// After a cancel sweep nothing is running.
pub proof fn lemma_cancel_sweep_running(g: GraphModel, e: Seq<char>)
    ensures
        running_in_graph(cancel_sweep(g), e) == 0,
{
    let c = cancel_sweep(g);
    assert forall|s: int| 0 <= s < c.stages.len() implies stage_count_fn(running_on_fn(e))(
        #[trigger] c.stages[s],
    ) == 0 by {
        assert forall|p: int| 0 <= p < c.stages[s].tasks.len() implies !running_on_fn(e)(
            #[trigger] c.stages[s].tasks[p],
        ) by {
            assert(c.stages[s].tasks[p] == cancelled_task(g.stages[s].tasks[p]));
        }
        lemma_count_where_none(c.stages[s].tasks, running_on_fn(e));
    }
    lemma_sum_by_zero(c.stages, stage_count_fn(running_on_fn(e)));
}

/// Whether some completed input partition of stage `s` left its output on
/// executor `e` — the locality test used when matching tasks to offers.
pub open spec fn stage_is_local(g: GraphModel, s: int, e: Seq<char>) -> bool {
    exists|k: int, q: int|
        #![trigger g.stages[g.stages[s].inputs[k]].tasks[q]]
        0 <= k < g.stages[s].inputs.len() && 0 <= q
            < g.stages[g.stages[s].inputs[k]].tasks.len()
            && g.stages[g.stages[s].inputs[k]].tasks[q] == (TaskModel::Completed {
            executor_id: e,
        })
}

/// Assigning a pending partition keeps the graph well-formed.
pub proof fn lemma_assign_wf(g: GraphModel, s: int, p: int, e: Seq<char>, attempts: int)
    requires
        graph_wf(g),
        0 <= s < g.stages.len(),
        0 <= p < g.stages[s].tasks.len(),
        g.stages[s].tasks[p] == (TaskModel::Pending { attempts }),
        g.status is Active,
    ensures
        graph_wf(set_task(g, s, p, TaskModel::Running { executor_id: e, attempts })),
{
    let g1 = set_task(g, s, p, TaskModel::Running { executor_id: e, attempts });
    assert(same_structure(g, g1));
    assert(completion_equal(g, g1));
    lemma_wf_inputs_valid(g);
    lemma_completion_ready(g, g1);
    lemma_same_structure_cells(g, g1);
    assert forall|x: int, q: int|
        #![trigger g1.stages[x].tasks[q]]
        0 <= x < g1.stages.len() && 0 <= q < g1.stages[x].tasks.len() implies {
        &&& ((g1.stages[x].tasks[q] is Pending || g1.stages[x].tasks[q] is Running
            || g1.stages[x].tasks[q] is Completed) ==> stage_ready(g1, x))
        &&& (g1.status is Active && g1.stages[x].tasks[q] is Blocked ==> !stage_ready(g1, x))
        &&& (g1.stages[x].tasks[q] matches TaskModel::Pending { attempts } ==> 0 <= attempts
            <= g1.max_task_failures)
        &&& (g1.stages[x].tasks[q] matches TaskModel::Running { attempts, .. } ==> 0 <= attempts
            <= g1.max_task_failures)
    } by {
        if x == s && q == p {
            assert(stage_ready(g, s));
        } else {
            assert(g1.stages[x].tasks[q] == g.stages[x].tasks[q]);
        }
    }
}

/// The frame a status application never touches.
pub open spec fn same_job(a: GraphModel, b: GraphModel) -> bool {
    &&& a.job_id == b.job_id
    &&& a.session_id == b.session_id
    &&& a.max_task_failures == b.max_task_failures
}

/// Status application never starts new work: a task running afterwards was
/// already running, on the same executor and attempt.
pub open spec fn no_new_running(a: GraphModel, b: GraphModel) -> bool {
    forall|s: int, p: int|
        #![trigger b.stages[s].tasks[p]]
        0 <= s < b.stages.len() && 0 <= p < b.stages[s].tasks.len() ==> (b.stages[s].tasks[p]
            is Running ==> b.stages[s].tasks[p] == a.stages[s].tasks[p])
}

pub proof fn lemma_apply_completed_wf(
    g: GraphModel,
    s: int,
    p: int,
    loc: Seq<char>,
    freed0: Seq<Seq<char>>,
)
    requires
        graph_wf(g),
        0 <= s < g.stages.len(),
        0 <= p < g.stages[s].tasks.len(),
        g.stages[s].tasks[p] is Running || g.stages[s].tasks[p] is Pending,
    ensures
        graph_wf(apply_completed(g, s, p, loc, freed0).graph),
        same_structure(g, apply_completed(g, s, p, loc, freed0).graph),
        same_job(g, apply_completed(g, s, p, loc, freed0).graph),
        no_new_running(g, apply_completed(g, s, p, loc, freed0).graph),
{
    let t0 = g.stages[s].tasks[p];
    let g1 = set_task(g, s, p, TaskModel::Completed { executor_id: loc });
    assert(same_structure(g, g1));
    assert(inputs_valid(g1));
    lemma_ready_monotone(g, g1);
    lemma_same_structure_cells(g, g1);
    if g.status is Active {
        let eff = apply_completed(g, s, p, loc, freed0);
        let g2 = unblock_all(g1);
        let done = terminal_complete(g1);
        let g3 = eff.graph;
        assert(g3.stages == g2.stages);
        assert(same_structure(g1, g3));
        assert(completion_equal(g1, g3));
        lemma_completion_ready(g1, g3);
        lemma_same_structure_cells(g, g3);
        assert forall|x: int, q: int|
            #![trigger g3.stages[x].tasks[q]]
            0 <= x < g3.stages.len() && 0 <= q < g3.stages[x].tasks.len() implies {
            &&& ((g3.stages[x].tasks[q] is Pending || g3.stages[x].tasks[q] is Running
                || g3.stages[x].tasks[q] is Completed) ==> stage_ready(g3, x))
            &&& (g3.status is Active && g3.stages[x].tasks[q] is Blocked ==> !stage_ready(g3, x))
            &&& (g3.stages[x].tasks[q] matches TaskModel::Pending { attempts } ==> 0 <= attempts
                <= g3.max_task_failures)
            &&& (g3.stages[x].tasks[q] matches TaskModel::Running { attempts, .. } ==> 0
                <= attempts <= g3.max_task_failures)
            &&& ((g3.status is Failed || g3.status is Cancelled) ==> task_terminal(
                g3.stages[x].tasks[q],
            ))
        } by {
            assert(g3.stages[x].tasks[q] == if g1.stages[x].tasks[q] is Blocked && stage_ready(
                g1,
                x,
            ) {
                TaskModel::Pending { attempts: 0 }
            } else {
                g1.stages[x].tasks[q]
            });
            if !(g1.stages[x].tasks[q] is Blocked && stage_ready(g1, x)) {
                if x == s && q == p {
                    assert(stage_ready(g, s));
                } else {
                    assert(g1.stages[x].tasks[q] == g.stages[x].tasks[q]);
                }
            }
        }
        if done {
            assert(terminal_complete(g3));
        } else {
            assert(!terminal_complete(g3));
        }
    } else {
        assert(!(g.status is Failed) && !(g.status is Cancelled)) by {
            assert(!task_terminal(t0));
        }
        assert(completion_equal(g1, g1));
        assert forall|x: int, q: int|
            #![trigger g1.stages[x].tasks[q]]
            0 <= x < g1.stages.len() && 0 <= q < g1.stages[x].tasks.len() implies {
            &&& ((g1.stages[x].tasks[q] is Pending || g1.stages[x].tasks[q] is Running
                || g1.stages[x].tasks[q] is Completed) ==> stage_ready(g1, x))
            &&& (g1.status is Active && g1.stages[x].tasks[q] is Blocked ==> !stage_ready(g1, x))
            &&& (g1.stages[x].tasks[q] matches TaskModel::Pending { attempts } ==> 0 <= attempts
                <= g1.max_task_failures)
            &&& (g1.stages[x].tasks[q] matches TaskModel::Running { attempts, .. } ==> 0
                <= attempts <= g1.max_task_failures)
            &&& ((g1.status is Failed || g1.status is Cancelled) ==> task_terminal(
                g1.stages[x].tasks[q],
            ))
        } by {
            if x == s && q == p {
                assert(stage_ready(g, s));
            } else {
                assert(g1.stages[x].tasks[q] == g.stages[x].tasks[q]);
            }
        }
        assert(g.status is Completed);
        assert(terminal_complete(g));
        lemma_ready_monotone(g, g1);
        assert(terminal_complete(g1));
    }
}

pub proof fn lemma_apply_fatal_wf(
    g: GraphModel,
    s: int,
    p: int,
    reason: Seq<char>,
    freed0: Seq<Seq<char>>,
)
    requires
        graph_wf(g),
        0 <= s < g.stages.len(),
        0 <= p < g.stages[s].tasks.len(),
        g.stages[s].tasks[p] is Running || g.stages[s].tasks[p] is Pending,
    ensures
        graph_wf(apply_fatal(g, s, p, reason, freed0).graph),
        same_structure(g, apply_fatal(g, s, p, reason, freed0).graph),
        same_job(g, apply_fatal(g, s, p, reason, freed0).graph),
        no_new_running(g, apply_fatal(g, s, p, reason, freed0).graph),
{
    let t0 = g.stages[s].tasks[p];
    let g1 = set_task(g, s, p, TaskModel::Failed { reason });
    assert(same_structure(g, g1));
    assert(completion_equal(g, g1));
    lemma_completion_ready(g, g1);
    lemma_same_structure_cells(g, g1);
    assert(!(g.status is Failed) && !(g.status is Cancelled)) by {
        assert(!task_terminal(t0));
    }
    if g.status is Active {
        let eff = apply_fatal(g, s, p, reason, freed0);
        let g3 = eff.graph;
        let g2 = cancel_sweep(g1);
        assert(g3.stages == g2.stages);
        assert(same_structure(g, g3));
        assert(completion_equal(g1, g3)) by {
            assert forall|x: int, q: int|
                #![trigger g1.stages[x].tasks[q], g3.stages[x].tasks[q]]
                0 <= x < g1.stages.len() && 0 <= q < g1.stages[x].tasks.len() implies ((
            g1.stages[x].tasks[q] is Completed) <==> (g3.stages[x].tasks[q] is Completed)) by {
                assert(g3.stages[x].tasks[q] == cancelled_task(g1.stages[x].tasks[q]));
            }
        }
        lemma_wf_inputs_valid(g);
        lemma_completion_ready(g1, g3);
        lemma_same_structure_cells(g, g3);
        assert forall|x: int, q: int|
            #![trigger g3.stages[x].tasks[q]]
            0 <= x < g3.stages.len() && 0 <= q < g3.stages[x].tasks.len() implies {
            &&& task_terminal(g3.stages[x].tasks[q])
            &&& ((g3.stages[x].tasks[q] is Pending || g3.stages[x].tasks[q] is Running
                || g3.stages[x].tasks[q] is Completed) ==> stage_ready(g3, x))
            &&& !(g3.stages[x].tasks[q] is Pending) && !(g3.stages[x].tasks[q] is Running)
        } by {
            assert(g3.stages[x].tasks[q] == cancelled_task(g1.stages[x].tasks[q]));
            if g3.stages[x].tasks[q] is Completed {
                assert(g1.stages[x].tasks[q] is Completed);
                assert(g.stages[x].tasks[q] is Completed);
                assert(stage_ready(g, x));
                assert(stage_ready(g1, x));
            }
        }
    } else {
        assert(g.status is Completed);
        assert forall|x: int, q: int|
            #![trigger g1.stages[x].tasks[q]]
            0 <= x < g1.stages.len() && 0 <= q < g1.stages[x].tasks.len() implies {
            &&& ((g1.stages[x].tasks[q] is Pending || g1.stages[x].tasks[q] is Running
                || g1.stages[x].tasks[q] is Completed) ==> stage_ready(g1, x))
            &&& (g1.stages[x].tasks[q] matches TaskModel::Pending { attempts } ==> 0 <= attempts
                <= g1.max_task_failures)
            &&& (g1.stages[x].tasks[q] matches TaskModel::Running { attempts, .. } ==> 0
                <= attempts <= g1.max_task_failures)
        } by {
            if !(x == s && q == p) {
                assert(g1.stages[x].tasks[q] == g.stages[x].tasks[q]);
            }
        }
        assert(terminal_complete(g));
        assert(terminal_complete(g1));
    }
}

/// Applying any status keeps the graph well-formed, keeps its identity and
/// layout, and starts nothing new.
pub proof fn lemma_apply_status_wf(g: GraphModel, st: TaskStatusModel, from: Seq<char>)
    requires
        graph_wf(g),
    ensures
        graph_wf(apply_status(g, st, from).graph),
        same_structure(g, apply_status(g, st, from).graph),
        same_job(g, apply_status(g, st, from).graph),
        no_new_running(g, apply_status(g, st, from).graph),
        apply_status(g, st, from).graph.status == g.status || g.status is Active,
{
    if 0 <= st.stage_id < g.stages.len() && 0 <= st.partition_id < g.stages[st.stage_id].tasks.len() {
        let s = st.stage_id;
        let p = st.partition_id;
        let t = g.stages[s].tasks[p];
        match st.status {
            StatusUpdateModel::Running => {},
            StatusUpdateModel::Completed => match t {
                TaskModel::Running { executor_id, .. } => {
                    lemma_apply_completed_wf(g, s, p, executor_id, seq![executor_id]);
                },
                TaskModel::Pending { .. } => {
                    lemma_apply_completed_wf(g, s, p, from, Seq::empty());
                },
                _ => {},
            },
            StatusUpdateModel::Failed { reason, retriable } => match t {
                TaskModel::Running { executor_id, attempts } => {
                    if retriable && attempts + 1 <= g.max_task_failures {
                        let g1 = set_task(g, s, p, TaskModel::Pending { attempts: attempts + 1 });
                        assert(same_structure(g, g1));
                        assert(completion_equal(g, g1));
                        lemma_wf_inputs_valid(g);
                        lemma_completion_ready(g, g1);
                        lemma_same_structure_cells(g, g1);
                        assert(!(g.status is Failed) && !(g.status is Cancelled)) by {
                            assert(!task_terminal(t));
                        }
                        assert forall|x: int, q: int|
                            #![trigger g1.stages[x].tasks[q]]
                            0 <= x < g1.stages.len() && 0 <= q < g1.stages[x].tasks.len() implies {
                            &&& ((g1.stages[x].tasks[q] is Pending || g1.stages[x].tasks[q]
                                is Running || g1.stages[x].tasks[q] is Completed) ==> stage_ready(
                                g1,
                                x,
                            ))
                            &&& (g1.status is Active && g1.stages[x].tasks[q] is Blocked
                                ==> !stage_ready(g1, x))
                            &&& (g1.stages[x].tasks[q] matches TaskModel::Pending { attempts }
                                ==> 0 <= attempts <= g1.max_task_failures)
                            &&& (g1.stages[x].tasks[q] matches TaskModel::Running { attempts, .. }
                                ==> 0 <= attempts <= g1.max_task_failures)
                        } by {
                            if x == s && q == p {
                                assert(stage_ready(g, s));
                            } else {
                                assert(g1.stages[x].tasks[q] == g.stages[x].tasks[q]);
                            }
                        }
                    } else {
                        lemma_apply_fatal_wf(g, s, p, reason, seq![executor_id]);
                    }
                },
                TaskModel::Pending { .. } => {
                    if !retriable {
                        lemma_apply_fatal_wf(g, s, p, reason, Seq::empty());
                    }
                },
                _ => {},
            },
        }
    }
}

/// Slot accounting of a status application: for every executor, exactly one
/// running task disappears per entry of the freed list that names it.
pub proof fn lemma_apply_status_running(
    g: GraphModel,
    st: TaskStatusModel,
    from: Seq<char>,
    e: Seq<char>,
)
    requires
        graph_wf(g),
    ensures
        running_in_graph(apply_status(g, st, from).graph, e) == running_in_graph(g, e)
            - count_where(apply_status(g, st, from).freed, seq_eq_fn(e)),
{
    let eff = apply_status(g, st, from);
    if 0 <= st.stage_id < g.stages.len() && 0 <= st.partition_id < g.stages[st.stage_id].tasks.len() {
        let s = st.stage_id;
        let p = st.partition_id;
        let t = g.stages[s].tasks[p];
        match st.status {
            StatusUpdateModel::Running => {},
            StatusUpdateModel::Completed => match t {
                TaskModel::Running { executor_id, .. } => {
                    lemma_completed_running_delta(g, s, p, executor_id, seq![executor_id], e);
                    lemma_freed_singleton(executor_id, e);
                },
                TaskModel::Pending { .. } => {
                    lemma_completed_running_delta(g, s, p, from, Seq::empty(), e);
                },
                _ => {},
            },
            StatusUpdateModel::Failed { reason, retriable } => match t {
                TaskModel::Running { executor_id, attempts } => {
                    if retriable && attempts + 1 <= g.max_task_failures {
                        lemma_graph_count_set_task(
                            g,
                            s,
                            p,
                            TaskModel::Pending { attempts: attempts + 1 },
                            running_on_fn(e),
                        );
                        lemma_freed_singleton(executor_id, e);
                    } else {
                        lemma_fatal_running_delta(g, s, p, reason, seq![executor_id], e);
                        lemma_freed_singleton(executor_id, e);
                    }
                },
                TaskModel::Pending { .. } => {
                    if !retriable {
                        lemma_fatal_running_delta(g, s, p, reason, Seq::empty(), e);
                    }
                },
                _ => {},
            },
        }
    }
}

proof fn lemma_freed_singleton(x: Seq<char>, e: Seq<char>)
    ensures
        count_where(seq![x], seq_eq_fn(e)) == if x == e {
            1int
        } else {
            0int
        },
{
    let fr: Seq<Seq<char>> = seq![x];
    assert(fr.drop_last() =~= Seq::<Seq<char>>::empty());
    assert(count_where(fr.drop_last(), seq_eq_fn(e)) == 0);
    assert(fr.last() == x);
}

proof fn lemma_completed_running_delta(
    g: GraphModel,
    s: int,
    p: int,
    loc: Seq<char>,
    freed0: Seq<Seq<char>>,
    e: Seq<char>,
)
    requires
        graph_wf(g),
        0 <= s < g.stages.len(),
        0 <= p < g.stages[s].tasks.len(),
    ensures
        running_in_graph(apply_completed(g, s, p, loc, freed0).graph, e) == running_in_graph(g, e)
            - (if is_running_on(g.stages[s].tasks[p], e) {
            1int
        } else {
            0int
        }),
        apply_completed(g, s, p, loc, freed0).freed == freed0,
{
    let g1 = set_task(g, s, p, TaskModel::Completed { executor_id: loc });
    lemma_graph_count_set_task(g, s, p, TaskModel::Completed { executor_id: loc }, running_on_fn(e));
    if g.status is Active {
        let g3 = apply_completed(g, s, p, loc, freed0).graph;
        let g2 = unblock_all(g1);
        assert(g3.stages == g2.stages);
        assert forall|x: int, q: int|
            #![trigger g1.stages[x].tasks[q], g3.stages[x].tasks[q]]
            0 <= x < g1.stages.len() && 0 <= q < g1.stages[x].tasks.len() implies running_on_fn(e)(
            g1.stages[x].tasks[q],
        ) == running_on_fn(e)(g3.stages[x].tasks[q]) by {
            assert(g3.stages[x].tasks[q] == if g1.stages[x].tasks[q] is Blocked && stage_ready(
                g1,
                x,
            ) {
                TaskModel::Pending { attempts: 0 }
            } else {
                g1.stages[x].tasks[q]
            });
        }
        lemma_graph_count_congruent(g1, g3, running_on_fn(e));
    }
}

proof fn lemma_fatal_running_delta(
    g: GraphModel,
    s: int,
    p: int,
    reason: Seq<char>,
    freed0: Seq<Seq<char>>,
    e: Seq<char>,
)
    requires
        graph_wf(g),
        0 <= s < g.stages.len(),
        0 <= p < g.stages[s].tasks.len(),
    ensures
        running_in_graph(apply_fatal(g, s, p, reason, freed0).graph, e) == running_in_graph(g, e)
            - (if is_running_on(g.stages[s].tasks[p], e) {
            1int
        } else {
            0int
        }) - (count_where(apply_fatal(g, s, p, reason, freed0).freed, seq_eq_fn(e)) - count_where(
            freed0,
            seq_eq_fn(e),
        )),
{
    let g1 = set_task(g, s, p, TaskModel::Failed { reason });
    lemma_graph_count_set_task(g, s, p, TaskModel::Failed { reason }, running_on_fn(e));
    if g.status is Active {
        let eff = apply_fatal(g, s, p, reason, freed0);
        lemma_cancel_sweep_running(g1, e);
        assert(eff.graph.stages == cancel_sweep(g1).stages);
        lemma_graph_count_congruent(cancel_sweep(g1), eff.graph, running_on_fn(e));
        lemma_sweep_freed_count(g1, e);
        lemma_count_where_concat(freed0, sweep_freed(g1), seq_eq_fn(e));
    }
}

/// Cancelling a job outright: every partition still in flight is
/// cancelled, the running ones releasing their executors' slots, and the
/// job enters its terminal state. A job that already ended is left alone.
pub open spec fn cancel_job_model(g: GraphModel) -> GraphEffect {
    if g.status is Active {
        GraphEffect {
            graph: GraphModel { status: JobStatusModel::Cancelled, ..cancel_sweep(g) },
            events: Seq::empty(),
            freed: sweep_freed(g),
        }
    } else {
        GraphEffect { graph: g, events: Seq::empty(), freed: Seq::empty() }
    }
}

pub proof fn lemma_cancel_job_wf(g: GraphModel)
    requires
        graph_wf(g),
    ensures
        graph_wf(cancel_job_model(g).graph),
        same_structure(g, cancel_job_model(g).graph),
        same_job(g, cancel_job_model(g).graph),
        no_new_running(g, cancel_job_model(g).graph),
{
    if g.status is Active {
        let g2 = cancel_job_model(g).graph;
        assert(g2.stages == cancel_sweep(g).stages);
        assert(same_structure(g, g2));
        assert(completion_equal(g, g2)) by {
            assert forall|x: int, q: int|
                #![trigger g.stages[x].tasks[q], g2.stages[x].tasks[q]]
                0 <= x < g.stages.len() && 0 <= q < g.stages[x].tasks.len() implies ((
            g.stages[x].tasks[q] is Completed) <==> (g2.stages[x].tasks[q] is Completed)) by {
                assert(g2.stages[x].tasks[q] == cancelled_task(g.stages[x].tasks[q]));
            }
        }
        lemma_wf_inputs_valid(g);
        lemma_completion_ready(g, g2);
        lemma_same_structure_cells(g, g2);
        assert forall|x: int, q: int|
            #![trigger g2.stages[x].tasks[q]]
            0 <= x < g2.stages.len() && 0 <= q < g2.stages[x].tasks.len() implies {
            &&& task_terminal(g2.stages[x].tasks[q])
            &&& ((g2.stages[x].tasks[q] is Pending || g2.stages[x].tasks[q] is Running
                || g2.stages[x].tasks[q] is Completed) ==> stage_ready(g2, x))
            &&& !(g2.stages[x].tasks[q] is Running)
        } by {
            assert(g2.stages[x].tasks[q] == cancelled_task(g.stages[x].tasks[q]));
            if g2.stages[x].tasks[q] is Completed {
                assert(g.stages[x].tasks[q] is Completed);
                assert(stage_ready(g, x));
            }
        }
    }
}

pub proof fn lemma_cancel_job_running(g: GraphModel, e: Seq<char>)
    requires
        graph_wf(g),
    ensures
        running_in_graph(cancel_job_model(g).graph, e) == running_in_graph(g, e) - count_where(
            cancel_job_model(g).freed,
            seq_eq_fn(e),
        ),
{
    if g.status is Active {
        let g2 = cancel_job_model(g).graph;
        lemma_cancel_sweep_running(g, e);
        lemma_graph_count_congruent(cancel_sweep(g), g2, running_on_fn(e));
        lemma_sweep_freed_count(g, e);
    }
}

// ---------------------------------------------------------------------------
// Construction
// ---------------------------------------------------------------------------

/// Whether a stage plan only references earlier stages.
pub open spec fn plan_valid(plans: Seq<StagePlanModel>) -> bool {
    forall|s: int, k: int|
        0 <= s < plans.len() && 0 <= k < plans[s].inputs.len() ==> 0 <= (
        #[trigger] plans[s].inputs[k]) < s
}

/// A stage is ready at submission exactly when every input stage is empty:
/// an empty stage is trivially complete, and no other stage has completed
/// anything yet.
pub open spec fn init_ready(plans: Seq<StagePlanModel>, s: int) -> bool {
    forall|k: int|
        0 <= k < plans[s].inputs.len() ==> plans[#[trigger] plans[s].inputs[k]].partitions == 0
}

pub open spec fn stage_init(plans: Seq<StagePlanModel>, s: int) -> StageModel {
    StageModel {
        inputs: plans[s].inputs,
        tasks: Seq::new(
            plans[s].partitions as nat,
            |p: int|
                if init_ready(plans, s) {
                    TaskModel::Pending { attempts: 0 }
                } else {
                    TaskModel::Blocked
                },
        ),
    }
}

/// The graph a fresh submission builds: leaf stages (and stages fed only by
/// empty stages) start with every partition `Pending`, all others blocked. A
/// job whose terminal stage has no partitions is complete on arrival.
pub open spec fn graph_init(
    job_id: Seq<char>,
    session_id: int,
    plans: Seq<StagePlanModel>,
    max_task_failures: int,
) -> GraphModel {
    GraphModel {
        job_id: job_id,
        session_id: session_id,
        status: if plans.len() == 0 || plans[plans.len() - 1].partitions == 0 {
            JobStatusModel::Completed
        } else {
            JobStatusModel::Active
        },
        stages: Seq::new(plans.len(), |s: int| stage_init(plans, s)),
        max_task_failures: max_task_failures,
    }
}

/// At submission, a stage of the initial graph is complete exactly when it
/// has no partitions.
pub proof fn lemma_init_stage_complete(plans: Seq<StagePlanModel>, s: int)
    requires
        0 <= s < plans.len(),
        plans[s].partitions >= 0,
    ensures
        stage_complete(stage_init(plans, s)) <==> plans[s].partitions == 0,
{
    let st = stage_init(plans, s);
    if plans[s].partitions <= 0 {
        assert(st.tasks.len() == 0);
        assert(stage_complete(st));
    } else {
        assert(st.tasks.len() == plans[s].partitions);
        assert(!(st.tasks[0] is Completed));
        assert(!stage_complete(st));
    }
}

/// The initial graph is well-formed.
pub proof fn lemma_graph_init_wf(
    job_id: Seq<char>,
    session_id: int,
    plans: Seq<StagePlanModel>,
    max_task_failures: int,
)
    requires
        plan_valid(plans),
        0 <= max_task_failures < usize::MAX as int,
        plan_cells(plans) <= usize::MAX as int,
        forall|s: int| 0 <= s < plans.len() ==> (#[trigger] plans[s]).partitions >= 0,
    ensures
        graph_wf(graph_init(job_id, session_id, plans, max_task_failures)),
{
    let g = graph_init(job_id, session_id, plans, max_task_failures);
    assert(cells(g) == plan_cells(plans)) by {
        lemma_sum_by_congruent(g.stages, plans, stage_size_fn(), plan_size_fn());
    }
    assert forall|s: int|
        0 <= s < g.stages.len() implies (stage_ready(g, s) <==> init_ready(plans, s)) by {
        assert forall|k: int| 0 <= k < g.stages[s].inputs.len() implies (stage_complete(
            g.stages[#[trigger] g.stages[s].inputs[k]],
        ) <==> plans[g.stages[s].inputs[k]].partitions == 0) by {
            lemma_init_stage_complete(plans, g.stages[s].inputs[k]);
        }
    }
    assert forall|s: int, p: int|
        #![trigger g.stages[s].tasks[p]]
        0 <= s < g.stages.len() && 0 <= p < g.stages[s].tasks.len() implies {
        &&& ((g.stages[s].tasks[p] is Pending || g.stages[s].tasks[p] is Running
            || g.stages[s].tasks[p] is Completed) ==> stage_ready(g, s))
        &&& (g.status is Active && g.stages[s].tasks[p] is Blocked ==> !stage_ready(g, s))
        &&& (g.stages[s].tasks[p] matches TaskModel::Pending { attempts } ==> 0 <= attempts
            <= g.max_task_failures)
        &&& (g.stages[s].tasks[p] matches TaskModel::Running { attempts, .. } ==> 0 <= attempts
            <= g.max_task_failures)
        &&& ((g.status is Failed || g.status is Cancelled) ==> task_terminal(g.stages[s].tasks[p]))
    } by {
        assert(g.stages[s] == stage_init(plans, s));
    }
    if g.stages.len() > 0 && plans[plans.len() - 1].partitions > 0 {
        lemma_init_stage_complete(plans, plans.len() - 1);
    } else {
        if g.stages.len() > 0 {
            lemma_init_stage_complete(plans, plans.len() - 1);
        }
    }
}

impl ExecutionGraph {
    /// Builds the execution graph for a fresh submission, or rejects a plan
    /// whose stages do not form a forward-referencing chain.
    pub fn new(
        job_id: String,
        session_id: u64,
        plan: &Vec<StagePlan>,
        max_task_failures: usize,
    ) -> (r: Result<ExecutionGraph, SchedulerError>)
        requires
            max_task_failures < usize::MAX,
        ensures
            match r {
                Ok(g) => plan_valid(plan_models(plan@)) && plan_cells(plan_models(plan@))
                    <= usize::MAX as int && g@ == graph_init(
                    job_id@,
                    session_id as int,
                    plan_models(plan@),
                    max_task_failures as int,
                ) && graph_wf(g@),
                Err(SchedulerError::InvalidJobPlan) => !plan_valid(plan_models(plan@)),
                Err(SchedulerError::TooManyTasks) => plan_valid(plan_models(plan@)) && plan_cells(
                    plan_models(plan@),
                ) > usize::MAX as int,
                Err(_) => false,
            },
    {
        let ghost plans = plan_models(plan@);
        proof {
            assert(plans.len() == plan@.len());
            assert forall|s: int| 0 <= s < plans.len() implies (#[trigger] plans[s])
                == plan@[s]@ by {}
        }
        // validate that inputs reference earlier stages only
        let mut s: usize = 0;
        while s < plan.len()
            invariant
                0 <= s <= plan.len(),
                plans == plan_models(plan@),
                plans.len() == plan@.len(),
                forall|x: int| 0 <= x < plans.len() ==> (#[trigger] plans[x]) == plan@[x]@,
                forall|x: int, k: int|
                    0 <= x < s && 0 <= k < plans[x].inputs.len() ==> 0 <= (
                    #[trigger] plans[x].inputs[k]) < x,
            decreases plan.len() - s,
        {
            let st = &plan[s];
            let mut k: usize = 0;
            while k < st.inputs.len()
                invariant
                    0 <= k <= st.inputs.len(),
                    st == plan[s as int],
                    s < plan@.len(),
                    plans == plan_models(plan@),
                    plans.len() == plan@.len(),
                    forall|x: int| 0 <= x < plans.len() ==> (#[trigger] plans[x]) == plan@[x]@,
                    forall|x: int| 0 <= x < k ==> 0 <= (#[trigger] plans[s as int].inputs[x]) < s,
                decreases st.inputs.len() - k,
            {
                if st.inputs[k] >= s {
                    proof {
                        assert(plans[s as int].inputs[k as int] == plan@[s as int]@.inputs[
                            k as int
                        ]);
                        assert(!plan_valid(plans));
                    }
                    return Err(SchedulerError::InvalidJobPlan);
                }
                proof {
                    assert(plans[s as int].inputs[k as int] == plan@[s as int].inputs@[k as int]
                        as int);
                }
                k += 1;
            }
            s += 1;
        }
        // the graph must stay countable: reject plans with more partitions
        // than this process can index
        let mut total: usize = 0;
        let mut c: usize = 0;
        while c < plan.len()
            invariant
                0 <= c <= plan.len(),
                plans == plan_models(plan@),
                plans.len() == plan@.len(),
                plan_valid(plans),
                forall|x: int| 0 <= x < plans.len() ==> (#[trigger] plans[x]) == plan@[x]@,
                total as int == plan_cells(plans.take(c as int)),
            decreases plan.len() - c,
        {
            let parts = plan[c].partitions;
            proof {
                lemma_sum_by_take_step(plans, plan_size_fn(), c as int);
            }
            match total.checked_add(parts) {
                Some(t) => {
                    total = t;
                },
                None => {
                    proof {
                        assert(plan_cells(plans.take(c as int + 1)) > usize::MAX as int);
                        assert forall|j: int|
                            0 <= j < plans.len() implies plan_size_fn()(#[trigger] plans[j])
                            >= 0 by {}
                        crate::counting::lemma_sum_by_take_le(plans, plan_size_fn(), c as int + 1);
                    }
                    return Err(SchedulerError::TooManyTasks);
                },
            }
            c += 1;
        }
        proof {
            assert(plans.take(plans.len() as int) =~= plans);
        }
        // build the stages
        let mut stages: Vec<Stage> = Vec::new();
        let mut i: usize = 0;
        while i < plan.len()
            invariant
                0 <= i <= plan.len(),
                plans == plan_models(plan@),
                plans.len() == plan@.len(),
                plan_valid(plans),
                plan_cells(plans) <= usize::MAX as int,
                forall|x: int| 0 <= x < plans.len() ==> (#[trigger] plans[x]) == plan@[x]@,
                stages@.len() == i,
                forall|x: int| 0 <= x < i ==> (#[trigger] stages@[x])@ == stage_init(plans, x),
            decreases plan.len() - i,
        {
            // is every input stage empty?
            let st = &plan[i];
            let mut ready = true;
            let mut k: usize = 0;
            while k < st.inputs.len()
                invariant
                    0 <= k <= st.inputs.len(),
                    st == plan[i as int],
                    i < plan@.len(),
                    plans == plan_models(plan@),
                    plans.len() == plan@.len(),
                    plan_valid(plans),
                    forall|x: int| 0 <= x < plans.len() ==> (#[trigger] plans[x]) == plan@[x]@,
                    ready <==> forall|x: int|
                        0 <= x < k ==> plans[#[trigger] plans[i as int].inputs[x]].partitions == 0,
                decreases st.inputs.len() - k,
            {
                let inp = st.inputs[k];
                proof {
                    assert(plans[i as int].inputs[k as int] == st.inputs@[k as int] as int);
                }
                if plan[inp].partitions != 0 {
                    if ready {
                        ready = false;
                        proof {
                            assert(plans[plans[i as int].inputs[k as int]].partitions != 0);
                        }
                    }
                }
                k += 1;
            }
            proof {
                assert(ready <==> init_ready(plans, i as int));
            }
            let mut tasks: Vec<TaskState> = Vec::new();
            let mut p: usize = 0;
            while p < st.partitions
                invariant
                    0 <= p <= st.partitions,
                    st == plan[i as int],
                    i < plan@.len(),
                    tasks@.len() == p,
                    forall|x: int|
                        0 <= x < p ==> (#[trigger] tasks@[x])@ == if ready {
                            TaskModel::Pending { attempts: 0 }
                        } else {
                            TaskModel::Blocked
                        },
                decreases st.partitions - p,
            {
                if ready {
                    tasks.push(TaskState::Pending { attempts: 0 });
                } else {
                    tasks.push(TaskState::Blocked);
                }
                p += 1;
            }
            let mut inputs: Vec<usize> = Vec::new();
            let mut k2: usize = 0;
            while k2 < st.inputs.len()
                invariant
                    0 <= k2 <= st.inputs.len(),
                    st == plan[i as int],
                    i < plan@.len(),
                    inputs@.len() == k2,
                    forall|x: int| 0 <= x < k2 ==> (#[trigger] inputs@[x]) == st.inputs@[x],
                decreases st.inputs.len() - k2,
            {
                inputs.push(st.inputs[k2]);
                k2 += 1;
            }
            let stage = Stage { inputs, tasks };
            proof {
                assert(stage@.inputs =~= plans[i as int].inputs);
                assert(stage@.tasks =~= stage_init(plans, i as int).tasks);
                assert(stage@ =~= stage_init(plans, i as int));
            }
            stages.push(stage);
            i += 1;
        }
        let empty_terminal = if plan.len() == 0 {
            true
        } else {
            plan[plan.len() - 1].partitions == 0
        };
        let status = if empty_terminal {
            JobStatus::Completed
        } else {
            JobStatus::Active
        };
        let g = ExecutionGraph { job_id, session_id, status, stages, max_task_failures };
        proof {
            assert(g@.stages =~= graph_init(g@.job_id, session_id as int, plans, max_task_failures as int).stages);
            assert(g@ =~= graph_init(g@.job_id, session_id as int, plans, max_task_failures as int));
            assert forall|x: int| 0 <= x < plans.len() implies (#[trigger] plans[x]).partitions
                >= 0 by {}
            lemma_graph_init_wf(g@.job_id, session_id as int, plans, max_task_failures as int);
        }
        Ok(g)
    }

    /// Writes one partition's state.
    fn set_task_state(&mut self, s: usize, p: usize, t: TaskState)
        requires
            s < old(self)@.stages.len(),
            p < old(self)@.stages[s as int].tasks.len(),
        ensures
            final(self)@ == set_task(old(self)@, s as int, p as int, t@),
    {
        self.stages[s].tasks[p] = t;
        proof {
            assert(final(self)@.stages =~~= set_task(old(self)@, s as int, p as int, t@).stages);
            assert(final(self)@ =~~= set_task(old(self)@, s as int, p as int, t@));
        }
    }

    /// Whether every partition of stage `x` has completed.
    pub fn stage_complete_at(&self, x: usize) -> (r: bool)
        requires
            x < self@.stages.len(),
        ensures
            r == stage_complete(self@.stages[x as int]),
    {
        let tasks = &self.stages[x].tasks;
        let mut p: usize = 0;
        while p < tasks.len()
            invariant
                0 <= p <= tasks.len(),
                x < self@.stages.len(),
                tasks == &self.stages[x as int].tasks,
                forall|q: int| 0 <= q < p ==> (#[trigger] self@.stages[x as int].tasks[q]) is Completed,
            decreases tasks.len() - p,
        {
            match &tasks[p] {
                TaskState::Completed { .. } => {},
                _ => {
                    proof {
                        assert(!((#[trigger] self@.stages[x as int].tasks[p as int]) is Completed));
                    }
                    return false;
                },
            }
            p += 1;
        }
        true
    }

    /// Whether every input stage of stage `s` has completed.
    pub fn stage_ready_at(&self, s: usize) -> (r: bool)
        requires
            s < self@.stages.len(),
            forall|k: int|
                0 <= k < self@.stages[s as int].inputs.len() ==> 0 <= (
                #[trigger] self@.stages[s as int].inputs[k]) < self@.stages.len(),
        ensures
            r == stage_ready(self@, s as int),
    {
        let mut k: usize = 0;
        let n = self.stages[s].inputs.len();
        while k < n
            invariant
                0 <= k <= n,
                s < self@.stages.len(),
                n == self@.stages[s as int].inputs.len(),
                forall|x: int|
                    0 <= x < self@.stages[s as int].inputs.len() ==> 0 <= (
                    #[trigger] self@.stages[s as int].inputs[x]) < self@.stages.len(),
                forall|x: int|
                    0 <= x < k ==> stage_complete(
                        self@.stages[#[trigger] self@.stages[s as int].inputs[x]],
                    ),
            decreases n - k,
        {
            let inp = self.stages[s].inputs[k];
            proof {
                assert(self@.stages[s as int].inputs[k as int] == inp as int);
            }
            if !self.stage_complete_at(inp) {
                proof {
                    assert(!stage_complete(
                        self@.stages[#[trigger] self@.stages[s as int].inputs[k as int]],
                    ));
                }
                return false;
            }
            k += 1;
        }
        true
    }

    /// Turns every blocked partition of a ready stage into a pending one.
    fn unblock_ready(&mut self)
        requires
            inputs_valid(old(self)@),
        ensures
            final(self)@ == unblock_all(old(self)@),
    {
        let ghost orig = self@;
        let mut s: usize = 0;
        while s < self.stages.len()
            invariant
                0 <= s <= self.stages.len(),
                inputs_valid(orig),
                self@.stages.len() == orig.stages.len(),
                self@.job_id == orig.job_id,
                self@.session_id == orig.session_id,
                self@.status == orig.status,
                self@.max_task_failures == orig.max_task_failures,
                forall|x: int|
                    0 <= x < orig.stages.len() ==> (#[trigger] self@.stages[x]).inputs
                        == orig.stages[x].inputs && self@.stages[x].tasks.len()
                        == orig.stages[x].tasks.len(),
                forall|x: int, q: int|
                    #![trigger self@.stages[x].tasks[q]]
                    0 <= x < orig.stages.len() && 0 <= q < orig.stages[x].tasks.len()
                        ==> self@.stages[x].tasks[q] == if x < s {
                        unblock_all(orig).stages[x].tasks[q]
                    } else {
                        orig.stages[x].tasks[q]
                    },
            decreases self.stages.len() - s,
        {
            proof {
                assert(completion_equal(self@, orig)) by {
                    assert forall|x: int, q: int|
                        #![trigger self@.stages[x].tasks[q], orig.stages[x].tasks[q]]
                        0 <= x < self@.stages.len() && 0 <= q < self@.stages[x].tasks.len() implies ((
                    self@.stages[x].tasks[q] is Completed) <==> (orig.stages[x].tasks[q]
                        is Completed)) by {
                        if x < s as int {
                            assert(self@.stages[x].tasks[q] == if orig.stages[x].tasks[q]
                                is Blocked && stage_ready(orig, x) {
                                TaskModel::Pending { attempts: 0 }
                            } else {
                                orig.stages[x].tasks[q]
                            });
                        }
                    }
                }
                lemma_completion_ready(self@, orig);
            }
            let ready = self.stage_ready_at(s);
            proof {
                assert(ready == stage_ready(orig, s as int));
            }
            if ready {
                let ghost before_stage = self@;
                let mut p: usize = 0;
                while p < self.stages[s].tasks.len()
                    invariant
                        0 <= p <= self.stages[s as int].tasks.len(),
                        s < self@.stages.len(),
                        self@.stages.len() == orig.stages.len(),
                        self@.job_id == orig.job_id,
                        self@.session_id == orig.session_id,
                        self@.status == orig.status,
                        self@.max_task_failures == orig.max_task_failures,
                        forall|x: int|
                            0 <= x < orig.stages.len() ==> (#[trigger] self@.stages[x]).inputs
                                == orig.stages[x].inputs && self@.stages[x].tasks.len()
                                == orig.stages[x].tasks.len(),
                        stage_ready(orig, s as int),
                        forall|x: int, q: int|
                            #![trigger self@.stages[x].tasks[q]]
                            0 <= x < orig.stages.len() && 0 <= q < orig.stages[x].tasks.len() && x
                                != s as int ==> self@.stages[x].tasks[q] == if x < s as int {
                                unblock_all(orig).stages[x].tasks[q]
                            } else {
                                orig.stages[x].tasks[q]
                            },
                        forall|q: int|
                            #![trigger self@.stages[s as int].tasks[q]]
                            0 <= q < orig.stages[s as int].tasks.len()
                                ==> self@.stages[s as int].tasks[q] == if q < p {
                                unblock_all(orig).stages[s as int].tasks[q]
                            } else {
                                orig.stages[s as int].tasks[q]
                            },
                    decreases self.stages[s as int].tasks.len() - p,
                {
                    proof {
                        assert(self@.stages[s as int].tasks.len() == orig.stages[
                            s as int
                        ].tasks.len());
                        assert(self@.stages[s as int].tasks[p as int] == orig.stages[
                            s as int
                        ].tasks[p as int]);
                    }
                    let is_blocked = match &self.stages[s].tasks[p] {
                        TaskState::Blocked => {
                            proof {
                                assert(self@.stages[s as int].tasks[p as int]
                                    == TaskModel::Blocked);
                            }
                            true
                        },
                        _ => {
                            proof {
                                assert(!(self@.stages[s as int].tasks[p as int] is Blocked));
                            }
                            false
                        },
                    };
                    if is_blocked {
                        let ghost before = self@;
                        self.stages[s].tasks[p] = TaskState::Pending { attempts: 0 };
                        proof {
                            assert(self@.stages =~~= set_task(
                                before,
                                s as int,
                                p as int,
                                TaskModel::Pending { attempts: 0 },
                            ).stages);
                        }
                    }
                    p += 1;
                }
            }
            s += 1;
        }
        proof {
            assert(final(self)@.stages =~~= unblock_all(orig).stages);
            assert(final(self)@ =~~= unblock_all(orig));
        }
    }

    /// Cancels every partition still in flight, collecting the executor of
    /// each running one.
    fn cancel_all_tasks(&mut self, freed: &mut Vec<String>)
        ensures
            final(self)@ == cancel_sweep(old(self)@),
            string_models(final(freed)@) == string_models(old(freed)@) + sweep_freed(old(self)@),
    {
        let ghost orig = self@;
        let ghost freed0 = string_models(old(freed)@);
        let mut s: usize = 0;
        while s < self.stages.len()
            invariant
                0 <= s <= self.stages.len(),
                self@.stages.len() == orig.stages.len(),
                self@.job_id == orig.job_id,
                self@.session_id == orig.session_id,
                self@.status == orig.status,
                self@.max_task_failures == orig.max_task_failures,
                forall|x: int|
                    0 <= x < orig.stages.len() ==> (#[trigger] self@.stages[x]).inputs
                        == orig.stages[x].inputs && self@.stages[x].tasks.len()
                        == orig.stages[x].tasks.len(),
                forall|x: int, q: int|
                    #![trigger self@.stages[x].tasks[q]]
                    0 <= x < orig.stages.len() && 0 <= q < orig.stages[x].tasks.len()
                        ==> self@.stages[x].tasks[q] == if x < s {
                        cancel_sweep(orig).stages[x].tasks[q]
                    } else {
                        orig.stages[x].tasks[q]
                    },
                string_models(freed@) == freed0 + sweep_freed_stages(orig.stages.take(s as int)),
            decreases self.stages.len() - s,
        {
            proof {
                assert(s < orig.stages.len());
                assert(self@.stages[s as int].tasks.len() == orig.stages[s as int].tasks.len());
            }
            let ghost freed_start = string_models(freed@);
            let mut p: usize = 0;
            while p < self.stages[s].tasks.len()
                invariant
                    0 <= p <= self.stages[s as int].tasks.len(),
                    s < self@.stages.len(),
                    self@.stages.len() == orig.stages.len(),
                    self@.job_id == orig.job_id,
                    self@.session_id == orig.session_id,
                    self@.status == orig.status,
                    self@.max_task_failures == orig.max_task_failures,
                    forall|x: int|
                        0 <= x < orig.stages.len() ==> (#[trigger] self@.stages[x]).inputs
                            == orig.stages[x].inputs && self@.stages[x].tasks.len()
                            == orig.stages[x].tasks.len(),
                    forall|x: int, q: int|
                        #![trigger self@.stages[x].tasks[q]]
                        0 <= x < orig.stages.len() && 0 <= q < orig.stages[x].tasks.len() && x != s
                            as int ==> self@.stages[x].tasks[q] == if x < s as int {
                            cancel_sweep(orig).stages[x].tasks[q]
                        } else {
                            orig.stages[x].tasks[q]
                        },
                    forall|q: int|
                        #![trigger self@.stages[s as int].tasks[q]]
                        0 <= q < orig.stages[s as int].tasks.len() ==> self@.stages[s as int].tasks[q]
                            == if q < p {
                            cancel_sweep(orig).stages[s as int].tasks[q]
                        } else {
                            orig.stages[s as int].tasks[q]
                        },
                    freed_start == freed0 + sweep_freed_stages(orig.stages.take(s as int)),
                    string_models(freed@) == freed_start + sweep_freed_tasks(
                        orig.stages[s as int].tasks.take(p as int),
                    ),
                decreases self.stages[s as int].tasks.len() - p,
            {
                let ghost tprefix = orig.stages[s as int].tasks.take(p as int);
                let ghost tprefix1 = orig.stages[s as int].tasks.take(p as int + 1);
                proof {
                    assert(self@.stages[s as int].tasks.len() == orig.stages[
                        s as int
                    ].tasks.len());
                    assert(self@.stages[s as int].tasks[p as int] == orig.stages[s as int].tasks[
                        p as int
                    ]);
                    assert(tprefix1.drop_last() =~= tprefix);
                    assert(tprefix1.last() == orig.stages[s as int].tasks[p as int]);
                }
                let executor_opt: Option<String> = match &self.stages[s].tasks[p] {
                    TaskState::Running { executor_id, attempts } => {
                        let e = executor_id.clone();
                        proof {
                            assert(self@.stages[s as int].tasks[p as int] == TaskModel::Running {
                                executor_id: e@,
                                attempts: *attempts as int,
                            });
                            assert(freed_of_task(orig.stages[s as int].tasks[p as int])
                                =~= seq![e@]);
                        }
                        Some(e)
                    },
                    _ => {
                        proof {
                            assert(!(self@.stages[s as int].tasks[p as int] is Running));
                            assert(freed_of_task(orig.stages[s as int].tasks[p as int])
                                =~= Seq::<Seq<char>>::empty());
                        }
                        None
                    },
                };
                let needs_cancel = match &self.stages[s].tasks[p] {
                    TaskState::Blocked => true,
                    TaskState::Pending { .. } => true,
                    TaskState::Running { .. } => true,
                    _ => {
                        proof {
                            assert(cancelled_task(self@.stages[s as int].tasks[p as int])
                                == self@.stages[s as int].tasks[p as int]);
                        }
                        false
                    },
                };
                if needs_cancel {
                    let ghost before = self@;
                    self.stages[s].tasks[p] = TaskState::Cancelled;
                    proof {
                        assert(self@.stages =~~= set_task(
                            before,
                            s as int,
                            p as int,
                            TaskModel::Cancelled,
                        ).stages);
                    }
                }
                match executor_opt {
                    Some(executor_id) => {
                        proof {
                            lemma_string_models_push(freed@, executor_id);
                            assert(string_models(freed@).push(executor_id@) =~= string_models(
                                freed@,
                            ) + freed_of_task(orig.stages[s as int].tasks[p as int]));
                            assert(freed_start + sweep_freed_tasks(tprefix1) =~= (freed_start
                                + sweep_freed_tasks(tprefix)) + freed_of_task(
                                orig.stages[s as int].tasks[p as int],
                            ));
                        }
                        freed.push(executor_id);
                    },
                    None => {
                        proof {
                            assert(sweep_freed_tasks(tprefix1) =~= sweep_freed_tasks(tprefix));
                        }
                    },
                }
                p += 1;
            }
            proof {
                assert(self@.stages[s as int].tasks.len() == orig.stages[s as int].tasks.len());
                assert(p as int == orig.stages[s as int].tasks.len());
                assert(orig.stages[s as int].tasks.take(
                    orig.stages[s as int].tasks.len() as int,
                ) =~= orig.stages[s as int].tasks);
                assert(orig.stages.take(s as int + 1).drop_last() =~= orig.stages.take(s as int));
                assert(orig.stages.take(s as int + 1).last() == orig.stages[s as int]);
                assert(freed0 + sweep_freed_stages(orig.stages.take(s as int + 1)) =~= (freed0
                    + sweep_freed_stages(orig.stages.take(s as int))) + sweep_freed_tasks(
                    orig.stages[s as int].tasks,
                ));
            }
            s += 1;
        }
        proof {
            assert(orig.stages.take(orig.stages.len() as int) =~= orig.stages);
            assert(final(self)@.stages =~~= cancel_sweep(orig).stages);
            assert(final(self)@ =~~= cancel_sweep(orig));
        }
    }

    /// Cancels the whole job, as `cancel_job_model` describes, collecting
    /// the executor of every running partition it tears down.
    pub fn cancel_graph(&mut self, freed: &mut Vec<String>)
        requires
            graph_wf(old(self)@),
        ensures
            graph_wf(final(self)@),
            final(self)@ == cancel_job_model(old(self)@).graph,
            string_models(final(freed)@) == string_models(old(freed)@) + cancel_job_model(
                old(self)@,
            ).freed,
    {
        proof {
            lemma_cancel_job_wf(old(self)@);
        }
        let active = match &self.status {
            JobStatus::Active => true,
            _ => false,
        };
        if active {
            self.cancel_all_tasks(freed);
            self.status = JobStatus::Cancelled;
            proof {
                assert(final(self)@ =~~= cancel_job_model(old(self)@).graph);
            }
        } else {
            proof {
                assert(string_models(final(freed)@) =~= string_models(old(freed)@)
                    + cancel_job_model(old(self)@).freed);
            }
        }
    }

    /// A partition completed: record it and run the completion cascade.
    fn complete_task_at(
        &mut self,
        s: usize,
        p: usize,
        loc: String,
        events: &mut Vec<SchedulerEvent>,
    )
        requires
            graph_wf(old(self)@),
            s < old(self)@.stages.len(),
            p < old(self)@.stages[s as int].tasks.len(),
        ensures
            ({
                let eff = apply_completed(old(self)@, s as int, p as int, loc@, Seq::empty());
                &&& final(self)@ == eff.graph
                &&& event_models(final(events)@) == event_models(old(events)@) + eff.events
            }),
    {
        let ghost g0 = self@;
        let active = match &self.status {
            JobStatus::Active => true,
            _ => false,
        };
        let job_name = self.job_id.clone();
        self.set_task_state(s, p, TaskState::Completed { executor_id: loc });
        let ghost g1 = self@;
        if active {
            let now_complete = self.stage_complete_at(s);
            proof {
                lemma_wf_inputs_valid(g0);
                assert(inputs_valid(g1));
            }
            self.unblock_ready();
            let ghost before_events = events@;
            if now_complete {
                events.push(SchedulerEvent::StageCompleted { job_id: job_name.clone(), stage: s });
                proof {
                    lemma_event_models_push(
                        before_events,
                        SchedulerEvent::StageCompleted { job_id: job_name, stage: s },
                    );
                }
            }
            proof {
                assert(completion_equal(g1, self@));
                lemma_wf_inputs_valid(g0);
                lemma_completion_ready(g1, self@);
                assert(self@.stages.len() == g0.stages.len());
            }
            let last = self.stages.len() - 1;
            let done = self.stage_complete_at(last);
            proof {
                assert(done == terminal_complete(self@));
                assert(done == terminal_complete(g1));
            }
            let ghost before_events2 = events@;
            if done {
                self.status = JobStatus::Completed;
                events.push(SchedulerEvent::JobCompleted { job_id: job_name.clone() });
                proof {
                    lemma_event_models_push(
                        before_events2,
                        SchedulerEvent::JobCompleted { job_id: job_name },
                    );
                }
            }
            proof {
                let eff = apply_completed(g0, s as int, p as int, loc@, Seq::empty());
                assert(final(self)@ =~~= eff.graph);
                assert(event_models(final(events)@) =~= event_models(old(events)@) + eff.events);
            }
        } else {
            proof {
                let eff = apply_completed(g0, s as int, p as int, loc@, Seq::empty());
                assert(final(self)@ =~~= eff.graph);
                assert(event_models(final(events)@) =~= event_models(old(events)@) + eff.events);
            }
        }
    }

    /// A partition failed for good: fail the job and cancel its other work.
    fn fail_job_at(
        &mut self,
        s: usize,
        p: usize,
        reason: String,
        events: &mut Vec<SchedulerEvent>,
        freed: &mut Vec<String>,
    )
        requires
            s < old(self)@.stages.len(),
            p < old(self)@.stages[s as int].tasks.len(),
        ensures
            ({
                let eff = apply_fatal(old(self)@, s as int, p as int, reason@, Seq::empty());
                &&& final(self)@ == eff.graph
                &&& event_models(final(events)@) == event_models(old(events)@) + eff.events
                &&& string_models(final(freed)@) == string_models(old(freed)@) + eff.freed
            }),
    {
        let ghost g0 = self@;
        let active = match &self.status {
            JobStatus::Active => true,
            _ => false,
        };
        let job_name = self.job_id.clone();
        self.set_task_state(s, p, TaskState::Failed { reason: reason.clone() });
        if active {
            self.cancel_all_tasks(freed);
            self.status = JobStatus::Failed { reason: reason.clone() };
            let ghost before_events = events@;
            events.push(SchedulerEvent::JobFailed { job_id: job_name.clone(), reason });
            proof {
                lemma_event_models_push(
                    before_events,
                    SchedulerEvent::JobFailed { job_id: job_name, reason },
                );
                let eff = apply_fatal(g0, s as int, p as int, reason@, Seq::empty());
                assert(eff.freed =~= sweep_freed(set_task(
                    g0,
                    s as int,
                    p as int,
                    TaskModel::Failed { reason: reason@ },
                )));
                assert(final(self)@ =~~= eff.graph);
                assert(event_models(final(events)@) =~= event_models(old(events)@) + eff.events);
            }
        } else {
            proof {
                let eff = apply_fatal(g0, s as int, p as int, reason@, Seq::empty());
                assert(final(self)@ =~~= eff.graph);
                assert(event_models(final(events)@) =~= event_models(old(events)@) + eff.events);
                assert(string_models(final(freed)@) =~= string_models(old(freed)@) + eff.freed);
            }
        }
    }

    /// Ingests one worker-reported status, as `apply_status` describes: the
    /// graph moves, completion and failure events are appended to `events`,
    /// and one entry per released executor slot is appended to `freed`.
    pub fn apply_task_status(
        &mut self,
        status: &TaskStatus,
        from: &String,
        events: &mut Vec<SchedulerEvent>,
        freed: &mut Vec<String>,
    )
        requires
            graph_wf(old(self)@),
        ensures
            graph_wf(final(self)@),
            ({
                let eff = apply_status(old(self)@, status@, from@);
                &&& final(self)@ == eff.graph
                &&& event_models(final(events)@) == event_models(old(events)@) + eff.events
                &&& string_models(final(freed)@) == string_models(old(freed)@) + eff.freed
            }),
    {
        proof {
            lemma_apply_status_wf(old(self)@, status@, from@);
        }
        let s = status.stage_id;
        let p = status.partition_id;
        if !(s < self.stages.len() && p < self.stages[s].tasks.len()) {
            proof {
                noop_concat(old(self)@, old(events)@, old(freed)@);
            }
            return ;
        }
        match &status.status {
            StatusUpdate::Running => {
                proof {
                    noop_concat(old(self)@, old(events)@, old(freed)@);
                }
            },
            StatusUpdate::Completed => {
                let loc_running: Option<String> = match &self.stages[s].tasks[p] {
                    TaskState::Running { executor_id, attempts } => {
                        proof {
                            assert(self@.stages[s as int].tasks[p as int] == TaskModel::Running {
                                executor_id: executor_id@,
                                attempts: *attempts as int,
                            });
                        }
                        Some(executor_id.clone())
                    },
                    TaskState::Pending { attempts } => {
                        proof {
                            assert(self@.stages[s as int].tasks[p as int] == TaskModel::Pending {
                                attempts: *attempts as int,
                            });
                        }
                        None
                    },
                    _ => {
                        proof {
                            assert(!(self@.stages[s as int].tasks[p as int] is Running));
                            assert(!(self@.stages[s as int].tasks[p as int] is Pending));
                            noop_concat(old(self)@, old(events)@, old(freed)@);
                        }
                        return ;
                    },
                };
                match loc_running {
                    Some(executor_id) => {
                        let ghost before_freed = freed@;
                        freed.push(executor_id.clone());
                        proof {
                            lemma_string_models_push(before_freed, executor_id);
                        }
                        self.complete_task_at(s, p, executor_id, events);
                        proof {
                            let eff = apply_status(old(self)@, status@, from@);
                            assert(string_models(final(freed)@) =~= string_models(old(freed)@)
                                + eff.freed);
                        }
                    },
                    None => {
                        self.complete_task_at(s, p, from.clone(), events);
                        proof {
                            let eff = apply_status(old(self)@, status@, from@);
                            assert(string_models(final(freed)@) =~= string_models(old(freed)@)
                                + eff.freed);
                        }
                    },
                }
            },
            StatusUpdate::Failed { reason, retriable } => {
                let state: Option<(Option<String>, usize)> = match &self.stages[s].tasks[p] {
                    TaskState::Running { executor_id, attempts } => {
                        proof {
                            assert(self@.stages[s as int].tasks[p as int] == TaskModel::Running {
                                executor_id: executor_id@,
                                attempts: *attempts as int,
                            });
                        }
                        Some((Some(executor_id.clone()), *attempts))
                    },
                    TaskState::Pending { attempts } => {
                        proof {
                            assert(self@.stages[s as int].tasks[p as int] == TaskModel::Pending {
                                attempts: *attempts as int,
                            });
                        }
                        Some((None, *attempts))
                    },
                    _ => {
                        proof {
                            assert(!(self@.stages[s as int].tasks[p as int] is Running));
                            assert(!(self@.stages[s as int].tasks[p as int] is Pending));
                        }
                        None
                    },
                };
                match state {
                    Some((Some(executor_id), attempts)) => {
                        let ghost before_freed = freed@;
                        freed.push(executor_id.clone());
                        proof {
                            lemma_string_models_push(before_freed, executor_id);
                        }
                        if *retriable && attempts < self.max_task_failures {
                            self.set_task_state(
                                s,
                                p,
                                TaskState::Pending { attempts: attempts + 1 },
                            );
                            proof {
                                let eff = apply_status(old(self)@, status@, from@);
                                assert(final(self)@ == eff.graph);
                                assert(event_models(final(events)@) =~= event_models(old(events)@)
                                    + eff.events);
                                assert(string_models(final(freed)@) =~= string_models(old(freed)@)
                                    + eff.freed);
                            }
                        } else {
                            self.fail_job_at(s, p, reason.clone(), events, freed);
                            proof {
                                let eff = apply_status(old(self)@, status@, from@);
                                assert(final(self)@ == eff.graph);
                                assert(string_models(final(freed)@) =~= string_models(old(freed)@)
                                    + eff.freed);
                            }
                        }
                    },
                    Some((None, _attempts)) => {
                        if *retriable {
                            proof {
                                noop_concat(old(self)@, old(events)@, old(freed)@);
                            }
                        } else {
                            self.fail_job_at(s, p, reason.clone(), events, freed);
                        }
                    },
                    None => {
                        proof {
                            noop_concat(old(self)@, old(events)@, old(freed)@);
                        }
                    },
                }
            },
        }
    }

    /// Moves a pending partition to running on `executor_id`.
    pub fn assign_task(&mut self, s: usize, p: usize, executor_id: &String)
        requires
            graph_wf(old(self)@),
            s < old(self)@.stages.len(),
            p < old(self)@.stages[s as int].tasks.len(),
            old(self)@.stages[s as int].tasks[p as int] is Pending,
            old(self)@.status is Active,
        ensures
            graph_wf(final(self)@),
            final(self)@ == set_task(
                old(self)@,
                s as int,
                p as int,
                TaskModel::Running {
                    executor_id: executor_id@,
                    attempts: old(self)@.stages[s as int].tasks[p as int]->Pending_attempts,
                },
            ),
    {
        let attempts: usize = match &self.stages[s].tasks[p] {
            TaskState::Pending { attempts } => {
                proof {
                    assert(self@.stages[s as int].tasks[p as int] == TaskModel::Pending {
                        attempts: *attempts as int,
                    });
                }
                *attempts
            },
            _ => {
                proof {
                    assert(!(self@.stages[s as int].tasks[p as int] is Pending));
                    assert(false);
                }
                unreached()
            },
        };
        proof {
            lemma_assign_wf(old(self)@, s as int, p as int, executor_id@, attempts as int);
        }
        self.set_task_state(
            s,
            p,
            TaskState::Running { executor_id: executor_id.clone(), attempts },
        );
    }

    /// How many partitions are ready to run right now.
    pub fn pending_tasks(&self) -> (n: usize)
        requires
            graph_wf(self@),
        ensures
            n as int == pending_in_graph(self@),
    {
        let mut n: usize = 0;
        let mut s: usize = 0;
        while s < self.stages.len()
            invariant
                0 <= s <= self.stages.len(),
                graph_wf(self@),
                n as int == sum_by(self@.stages.take(s as int), stage_count_fn(pending_fn())),
                n as int <= sum_by(self@.stages.take(s as int), stage_size_fn()),
            decreases self.stages.len() - s,
        {
            let ghost base = n as int;
            let tasks_len = self.stages[s].tasks.len();
            let mut p: usize = 0;
            while p < tasks_len
                invariant
                    0 <= p <= tasks_len,
                    s < self@.stages.len(),
                    graph_wf(self@),
                    tasks_len == self@.stages[s as int].tasks.len(),
                    base == sum_by(self@.stages.take(s as int), stage_count_fn(pending_fn())),
                    base <= sum_by(self@.stages.take(s as int), stage_size_fn()),
                    n as int == base + count_where(
                        self@.stages[s as int].tasks.take(p as int),
                        pending_fn(),
                    ),
                    n as int <= sum_by(self@.stages.take(s as int), stage_size_fn()) + p,
                decreases tasks_len - p,
            {
                let ghost tasks = self@.stages[s as int].tasks;
                proof {
                    assert(tasks.take(p as int + 1).drop_last() =~= tasks.take(p as int));
                    assert(tasks.take(p as int + 1).last() == tasks[p as int]);
                    assert forall|j: int| 0 <= j < self@.stages.len() implies stage_size_fn()(
                        #[trigger] self@.stages[j],
                    ) >= 0 by {}
                    lemma_sum_by_take_step(self@.stages, stage_size_fn(), s as int);
                    crate::counting::lemma_sum_by_take_le(
                        self@.stages,
                        stage_size_fn(),
                        s as int + 1,
                    );
                    assert(cells(self@) <= usize::MAX as int);
                }
                let is_pending = match &self.stages[s].tasks[p] {
                    TaskState::Pending { .. } => true,
                    _ => false,
                };
                if is_pending {
                    proof {
                        assert(self@.stages[s as int].tasks[p as int] is Pending);
                    }
                    n = n + 1;
                } else {
                    proof {
                        assert(!(self@.stages[s as int].tasks[p as int] is Pending));
                    }
                }
                p += 1;
            }
            proof {
                assert(self@.stages[s as int].tasks.take(tasks_len as int) =~= self@.stages[
                    s as int
                ].tasks);
                lemma_sum_by_take_step(self@.stages, stage_count_fn(pending_fn()), s as int);
                lemma_sum_by_take_step(self@.stages, stage_size_fn(), s as int);
            }
            s += 1;
        }
        proof {
            assert(self@.stages.take(self@.stages.len() as int) =~= self@.stages);
        }
        n
    }

    /// Whether any completed input partition of stage `s` left its output on
    /// `executor_id`.
    pub fn stage_local_to(&self, s: usize, executor_id: &String) -> (r: bool)
        requires
            s < self@.stages.len(),
            forall|k: int|
                0 <= k < self@.stages[s as int].inputs.len() ==> 0 <= (
                #[trigger] self@.stages[s as int].inputs[k]) < self@.stages.len(),
        ensures
            r == stage_is_local(self@, s as int, executor_id@),
    {
        let nk = self.stages[s].inputs.len();
        let mut k: usize = 0;
        while k < nk
            invariant
                0 <= k <= nk,
                s < self@.stages.len(),
                nk == self@.stages[s as int].inputs.len(),
                forall|x: int|
                    0 <= x < self@.stages[s as int].inputs.len() ==> 0 <= (
                    #[trigger] self@.stages[s as int].inputs[x]) < self@.stages.len(),
                forall|x: int, q: int|
                    #![trigger self@.stages[self@.stages[s as int].inputs[x]].tasks[q]]
                    0 <= x < k && 0 <= q < self@.stages[self@.stages[s as int].inputs[x]].tasks.len()
                        ==> self@.stages[self@.stages[s as int].inputs[x]].tasks[q] != (
                    TaskModel::Completed { executor_id: executor_id@ }),
            decreases nk - k,
        {
            let inp = self.stages[s].inputs[k];
            proof {
                assert(self@.stages[s as int].inputs[k as int] == inp as int);
            }
            let nq = self.stages[inp].tasks.len();
            let mut q: usize = 0;
            while q < nq
                invariant
                    0 <= q <= nq,
                    s < self@.stages.len(),
                    inp < self@.stages.len(),
                    nq == self@.stages[inp as int].tasks.len(),
                    self@.stages[s as int].inputs[k as int] == inp as int,
                    k < self@.stages[s as int].inputs.len(),
                    forall|x: int|
                        0 <= x < q ==> self@.stages[inp as int].tasks[x] != (TaskModel::Completed {
                            executor_id: executor_id@,
                        }),
                decreases nq - q,
            {
                let hit = match &self.stages[inp].tasks[q] {
                    TaskState::Completed { executor_id: loc } => *loc == *executor_id,
                    _ => false,
                };
                proof {
                    assert(hit == (self@.stages[inp as int].tasks[q as int]
                        == (TaskModel::Completed { executor_id: executor_id@ })));
                }
                if hit {
                    return true;
                }
                q += 1;
            }
            k += 1;
        }
        false
    }
}

proof fn noop_concat(g: GraphModel, evs: Seq<SchedulerEvent>, fr: Seq<String>)
    ensures
        event_models(evs) + status_noop(g).events == event_models(evs),
        string_models(fr) + status_noop(g).freed == string_models(fr),
{
    assert(event_models(evs) + Seq::<EventModel>::empty() =~= event_models(evs));
    assert(string_models(fr) + Seq::<Seq<char>>::empty() =~= string_models(fr));
}


pub proof fn lemma_running_in_graph_nonneg(g: GraphModel, e: Seq<char>)
    ensures
        running_in_graph(g, e) >= 0,
{
    assert forall|s: int| 0 <= s < g.stages.len() implies stage_count_fn(running_on_fn(e))(
        #[trigger] g.stages[s],
    ) >= 0 by {
        crate::counting::lemma_count_where_bounds(g.stages[s].tasks, running_on_fn(e));
    }
    crate::counting::lemma_sum_by_nonneg(g.stages, stage_count_fn(running_on_fn(e)));
}

/// A graph with no partition running on `e` runs nothing on `e`.
pub proof fn lemma_no_running_zero(g: GraphModel, e: Seq<char>)
    requires
        forall|s: int, p: int|
            #![trigger g.stages[s].tasks[p]]
            0 <= s < g.stages.len() && 0 <= p < g.stages[s].tasks.len() ==> !is_running_on(
                g.stages[s].tasks[p],
                e,
            ),
    ensures
        running_in_graph(g, e) == 0,
{
    assert forall|s: int| 0 <= s < g.stages.len() implies stage_count_fn(running_on_fn(e))(
        #[trigger] g.stages[s],
    ) == 0 by {
        assert forall|p: int| 0 <= p < g.stages[s].tasks.len() implies !running_on_fn(e)(
            #[trigger] g.stages[s].tasks[p],
        ) by {
            assert(!is_running_on(g.stages[s].tasks[p], e));
        }
        lemma_count_where_none(g.stages[s].tasks, running_on_fn(e));
    }
    crate::counting::lemma_sum_by_zero(g.stages, stage_count_fn(running_on_fn(e)));
}

/// Law (stage readiness): a partition is running or completed only when
/// every partition of every input stage has completed.
pub proof fn lemma_stage_readiness(g: GraphModel, s: int, p: int)
    requires
        graph_wf(g),
        0 <= s < g.stages.len(),
        0 <= p < g.stages[s].tasks.len(),
        g.stages[s].tasks[p] is Running || g.stages[s].tasks[p] is Completed,
    ensures
        stage_ready(g, s),
        forall|k: int, q: int|
            #![trigger g.stages[g.stages[s].inputs[k]].tasks[q]]
            0 <= k < g.stages[s].inputs.len() && 0 <= q
                < g.stages[g.stages[s].inputs[k]].tasks.len()
                ==> g.stages[g.stages[s].inputs[k]].tasks[q] is Completed,
{
    assert(stage_ready(g, s));
    assert forall|k: int, q: int|
        #![trigger g.stages[g.stages[s].inputs[k]].tasks[q]]
        0 <= k < g.stages[s].inputs.len() && 0 <= q < g.stages[g.stages[s].inputs[k]].tasks.len()
        implies g.stages[g.stages[s].inputs[k]].tasks[q] is Completed by {
        assert(stage_complete(g.stages[g.stages[s].inputs[k]]));
    }
}

/// Law (single attempt): a partition holds exactly one state, so the set of
/// attempts of it that are running at any moment has at most one member.
pub proof fn lemma_single_running_attempt(g: GraphModel, s: int, p: int)
    requires
        0 <= s < g.stages.len(),
        0 <= p < g.stages[s].tasks.len(),
    ensures
        ({
            let attempts = (match g.stages[s].tasks[p] {
                TaskModel::Running { executor_id, attempts } => set![(executor_id, attempts)],
                _ => Set::<(Seq<char>, int)>::empty(),
            });
            attempts.finite() && attempts.len() <= 1
        }),
{
    match g.stages[s].tasks[p] {
        TaskModel::Running { executor_id, attempts } => {
            assert(set![(executor_id, attempts)].len() == 1);
        },
        _ => {
            assert(Set::<(Seq<char>, int)>::empty().len() == 0);
        },
    }
}

/// Law (status idempotence): delivering the same completion twice equals
/// delivering it once — the second delivery finds the partition already
/// completed and is a no-op.
pub proof fn lemma_completed_status_idempotent(
    g: GraphModel,
    st: TaskStatusModel,
    from: Seq<char>,
)
    requires
        st.status is Completed,
    ensures
        apply_status(apply_status(g, st, from).graph, st, from).graph == apply_status(
            g,
            st,
            from,
        ).graph,
        apply_status(apply_status(g, st, from).graph, st, from).events == Seq::<EventModel>::empty(),
        apply_status(apply_status(g, st, from).graph, st, from).freed == Seq::<
            Seq<char>,
        >::empty(),
{
    let s = st.stage_id;
    let p = st.partition_id;
    let once = apply_status(g, st, from).graph;
    if 0 <= s < g.stages.len() && 0 <= p < g.stages[s].tasks.len() {
        let t = g.stages[s].tasks[p];
        if t is Running || t is Pending {
            let loc = if t is Running {
                t->Running_executor_id
            } else {
                from
            };
            let g1 = set_task(g, s, p, TaskModel::Completed { executor_id: loc });
            assert(g1.stages[s].tasks[p] is Completed);
            if g.status is Active {
                let g2 = unblock_all(g1);
                assert(once.stages == g2.stages);
                assert(once.stages[s].tasks[p] == g1.stages[s].tasks[p]);
                assert(once.stages[s].tasks[p] is Completed);
            } else {
                assert(once.stages[s].tasks[p] is Completed);
            }
            assert(once.stages.len() == g.stages.len());
            assert(once.stages[s].tasks.len() == g.stages[s].tasks.len());
        } else {
            assert(once == g);
        }
    } else {
        assert(once == g);
    }
}

} // verus!
