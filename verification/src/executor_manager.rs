use vstd::prelude::*;

use crate::counting::{
    count_where, lemma_count_where_all, lemma_count_where_bounds, lemma_count_where_member_at,
    lemma_count_where_none, lemma_count_where_push, lemma_count_where_update,
    lemma_sum_by_nonneg, lemma_sum_by_update, lemma_sum_by_zero, sum_by,
};
use crate::errors::SchedulerError;
use vstd::pervasive::unreached;

verus! {

// ---------------------------------------------------------------------------
// Data
// ---------------------------------------------------------------------------

/// Static description of a worker process, as supplied at registration.
#[derive(Clone, Debug, PartialEq, Eq)]
pub struct ExecutorMetadata {
    pub id: String,
    pub host: String,
    pub port: u16,
    pub grpc_port: u16,
    /// Capacity: how many tasks this worker can run at once.
    pub task_slots: usize,
}

/// Slot accounting for a worker, as supplied at registration.
#[derive(Clone, Debug, PartialEq, Eq)]
pub struct ExecutorData {
    pub executor_id: String,
    pub total_task_slots: usize,
    pub available_task_slots: usize,
}

/// A token for one reserved task slot on one executor.
///
/// A reservation is *outstanding* while the executor's `reserved` mask holds
/// `true` at its slot index: the manager has earmarked that slot and handed
/// this token to a caller. The token ends its life in exactly one of two
/// ways: it is bound to a task (the slot turns into a running task), or it is
/// cancelled (the slot returns to the free pool).
#[derive(Clone, Debug, PartialEq, Eq)]
pub struct ExecutorReservation {
    pub executor_id: String,
    pub slot: usize,
}

#[verifier::ext_equal]
pub ghost struct ExecutorMetadataModel {
    pub id: Seq<char>,
    pub host: Seq<char>,
    pub port: int,
    pub grpc_port: int,
    pub task_slots: int,
}

#[verifier::ext_equal]
pub ghost struct ReservationModel {
    pub executor_id: Seq<char>,
    pub slot: int,
}

impl View for ExecutorMetadata {
    type V = ExecutorMetadataModel;

    open spec fn view(&self) -> ExecutorMetadataModel {
        ExecutorMetadataModel {
            id: self.id@,
            host: self.host@,
            port: self.port as int,
            grpc_port: self.grpc_port as int,
            task_slots: self.task_slots as int,
        }
    }
}

impl View for ExecutorReservation {
    type V = ReservationModel;

    open spec fn view(&self) -> ReservationModel {
        ReservationModel { executor_id: self.executor_id@, slot: self.slot as int }
    }
}

/// One registered executor with its live slot accounting.
pub struct ExecutorEntry {
    pub meta: ExecutorMetadata,
    /// Slots in the free pool.
    pub available_slots: usize,
    /// Slots consumed by tasks this manager has launched and not yet seen end.
    pub bound_slots: usize,
    /// `reserved[i]` is true when slot index `i` backs an outstanding reservation.
    pub reserved: Vec<bool>,
    pub last_heartbeat: u64,
}

#[verifier::ext_equal]
pub ghost struct ExecutorEntryModel {
    pub meta: ExecutorMetadataModel,
    pub available: int,
    pub bound: int,
    pub reserved: Seq<bool>,
    pub last_heartbeat: int,
}

impl View for ExecutorEntry {
    type V = ExecutorEntryModel;

    open spec fn view(&self) -> ExecutorEntryModel {
        ExecutorEntryModel {
            meta: self.meta@,
            available: self.available_slots as int,
            bound: self.bound_slots as int,
            reserved: self.reserved@,
            last_heartbeat: self.last_heartbeat as int,
        }
    }
}

/// Tracks live workers and their free task slots, and mediates the whole
/// reservation lifecycle.
pub struct ExecutorManager {
    pub executors: Vec<ExecutorEntry>,
    /// A worker whose last heartbeat is older than this is considered lost.
    pub executor_timeout_ms: u64,
}

#[verifier::ext_equal]
pub ghost struct ExecutorManagerModel {
    pub executors: Seq<ExecutorEntryModel>,
    pub timeout: int,
}

impl View for ExecutorManager {
    type V = ExecutorManagerModel;

    open spec fn view(&self) -> ExecutorManagerModel {
        ExecutorManagerModel {
            executors: Seq::new(self.executors@.len(), |i: int| self.executors@[i]@),
            timeout: self.executor_timeout_ms as int,
        }
    }
}

// ---------------------------------------------------------------------------
// Spec helpers
// ---------------------------------------------------------------------------

/// The predicate that picks the set slots of a reservation mask.
pub open spec fn is_true() -> spec_fn(bool) -> bool {
    |b: bool| b
}

/// Reservations outstanding against one executor: the set bits of its mask.
pub open spec fn outstanding_of(e: ExecutorEntryModel) -> int {
    count_where(e.reserved, is_true())
}

/// The predicate that picks the reservations naming one executor.
pub open spec fn names_executor(id: Seq<char>) -> spec_fn(ReservationModel) -> bool {
    |r: ReservationModel| r.executor_id == id
}

/// How many of `rs` name the executor `id`.
pub open spec fn count_reservations_for(rs: Seq<ReservationModel>, id: Seq<char>) -> int {
    count_where(rs, names_executor(id))
}

/// The models of a vector of reservation tokens, in order.
pub open spec fn reservation_models(v: Seq<ExecutorReservation>) -> Seq<ReservationModel> {
    v.map_values(|r: ExecutorReservation| r@)
}

pub open spec fn entry_available(e: ExecutorEntryModel) -> int {
    e.available
}

pub open spec fn entry_available_fn() -> spec_fn(ExecutorEntryModel) -> int {
    |e: ExecutorEntryModel| entry_available(e)
}

/// Free slots across all executors.
pub open spec fn total_available(m: ExecutorManagerModel) -> int {
    sum_by(m.executors, entry_available_fn())
}

/// Slot conservation for one executor: free slots, outstanding reservations
/// and bound (running) slots exactly cover its capacity.
pub open spec fn entry_wf(e: ExecutorEntryModel) -> bool {
    &&& e.reserved.len() == e.meta.task_slots
    &&& e.available >= 0
    &&& e.bound >= 0
    &&& e.available + e.bound + outstanding_of(e) == e.meta.task_slots
}

pub open spec fn em_wf(m: ExecutorManagerModel) -> bool {
    &&& forall|i: int| 0 <= i < m.executors.len() ==> entry_wf(#[trigger] m.executors[i])
    &&& forall|i: int, j: int|
        #![trigger m.executors[i], m.executors[j]]
        0 <= i < m.executors.len() && 0 <= j < m.executors.len() && i != j
            ==> m.executors[i].meta.id != m.executors[j].meta.id
}

pub open spec fn has_executor(m: ExecutorManagerModel, id: Seq<char>) -> bool {
    exists|i: int| 0 <= i < m.executors.len() && (#[trigger] m.executors[i]).meta.id == id
}

/// A reservation token that is currently outstanding: its executor is live
/// and the executor's mask still holds its slot.
pub open spec fn reservation_live(m: ExecutorManagerModel, r: ReservationModel) -> bool {
    exists|i: int|
        0 <= i < m.executors.len() && (#[trigger] m.executors[i]).meta.id == r.executor_id
            && 0 <= r.slot < m.executors[i].reserved.len() && m.executors[i].reserved[r.slot]
}

/// No two tokens in `rs` name the same slot of the same executor.
pub open spec fn reservations_distinct(rs: Seq<ReservationModel>) -> bool {
    forall|k1: int, k2: int|
        #![trigger rs[k1], rs[k2]]
        0 <= k1 < k2 < rs.len() ==> !(rs[k1].executor_id == rs[k2].executor_id && rs[k1].slot
            == rs[k2].slot)
}

/// In a well-formed manager, two distinct entries never share an id.
pub proof fn lemma_unique_ids(m: ExecutorManagerModel, i: int, j: int)
    requires
        em_wf(m),
        0 <= i < m.executors.len(),
        0 <= j < m.executors.len(),
        i != j,
    ensures
        m.executors[i].meta.id != m.executors[j].meta.id,
{
}

pub proof fn lemma_reservation_models_push(v: Seq<ExecutorReservation>, r: ExecutorReservation)
    ensures
        reservation_models(v.push(r)) == reservation_models(v).push(r@),
{
    assert(reservation_models(v.push(r)) =~= reservation_models(v).push(r@));
}

/// Replacing one entry with a well-formed entry that keeps its id keeps the
/// manager well-formed.
pub proof fn lemma_em_wf_entry_update(m: ExecutorManagerModel, i: int, e: ExecutorEntryModel)
    requires
        em_wf(m),
        0 <= i < m.executors.len(),
        entry_wf(e),
        e.meta.id == m.executors[i].meta.id,
    ensures
        em_wf(ExecutorManagerModel { executors: m.executors.update(i, e), ..m }),
{
    let b = ExecutorManagerModel { executors: m.executors.update(i, e), ..m };
    assert forall|x: int| 0 <= x < b.executors.len() implies entry_wf(
        #[trigger] b.executors[x],
    ) by {
        if x != i {
            assert(b.executors[x] == m.executors[x]);
        }
    }
    assert forall|x: int, y: int|
        #![trigger b.executors[x], b.executors[y]]
        0 <= x < b.executors.len() && 0 <= y < b.executors.len() && x != y implies b.executors[
        x
    ].meta.id != b.executors[y].meta.id by {
        lemma_unique_ids(m, x, y);
    }
}

// ---------------------------------------------------------------------------
// The cancellation model
// ---------------------------------------------------------------------------

/// What cancelling one token does to one executor: when the token names this
/// executor and its slot is still outstanding, the slot returns to the free
/// pool; in every other case (a stale token, an unknown executor, a slot
/// already returned) nothing changes.
pub open spec fn cancel_entry(e: ExecutorEntryModel, r: ReservationModel) -> ExecutorEntryModel {
    if e.meta.id == r.executor_id && 0 <= r.slot < e.reserved.len() && e.reserved[r.slot] {
        ExecutorEntryModel {
            available: e.available + 1,
            reserved: e.reserved.update(r.slot, false),
            ..e
        }
    } else {
        e
    }
}

pub open spec fn cancel_one(m: ExecutorManagerModel, r: ReservationModel) -> ExecutorManagerModel {
    ExecutorManagerModel {
        executors: Seq::new(m.executors.len(), |i: int| cancel_entry(m.executors[i], r)),
        ..m
    }
}

/// Cancelling a list of tokens, first to last.
pub open spec fn cancel_all(
    m: ExecutorManagerModel,
    rs: Seq<ReservationModel>,
) -> ExecutorManagerModel
    decreases rs.len(),
{
    if rs.len() == 0 {
        m
    } else {
        cancel_one(cancel_all(m, rs.drop_last()), rs.last())
    }
}

/// Law: cancelling the same reservation twice equals cancelling it once.
/// The second cancellation finds the slot already returned and is a no-op.
pub proof fn lemma_cancel_idempotent(m: ExecutorManagerModel, r: ReservationModel)
    ensures
        cancel_one(cancel_one(m, r), r) == cancel_one(m, r),
{
    let once = cancel_one(m, r);
    let twice = cancel_one(once, r);
    assert forall|i: int| 0 <= i < m.executors.len() implies #[trigger] twice.executors[i]
        == once.executors[i] by {
        assert(once.executors[i] == cancel_entry(m.executors[i], r));
        if m.executors[i].meta.id == r.executor_id && 0 <= r.slot < m.executors[i].reserved.len()
            && m.executors[i].reserved[r.slot] {
            assert(once.executors[i].reserved[r.slot] == false);
        }
    }
    assert(twice.executors =~= once.executors);
    assert(twice =~= once);
}

pub proof fn lemma_cancel_one_wf(m: ExecutorManagerModel, r: ReservationModel)
    requires
        em_wf(m),
    ensures
        em_wf(cancel_one(m, r)),
{
    let c = cancel_one(m, r);
    assert forall|x: int| 0 <= x < c.executors.len() implies entry_wf(
        #[trigger] c.executors[x],
    ) by {
        let e = m.executors[x];
        assert(entry_wf(e));
        assert(c.executors[x] == cancel_entry(e, r));
        if e.meta.id == r.executor_id && 0 <= r.slot < e.reserved.len() && e.reserved[r.slot] {
            lemma_count_where_update(e.reserved, is_true(), r.slot, false);
        }
    }
    assert forall|x: int, y: int|
        #![trigger c.executors[x], c.executors[y]]
        0 <= x < c.executors.len() && 0 <= y < c.executors.len() && x != y implies c.executors[
        x
    ].meta.id != c.executors[y].meta.id by {
        lemma_unique_ids(m, x, y);
        assert(c.executors[x].meta == m.executors[x].meta);
        assert(c.executors[y].meta == m.executors[y].meta);
    }
}

pub proof fn lemma_cancel_all_wf(m: ExecutorManagerModel, rs: Seq<ReservationModel>)
    requires
        em_wf(m),
    ensures
        em_wf(cancel_all(m, rs)),
    decreases rs.len(),
{
    if rs.len() > 0 {
        lemma_cancel_all_wf(m, rs.drop_last());
        lemma_cancel_one_wf(cancel_all(m, rs.drop_last()), rs.last());
    }
}

/// Cancellation never touches an executor's identity, its capacity, its
/// bound slots or its heartbeat; it only moves outstanding slots back to the
/// free pool.
/// A token that none of `rs` duplicates survives cancelling `rs`.
pub proof fn lemma_cancel_all_preserves_live(
    m: ExecutorManagerModel,
    rs: Seq<ReservationModel>,
    r: ReservationModel,
)
    requires
        reservation_live(m, r),
        forall|k: int|
            0 <= k < rs.len() ==> !((#[trigger] rs[k]).executor_id == r.executor_id && rs[k].slot
                == r.slot),
    ensures
        reservation_live(cancel_all(m, rs), r),
    decreases rs.len(),
{
    if rs.len() > 0 {
        lemma_cancel_all_preserves_live(m, rs.drop_last(), r);
        let prev = cancel_all(m, rs.drop_last());
        let c = cancel_all(m, rs);
        let w = choose|w: int|
            0 <= w < prev.executors.len() && (#[trigger] prev.executors[w]).meta.id
                == r.executor_id && 0 <= r.slot < prev.executors[w].reserved.len()
                && prev.executors[w].reserved[r.slot];
        assert(c.executors[w] == cancel_entry(prev.executors[w], rs.last()));
        assert((#[trigger] c.executors[w]).meta.id == r.executor_id);
        assert(c.executors[w].reserved[r.slot]);
    }
}

/// Cancelling live, pairwise-distinct tokens returns exactly their slots to
/// their executors' free pools.
pub proof fn lemma_cancel_all_live(m: ExecutorManagerModel, rs: Seq<ReservationModel>)
    requires
        em_wf(m),
        reservations_distinct(rs),
        forall|k: int| 0 <= k < rs.len() ==> reservation_live(m, #[trigger] rs[k]),
    ensures
        forall|i: int|
            0 <= i < m.executors.len() ==> (#[trigger] cancel_all(m, rs).executors[i]).available
                == m.executors[i].available + count_reservations_for(rs, m.executors[i].meta.id),
    decreases rs.len(),
{
    if rs.len() > 0 {
        lemma_cancel_all_live(m, rs.drop_last());
        lemma_cancel_all_wf(m, rs.drop_last());
        lemma_cancel_all_frame(m, rs.drop_last());
        let prev = cancel_all(m, rs.drop_last());
        let r = rs.last();
        assert(reservation_live(prev, r)) by {
            lemma_cancel_all_preserves_live(m, rs.drop_last(), r);
        }
        let w = choose|w: int|
            0 <= w < prev.executors.len() && (#[trigger] prev.executors[w]).meta.id
                == r.executor_id && 0 <= r.slot < prev.executors[w].reserved.len()
                && prev.executors[w].reserved[r.slot];
        assert forall|i: int|
            0 <= i < m.executors.len() implies (#[trigger] cancel_all(m, rs).executors[i]).available
            == m.executors[i].available + count_reservations_for(rs, m.executors[i].meta.id) by {
            assert(cancel_all(m, rs).executors[i] == cancel_entry(prev.executors[i], r));
            lemma_count_where_push(
                rs.drop_last(),
                names_executor(m.executors[i].meta.id),
                r,
            );
            assert(rs.drop_last().push(r) =~= rs);
            if prev.executors[i].meta.id == r.executor_id {
                if i != w {
                    lemma_unique_ids(prev, i, w);
                }
                assert(prev.executors[i].reserved[r.slot]);
            } else {
                assert(!names_executor(m.executors[i].meta.id)(r));
            }
        }
    } else {
        assert forall|i: int|
            0 <= i < m.executors.len() implies count_reservations_for(
            rs,
            (#[trigger] m.executors[i]).meta.id,
        ) == 0 by {}
    }
}

pub proof fn lemma_cancel_all_frame(m: ExecutorManagerModel, rs: Seq<ReservationModel>)
    ensures
        cancel_all(m, rs).timeout == m.timeout,
        cancel_all(m, rs).executors.len() == m.executors.len(),
        forall|i: int|
            0 <= i < m.executors.len() ==> {
                let c = (#[trigger] cancel_all(m, rs).executors[i]);
                &&& c.meta == m.executors[i].meta
                &&& c.bound == m.executors[i].bound
                &&& c.last_heartbeat == m.executors[i].last_heartbeat
                &&& c.reserved.len() == m.executors[i].reserved.len()
                &&& c.available + count_where(c.reserved, is_true()) == m.executors[i].available
                    + count_where(m.executors[i].reserved, is_true())
                &&& c.available >= m.executors[i].available
            },
    decreases rs.len(),
{
    if rs.len() > 0 {
        let prev = cancel_all(m, rs.drop_last());
        lemma_cancel_all_frame(m, rs.drop_last());
        let r = rs.last();
        assert forall|i: int| 0 <= i < m.executors.len() implies {
            let c = (#[trigger] cancel_all(m, rs).executors[i]);
            &&& c.meta == prev.executors[i].meta
            &&& c.bound == prev.executors[i].bound
            &&& c.last_heartbeat == prev.executors[i].last_heartbeat
            &&& c.reserved.len() == prev.executors[i].reserved.len()
            &&& c.available + count_where(c.reserved, is_true()) == prev.executors[i].available
                + count_where(prev.executors[i].reserved, is_true())
            &&& c.available >= prev.executors[i].available
        } by {
            let e = prev.executors[i];
            assert(cancel_all(m, rs).executors[i] == cancel_entry(e, r));
            if e.meta.id == r.executor_id && 0 <= r.slot < e.reserved.len() && e.reserved[r.slot] {
                lemma_count_where_update(e.reserved, is_true(), r.slot, false);
            }
        }
    }
}

// ---------------------------------------------------------------------------
// The reservation relation used by reserve_slots
// ---------------------------------------------------------------------------

/// How one executor before a reservation pass relates to the same executor
/// after it: exactly its share of the new tokens left the free pool for the
/// outstanding mask, and nothing else moved.
pub open spec fn reserve_entry_relation(
    o: ExecutorEntryModel,
    c: ExecutorEntryModel,
    rs: Seq<ReservationModel>,
) -> bool {
    &&& c.meta == o.meta
    &&& c.bound == o.bound
    &&& c.last_heartbeat == o.last_heartbeat
    &&& c.reserved.len() == o.reserved.len()
    &&& c.available == o.available - count_reservations_for(rs, o.meta.id)
    &&& outstanding_of(c) == outstanding_of(o) + count_reservations_for(rs, o.meta.id)
    &&& forall|j: int| 0 <= j < o.reserved.len() ==> (o.reserved[j] ==> c.reserved[j])
}

/// The full contract of a reservation pass: `rs` are live, pairwise distinct
/// tokens, and every executor's accounting moved by exactly its share.
pub open spec fn reserve_relation(
    o: ExecutorManagerModel,
    c: ExecutorManagerModel,
    rs: Seq<ReservationModel>,
) -> bool {
    &&& c.timeout == o.timeout
    &&& c.executors.len() == o.executors.len()
    &&& forall|i: int|
        0 <= i < o.executors.len() ==> reserve_entry_relation(
            o.executors[i],
            #[trigger] c.executors[i],
            rs,
        )
    &&& forall|k: int| 0 <= k < rs.len() ==> reservation_live(c, #[trigger] rs[k])
    &&& reservations_distinct(rs)
    &&& total_available(c) == total_available(o) - rs.len()
}

/// One more slot taken at index `i` extends a reservation pass.
proof fn lemma_reserve_step(
    o: ExecutorManagerModel,
    c: ExecutorManagerModel,
    c2: ExecutorManagerModel,
    rs: Seq<ReservationModel>,
    i: int,
    r: ReservationModel,
)
    requires
        em_wf(o),
        em_wf(c),
        reserve_relation(o, c, rs),
        0 <= i < c.executors.len(),
        c.executors[i].available > 0,
        r.executor_id == c.executors[i].meta.id,
        0 <= r.slot < c.executors[i].reserved.len(),
        c.executors[i].reserved[r.slot] == false,
        c2.executors == c.executors.update(
            i,
            ExecutorEntryModel {
                available: c.executors[i].available - 1,
                reserved: c.executors[i].reserved.update(r.slot, true),
                ..c.executors[i]
            },
        ),
        c2.timeout == c.timeout,
    ensures
        reserve_relation(o, c2, rs.push(r)),
{
    let e = c.executors[i];
    let e2 = c2.executors[i];
    assert forall|x: int| 0 <= x < o.executors.len() implies reserve_entry_relation(
        o.executors[x],
        #[trigger] c2.executors[x],
        rs.push(r),
    ) by {
        lemma_count_where_push(rs, names_executor(o.executors[x].meta.id), r);
        if x == i {
            lemma_count_where_update(e.reserved, is_true(), r.slot, true);
        } else {
            lemma_unique_ids(o, i, x);
            assert(c2.executors[x] == c.executors[x]);
            assert(r.executor_id != o.executors[x].meta.id);
        }
    }
    assert forall|k: int| 0 <= k < rs.push(r).len() implies reservation_live(
        c2,
        #[trigger] rs.push(r)[k],
    ) by {
        if k < rs.len() {
            assert(rs.push(r)[k] == rs[k]);
            assert(reservation_live(c, rs[k]));
            let w = choose|w: int|
                0 <= w < c.executors.len() && (#[trigger] c.executors[w]).meta.id
                    == rs[k].executor_id && 0 <= rs[k].slot < c.executors[w].reserved.len()
                    && c.executors[w].reserved[rs[k].slot];
            if w == i {
                assert(c2.executors[w].reserved[rs[k].slot]);
            } else {
                assert(c2.executors[w] == c.executors[w]);
            }
            assert((#[trigger] c2.executors[w]).meta.id == rs[k].executor_id);
        } else {
            assert(rs.push(r)[k] == r);
            assert((#[trigger] c2.executors[i]).meta.id == r.executor_id);
            assert(c2.executors[i].reserved[r.slot]);
        }
    }
    assert forall|k1: int, k2: int|
        #![trigger rs.push(r)[k1], rs.push(r)[k2]]
        0 <= k1 < k2 < rs.push(r).len() implies !(rs.push(r)[k1].executor_id == rs.push(
        r,
    )[k2].executor_id && rs.push(r)[k1].slot == rs.push(r)[k2].slot) by {
        if k2 == rs.len() {
            let a = rs[k1];
            if a.executor_id == r.executor_id {
                let w = choose|w: int|
                    0 <= w < c.executors.len() && (#[trigger] c.executors[w]).meta.id
                        == a.executor_id && 0 <= a.slot < c.executors[w].reserved.len()
                        && c.executors[w].reserved[a.slot];
                if w != i {
                    lemma_unique_ids(c, w, i);
                }
                assert(w == i);
                assert(c.executors[i].reserved[a.slot]);
            }
        }
    }
    lemma_sum_by_update(
        c.executors,
        entry_available_fn(),
        i,
        ExecutorEntryModel {
            available: c.executors[i].available - 1,
            reserved: c.executors[i].reserved.update(r.slot, true),
            ..c.executors[i]
        },
    );
}

/// Tokens fit to hand to the matching step: live and pairwise distinct.
pub open spec fn reservations_valid(m: ExecutorManagerModel, rs: Seq<ReservationModel>) -> bool {
    reservations_distinct(rs) && forall|k: int|
        0 <= k < rs.len() ==> reservation_live(m, #[trigger] rs[k])
}

/// Relation between the manager before and after minting tokens for ended
/// running tasks: each token moved one bound slot of its executor back into
/// the outstanding mask; the free pool did not move.
pub open spec fn mint_entry_relation(
    o: ExecutorEntryModel,
    c: ExecutorEntryModel,
    rs: Seq<ReservationModel>,
) -> bool {
    &&& c.meta == o.meta
    &&& c.available == o.available
    &&& c.last_heartbeat == o.last_heartbeat
    &&& c.reserved.len() == o.reserved.len()
    &&& c.bound == o.bound - count_reservations_for(rs, o.meta.id)
    &&& outstanding_of(c) == outstanding_of(o) + count_reservations_for(rs, o.meta.id)
    &&& forall|j: int| 0 <= j < o.reserved.len() ==> (o.reserved[j] ==> c.reserved[j])
}

pub open spec fn mint_relation(
    o: ExecutorManagerModel,
    c: ExecutorManagerModel,
    rs: Seq<ReservationModel>,
) -> bool {
    &&& c.timeout == o.timeout
    &&& c.executors.len() == o.executors.len()
    &&& forall|i: int|
        0 <= i < o.executors.len() ==> mint_entry_relation(
            o.executors[i],
            #[trigger] c.executors[i],
            rs,
        )
    &&& forall|k: int| 0 <= k < rs.len() ==> reservation_live(c, #[trigger] rs[k])
    &&& reservations_distinct(rs)
}

/// One more token minted at index `i` extends a minting pass.
pub proof fn lemma_mint_step(
    o: ExecutorManagerModel,
    c: ExecutorManagerModel,
    c2: ExecutorManagerModel,
    rs: Seq<ReservationModel>,
    i: int,
    r: ReservationModel,
)
    requires
        em_wf(o),
        em_wf(c),
        mint_relation(o, c, rs),
        0 <= i < c.executors.len(),
        c.executors[i].bound > 0,
        r.executor_id == c.executors[i].meta.id,
        0 <= r.slot < c.executors[i].reserved.len(),
        c.executors[i].reserved[r.slot] == false,
        c2.executors == c.executors.update(
            i,
            ExecutorEntryModel {
                bound: c.executors[i].bound - 1,
                reserved: c.executors[i].reserved.update(r.slot, true),
                ..c.executors[i]
            },
        ),
        c2.timeout == c.timeout,
    ensures
        mint_relation(o, c2, rs.push(r)),
{
    let e = c.executors[i];
    assert forall|x: int| 0 <= x < o.executors.len() implies mint_entry_relation(
        o.executors[x],
        #[trigger] c2.executors[x],
        rs.push(r),
    ) by {
        lemma_count_where_push(rs, names_executor(o.executors[x].meta.id), r);
        if x == i {
            lemma_count_where_update(e.reserved, is_true(), r.slot, true);
        } else {
            lemma_unique_ids(o, i, x);
            assert(c2.executors[x] == c.executors[x]);
            assert(r.executor_id != o.executors[x].meta.id);
        }
    }
    assert forall|k: int| 0 <= k < rs.push(r).len() implies reservation_live(
        c2,
        #[trigger] rs.push(r)[k],
    ) by {
        if k < rs.len() {
            assert(rs.push(r)[k] == rs[k]);
            assert(reservation_live(c, rs[k]));
            let w = choose|w: int|
                0 <= w < c.executors.len() && (#[trigger] c.executors[w]).meta.id
                    == rs[k].executor_id && 0 <= rs[k].slot < c.executors[w].reserved.len()
                    && c.executors[w].reserved[rs[k].slot];
            if w == i {
                assert(c2.executors[w].reserved[rs[k].slot]);
            } else {
                assert(c2.executors[w] == c.executors[w]);
            }
            assert((#[trigger] c2.executors[w]).meta.id == rs[k].executor_id);
        } else {
            assert(rs.push(r)[k] == r);
            assert((#[trigger] c2.executors[i]).meta.id == r.executor_id);
            assert(c2.executors[i].reserved[r.slot]);
        }
    }
    assert forall|k1: int, k2: int|
        #![trigger rs.push(r)[k1], rs.push(r)[k2]]
        0 <= k1 < k2 < rs.push(r).len() implies !(rs.push(r)[k1].executor_id == rs.push(
        r,
    )[k2].executor_id && rs.push(r)[k1].slot == rs.push(r)[k2].slot) by {
        if k2 == rs.len() {
            let a = rs[k1];
            if a.executor_id == r.executor_id {
                let w = choose|w: int|
                    0 <= w < c.executors.len() && (#[trigger] c.executors[w]).meta.id
                        == a.executor_id && 0 <= a.slot < c.executors[w].reserved.len()
                        && c.executors[w].reserved[a.slot];
                if w != i {
                    lemma_unique_ids(c, w, i);
                }
                assert(w == i);
                assert(c.executors[i].reserved[a.slot]);
            }
        }
    }
}

// ---------------------------------------------------------------------------
// Operations
// ---------------------------------------------------------------------------

impl ExecutorManager {
    /// A manager with no executors.
    pub fn new(executor_timeout_ms: u64) -> (r: Self)
        ensures
            r@.executors.len() == 0,
            r@.timeout == executor_timeout_ms as int,
            em_wf(r@),
    {
        let r = ExecutorManager { executors: Vec::new(), executor_timeout_ms };
        proof {
            assert(r@.executors =~= Seq::<ExecutorEntryModel>::empty());
        }
        r
    }

    /// Records a new executor. With `reserve_all`, its whole capacity is
    /// carved out at once and returned as free reservations; otherwise all
    /// slots go to the free pool and nothing is returned.
    pub fn register_executor(
        &mut self,
        metadata: ExecutorMetadata,
        data: ExecutorData,
        reserve_all: bool,
        now: u64,
    ) -> (r: Result<Vec<ExecutorReservation>, SchedulerError>)
        requires
            em_wf(old(self)@),
        ensures
            em_wf(final(self)@),
            ({
                let bad = data.executor_id@ != metadata.id@ || data.total_task_slots
                    != metadata.task_slots || data.available_task_slots != data.total_task_slots;
                &&& (bad ==> (r matches Err(SchedulerError::InvalidRegistration)) && final(self)@
                    == old(self)@)
                &&& (!bad && has_executor(old(self)@, metadata.id@) ==> (r matches Err(
                    SchedulerError::ExecutorAlreadyRegistered,
                )) && final(self)@ == old(self)@)
                &&& (!bad && !has_executor(old(self)@, metadata.id@) ==> (r matches Ok(rs) && {
                    let slots = metadata.task_slots as int;
                    let entry = ExecutorEntryModel {
                        meta: metadata@,
                        available: if reserve_all {
                            0int
                        } else {
                            slots
                        },
                        bound: 0,
                        reserved: Seq::new(slots as nat, |i: int| reserve_all),
                        last_heartbeat: now as int,
                    };
                    &&& final(self)@.executors == old(self)@.executors.push(entry)
                    &&& final(self)@.timeout == old(self)@.timeout
                    &&& rs@.len() == if reserve_all {
                        slots
                    } else {
                        0int
                    }
                    &&& forall|k: int|
                        0 <= k < rs@.len() ==> (#[trigger] rs@[k])@ == (ReservationModel {
                            executor_id: metadata.id@,
                            slot: k,
                        })
                }))
            }),
    {
        if data.executor_id != metadata.id || data.total_task_slots
            != metadata.task_slots || data.available_task_slots != data.total_task_slots {
            return Err(SchedulerError::InvalidRegistration);
        }
        let mut i: usize = 0;
        while i < self.executors.len()
            invariant
                0 <= i <= self.executors.len(),
                self@ == old(self)@,
                em_wf(self@),
                data.executor_id@ == metadata.id@,
                data.total_task_slots == metadata.task_slots,
                data.available_task_slots == data.total_task_slots,
                forall|j: int| 0 <= j < i ==> (#[trigger] self@.executors[j]).meta.id != metadata.id@,
            decreases self.executors.len() - i,
        {
            if self.executors[i].meta.id == metadata.id {
                proof {
                    assert((#[trigger] old(self)@.executors[i as int]).meta.id == metadata.id@);
                    assert(has_executor(old(self)@, metadata.id@));
                }
                return Err(SchedulerError::ExecutorAlreadyRegistered);
            }
            i += 1;
        }
        let slots = metadata.task_slots;
        let available: usize = if reserve_all {
            0
        } else {
            slots
        };
        let reserved: Vec<bool> = vec![reserve_all; slots];
        let mut tokens: Vec<ExecutorReservation> = Vec::new();
        if reserve_all {
            let mut k: usize = 0;
            while k < slots
                invariant
                    0 <= k <= slots,
                    tokens@.len() == k,
                    forall|t: int|
                        0 <= t < k ==> (#[trigger] tokens@[t])@ == (ReservationModel {
                            executor_id: metadata.id@,
                            slot: t,
                        }),
                decreases slots - k,
            {
                tokens.push(ExecutorReservation { executor_id: metadata.id.clone(), slot: k });
                k += 1;
            }
        }
        let ghost slots_int = slots as int;
        let entry = ExecutorEntry {
            meta: metadata,
            available_slots: available,
            bound_slots: 0,
            reserved,
            last_heartbeat: now,
        };
        proof {
            assert(entry@.reserved =~= Seq::new(slots_int as nat, |i: int| reserve_all));
            if reserve_all {
                lemma_count_where_all(entry@.reserved, is_true());
            } else {
                lemma_count_where_none(entry@.reserved, is_true());
            }
            assert(entry_wf(entry@));
        }
        self.executors.push(entry);
        proof {
            assert(self@.executors =~= old(self)@.executors.push(entry@));
        }
        Ok(tokens)
    }

    /// Returns a copy of the cached metadata for `executor_id`.
    pub fn get_executor_metadata(&self, executor_id: &String) -> (r: Result<
        ExecutorMetadata,
        SchedulerError,
    >)
        requires
            em_wf(self@),
        ensures
            match r {
                Ok(m) => has_executor(self@, executor_id@) && forall|i: int|
                    0 <= i < self@.executors.len() && (#[trigger] self@.executors[i]).meta.id
                        == executor_id@ ==> m@ == self@.executors[i].meta,
                Err(e) => e == SchedulerError::ExecutorUnknown && !has_executor(
                    self@,
                    executor_id@,
                ),
            },
    {
        let mut i: usize = 0;
        while i < self.executors.len()
            invariant
                0 <= i <= self.executors.len(),
                em_wf(self@),
                forall|j: int|
                    0 <= j < i ==> (#[trigger] self@.executors[j]).meta.id != executor_id@,
            decreases self.executors.len() - i,
        {
            if self.executors[i].meta.id == *executor_id {
                proof {
                    assert forall|j: int|
                        0 <= j < self@.executors.len() && (#[trigger] self@.executors[j]).meta.id
                            == executor_id@ implies self@.executors[j].meta == self@.executors[i as int].meta by {
                        if j != i as int {
                            lemma_unique_ids(self@, j, i as int);
                        }
                    }
                }
                let m = &self.executors[i].meta;
                let out = ExecutorMetadata {
                    id: m.id.clone(),
                    host: m.host.clone(),
                    port: m.port,
                    grpc_port: m.grpc_port,
                    task_slots: m.task_slots,
                };
                proof {
                    assert((#[trigger] self@.executors[i as int]).meta.id == executor_id@);
                    assert(has_executor(self@, executor_id@));
                    assert(out@ == self@.executors[i as int].meta);
                }
                return Ok(out);
            }
            i += 1;
        }
        Err(SchedulerError::ExecutorUnknown)
    }

    /// Records a liveness ping from `executor_id`.
    pub fn heartbeat(&mut self, executor_id: &String, now: u64) -> (r: Result<
        (),
        SchedulerError,
    >)
        requires
            em_wf(old(self)@),
        ensures
            em_wf(final(self)@),
            final(self)@.timeout == old(self)@.timeout,
            final(self)@.executors.len() == old(self)@.executors.len(),
            match r {
                Ok(()) => has_executor(old(self)@, executor_id@) && forall|i: int|
                    0 <= i < old(self)@.executors.len()
                        ==> #[trigger] final(self)@.executors[i] == if old(
                        self,
                    )@.executors[i].meta.id == executor_id@ {
                        ExecutorEntryModel {
                            last_heartbeat: now as int,
                            ..old(self)@.executors[i]
                        }
                    } else {
                        old(self)@.executors[i]
                    },
                Err(e) => e == SchedulerError::ExecutorUnknown && !has_executor(
                    old(self)@,
                    executor_id@,
                ) && final(self)@ == old(self)@,
            },
    {
        let mut i: usize = 0;
        while i < self.executors.len()
            invariant
                0 <= i <= self.executors.len(),
                self@ == old(self)@,
                em_wf(self@),
                forall|j: int|
                    0 <= j < i ==> (#[trigger] self@.executors[j]).meta.id != executor_id@,
            decreases self.executors.len() - i,
        {
            if self.executors[i].meta.id == *executor_id {
                let ghost before = self@;
                self.executors[i].last_heartbeat = now;
                proof {
                    assert(self@.executors =~= before.executors.update(
                        i as int,
                        ExecutorEntryModel {
                            last_heartbeat: now as int,
                            ..before.executors[i as int]
                        },
                    ));
                    assert(forall|j: int|
                        0 <= j < self@.executors.len() && j != i ==> #[trigger] self@.executors[j]
                            == before.executors[j]);
                    assert(outstanding_of(self@.executors[i as int]) == outstanding_of(
                        before.executors[i as int],
                    ));
                    assert forall|j: int|
                        0 <= j < before.executors.len() && j != i as int implies (
                    #[trigger] before.executors[j]).meta.id != executor_id@ by {
                        lemma_unique_ids(before, j, i as int);
                    }
                }
                return Ok(());
            }
            i += 1;
        }
        Err(SchedulerError::ExecutorUnknown)
    }

    /// Moves one slot of executor `i` from the free pool into the
    /// outstanding mask and returns its token.
    fn take_slot_at(&mut self, i: usize) -> (r: ExecutorReservation)
        requires
            em_wf(old(self)@),
            i < old(self)@.executors.len(),
            old(self)@.executors[i as int].available > 0,
        ensures
            em_wf(final(self)@),
            final(self)@.timeout == old(self)@.timeout,
            0 <= r@.slot < old(self)@.executors[i as int].reserved.len(),
            old(self)@.executors[i as int].reserved[r@.slot] == false,
            r@.executor_id == old(self)@.executors[i as int].meta.id,
            final(self)@.executors == old(self)@.executors.update(
                i as int,
                ExecutorEntryModel {
                    available: old(self)@.executors[i as int].available - 1,
                    reserved: old(self)@.executors[i as int].reserved.update(r@.slot, true),
                    ..old(self)@.executors[i as int]
                },
            ),
    {
        let n = self.executors[i].reserved.len();
        let mut s: usize = 0;
        while s < n && self.executors[i].reserved[s]
            invariant
                self@ == old(self)@,
                em_wf(self@),
                i < self@.executors.len(),
                n == self@.executors[i as int].reserved.len(),
                self@.executors[i as int].available > 0,
                0 <= s <= n,
                forall|j: int| 0 <= j < s ==> self@.executors[i as int].reserved[j] == true,
            decreases n - s,
        {
            s += 1;
        }
        proof {
            if s == n {
                assert(entry_wf(self@.executors[i as int]));
                lemma_count_where_all(self@.executors[i as int].reserved, is_true());
                assert(false);
            }
        }
        let slot = s;
        let id = self.executors[i].meta.id.clone();
        let ghost before = self@;
        self.executors[i].reserved[slot] = true;
        self.executors[i].available_slots = self.executors[i].available_slots - 1;
        let ghost entry2 = ExecutorEntryModel {
            available: before.executors[i as int].available - 1,
            reserved: before.executors[i as int].reserved.update(slot as int, true),
            ..before.executors[i as int]
        };
        proof {
            assert(self@.executors =~= before.executors.update(i as int, entry2));
            lemma_count_where_update(
                before.executors[i as int].reserved,
                is_true(),
                slot as int,
                true,
            );
            assert(entry_wf(entry2));
            lemma_em_wf_entry_update(before, i as int, entry2);
            assert(self@ =~= ExecutorManagerModel {
                executors: before.executors.update(i as int, entry2),
                ..before
            });
        }
        ExecutorReservation { executor_id: id, slot }
    }

    /// Draws up to `n` free reservations from the global pool, one slot per
    /// executor per round, so that no cold executor is starved. Returns
    /// fewer than `n` exactly when the whole pool ran dry.
    pub fn reserve_slots(&mut self, n: usize) -> (r: Vec<ExecutorReservation>)
        requires
            em_wf(old(self)@),
        ensures
            em_wf(final(self)@),
            reserve_relation(old(self)@, final(self)@, reservation_models(r@)),
            r@.len() == if n as int <= total_available(old(self)@) {
                n as int
            } else {
                total_available(old(self)@)
            },
    {
        let mut out: Vec<ExecutorReservation> = Vec::new();
        proof {
            assert(reservation_models(out@) =~= Seq::<ReservationModel>::empty());
            lemma_total_available_nonneg(self@);
        }
        let mut more = true;
        while out.len() < n && more
            invariant
                em_wf(self@),
                em_wf(old(self)@),
                out@.len() <= n,
                reserve_relation(old(self)@, self@, reservation_models(out@)),
                total_available(self@) >= 0,
                !more ==> total_available(self@) == 0,
            decreases total_available(self@) + if more {
                1int
            } else {
                0int
            },
        {
            let mut took = false;
            let ghost start_avail = total_available(self@);
            let ghost start_len = out@.len();
            let mut i: usize = 0;
            while i < self.executors.len()
                invariant
                    em_wf(self@),
                    em_wf(old(self)@),
                    out@.len() <= n,
                    i <= self.executors.len(),
                    reserve_relation(old(self)@, self@, reservation_models(out@)),
                    took ==> total_available(self@) <= start_avail - 1,
                    !took ==> total_available(self@) == start_avail && out@.len() == start_len,
                    !took ==> forall|j: int|
                        0 <= j < i ==> ((#[trigger] self@.executors[j]).available == 0 || out@.len()
                            >= n),
                decreases self.executors.len() - i,
            {
                if out.len() < n && self.executors[i].available_slots > 0 {
                    let ghost before = self@;
                    let token = self.take_slot_at(i);
                    proof {
                        lemma_reserve_step(
                            old(self)@,
                            before,
                            self@,
                            reservation_models(out@),
                            i as int,
                            token@,
                        );
                        lemma_reservation_models_push(out@, token);
                    }
                    out.push(token);
                    took = true;
                }
                i += 1;
            }
            proof {
                if !took && out@.len() < n {
                    assert forall|j: int|
                        0 <= j < self@.executors.len() implies entry_available(
                        #[trigger] self@.executors[j],
                    ) == 0 by {}
                    lemma_sum_by_zero(self@.executors, entry_available_fn());
                }
                lemma_total_available_nonneg(self@);
            }
            more = took;
        }
        out
    }

    /// Returns each still-outstanding token's slot to its executor's free
    /// pool. Tokens that are stale — already cancelled, already bound, or
    /// naming an executor that has since been deregistered — are silently
    /// dropped, so cancelling the same token twice is the same as cancelling
    /// it once.
    pub fn cancel_reservations(&mut self, reservations: Vec<ExecutorReservation>)
        requires
            em_wf(old(self)@),
        ensures
            em_wf(final(self)@),
            final(self)@ == cancel_all(old(self)@, reservation_models(reservations@)),
    {
        let ghost all = reservation_models(reservations@);
        let mut k: usize = 0;
        while k < reservations.len()
            invariant
                em_wf(self@),
                em_wf(old(self)@),
                k <= reservations.len(),
                all == reservation_models(reservations@),
                self@ == cancel_all(old(self)@, all.take(k as int)),
            decreases reservations.len() - k,
        {
            let ghost before = self@;
            self.cancel_token(&reservations[k]);
            proof {
                assert(all.take(k as int + 1).drop_last() =~= all.take(k as int));
                assert(all.take(k as int + 1).last() == all[k as int]);
            }
            k += 1;
        }
        proof {
            assert(all.take(reservations@.len() as int) =~= all);
        }
    }

    /// Cancels one token, as `cancel_one` describes.
    fn cancel_token(&mut self, r: &ExecutorReservation)
        requires
            em_wf(old(self)@),
        ensures
            em_wf(final(self)@),
            final(self)@ == cancel_one(old(self)@, r@),
    {
        let mut i: usize = 0;
        while i < self.executors.len()
            invariant
                self@ == old(self)@,
                em_wf(self@),
                forall|j: int|
                    0 <= j < i ==> (#[trigger] self@.executors[j]).meta.id != r.executor_id@,
            decreases self.executors.len() - i,
        {
            if self.executors[i].meta.id == r.executor_id {
                let ghost before = self@;
                if r.slot < self.executors[i].reserved.len() && self.executors[i].reserved[r.slot] {
                    proof {
                        assert(entry_wf(before.executors[i as int]));
                        lemma_count_where_member_at(
                            before.executors[i as int].reserved,
                            is_true(),
                            r.slot as int,
                        );
                        lemma_cancel_one_wf(before, r@);
                    }
                    self.executors[i].reserved[r.slot] = false;
                    self.executors[i].available_slots = self.executors[i].available_slots + 1;
                    proof {
                        assert(self@.executors =~= before.executors.update(
                            i as int,
                            cancel_entry(before.executors[i as int], r@),
                        ));
                        assert forall|x: int| 0 <= x < before.executors.len() implies #[trigger]
                        cancel_one(before, r@).executors[x] == self@.executors[x] by {
                            if x != i as int {
                                lemma_unique_ids(before, x, i as int);
                                assert(cancel_entry(before.executors[x], r@)
                                    == before.executors[x]);
                            }
                        }
                        assert(cancel_one(before, r@).executors =~= self@.executors);
                        assert(cancel_one(before, r@) =~= self@);
                    }
                } else {
                    proof {
                        assert forall|x: int| 0 <= x < before.executors.len() implies #[trigger]
                        cancel_one(before, r@).executors[x] == self@.executors[x] by {
                            if x != i as int {
                                lemma_unique_ids(before, x, i as int);
                            }
                            assert(cancel_entry(before.executors[x], r@) == before.executors[x]);
                        }
                        assert(cancel_one(before, r@).executors =~= self@.executors);
                        assert(cancel_one(before, r@) =~= self@);
                    }
                }
                return ;
            }
            i += 1;
        }
        proof {
            assert forall|x: int| 0 <= x < self@.executors.len() implies #[trigger] cancel_one(
                self@,
                r@,
            ).executors[x] == self@.executors[x] by {
                assert(self@.executors[x].meta.id != r@.executor_id);
            }
            assert(cancel_one(self@, r@).executors =~= self@.executors);
            assert(cancel_one(self@, r@) =~= self@);
        }
    }

    /// Consumes a live token: its slot stops being outstanding and becomes a
    /// bound (running) slot. Used when an assignment is launched.
    pub(crate) fn bind_reservation(&mut self, r: &ExecutorReservation)
        requires
            em_wf(old(self)@),
            reservation_live(old(self)@, r@),
        ensures
            em_wf(final(self)@),
            final(self)@.timeout == old(self)@.timeout,
            final(self)@.executors.len() == old(self)@.executors.len(),
            forall|i: int|
                0 <= i < old(self)@.executors.len() ==> #[trigger] final(self)@.executors[i] == if old(
                    self,
                )@.executors[i].meta.id == r@.executor_id {
                    ExecutorEntryModel {
                        bound: old(self)@.executors[i].bound + 1,
                        reserved: old(self)@.executors[i].reserved.update(r@.slot, false),
                        ..old(self)@.executors[i]
                    }
                } else {
                    old(self)@.executors[i]
                },
            forall|i: int|
                0 <= i < old(self)@.executors.len() && old(self)@.executors[i].meta.id
                    == r@.executor_id ==> old(self)@.executors[i].reserved[r@.slot]
                    && outstanding_of(final(self)@.executors[i]) == outstanding_of(
                    old(self)@.executors[i],
                ) - 1,
    {
        let mut i: usize = 0;
        while i < self.executors.len()
            invariant
                self@ == old(self)@,
                em_wf(self@),
                reservation_live(self@, r@),
                forall|j: int|
                    0 <= j < i ==> (#[trigger] self@.executors[j]).meta.id != r.executor_id@,
            decreases self.executors.len() - i,
        {
            if self.executors[i].meta.id == r.executor_id {
                let ghost before = self@;
                proof {
                    let w = choose|w: int|
                        0 <= w < before.executors.len() && (#[trigger] before.executors[w]).meta.id
                            == r@.executor_id && 0 <= r@.slot < before.executors[w].reserved.len()
                            && before.executors[w].reserved[r@.slot];
                    if w != i as int {
                        lemma_unique_ids(before, w, i as int);
                    }
                    assert(before.executors[i as int].reserved[r@.slot]);
                }
                let entry_total = self.executors[i].reserved.len();
                assert(r.slot < entry_total);
                proof {
                    assert(entry_wf(before.executors[i as int]));
                    lemma_count_where_member_at(
                        before.executors[i as int].reserved,
                        is_true(),
                        r@.slot,
                    );
                }
                self.executors[i].reserved[r.slot] = false;
                self.executors[i].bound_slots = self.executors[i].bound_slots + 1;
                let ghost entry2 = ExecutorEntryModel {
                    bound: before.executors[i as int].bound + 1,
                    reserved: before.executors[i as int].reserved.update(r@.slot, false),
                    ..before.executors[i as int]
                };
                proof {
                    assert(self@.executors =~= before.executors.update(i as int, entry2));
                    lemma_count_where_update(
                        before.executors[i as int].reserved,
                        is_true(),
                        r@.slot,
                        false,
                    );
                    assert(entry_wf(entry2));
                    lemma_em_wf_entry_update(before, i as int, entry2);
                    assert(self@ =~= ExecutorManagerModel {
                        executors: before.executors.update(i as int, entry2),
                        ..before
                    });
                    assert forall|j: int|
                        0 <= j < before.executors.len() && j != i as int implies (
                    #[trigger] before.executors[j]).meta.id != r@.executor_id by {
                        lemma_unique_ids(before, j, i as int);
                    }
                }
                return ;
            }
            i += 1;
        }
        proof {
            let w = choose|w: int|
                0 <= w < self@.executors.len() && (#[trigger] self@.executors[w]).meta.id
                    == r@.executor_id && 0 <= r@.slot < self@.executors[w].reserved.len()
                    && self@.executors[w].reserved[r@.slot];
            assert(self@.executors[w].meta.id == r@.executor_id);
            assert(false);
        }
    }

    /// A running task on `executor_id` has ended: its bound slot turns back
    /// into an outstanding reservation, whose token is returned so the
    /// caller can re-offer it.
    pub(crate) fn free_running_slot(&mut self, executor_id: &String) -> (r: ExecutorReservation)
        requires
            em_wf(old(self)@),
            has_executor(old(self)@, executor_id@),
            forall|i: int|
                0 <= i < old(self)@.executors.len() && (#[trigger] old(
                    self,
                )@.executors[i]).meta.id == executor_id@ ==> old(self)@.executors[i].bound > 0,
        ensures
            em_wf(final(self)@),
            final(self)@.timeout == old(self)@.timeout,
            final(self)@.executors.len() == old(self)@.executors.len(),
            r@.executor_id == executor_id@,
            reservation_live(final(self)@, r@),
            forall|i: int|
                0 <= i < old(self)@.executors.len() && (#[trigger] old(
                    self,
                )@.executors[i]).meta.id != executor_id@ ==> final(self)@.executors[i] == old(
                    self,
                )@.executors[i],
            forall|i: int|
                0 <= i < old(self)@.executors.len() && (#[trigger] old(
                    self,
                )@.executors[i]).meta.id == executor_id@ ==> 0 <= r@.slot < old(
                    self,
                )@.executors[i].reserved.len() && old(self)@.executors[i].reserved[r@.slot]
                    == false && final(self)@.executors[i] == (ExecutorEntryModel {
                    bound: old(self)@.executors[i].bound - 1,
                    reserved: old(self)@.executors[i].reserved.update(r@.slot, true),
                    ..old(self)@.executors[i]
                }) && outstanding_of(final(self)@.executors[i]) == outstanding_of(
                    old(self)@.executors[i],
                ) + 1,
    {
        let mut i: usize = 0;
        while i < self.executors.len()
            invariant
                self@ == old(self)@,
                em_wf(self@),
                has_executor(self@, executor_id@),
                forall|j: int|
                    0 <= j < self@.executors.len() && (#[trigger] self@.executors[j]).meta.id
                        == executor_id@ ==> self@.executors[j].bound > 0,
                forall|j: int|
                    0 <= j < i ==> (#[trigger] self@.executors[j]).meta.id != executor_id@,
            decreases self.executors.len() - i,
        {
            if self.executors[i].meta.id == *executor_id {
                let ghost before = self@;
                proof {
                    assert((#[trigger] self@.executors[i as int]).meta.id == executor_id@);
                }
                // find a slot index that is not outstanding
                let n = self.executors[i].reserved.len();
                let mut s: usize = 0;
                while s < n && self.executors[i].reserved[s]
                    invariant
                        self@ == before,
                        em_wf(self@),
                        i < self@.executors.len(),
                        n == self@.executors[i as int].reserved.len(),
                        self@.executors[i as int].bound > 0,
                        0 <= s <= n,
                        forall|j: int| 0 <= j < s ==> self@.executors[i as int].reserved[j] == true,
                    decreases n - s,
                {
                    s += 1;
                }
                proof {
                    if s == n {
                        assert(entry_wf(self@.executors[i as int]));
                        lemma_count_where_all(self@.executors[i as int].reserved, is_true());
                        assert(false);
                    }
                }
                let slot = s;
                self.executors[i].reserved[slot] = true;
                self.executors[i].bound_slots = self.executors[i].bound_slots - 1;
                let ghost entry2 = ExecutorEntryModel {
                    bound: before.executors[i as int].bound - 1,
                    reserved: before.executors[i as int].reserved.update(slot as int, true),
                    ..before.executors[i as int]
                };
                proof {
                    assert(self@.executors =~= before.executors.update(i as int, entry2));
                    lemma_count_where_update(
                        before.executors[i as int].reserved,
                        is_true(),
                        slot as int,
                        true,
                    );
                    assert(entry_wf(entry2));
                    lemma_em_wf_entry_update(before, i as int, entry2);
                    assert(self@ =~= ExecutorManagerModel {
                        executors: before.executors.update(i as int, entry2),
                        ..before
                    });
                    assert forall|j: int|
                        0 <= j < before.executors.len() && j != i as int implies (
                    #[trigger] before.executors[j]).meta.id != executor_id@ by {
                        lemma_unique_ids(before, j, i as int);
                    }
                    assert((#[trigger] self@.executors[i as int]).meta.id == executor_id@);
                    assert(self@.executors[i as int].reserved[slot as int]);
                }
                return ExecutorReservation { executor_id: self.executors[i].meta.id.clone(), slot };
            }
            i += 1;
        }
        proof {
            let w = choose|w: int|
                0 <= w < self@.executors.len() && (#[trigger] self@.executors[w]).meta.id
                    == executor_id@;
            assert(false);
        }
        unreached()
    }

    /// A bound slot was reclaimed without the task having run (a failed
    /// launch): it returns directly to the free pool.
    pub(crate) fn unbind_to_available(&mut self, executor_id: &String)
        requires
            em_wf(old(self)@),
            has_executor(old(self)@, executor_id@),
            forall|i: int|
                0 <= i < old(self)@.executors.len() && (#[trigger] old(
                    self,
                )@.executors[i]).meta.id == executor_id@ ==> old(self)@.executors[i].bound > 0,
        ensures
            em_wf(final(self)@),
            final(self)@.timeout == old(self)@.timeout,
            final(self)@.executors.len() == old(self)@.executors.len(),
            forall|i: int|
                0 <= i < old(self)@.executors.len() ==> #[trigger] final(self)@.executors[i] == if old(
                    self,
                )@.executors[i].meta.id == executor_id@ {
                    ExecutorEntryModel {
                        available: old(self)@.executors[i].available + 1,
                        bound: old(self)@.executors[i].bound - 1,
                        ..old(self)@.executors[i]
                    }
                } else {
                    old(self)@.executors[i]
                },
    {
        let mut i: usize = 0;
        while i < self.executors.len()
            invariant
                self@ == old(self)@,
                em_wf(self@),
                has_executor(self@, executor_id@),
                forall|j: int|
                    0 <= j < self@.executors.len() && (#[trigger] self@.executors[j]).meta.id
                        == executor_id@ ==> self@.executors[j].bound > 0,
                forall|j: int|
                    0 <= j < i ==> (#[trigger] self@.executors[j]).meta.id != executor_id@,
            decreases self.executors.len() - i,
        {
            if self.executors[i].meta.id == *executor_id {
                let ghost before = self@;
                proof {
                    assert((#[trigger] before.executors[i as int]).meta.id == executor_id@);
                    assert(entry_wf(before.executors[i as int]));
                    lemma_count_where_bounds(before.executors[i as int].reserved, is_true());
                }
                self.executors[i].available_slots = self.executors[i].available_slots + 1;
                self.executors[i].bound_slots = self.executors[i].bound_slots - 1;
                let ghost entry2 = ExecutorEntryModel {
                    available: before.executors[i as int].available + 1,
                    bound: before.executors[i as int].bound - 1,
                    ..before.executors[i as int]
                };
                proof {
                    assert(self@.executors =~= before.executors.update(i as int, entry2));
                    assert(outstanding_of(entry2) == outstanding_of(before.executors[i as int]));
                    assert(entry_wf(entry2));
                    lemma_em_wf_entry_update(before, i as int, entry2);
                    assert(self@ =~= ExecutorManagerModel {
                        executors: before.executors.update(i as int, entry2),
                        ..before
                    });
                    assert forall|j: int|
                        0 <= j < before.executors.len() && j != i as int implies (
                    #[trigger] before.executors[j]).meta.id != executor_id@ by {
                        lemma_unique_ids(before, j, i as int);
                    }
                }
                return ;
            }
            i += 1;
        }
        proof {
            let w = choose|w: int|
                0 <= w < self@.executors.len() && (#[trigger] self@.executors[w]).meta.id
                    == executor_id@;
            assert(false);
        }
    }

    /// Removes an executor outright. The caller settles the fate of its
    /// running tasks and outstanding tokens first; stale tokens that still
    /// name it are silently dropped by `cancel_reservations`.
    pub fn deregister_executor(&mut self, executor_id: &String) -> (r: Result<
        (),
        SchedulerError,
    >)
        requires
            em_wf(old(self)@),
        ensures
            em_wf(final(self)@),
            final(self)@.timeout == old(self)@.timeout,
            match r {
                Ok(()) => has_executor(old(self)@, executor_id@) && exists|i: int|
                    0 <= i < old(self)@.executors.len() && (#[trigger] old(
                        self,
                    )@.executors[i]).meta.id == executor_id@ && final(self)@.executors == old(
                        self,
                    )@.executors.remove(i),
                Err(e) => e == SchedulerError::ExecutorUnknown && !has_executor(
                    old(self)@,
                    executor_id@,
                ) && final(self)@ == old(self)@,
            },
    {
        let mut i: usize = 0;
        while i < self.executors.len()
            invariant
                self@ == old(self)@,
                em_wf(self@),
                forall|j: int|
                    0 <= j < i ==> (#[trigger] self@.executors[j]).meta.id != executor_id@,
            decreases self.executors.len() - i,
        {
            if self.executors[i].meta.id == *executor_id {
                let ghost before = self@;
                self.executors.remove(i);
                proof {
                    assert(self@.executors =~= before.executors.remove(i as int));
                    assert((#[trigger] before.executors[i as int]).meta.id == executor_id@);
                    assert forall|x: int| 0 <= x < self@.executors.len() implies entry_wf(
                        #[trigger] self@.executors[x],
                    ) by {
                        if x < i as int {
                            assert(self@.executors[x] == before.executors[x]);
                        } else {
                            assert(self@.executors[x] == before.executors[x + 1]);
                        }
                    }
                    assert forall|x: int, y: int|
                        #![trigger self@.executors[x], self@.executors[y]]
                        0 <= x < self@.executors.len() && 0 <= y < self@.executors.len() && x != y
                        implies self@.executors[x].meta.id != self@.executors[y].meta.id by {
                        let x0: int = if x < i as int {
                            x
                        } else {
                            x + 1
                        };
                        let y0: int = if y < i as int {
                            y
                        } else {
                            y + 1
                        };
                        lemma_unique_ids(before, x0, y0);
                    }
                }
                return Ok(());
            }
            i += 1;
        }
        Err(SchedulerError::ExecutorUnknown)
    }

    /// Whether `executor_id` has missed heartbeats for longer than the
    /// configured timeout, judged against the caller's clock `now`.
    pub fn is_expired(&self, executor_id: &String, now: u64) -> (r: Result<bool, SchedulerError>)
        requires
            em_wf(self@),
        ensures
            match r {
                Ok(b) => has_executor(self@, executor_id@) && forall|i: int|
                    0 <= i < self@.executors.len() && (#[trigger] self@.executors[i]).meta.id
                        == executor_id@ ==> b == (self@.executors[i].last_heartbeat + self@.timeout
                        < now as int),
                Err(e) => e == SchedulerError::ExecutorUnknown && !has_executor(
                    self@,
                    executor_id@,
                ),
            },
    {
        let mut i: usize = 0;
        while i < self.executors.len()
            invariant
                0 <= i <= self.executors.len(),
                em_wf(self@),
                forall|j: int|
                    0 <= j < i ==> (#[trigger] self@.executors[j]).meta.id != executor_id@,
            decreases self.executors.len() - i,
        {
            if self.executors[i].meta.id == *executor_id {
                let expired = if now < self.executor_timeout_ms {
                    false
                } else {
                    self.executors[i].last_heartbeat < now - self.executor_timeout_ms
                };
                proof {
                    assert((#[trigger] self@.executors[i as int]).meta.id == executor_id@);
                    assert forall|j: int|
                        0 <= j < self@.executors.len() && j != i as int implies (
                    #[trigger] self@.executors[j]).meta.id != executor_id@ by {
                        lemma_unique_ids(self@, j, i as int);
                    }
                }
                return Ok(expired);
            }
            i += 1;
        }
        Err(SchedulerError::ExecutorUnknown)
    }
}

/// The free pool never counts below zero.
pub proof fn lemma_total_available_nonneg(m: ExecutorManagerModel)
    requires
        em_wf(m),
    ensures
        total_available(m) >= 0,
{
    assert forall|j: int| 0 <= j < m.executors.len() implies entry_available_fn()(
        #[trigger] m.executors[j],
    ) >= 0 by {
        assert(entry_wf(m.executors[j]));
    }
    lemma_sum_by_nonneg(m.executors, entry_available_fn());
}

} // verus!
