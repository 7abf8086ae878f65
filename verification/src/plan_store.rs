//! The rows in which a plan is stored, and reading a plan back from them.

use vstd::prelude::*;
use vstd::string::*;

use crate::bridge::is_representable_micros;
use crate::cohort::acquire_outcome;
use crate::index::build_index;
use crate::lifecycle::{heartbeat_outcome, mark_outcome, release_outcome};
use crate::locks::{locks_match, plan_ok, quarantined, PlanState, PlanView, Slot, SlotView};
use crate::plan::{
    deliverable_ids, CallerId, DeliverableStatus, ErrorView, GraphView, LockInfo, LockView, PlanGraph, PlanId, PlannerError,
    StatusView,
};
use crate::submit::initial_slots;
use crate::task::{CriticalPathResult, ResultView};
use crate::text::{same_text, signed_decimal, signed_numeral};
use crate::validate::{first, lemma_first_is, lemma_first_none};

verus! {

/// The stored status of a deliverable.
#[derive(Debug)]
pub struct StatusRow {
    /// The deliverable.
    pub deliverable_id: String,
    /// Its status.
    pub status: DeliverableStatus,
    /// How often it was leased.
    pub attempt_count: u32,
    /// How often it was marked failed.
    pub failure_count: u32,
    /// How often a lease on it lapsed.
    pub lapse_count: u32,
}

/// Mathematical form of [`StatusRow`].
#[verifier::ext_equal]
pub struct StatusRowView {
    /// The deliverable.
    pub deliverable_id: Seq<char>,
    /// Its status.
    pub status: StatusView,
    /// How often it was leased.
    pub attempts: u32,
    /// How often it was marked failed.
    pub failures: u32,
    /// How often a lease on it lapsed.
    pub lapses: u32,
}

impl DeepView for StatusRow {
    type V = StatusRowView;

    open spec fn deep_view(&self) -> StatusRowView {
        StatusRowView {
            deliverable_id: self.deliverable_id@,
            status: self.status.deep_view(),
            attempts: self.attempt_count,
            failures: self.failure_count,
            lapses: self.lapse_count,
        }
    }
}

/// A stored lease.
#[derive(Debug)]
pub struct LockRow {
    /// The deliverable.
    pub deliverable_id: String,
    /// Who holds the lease.
    pub caller_id: String,
    /// When it was taken.
    pub acquired_at_us: i64,
    /// When it lapses.
    pub expires_at_us: i64,
}

/// Mathematical form of [`LockRow`].
#[verifier::ext_equal]
pub struct LockRowView {
    /// The deliverable.
    pub deliverable_id: Seq<char>,
    /// Who holds the lease.
    pub caller_id: Seq<char>,
    /// When it was taken.
    pub acquired_at_us: i64,
    /// When it lapses.
    pub expires_at_us: i64,
}

impl DeepView for LockRow {
    type V = LockRowView;

    open spec fn deep_view(&self) -> LockRowView {
        LockRowView {
            deliverable_id: self.deliverable_id@,
            caller_id: self.caller_id@,
            acquired_at_us: self.acquired_at_us,
            expires_at_us: self.expires_at_us,
        }
    }
}

/// A number of microseconds that is a point in time.
pub open spec fn valid_stamp(us: i64) -> bool {
    -8_334_601_228_800_000_000 <= us <= 8_210_266_876_799_999_999
}

/// What is wrong with a stored time.
pub open spec fn stamp_error(us: i64, column: Seq<char>) -> ErrorView {
    ErrorView::BackendError { reason: "corrupt timestamp in column "@ + column + ": "@ + signed_numeral(us as int) }
}

/// Checks a stored time.
pub fn dt_from_micros(us: i64, column: &str) -> (r: Result<i64, PlannerError>)
    ensures
        match r {
            Ok(x) => valid_stamp(us) && x == us,
            Err(e) => !valid_stamp(us) && e.deep_view() == stamp_error(us, column@),
        },
{
    if is_representable_micros(us) {
        Ok(us)
    } else {
        let mut reason = String::from_str("corrupt timestamp in column ");
        reason.append(column);
        reason.append(": ");
        let number = signed_decimal(us);
        reason.append(number.as_str());
        Err(PlannerError::BackendError(reason))
    }
}

/// The rows that store the statuses in slots, given their ids.
pub open spec fn rows_of(ids: Seq<Seq<char>>, slots: Seq<SlotView>) -> Seq<StatusRowView> {
    Seq::new(
        slots.len(),
        |i: int|
            StatusRowView {
                deliverable_id: ids[i],
                status: slots[i].status,
                attempts: slots[i].attempts,
                failures: slots[i].failures,
                lapses: slots[i].lapses,
            },
    )
}

/// The rows that store the statuses of a plan.
pub open spec fn status_rows(plan: PlanView) -> Seq<StatusRowView> {
    rows_of(deliverable_ids(plan.graph), plan.slots)
}

/// The row that stores a lease.
pub open spec fn lock_row(lock: LockView) -> LockRowView {
    LockRowView {
        deliverable_id: lock.deliverable_id,
        caller_id: lock.caller_id,
        acquired_at_us: lock.acquired_at,
        expires_at_us: lock.expires_at,
    }
}

/// The rows that store the leases in the first `n` slots.
pub open spec fn lock_rows(slots: Seq<SlotView>, n: nat) -> Seq<LockRowView>
    decreases n,
{
    if n == 0 {
        Seq::empty()
    } else {
        let rest = lock_rows(slots, (n - 1) as nat);
        match slots[n - 1].lock {
            Some(l) => rest.push(lock_row(l)),
            None => rest,
        }
    }
}

/// The last of the first `m` rows about a deliverable.
pub open spec fn last_status(rows: Seq<StatusRowView>, id: Seq<char>, m: nat) -> Option<StatusRowView>
    decreases m,
{
    if m == 0 {
        None
    } else if rows[m - 1].deliverable_id == id {
        Some(rows[m - 1])
    } else {
        last_status(rows, id, (m - 1) as nat)
    }
}

/// The last of the first `m` leases on a deliverable.
pub open spec fn last_lock(rows: Seq<LockRowView>, id: Seq<char>, m: nat) -> Option<LockRowView>
    decreases m,
{
    if m == 0 {
        None
    } else if rows[m - 1].deliverable_id == id {
        Some(rows[m - 1])
    } else {
        last_lock(rows, id, (m - 1) as nat)
    }
}

/// The slot of a deliverable as stored. One without a row is pending, one
/// without a lease row is not leased.
pub open spec fn stored_slot(plan_id: Seq<char>, id: Seq<char>, statuses: Seq<StatusRowView>, locks: Seq<LockRowView>) -> SlotView {
    let lock = match last_lock(locks, id, locks.len()) {
        Some(l) => Some(
            LockView {
                plan_id,
                deliverable_id: id,
                caller_id: l.caller_id,
                acquired_at: l.acquired_at_us,
                expires_at: l.expires_at_us,
            },
        ),
        None => None,
    };
    match last_status(statuses, id, statuses.len()) {
        Some(s) => SlotView { status: s.status, attempts: s.attempts, failures: s.failures, lapses: s.lapses, lock },
        None => SlotView { status: StatusView::Pending, attempts: 0, failures: 0, lapses: 0, lock },
    }
}

/// A lease row holds a time that is none.
pub open spec fn bad_stamp(row: LockRowView) -> bool {
    !valid_stamp(row.acquired_at_us) || !valid_stamp(row.expires_at_us)
}

/// The plan that is stored in the rows, or why they hold none. A graph is
/// stored after it was found valid, so an id that occurs twice is damage.
pub open spec fn stored_plan(plan_id: Seq<char>, graph: GraphView, result: ResultView, statuses: Seq<StatusRowView>, locks: Seq<LockRowView>) -> Result<PlanView, ErrorView> {
    if !deliverable_ids(graph).no_duplicates() {
        Err(ErrorView::BackendError { reason: "corrupt graph: a deliverable id occurs twice"@ })
    } else {
        match first(locks.len(), |k: int| bad_stamp(locks[k])) {
            Some(k) => Err(
                if !valid_stamp(locks[k].acquired_at_us) {
                    stamp_error(locks[k].acquired_at_us, "locks.acquired_at_us"@)
                } else {
                    stamp_error(locks[k].expires_at_us, "locks.expires_at_us"@)
                },
            ),
            None => Ok(
                PlanView {
                    graph,
                    slots: Seq::new(
                        graph.deliverables.len(),
                        |i: int| stored_slot(plan_id, graph.deliverables[i].id, statuses, locks),
                    ),
                    result,
                },
            ),
        }
    }
}

impl PlanState {
    /// The rows that store the statuses of the plan.
    pub fn to_status_rows(&self) -> (r: Vec<StatusRow>)
        requires
            plan_ok(self.deep_view()),
        ensures
            r.deep_view() == status_rows(self.deep_view()),
    {
        let ghost plan = self.deep_view();
        let n: usize = self.slots.len();
        assert(plan.slots.len() == n);
        assert(plan.graph.deliverables.len() == self.graph.deliverables.len());
        let mut r: Vec<StatusRow> = Vec::new();
        for i in 0..n
            invariant
                n == self.slots.len(),
                n == self.graph.deliverables.len(),
                plan == self.deep_view(),
                r.len() == i,
                forall|k: int| 0 <= k < i ==> (#[trigger] r[k]).deep_view() == status_rows(plan)[k],
        {
            let slot = &self.slots[i];
            assert(plan.slots[i as int] == slot.deep_view());
            assert(plan.graph.deliverables[i as int] == self.graph.deliverables[i as int].deep_view());
            r.push(
                StatusRow {
                    deliverable_id: self.graph.deliverables[i].id.clone(),
                    status: slot.status.clone(),
                    attempt_count: slot.attempts,
                    failure_count: slot.failures,
                    lapse_count: slot.lapses,
                },
            );
        }
        assert(r.deep_view() =~= status_rows(plan));
        r
    }

    /// The rows that store the leases of the plan.
    pub fn to_lock_rows(&self) -> (r: Vec<LockRow>)
        ensures
            r.deep_view() == lock_rows(self.deep_view().slots, self.deep_view().slots.len()),
    {
        let ghost slots = self.deep_view().slots;
        let mut r: Vec<LockRow> = Vec::new();
        for i in 0..self.slots.len()
            invariant
                slots == self.deep_view().slots,
                r.deep_view() == lock_rows(slots, i as nat),
        {
            assert(slots[i as int] == self.slots[i as int].deep_view());
            let ghost listed = r.deep_view();
            if let Some(lock) = &self.slots[i].lock {
                let row = LockRow {
                    deliverable_id: lock.deliverable_id.clone(),
                    caller_id: lock.caller_id.0.clone(),
                    acquired_at_us: lock.acquired_at,
                    expires_at_us: lock.expires_at,
                };
                r.push(row);
                assert(r.deep_view() =~= listed.push(row.deep_view()));
            }
        }
        r
    }

    /// Reads the deliverables of a plan back from its rows.
    pub fn restore(plan_id: &PlanId, graph: PlanGraph, cached_result: CriticalPathResult, statuses: &Vec<StatusRow>, locks: &Vec<LockRow>) -> (r: Result<Self, PlannerError>)
        ensures
            match stored_plan(
                plan_id.0@,
                graph.deep_view(),
                cached_result.deep_view(),
                statuses.deep_view(),
                locks.deep_view(),
            ) {
                Ok(plan) => r matches Ok(state) && state.deep_view() == plan && plan_ok(plan),
                Err(e) => r matches Err(x) && x.deep_view() == e,
            },
    {
        let ghost gv = graph.deep_view();
        let ghost sv = statuses.deep_view();
        let ghost lv = locks.deep_view();
        let ids = crate::validate::ids_of(&graph);
        if build_index(&ids).is_none() {
            return Err(PlannerError::BackendError(String::from_str("corrupt graph: a deliverable id occurs twice")));
        }
        let ghost bad = |k: int| bad_stamp(lv[k]);
        for k in 0..locks.len()
            invariant
                lv == locks.deep_view(),
                gv == graph.deep_view(),
                deliverable_ids(gv).no_duplicates(),
                bad == (|k: int| bad_stamp(lv[k])),
                forall|a: int| 0 <= a < k ==> !#[trigger] bad(a),
        {
            assert(lv[k as int] == locks[k as int].deep_view());
            if let Err(e) = dt_from_micros(locks[k].acquired_at_us, "locks.acquired_at_us") {
                proof {
                    assert(bad(k as int));
                    lemma_first_is(lv.len(), bad, k as int);
                }
                return Err(e);
            }
            if let Err(e) = dt_from_micros(locks[k].expires_at_us, "locks.expires_at_us") {
                proof {
                    assert(bad(k as int));
                    lemma_first_is(lv.len(), bad, k as int);
                }
                return Err(e);
            }
            assert(!bad(k as int));
        }
        proof {
            lemma_first_none(lv.len(), bad);
        }
        let n: usize = graph.deliverables.len();
        let mut slots: Vec<Slot> = Vec::new();
        for i in 0..n
            invariant
                n == graph.deliverables.len(),
                gv == graph.deep_view(),
                sv == statuses.deep_view(),
                lv == locks.deep_view(),
                slots.len() == i,
                forall|k: int| 0 <= k < i ==> (#[trigger] slots[k]).deep_view() == stored_slot(plan_id.0@, gv.deliverables[k].id, sv, lv),
        {
            assert(gv.deliverables[i as int] == graph.deliverables[i as int].deep_view());
            slots.push(read_slot(plan_id, graph.deliverables[i].id.as_str(), statuses, locks));
        }
        proof {
            assert(slots.deep_view() =~= Seq::new(
                gv.deliverables.len(),
                |i: int| stored_slot(plan_id.0@, gv.deliverables[i].id, sv, lv),
            ));
            assert(locks_match(gv, slots.deep_view()));
        }
        Ok(PlanState::new(graph, slots, cached_result))
    }
}

/// Reads the slot of a deliverable from the rows.
pub(crate) fn read_slot(plan_id: &PlanId, id: &str, statuses: &Vec<StatusRow>, locks: &Vec<LockRow>) -> (r: Slot)
    ensures
        r.deep_view() == stored_slot(plan_id.0@, id@, statuses.deep_view(), locks.deep_view()),
{
    let ghost sv = statuses.deep_view();
    let ghost lv = locks.deep_view();
    let mut lock: Option<LockInfo> = None;
    let mut k: usize = locks.len();
    let mut found = false;
    while k > 0 && !found
        invariant
            k <= locks.len(),
            lv == locks.deep_view(),
            !found ==> lock is None && last_lock(lv, id@, lv.len()) == last_lock(lv, id@, k as nat),
            found ==> {
                &&& last_lock(lv, id@, lv.len()) matches Some(l)
                &&& lock matches Some(held)
                &&& held.deep_view() == (LockView {
                    plan_id: plan_id.0@,
                    deliverable_id: id@,
                    caller_id: l.caller_id,
                    acquired_at: l.acquired_at_us,
                    expires_at: l.expires_at_us,
                })
            },
        decreases k,
    {
        k -= 1;
        assert(lv[k as int] == locks[k as int].deep_view());
        if same_text(locks[k].deliverable_id.as_str(), id) {
            lock = Some(
                LockInfo {
                    plan_id: plan_id.clone(),
                    deliverable_id: String::from_str(id),
                    caller_id: CallerId(locks[k].caller_id.clone()),
                    acquired_at: locks[k].acquired_at_us,
                    expires_at: locks[k].expires_at_us,
                },
            );
            found = true;
        }
    }
    let mut m: usize = statuses.len();
    while m > 0
        invariant
            m <= statuses.len(),
            sv == statuses.deep_view(),
            lv == locks.deep_view(),
            last_status(sv, id@, sv.len()) == last_status(sv, id@, m as nat),
            match last_lock(lv, id@, lv.len()) {
                Some(l) => lock matches Some(held) && held.deep_view() == (LockView {
                    plan_id: plan_id.0@,
                    deliverable_id: id@,
                    caller_id: l.caller_id,
                    acquired_at: l.acquired_at_us,
                    expires_at: l.expires_at_us,
                }),
                None => lock is None,
            },
        decreases m,
    {
        m -= 1;
        assert(sv[m as int] == statuses[m as int].deep_view());
        if same_text(statuses[m].deliverable_id.as_str(), id) {
            return Slot {
                status: statuses[m].status.clone(),
                attempts: statuses[m].attempt_count,
                failures: statuses[m].failure_count,
                lapses: statuses[m].lapse_count,
                lock,
            };
        }
    }
    Slot { status: DeliverableStatus::Pending, attempts: 0, failures: 0, lapses: 0, lock }
}

/// Every lease belongs to the plan and holds times that can be stored.
pub open spec fn storable(plan: PlanView, plan_id: Seq<char>) -> bool {
    leases_storable(plan.slots, plan_id)
}

/// A new plan can be stored, and every request leaves a plan that can, where
/// its times can be stored.
pub proof fn requests_keep_plans_storable(plan: PlanView, plan_id: Seq<char>, id: Seq<char>, caller: Seq<char>, max: nat, now: i64, expires_at: i64, status: StatusView)
    requires
        plan_ok(plan),
        storable(plan, plan_id),
        valid_stamp(now),
        valid_stamp(expires_at),
    ensures
        storable(PlanView { slots: initial_slots(plan.graph), ..plan }, plan_id),
        acquire_outcome(plan, plan_id, caller, max, now, expires_at) matches Ok((after, cohort)) ==> storable(after, plan_id),
        heartbeat_outcome(plan, id, caller, now, expires_at) matches Ok(after) ==> storable(after, plan_id),
        release_outcome(plan, plan_id, id) matches Ok(after) ==> storable(after, plan_id),
        mark_outcome(plan, plan_id, id, caller, status) matches Ok(after) ==> storable(after, plan_id),
        storable(PlanView { slots: quarantined(plan.slots, now), ..plan }, plan_id),
{
    if let Ok((after, cohort)) = acquire_outcome(plan, plan_id, caller, max, now, expires_at) {
        assert forall|i: int| 0 <= i < after.slots.len() implies ((#[trigger] after.slots[i]).lock matches Some(l) ==> {
            &&& l.plan_id == plan_id
            &&& valid_stamp(l.acquired_at)
            &&& valid_stamp(l.expires_at)
        }) by {
            assert(plan.slots[i].lock matches Some(l) ==> l.plan_id == plan_id);
        }
    }
    if let Ok(after) = heartbeat_outcome(plan, id, caller, now, expires_at) {
        assert forall|i: int| 0 <= i < after.slots.len() implies ((#[trigger] after.slots[i]).lock matches Some(l) ==> {
            &&& l.plan_id == plan_id
            &&& valid_stamp(l.acquired_at)
            &&& valid_stamp(l.expires_at)
        }) by {
            assert(plan.slots[i].lock matches Some(l) ==> l.plan_id == plan_id);
        }
    }
    if let Ok(after) = release_outcome(plan, plan_id, id) {
        lemma_fewer_leases_storable(plan, after.slots, plan_id);
    }
    if let Ok(after) = mark_outcome(plan, plan_id, id, caller, status) {
        lemma_fewer_leases_storable(plan, after.slots, plan_id);
    }
    lemma_fewer_leases_storable(plan, quarantined(plan.slots, now), plan_id);
}

proof fn lemma_fewer_leases_storable(plan: PlanView, slots: Seq<SlotView>, plan_id: Seq<char>)
    requires
        storable(plan, plan_id),
        slots.len() == plan.slots.len(),
        forall|i: int| 0 <= i < slots.len() && (#[trigger] slots[i]).lock is Some ==> slots[i].lock == plan.slots[i].lock,
    ensures
        storable(PlanView { slots, ..plan }, plan_id),
{
    assert forall|i: int| 0 <= i < slots.len() implies ((#[trigger] slots[i]).lock matches Some(l) ==> {
        &&& l.plan_id == plan_id
        &&& valid_stamp(l.acquired_at)
        &&& valid_stamp(l.expires_at)
    }) by {
        assert(plan.slots[i].lock matches Some(l) ==> l.plan_id == plan_id);
    }
}

/// Every lease is on the deliverable with the id of its slot.
pub open spec fn locks_named(ids: Seq<Seq<char>>, slots: Seq<SlotView>) -> bool {
    forall|i: int| 0 <= i < slots.len() ==> ((#[trigger] slots[i]).lock matches Some(l) ==> l.deliverable_id == ids[i])
}

/// Every lease can be stored.
pub open spec fn leases_storable(slots: Seq<SlotView>, plan_id: Seq<char>) -> bool {
    forall|i: int| 0 <= i < slots.len() ==> ((#[trigger] slots[i]).lock matches Some(l) ==> {
        &&& l.plan_id == plan_id
        &&& valid_stamp(l.acquired_at)
        &&& valid_stamp(l.expires_at)
    })
}

/// Reading the rows of some slots gives the slots.
pub proof fn lemma_rows_read_back(ids: Seq<Seq<char>>, slots: Seq<SlotView>, plan_id: Seq<char>)
    requires
        ids.no_duplicates(),
        ids.len() == slots.len(),
        locks_named(ids, slots),
        leases_storable(slots, plan_id),
    ensures
        forall|k: int| 0 <= k < lock_rows(slots, slots.len()).len() ==> !bad_stamp(#[trigger] lock_rows(slots, slots.len())[k]),
        forall|i: int| 0 <= i < slots.len() ==> #[trigger] slots[i] == stored_slot(plan_id, ids[i], rows_of(ids, slots), lock_rows(slots, slots.len())),
{
    let n = slots.len();
    let locks = lock_rows(slots, n);
    assert forall|k: int| 0 <= k < locks.len() implies !bad_stamp(#[trigger] locks[k]) by {
        lemma_lock_rows_from(slots, n, k);
    }
    assert forall|i: int| 0 <= i < n implies #[trigger] slots[i] == stored_slot(plan_id, ids[i], rows_of(ids, slots), locks) by {
        lemma_last_status(ids, slots, n, i);
        lemma_last_lock(ids, slots, n, i);
    }
}

/// Every stored lease is that of a slot.
pub proof fn lemma_lock_rows_from(slots: Seq<SlotView>, n: nat, k: int)
    requires
        n <= slots.len(),
        0 <= k < lock_rows(slots, n).len(),
    ensures
        exists|i: int| 0 <= i < n && (#[trigger] slots[i]).lock is Some && lock_rows(slots, n)[k] == lock_row(slots[i].lock->0),
    decreases n,
{
    if n > 0 {
        let rest = lock_rows(slots, (n - 1) as nat);
        if k < rest.len() {
            lemma_lock_rows_from(slots, (n - 1) as nat, k);
            assert(lock_rows(slots, n)[k] == rest[k]);
        } else {
            assert(slots[n - 1].lock is Some);
        }
    }
}

proof fn lemma_last_status(ids: Seq<Seq<char>>, slots: Seq<SlotView>, m: nat, i: int)
    requires
        ids.no_duplicates(),
        ids.len() == slots.len(),
        0 <= i < slots.len(),
        m <= slots.len(),
    ensures
        last_status(rows_of(ids, slots), ids[i], m) == (if i < m { Some(rows_of(ids, slots)[i]) } else { None }),
    decreases m,
{
    if m > 0 && i != m - 1 {
        assert(ids[i] != ids[m - 1]);
        lemma_last_status(ids, slots, (m - 1) as nat, i);
    }
}

proof fn lemma_last_lock(ids: Seq<Seq<char>>, slots: Seq<SlotView>, m: nat, i: int)
    requires
        ids.no_duplicates(),
        ids.len() == slots.len(),
        locks_named(ids, slots),
        0 <= i < slots.len(),
        m <= slots.len(),
    ensures
        ({
            let rows = lock_rows(slots, m);
            last_lock(rows, ids[i], rows.len()) == (if i < m && slots[i].lock is Some {
                Some(lock_row(slots[i].lock->0))
            } else {
                None
            })
        }),
    decreases m,
{
    if m > 0 {
        let rest = lock_rows(slots, (m - 1) as nat);
        let rows = lock_rows(slots, m);
        lemma_last_lock(ids, slots, (m - 1) as nat, i);
        if slots[m - 1].lock is Some {
            assert(rows == rest.push(lock_row(slots[m - 1].lock->0)));
            assert(rows[rows.len() - 1].deliverable_id == ids[m - 1]);
            if i != m - 1 {
                assert(ids[i] != ids[m - 1]);
                lemma_last_lock_prefix(rest, rows, ids[i], rest.len());
            }
        }
    }
}

proof fn lemma_last_lock_prefix(a: Seq<LockRowView>, b: Seq<LockRowView>, id: Seq<char>, m: nat)
    requires
        m <= a.len(),
        m <= b.len(),
        forall|k: int| 0 <= k < m ==> #[trigger] a[k] == b[k],
    ensures
        last_lock(a, id, m) == last_lock(b, id, m),
    decreases m,
{
    if m > 0 {
        assert(a[m - 1] == b[m - 1]);
        lemma_last_lock_prefix(a, b, id, (m - 1) as nat);
    }
}

} // verus!
