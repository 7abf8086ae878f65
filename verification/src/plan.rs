//! The planning model: deliverables, cohorts, locks and errors.
//!
//! Times are microseconds since the Unix epoch. File paths are texts in normal
//! form, so that equal paths are equal texts. Metadata is JSON text.

use vstd::prelude::*;
use vstd::string::*;

use crate::text::{copy_texts, decimal, numeral, same_text, signed_decimal, signed_numeral};

verus! {

/// Identifier of a submitted plan.
#[derive(Debug, PartialEq, Eq, Hash)]
pub struct PlanId(pub String);

impl PlanId {
    /// The identifier as text.
    pub fn as_str(&self) -> (r: &str)
        ensures
            r@ == self.0@,
    {
        self.0.as_str()
    }
}

impl DeepView for PlanId {
    type V = Seq<char>;

    open spec fn deep_view(&self) -> Seq<char> {
        self.0@
    }
}

impl Clone for PlanId {
    fn clone(&self) -> (r: Self)
        ensures
            r.deep_view() == self.deep_view(),
    {
        PlanId(self.0.clone())
    }
}

/// Identifier of a caller.
#[derive(Debug, PartialEq, Eq, Hash)]
pub struct CallerId(pub String);

impl CallerId {
    /// The identifier as text.
    pub fn as_str(&self) -> (r: &str)
        ensures
            r@ == self.0@,
    {
        self.0.as_str()
    }
}

impl DeepView for CallerId {
    type V = Seq<char>;

    open spec fn deep_view(&self) -> Seq<char> {
        self.0@
    }
}

impl Clone for CallerId {
    fn clone(&self) -> (r: Self)
        ensures
            r.deep_view() == self.deep_view(),
    {
        CallerId(self.0.clone())
    }
}

/// A unit of work in a plan.
#[derive(Debug, PartialEq, Eq)]
pub struct Deliverable {
    /// Unique identifier within the plan.
    pub id: String,
    /// Files that only one worker may touch at a time.
    pub owned_files: Vec<String>,
    /// Ids of the deliverables that must be complete first.
    pub prerequisites: Vec<String>,
    /// Effort estimate, when the submitter has one.
    pub estimated_effort_hours: Option<i64>,
    /// Free-form JSON.
    pub metadata: String,
}

/// Mathematical form of [`Deliverable`].
#[verifier::ext_equal]
pub struct DeliverableView {
    /// Unique identifier within the plan.
    pub id: Seq<char>,
    /// Owned files.
    pub owned_files: Seq<Seq<char>>,
    /// Ids of the prerequisites.
    pub prerequisites: Seq<Seq<char>>,
    /// Effort estimate.
    pub effort: Option<i64>,
    /// Free-form JSON.
    pub metadata: Seq<char>,
}

impl DeepView for Deliverable {
    type V = DeliverableView;

    open spec fn deep_view(&self) -> DeliverableView {
        DeliverableView {
            id: self.id@,
            owned_files: self.owned_files.deep_view(),
            prerequisites: self.prerequisites.deep_view(),
            effort: self.estimated_effort_hours,
            metadata: self.metadata@,
        }
    }
}

impl Clone for Deliverable {
    fn clone(&self) -> (r: Self)
        ensures
            r.deep_view() == self.deep_view(),
    {
        Deliverable {
            id: self.id.clone(),
            owned_files: copy_texts(&self.owned_files),
            prerequisites: copy_texts(&self.prerequisites),
            estimated_effort_hours: self.estimated_effort_hours,
            metadata: self.metadata.clone(),
        }
    }
}

/// A plan as submitted.
#[derive(Debug, PartialEq, Eq)]
pub struct PlanGraph {
    /// The deliverables.
    pub deliverables: Vec<Deliverable>,
    /// Caller-defined dispatch bound.
    pub max_chained_dispatch: Option<u64>,
}

/// Mathematical form of [`PlanGraph`].
#[verifier::ext_equal]
pub struct GraphView {
    /// The deliverables.
    pub deliverables: Seq<DeliverableView>,
    /// Caller-defined dispatch bound.
    pub max_chained_dispatch: Option<u64>,
}

impl DeepView for PlanGraph {
    type V = GraphView;

    open spec fn deep_view(&self) -> GraphView {
        GraphView { deliverables: self.deliverables.deep_view(), max_chained_dispatch: self.max_chained_dispatch }
    }
}

impl Clone for PlanGraph {
    fn clone(&self) -> (r: Self)
        ensures
            r.deep_view() == self.deep_view(),
    {
        let mut deliverables: Vec<Deliverable> = Vec::new();
        for i in 0..self.deliverables.len()
            invariant
                deliverables.len() == i,
                forall|k: int| 0 <= k < i ==> (#[trigger] deliverables[k]).deep_view() == self.deliverables[k].deep_view(),
        {
            deliverables.push(self.deliverables[i].clone());
        }
        assert(deliverables.deep_view() =~= self.deliverables.deep_view());
        PlanGraph { deliverables, max_chained_dispatch: self.max_chained_dispatch }
    }
}

/// The ids of the deliverables.
pub open spec fn deliverable_ids(graph: GraphView) -> Seq<Seq<char>> {
    Seq::new(graph.deliverables.len(), |i: int| graph.deliverables[i].id)
}

/// Lifecycle state of a deliverable.
#[derive(Debug, PartialEq, Eq)]
pub enum DeliverableStatus {
    /// Waits for prerequisites.
    Pending,
    /// May be leased.
    Ready,
    /// Leased to a caller.
    InProgress,
    /// Done.
    Complete,
    /// Given up.
    Failed {
        /// Why.
        reason: String,
    },
}

/// Mathematical form of [`DeliverableStatus`].
#[verifier::ext_equal]
pub enum StatusView {
    /// See [`DeliverableStatus::Pending`].
    Pending,
    /// See [`DeliverableStatus::Ready`].
    Ready,
    /// See [`DeliverableStatus::InProgress`].
    InProgress,
    /// See [`DeliverableStatus::Complete`].
    Complete,
    /// See [`DeliverableStatus::Failed`].
    Failed { reason: Seq<char> },
}

impl DeepView for DeliverableStatus {
    type V = StatusView;

    open spec fn deep_view(&self) -> StatusView {
        match *self {
            DeliverableStatus::Pending => StatusView::Pending,
            DeliverableStatus::Ready => StatusView::Ready,
            DeliverableStatus::InProgress => StatusView::InProgress,
            DeliverableStatus::Complete => StatusView::Complete,
            DeliverableStatus::Failed { reason } => StatusView::Failed { reason: reason@ },
        }
    }
}

impl Clone for DeliverableStatus {
    fn clone(&self) -> (r: Self)
        ensures
            r.deep_view() == self.deep_view(),
    {
        match self {
            DeliverableStatus::Pending => DeliverableStatus::Pending,
            DeliverableStatus::Ready => DeliverableStatus::Ready,
            DeliverableStatus::InProgress => DeliverableStatus::InProgress,
            DeliverableStatus::Complete => DeliverableStatus::Complete,
            DeliverableStatus::Failed { reason } => DeliverableStatus::Failed { reason: reason.clone() },
        }
    }
}

impl DeliverableStatus {
    /// Whether the status is [`DeliverableStatus::Pending`].
    pub fn is_pending(&self) -> (r: bool)
        ensures
            r == (self.deep_view() is Pending),
    {
        match self {
            DeliverableStatus::Pending => true,
            _ => false,
        }
    }

    /// Whether the status is [`DeliverableStatus::Ready`].
    pub fn is_ready(&self) -> (r: bool)
        ensures
            r == (self.deep_view() is Ready),
    {
        match self {
            DeliverableStatus::Ready => true,
            _ => false,
        }
    }

    /// Whether the status is [`DeliverableStatus::InProgress`].
    pub fn is_in_progress(&self) -> (r: bool)
        ensures
            r == (self.deep_view() is InProgress),
    {
        match self {
            DeliverableStatus::InProgress => true,
            _ => false,
        }
    }

    /// Whether the status is [`DeliverableStatus::Complete`].
    pub fn is_complete(&self) -> (r: bool)
        ensures
            r == (self.deep_view() is Complete),
    {
        match self {
            DeliverableStatus::Complete => true,
            _ => false,
        }
    }

    /// Whether the status is [`DeliverableStatus::Failed`].
    pub fn is_failed(&self) -> (r: bool)
        ensures
            r == (self.deep_view() is Failed),
    {
        match self {
            DeliverableStatus::Failed { .. } => true,
            _ => false,
        }
    }
}

/// A lease on a deliverable.
#[derive(Debug, PartialEq, Eq)]
pub struct LockInfo {
    /// The plan.
    pub plan_id: PlanId,
    /// The leased deliverable.
    pub deliverable_id: String,
    /// Who holds the lease.
    pub caller_id: CallerId,
    /// When it was taken.
    pub acquired_at: i64,
    /// When it lapses.
    pub expires_at: i64,
}

/// Mathematical form of [`LockInfo`].
#[verifier::ext_equal]
pub struct LockView {
    /// The plan.
    pub plan_id: Seq<char>,
    /// The leased deliverable.
    pub deliverable_id: Seq<char>,
    /// Who holds the lease.
    pub caller_id: Seq<char>,
    /// When it was taken.
    pub acquired_at: i64,
    /// When it lapses.
    pub expires_at: i64,
}

impl DeepView for LockInfo {
    type V = LockView;

    open spec fn deep_view(&self) -> LockView {
        LockView {
            plan_id: self.plan_id.0@,
            deliverable_id: self.deliverable_id@,
            caller_id: self.caller_id.0@,
            acquired_at: self.acquired_at,
            expires_at: self.expires_at,
        }
    }
}

impl Clone for LockInfo {
    fn clone(&self) -> (r: Self)
        ensures
            r.deep_view() == self.deep_view(),
    {
        LockInfo {
            plan_id: self.plan_id.clone(),
            deliverable_id: self.deliverable_id.clone(),
            caller_id: self.caller_id.clone(),
            acquired_at: self.acquired_at,
            expires_at: self.expires_at,
        }
    }
}

/// A leased deliverable with its lock.
#[derive(Debug, PartialEq, Eq)]
pub struct CohortRow {
    /// The deliverable.
    pub deliverable: Deliverable,
    /// Its lock.
    pub lock: LockInfo,
}

/// Mathematical form of [`CohortRow`].
#[verifier::ext_equal]
pub struct RowView {
    /// The deliverable.
    pub deliverable: DeliverableView,
    /// Its lock.
    pub lock: LockView,
}

impl DeepView for CohortRow {
    type V = RowView;

    open spec fn deep_view(&self) -> RowView {
        RowView { deliverable: self.deliverable.deep_view(), lock: self.lock.deep_view() }
    }
}

/// Deliverables leased together.
#[derive(Debug, PartialEq, Eq)]
pub struct Cohort {
    /// The plan.
    pub plan_id: PlanId,
    /// The leased deliverables, in order of priority.
    pub rows: Vec<CohortRow>,
}

impl Cohort {
    /// Whether nothing was leased: the signal for a driver to stop asking.
    pub fn exhausted(&self) -> (r: bool)
        ensures
            r == (self.deep_view().rows.len() == 0),
    {
        assert(self.deep_view().rows.len() == self.rows.len());
        self.rows.len() == 0
    }
}

/// Mathematical form of [`Cohort`].
#[verifier::ext_equal]
pub struct CohortView {
    /// The plan.
    pub plan_id: Seq<char>,
    /// The leased deliverables.
    pub rows: Seq<RowView>,
}

impl DeepView for Cohort {
    type V = CohortView;

    open spec fn deep_view(&self) -> CohortView {
        CohortView { plan_id: self.plan_id.0@, rows: self.rows.deep_view() }
    }
}

/// Snapshot of a plan.
#[derive(Debug, PartialEq, Eq)]
pub struct PlanStatus {
    /// The plan.
    pub plan_id: PlanId,
    /// For each deliverable: id, status, leases, failures and lapses.
    pub deliverables: Vec<(String, DeliverableStatus, u32, u32, u32)>,
    /// The critical path.
    pub critical_path: Vec<String>,
    /// Duration of the critical path.
    pub critical_path_hours: i128,
    /// The locks that are held.
    pub locks_held: Vec<LockInfo>,
}

/// Mathematical form of an entry of [`PlanStatus::deliverables`].
#[verifier::ext_equal]
pub struct EntryView {
    /// The deliverable.
    pub id: Seq<char>,
    /// Its status.
    pub status: StatusView,
    /// How often it was leased.
    pub attempts: u32,
    /// How often it was marked failed.
    pub failures: u32,
    /// How often a lease on it lapsed.
    pub lapses: u32,
}

/// Mathematical form of [`PlanStatus`].
#[verifier::ext_equal]
pub struct SnapshotView {
    /// The plan.
    pub plan_id: Seq<char>,
    /// One entry per deliverable.
    pub deliverables: Seq<EntryView>,
    /// The critical path.
    pub critical_path: Seq<Seq<char>>,
    /// Duration of the critical path.
    pub critical_path_hours: int,
    /// The locks that are held.
    pub locks_held: Seq<LockView>,
}

/// Mathematical form of one status entry.
pub open spec fn entry_view(e: (String, DeliverableStatus, u32, u32, u32)) -> EntryView {
    EntryView { id: e.0@, status: e.1.deep_view(), attempts: e.2, failures: e.3, lapses: e.4 }
}

impl DeepView for PlanStatus {
    type V = SnapshotView;

    open spec fn deep_view(&self) -> SnapshotView {
        SnapshotView {
            plan_id: self.plan_id.0@,
            deliverables: Seq::new(self.deliverables@.len(), |i: int| entry_view(self.deliverables@[i])),
            critical_path: self.critical_path.deep_view(),
            critical_path_hours: self.critical_path_hours as int,
            locks_held: self.locks_held.deep_view(),
        }
    }
}

/// Why a planner refused a request.
#[derive(Debug, PartialEq, Eq)]
pub enum PlannerError {
    /// The deliverable is leased to someone else.
    LockHeld {
        /// The deliverable.
        deliverable_id: String,
        /// Who holds the lease.
        holder: String,
    },
    /// The caller does not hold the lease.
    LockNotHeld {
        /// The caller.
        caller_id: String,
        /// The deliverable.
        deliverable_id: String,
    },
    /// The lease has lapsed.
    LockExpired {
        /// The deliverable.
        deliverable_id: String,
        /// When it lapsed.
        expired_at: i64,
    },
    /// A file is owned by a deliverable that is leased.
    OverlapDetected {
        /// The file.
        file: String,
        /// The deliverable that owns it.
        deliverable_id: String,
    },
    /// A prerequisite is not complete.
    MissingPrerequisite {
        /// The deliverable.
        deliverable_id: String,
        /// The prerequisite.
        prerequisite: String,
    },
    /// There is no such plan.
    PlanNotFound {
        /// The plan asked for.
        plan_id: String,
    },
    /// There is no such deliverable.
    DeliverableNotFound {
        /// The plan.
        plan_id: String,
        /// The deliverable asked for.
        deliverable_id: String,
    },
    /// The graph breaks a structural rule.
    InvalidGraph {
        /// Which rule, and where.
        reason: String,
    },
    /// The storage behind the planner failed.
    BackendError(String),
    /// Leases on the deliverable lapsed too often.
    LapseLimit {
        /// The deliverable.
        deliverable_id: String,
        /// How often a lease lapsed.
        lapse_count: u32,
        /// How often that may happen.
        max_lapses: u32,
    },
}

/// Mathematical form of [`PlannerError`].
#[verifier::ext_equal]
pub enum ErrorView {
    /// See [`PlannerError::LockHeld`].
    LockHeld { deliverable_id: Seq<char>, holder: Seq<char> },
    /// See [`PlannerError::LockNotHeld`].
    LockNotHeld { caller_id: Seq<char>, deliverable_id: Seq<char> },
    /// See [`PlannerError::LockExpired`].
    LockExpired { deliverable_id: Seq<char>, expired_at: i64 },
    /// See [`PlannerError::OverlapDetected`].
    OverlapDetected { file: Seq<char>, deliverable_id: Seq<char> },
    /// See [`PlannerError::MissingPrerequisite`].
    MissingPrerequisite { deliverable_id: Seq<char>, prerequisite: Seq<char> },
    /// See [`PlannerError::PlanNotFound`].
    PlanNotFound { plan_id: Seq<char> },
    /// See [`PlannerError::DeliverableNotFound`].
    DeliverableNotFound { plan_id: Seq<char>, deliverable_id: Seq<char> },
    /// See [`PlannerError::InvalidGraph`].
    InvalidGraph { reason: Seq<char> },
    /// See [`PlannerError::BackendError`].
    BackendError { reason: Seq<char> },
    /// See [`PlannerError::LapseLimit`].
    LapseLimit { deliverable_id: Seq<char>, lapse_count: u32, max_lapses: u32 },
}

impl DeepView for PlannerError {
    type V = ErrorView;

    open spec fn deep_view(&self) -> ErrorView {
        match *self {
            PlannerError::LockHeld { deliverable_id, holder } => ErrorView::LockHeld {
                deliverable_id: deliverable_id@,
                holder: holder@,
            },
            PlannerError::LockNotHeld { caller_id, deliverable_id } => ErrorView::LockNotHeld {
                caller_id: caller_id@,
                deliverable_id: deliverable_id@,
            },
            PlannerError::LockExpired { deliverable_id, expired_at } => ErrorView::LockExpired {
                deliverable_id: deliverable_id@,
                expired_at,
            },
            PlannerError::OverlapDetected { file, deliverable_id } => ErrorView::OverlapDetected {
                file: file@,
                deliverable_id: deliverable_id@,
            },
            PlannerError::MissingPrerequisite { deliverable_id, prerequisite } => ErrorView::MissingPrerequisite {
                deliverable_id: deliverable_id@,
                prerequisite: prerequisite@,
            },
            PlannerError::PlanNotFound { plan_id } => ErrorView::PlanNotFound { plan_id: plan_id@ },
            PlannerError::DeliverableNotFound { plan_id, deliverable_id } => ErrorView::DeliverableNotFound {
                plan_id: plan_id@,
                deliverable_id: deliverable_id@,
            },
            PlannerError::InvalidGraph { reason } => ErrorView::InvalidGraph { reason: reason@ },
            PlannerError::BackendError(reason) => ErrorView::BackendError { reason: reason@ },
            PlannerError::LapseLimit { deliverable_id, lapse_count, max_lapses } => ErrorView::LapseLimit {
                deliverable_id: deliverable_id@,
                lapse_count,
                max_lapses,
            },
        }
    }
}

/// The message of an error: a stable code, then what happened.
pub open spec fn error_message(e: ErrorView) -> Seq<char> {
    match e {
        ErrorView::LockHeld { deliverable_id, holder } => "LOCK_HELD: deliverable '"@ + deliverable_id
            + "' is locked by '"@ + holder + "'"@,
        ErrorView::LockNotHeld { caller_id, deliverable_id } => "LOCK_NOT_HELD: caller '"@ + caller_id
            + "' does not hold the lock on '"@ + deliverable_id + "'"@,
        ErrorView::LockExpired { deliverable_id, expired_at } => "LOCK_EXPIRED: lock on '"@ + deliverable_id
            + "' expired at "@ + signed_numeral(expired_at as int),
        ErrorView::OverlapDetected { file, deliverable_id } => "OVERLAP_DETECTED: file '"@ + file
            + "' is owned by '"@ + deliverable_id + "'"@,
        ErrorView::MissingPrerequisite { deliverable_id, prerequisite } => "MISSING_PREREQUISITE: deliverable '"@
            + deliverable_id + "' waits for '"@ + prerequisite + "'"@,
        ErrorView::PlanNotFound { plan_id } => "PLAN_NOT_FOUND: plan '"@ + plan_id + "'"@,
        ErrorView::DeliverableNotFound { plan_id, deliverable_id } => "DELIVERABLE_NOT_FOUND: deliverable '"@
            + deliverable_id + "' in plan '"@ + plan_id + "'"@,
        ErrorView::InvalidGraph { reason } => "INVALID_GRAPH: "@ + reason,
        ErrorView::BackendError { reason } => "BACKEND_ERROR: "@ + reason,
        ErrorView::LapseLimit { deliverable_id, lapse_count, max_lapses } => "LAPSE_LIMIT: leases on '"@
            + deliverable_id + "' lapsed "@ + numeral(lapse_count as nat) + " times (limit "@
            + numeral(max_lapses as nat) + "): environmental losses, not failed work"@,
    }
}

impl PlannerError {
    /// The message of the error: a stable code, then what happened.
    pub fn to_string(&self) -> (r: String)
        ensures
            r@ == error_message(self.deep_view()),
    {
        match self {
            PlannerError::LockHeld { deliverable_id, holder } => {
                let mut r = String::from_str("LOCK_HELD: deliverable '");
                r.append(deliverable_id.as_str());
                r.append("' is locked by '");
                r.append(holder.as_str());
                r.append("'");
                r
            },
            PlannerError::LockNotHeld { caller_id, deliverable_id } => {
                let mut r = String::from_str("LOCK_NOT_HELD: caller '");
                r.append(caller_id.as_str());
                r.append("' does not hold the lock on '");
                r.append(deliverable_id.as_str());
                r.append("'");
                r
            },
            PlannerError::LockExpired { deliverable_id, expired_at } => {
                let mut r = String::from_str("LOCK_EXPIRED: lock on '");
                r.append(deliverable_id.as_str());
                r.append("' expired at ");
                let at = signed_decimal(*expired_at);
                r.append(at.as_str());
                r
            },
            PlannerError::OverlapDetected { file, deliverable_id } => {
                let mut r = String::from_str("OVERLAP_DETECTED: file '");
                r.append(file.as_str());
                r.append("' is owned by '");
                r.append(deliverable_id.as_str());
                r.append("'");
                r
            },
            PlannerError::MissingPrerequisite { deliverable_id, prerequisite } => {
                let mut r = String::from_str("MISSING_PREREQUISITE: deliverable '");
                r.append(deliverable_id.as_str());
                r.append("' waits for '");
                r.append(prerequisite.as_str());
                r.append("'");
                r
            },
            PlannerError::PlanNotFound { plan_id } => {
                let mut r = String::from_str("PLAN_NOT_FOUND: plan '");
                r.append(plan_id.as_str());
                r.append("'");
                r
            },
            PlannerError::DeliverableNotFound { plan_id, deliverable_id } => {
                let mut r = String::from_str("DELIVERABLE_NOT_FOUND: deliverable '");
                r.append(deliverable_id.as_str());
                r.append("' in plan '");
                r.append(plan_id.as_str());
                r.append("'");
                r
            },
            PlannerError::InvalidGraph { reason } => {
                let mut r = String::from_str("INVALID_GRAPH: ");
                r.append(reason.as_str());
                r
            },
            PlannerError::BackendError(reason) => {
                let mut r = String::from_str("BACKEND_ERROR: ");
                r.append(reason.as_str());
                r
            },
            PlannerError::LapseLimit { deliverable_id, lapse_count, max_lapses } => {
                let mut r = String::from_str("LAPSE_LIMIT: leases on '");
                r.append(deliverable_id.as_str());
                r.append("' lapsed ");
                let count = decimal(*lapse_count as u64);
                r.append(count.as_str());
                r.append(" times (limit ");
                let limit = decimal(*max_lapses as u64);
                r.append(limit.as_str());
                r.append("): environmental losses, not failed work");
                r
            },
        }
    }
}

/// The stable code with which the message of an error starts.
pub open spec fn error_code(e: ErrorView) -> Seq<char> {
    match e {
        ErrorView::LockHeld { .. } => "LOCK_HELD:"@,
        ErrorView::LockNotHeld { .. } => "LOCK_NOT_HELD:"@,
        ErrorView::LockExpired { .. } => "LOCK_EXPIRED:"@,
        ErrorView::OverlapDetected { .. } => "OVERLAP_DETECTED:"@,
        ErrorView::MissingPrerequisite { .. } => "MISSING_PREREQUISITE:"@,
        ErrorView::PlanNotFound { .. } => "PLAN_NOT_FOUND:"@,
        ErrorView::DeliverableNotFound { .. } => "DELIVERABLE_NOT_FOUND:"@,
        ErrorView::InvalidGraph { .. } => "INVALID_GRAPH:"@,
        ErrorView::BackendError { .. } => "BACKEND_ERROR:"@,
        ErrorView::LapseLimit { .. } => "LAPSE_LIMIT:"@,
    }
}

/// Every message starts with the code of its error.
pub proof fn messages_start_with_their_code(e: ErrorView)
    ensures
        error_code(e).is_prefix_of(error_message(e)),
{
    match e {
        ErrorView::LockHeld { .. } => {
            reveal_strlit("LOCK_HELD:");
            reveal_strlit("LOCK_HELD: deliverable '");
            assert("LOCK_HELD:"@ =~= "LOCK_HELD: deliverable '"@.take("LOCK_HELD:"@.len() as int));
        },
        ErrorView::LockNotHeld { .. } => {
            reveal_strlit("LOCK_NOT_HELD:");
            reveal_strlit("LOCK_NOT_HELD: caller '");
            assert("LOCK_NOT_HELD:"@ =~= "LOCK_NOT_HELD: caller '"@.take("LOCK_NOT_HELD:"@.len() as int));
        },
        ErrorView::LockExpired { .. } => {
            reveal_strlit("LOCK_EXPIRED:");
            reveal_strlit("LOCK_EXPIRED: lock on '");
            assert("LOCK_EXPIRED:"@ =~= "LOCK_EXPIRED: lock on '"@.take("LOCK_EXPIRED:"@.len() as int));
        },
        ErrorView::OverlapDetected { .. } => {
            reveal_strlit("OVERLAP_DETECTED:");
            reveal_strlit("OVERLAP_DETECTED: file '");
            assert("OVERLAP_DETECTED:"@ =~= "OVERLAP_DETECTED: file '"@.take("OVERLAP_DETECTED:"@.len() as int));
        },
        ErrorView::MissingPrerequisite { .. } => {
            reveal_strlit("MISSING_PREREQUISITE:");
            reveal_strlit("MISSING_PREREQUISITE: deliverable '");
            assert("MISSING_PREREQUISITE:"@ =~= "MISSING_PREREQUISITE: deliverable '"@.take("MISSING_PREREQUISITE:"@.len() as int));
        },
        ErrorView::PlanNotFound { .. } => {
            reveal_strlit("PLAN_NOT_FOUND:");
            reveal_strlit("PLAN_NOT_FOUND: plan '");
            assert("PLAN_NOT_FOUND:"@ =~= "PLAN_NOT_FOUND: plan '"@.take("PLAN_NOT_FOUND:"@.len() as int));
        },
        ErrorView::DeliverableNotFound { .. } => {
            reveal_strlit("DELIVERABLE_NOT_FOUND:");
            reveal_strlit("DELIVERABLE_NOT_FOUND: deliverable '");
            assert("DELIVERABLE_NOT_FOUND:"@ =~= "DELIVERABLE_NOT_FOUND: deliverable '"@.take("DELIVERABLE_NOT_FOUND:"@.len() as int));
        },
        ErrorView::InvalidGraph { .. } => {
            reveal_strlit("INVALID_GRAPH:");
            reveal_strlit("INVALID_GRAPH: ");
            assert("INVALID_GRAPH:"@ =~= "INVALID_GRAPH: "@.take("INVALID_GRAPH:"@.len() as int));
        },
        ErrorView::BackendError { .. } => {
            reveal_strlit("BACKEND_ERROR:");
            reveal_strlit("BACKEND_ERROR: ");
            assert("BACKEND_ERROR:"@ =~= "BACKEND_ERROR: "@.take("BACKEND_ERROR:"@.len() as int));
        },
        ErrorView::LapseLimit { .. } => {
            reveal_strlit("LAPSE_LIMIT:");
            reveal_strlit("LAPSE_LIMIT: leases on '");
            assert("LAPSE_LIMIT:"@ =~= "LAPSE_LIMIT: leases on '"@.take("LAPSE_LIMIT:"@.len() as int));
        },
    }
    assert(error_code(e) =~= error_message(e).take(error_code(e).len() as int));
}

/// The position of a deliverable, or the number of deliverables when it is not
/// in the graph.
pub fn find_deliverable(graph: &PlanGraph, id: &str) -> (r: usize)
    requires
        deliverable_ids(graph.deep_view()).no_duplicates(),
    ensures
        r == crate::index::position(deliverable_ids(graph.deep_view()), id@),
        r <= graph.deliverables.len(),
{
    let ghost ids = deliverable_ids(graph.deep_view());
    for i in 0..graph.deliverables.len()
        invariant
            ids == deliverable_ids(graph.deep_view()),
            ids.no_duplicates(),
            forall|k: int| 0 <= k < i ==> #[trigger] ids[k] != id@,
    {
        assert(ids[i as int] == graph.deliverables[i as int].id@);
        if same_text(graph.deliverables[i].id.as_str(), id) {
            proof {
                crate::index::lemma_position(ids, i as int);
            }
            return i;
        }
    }
    graph.deliverables.len()
}

} // verus!
