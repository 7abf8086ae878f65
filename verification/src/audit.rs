//! Audit events for the lock lifecycle.
//!
//! The planner writes an [`AuditRecord`] for every lock transition. An
//! [`AuditEvent`] is a record with its own identity and time.

use vstd::prelude::*;
use vstd::string::*;

use crate::bridge::{clock_micros, fresh_token, is_hex};
use crate::plan::{LockInfo, LockView};
use crate::text::copy_texts;

verus! {

/// What an event reports.
#[derive(Debug, PartialEq, Eq)]
pub enum AuditPayload {
    /// Nothing.
    Empty,
    /// A lease was taken.
    Acquired {
        /// The plan.
        plan_id: String,
        /// The deliverable.
        deliverable_id: String,
        /// Who took it.
        caller_id: String,
        /// When.
        acquired_at: i64,
        /// Until when.
        expires_at: i64,
        /// The files it covers.
        owned_files: Vec<String>,
    },
    /// A lease was given back.
    Released {
        /// The plan.
        plan_id: String,
        /// The deliverable.
        deliverable_id: String,
        /// Who held it.
        caller_id: String,
        /// Why it ended.
        reason: String,
    },
    /// A lease lapsed.
    Expired {
        /// The plan.
        plan_id: String,
        /// The deliverable.
        deliverable_id: String,
        /// Who held it.
        last_caller_id: String,
        /// When the lapse was noticed.
        expired_at: i64,
    },
    /// An operator ended a lease.
    ForceReleased {
        /// The plan.
        plan_id: String,
        /// The deliverable.
        deliverable_id: String,
        /// Who held it.
        last_caller_id: String,
        /// The operator's reason.
        reason: String,
    },
    /// A deliverable failed too often and was given up.
    CircuitBroken {
        /// The plan.
        plan_id: String,
        /// The deliverable.
        deliverable_id: String,
        /// How often it failed.
        failure_count: u32,
        /// How often it may fail.
        max_attempts: u32,
    },
}

/// Mathematical form of [`AuditPayload`].
#[verifier::ext_equal]
pub enum PayloadView {
    /// See [`AuditPayload::Empty`].
    Empty,
    /// See [`AuditPayload::Acquired`].
    Acquired {
        plan_id: Seq<char>,
        deliverable_id: Seq<char>,
        caller_id: Seq<char>,
        acquired_at: i64,
        expires_at: i64,
        owned_files: Seq<Seq<char>>,
    },
    /// See [`AuditPayload::Released`].
    Released { plan_id: Seq<char>, deliverable_id: Seq<char>, caller_id: Seq<char>, reason: Seq<char> },
    /// See [`AuditPayload::Expired`].
    Expired { plan_id: Seq<char>, deliverable_id: Seq<char>, last_caller_id: Seq<char>, expired_at: i64 },
    /// See [`AuditPayload::ForceReleased`].
    ForceReleased { plan_id: Seq<char>, deliverable_id: Seq<char>, last_caller_id: Seq<char>, reason: Seq<char> },
    /// See [`AuditPayload::CircuitBroken`].
    CircuitBroken { plan_id: Seq<char>, deliverable_id: Seq<char>, failure_count: u32, max_attempts: u32 },
}

impl DeepView for AuditPayload {
    type V = PayloadView;

    open spec fn deep_view(&self) -> PayloadView {
        match *self {
            AuditPayload::Empty => PayloadView::Empty,
            AuditPayload::Acquired { plan_id, deliverable_id, caller_id, acquired_at, expires_at, owned_files } => {
                PayloadView::Acquired {
                    plan_id: plan_id@,
                    deliverable_id: deliverable_id@,
                    caller_id: caller_id@,
                    acquired_at,
                    expires_at,
                    owned_files: owned_files.deep_view(),
                }
            },
            AuditPayload::Released { plan_id, deliverable_id, caller_id, reason } => PayloadView::Released {
                plan_id: plan_id@,
                deliverable_id: deliverable_id@,
                caller_id: caller_id@,
                reason: reason@,
            },
            AuditPayload::Expired { plan_id, deliverable_id, last_caller_id, expired_at } => PayloadView::Expired {
                plan_id: plan_id@,
                deliverable_id: deliverable_id@,
                last_caller_id: last_caller_id@,
                expired_at,
            },
            AuditPayload::ForceReleased { plan_id, deliverable_id, last_caller_id, reason } => {
                PayloadView::ForceReleased {
                    plan_id: plan_id@,
                    deliverable_id: deliverable_id@,
                    last_caller_id: last_caller_id@,
                    reason: reason@,
                }
            },
            AuditPayload::CircuitBroken { plan_id, deliverable_id, failure_count, max_attempts } => {
                PayloadView::CircuitBroken {
                    plan_id: plan_id@,
                    deliverable_id: deliverable_id@,
                    failure_count,
                    max_attempts,
                }
            },
        }
    }
}

impl Clone for AuditPayload {
    fn clone(&self) -> (r: Self)
        ensures
            r.deep_view() == self.deep_view(),
    {
        match self {
            AuditPayload::Empty => AuditPayload::Empty,
            AuditPayload::Acquired { plan_id, deliverable_id, caller_id, acquired_at, expires_at, owned_files } => {
                AuditPayload::Acquired {
                    plan_id: plan_id.clone(),
                    deliverable_id: deliverable_id.clone(),
                    caller_id: caller_id.clone(),
                    acquired_at: *acquired_at,
                    expires_at: *expires_at,
                    owned_files: copy_texts(owned_files),
                }
            },
            AuditPayload::Released { plan_id, deliverable_id, caller_id, reason } => AuditPayload::Released {
                plan_id: plan_id.clone(),
                deliverable_id: deliverable_id.clone(),
                caller_id: caller_id.clone(),
                reason: reason.clone(),
            },
            AuditPayload::Expired { plan_id, deliverable_id, last_caller_id, expired_at } => AuditPayload::Expired {
                plan_id: plan_id.clone(),
                deliverable_id: deliverable_id.clone(),
                last_caller_id: last_caller_id.clone(),
                expired_at: *expired_at,
            },
            AuditPayload::ForceReleased { plan_id, deliverable_id, last_caller_id, reason } => {
                AuditPayload::ForceReleased {
                    plan_id: plan_id.clone(),
                    deliverable_id: deliverable_id.clone(),
                    last_caller_id: last_caller_id.clone(),
                    reason: reason.clone(),
                }
            },
            AuditPayload::CircuitBroken { plan_id, deliverable_id, failure_count, max_attempts } => {
                AuditPayload::CircuitBroken {
                    plan_id: plan_id.clone(),
                    deliverable_id: deliverable_id.clone(),
                    failure_count: *failure_count,
                    max_attempts: *max_attempts,
                }
            },
        }
    }
}

/// What happened, and who did it.
#[derive(Debug, PartialEq, Eq)]
pub struct AuditRecord {
    /// The type of event.
    pub event_type: String,
    /// Who did it, when someone did.
    pub actor: Option<String>,
    /// The details.
    pub payload: AuditPayload,
}

/// Mathematical form of [`AuditRecord`].
#[verifier::ext_equal]
pub struct RecordView {
    /// The type of event.
    pub event_type: Seq<char>,
    /// Who did it.
    pub actor: Option<Seq<char>>,
    /// The details.
    pub payload: PayloadView,
}

impl DeepView for AuditRecord {
    type V = RecordView;

    open spec fn deep_view(&self) -> RecordView {
        RecordView {
            event_type: self.event_type@,
            actor: self.actor.deep_view(),
            payload: self.payload.deep_view(),
        }
    }
}

/// The record of a lease being taken.
pub open spec fn acquired_record(lock: LockView, owned_files: Seq<Seq<char>>) -> RecordView {
    RecordView {
        event_type: "plan.lock.acquired"@,
        actor: Some(lock.caller_id),
        payload: PayloadView::Acquired {
            plan_id: lock.plan_id,
            deliverable_id: lock.deliverable_id,
            caller_id: lock.caller_id,
            acquired_at: lock.acquired_at,
            expires_at: lock.expires_at,
            owned_files,
        },
    }
}

/// The record of a lease being given back.
pub open spec fn released_record(lock: LockView, reason: Seq<char>) -> RecordView {
    RecordView {
        event_type: "plan.lock.released"@,
        actor: Some(lock.caller_id),
        payload: PayloadView::Released {
            plan_id: lock.plan_id,
            deliverable_id: lock.deliverable_id,
            caller_id: lock.caller_id,
            reason,
        },
    }
}

/// The record of a lapsed lease.
pub open spec fn expired_record(lock: LockView, expired_at: i64) -> RecordView {
    RecordView {
        event_type: "plan.lock.expired"@,
        actor: Some(lock.caller_id),
        payload: PayloadView::Expired {
            plan_id: lock.plan_id,
            deliverable_id: lock.deliverable_id,
            last_caller_id: lock.caller_id,
            expired_at,
        },
    }
}

/// The record of a lease that an operator ended.
pub open spec fn force_released_record(lock: LockView, reason: Seq<char>) -> RecordView {
    RecordView {
        event_type: "plan.lock.force_released"@,
        actor: Some(lock.caller_id),
        payload: PayloadView::ForceReleased {
            plan_id: lock.plan_id,
            deliverable_id: lock.deliverable_id,
            last_caller_id: lock.caller_id,
            reason,
        },
    }
}

/// The record of a deliverable that was given up.
pub open spec fn circuit_broken_record(plan_id: Seq<char>, deliverable_id: Seq<char>, failure_count: u32, max_attempts: u32) -> RecordView {
    RecordView {
        event_type: "plan.deliverable.circuit_broken"@,
        actor: None,
        payload: PayloadView::CircuitBroken { plan_id, deliverable_id, failure_count, max_attempts },
    }
}

/// Records that a lease was taken.
pub fn make_acquired_event(lock: &LockInfo, owned_files: &Vec<String>) -> (r: AuditRecord)
    ensures
        r.deep_view() == acquired_record(lock.deep_view(), owned_files.deep_view()),
{
    AuditRecord {
        event_type: String::from_str("plan.lock.acquired"),
        actor: Some(lock.caller_id.0.clone()),
        payload: AuditPayload::Acquired {
            plan_id: lock.plan_id.0.clone(),
            deliverable_id: lock.deliverable_id.clone(),
            caller_id: lock.caller_id.0.clone(),
            acquired_at: lock.acquired_at,
            expires_at: lock.expires_at,
            owned_files: copy_texts(owned_files),
        },
    }
}

/// Records that a lease was given back.
pub fn make_released_event(lock: &LockInfo, reason: &str) -> (r: AuditRecord)
    ensures
        r.deep_view() == released_record(lock.deep_view(), reason@),
{
    AuditRecord {
        event_type: String::from_str("plan.lock.released"),
        actor: Some(lock.caller_id.0.clone()),
        payload: AuditPayload::Released {
            plan_id: lock.plan_id.0.clone(),
            deliverable_id: lock.deliverable_id.clone(),
            caller_id: lock.caller_id.0.clone(),
            reason: String::from_str(reason),
        },
    }
}

/// Records that a lease lapsed.
pub fn make_expired_event(lock: &LockInfo, expired_at: i64) -> (r: AuditRecord)
    ensures
        r.deep_view() == expired_record(lock.deep_view(), expired_at),
{
    AuditRecord {
        event_type: String::from_str("plan.lock.expired"),
        actor: Some(lock.caller_id.0.clone()),
        payload: AuditPayload::Expired {
            plan_id: lock.plan_id.0.clone(),
            deliverable_id: lock.deliverable_id.clone(),
            last_caller_id: lock.caller_id.0.clone(),
            expired_at,
        },
    }
}

/// Records that an operator ended a lease.
pub fn make_force_released_event(lock: &LockInfo, reason: &str) -> (r: AuditRecord)
    ensures
        r.deep_view() == force_released_record(lock.deep_view(), reason@),
{
    AuditRecord {
        event_type: String::from_str("plan.lock.force_released"),
        actor: Some(lock.caller_id.0.clone()),
        payload: AuditPayload::ForceReleased {
            plan_id: lock.plan_id.0.clone(),
            deliverable_id: lock.deliverable_id.clone(),
            last_caller_id: lock.caller_id.0.clone(),
            reason: String::from_str(reason),
        },
    }
}

/// Records that a deliverable was given up.
pub fn make_circuit_broken_event(plan_id: &str, deliverable_id: &str, failure_count: u32, max_attempts: u32) -> (r: AuditRecord)
    ensures
        r.deep_view() == circuit_broken_record(plan_id@, deliverable_id@, failure_count, max_attempts),
{
    AuditRecord {
        event_type: String::from_str("plan.deliverable.circuit_broken"),
        actor: None,
        payload: AuditPayload::CircuitBroken {
            plan_id: String::from_str(plan_id),
            deliverable_id: String::from_str(deliverable_id),
            failure_count,
            max_attempts,
        },
    }
}

/// A record with its own identity and time.
#[derive(Debug, PartialEq, Eq)]
pub struct AuditEvent {
    /// Identity of the event.
    pub id: String,
    /// When it was made.
    pub timestamp: i64,
    /// Enclosing workflow, when there is one.
    pub workflow_id: Option<String>,
    /// Ties related events together.
    pub correlation_id: String,
    /// Who did it.
    pub actor: Option<String>,
    /// The type of event.
    pub event_type: String,
    /// The details.
    pub payload: AuditPayload,
    /// Trace, when there is one.
    pub trace_id: Option<String>,
    /// Run, when there is one.
    pub run_id: Option<String>,
}

/// Mathematical form of [`AuditEvent`].
#[verifier::ext_equal]
pub struct EventView {
    /// Identity of the event.
    pub id: Seq<char>,
    /// When it was made.
    pub timestamp: i64,
    /// Enclosing workflow.
    pub workflow_id: Option<Seq<char>>,
    /// Ties related events together.
    pub correlation_id: Seq<char>,
    /// Who did it.
    pub actor: Option<Seq<char>>,
    /// The type of event.
    pub event_type: Seq<char>,
    /// The details.
    pub payload: PayloadView,
    /// Trace.
    pub trace_id: Option<Seq<char>>,
    /// Run.
    pub run_id: Option<Seq<char>>,
}

impl DeepView for AuditEvent {
    type V = EventView;

    open spec fn deep_view(&self) -> EventView {
        EventView {
            id: self.id@,
            timestamp: self.timestamp,
            workflow_id: self.workflow_id.deep_view(),
            correlation_id: self.correlation_id@,
            actor: self.actor.deep_view(),
            event_type: self.event_type@,
            payload: self.payload.deep_view(),
            trace_id: self.trace_id.deep_view(),
            run_id: self.run_id.deep_view(),
        }
    }
}

/// A copy of an optional text.
fn copy_option(text: &Option<String>) -> (r: Option<String>)
    ensures
        r.deep_view() == text.deep_view(),
{
    match text {
        Some(t) => Some(t.clone()),
        None => None,
    }
}

impl Clone for AuditEvent {
    fn clone(&self) -> (r: Self)
        ensures
            r.deep_view() == self.deep_view(),
    {
        AuditEvent {
            id: self.id.clone(),
            timestamp: self.timestamp,
            workflow_id: copy_option(&self.workflow_id),
            correlation_id: self.correlation_id.clone(),
            actor: copy_option(&self.actor),
            event_type: self.event_type.clone(),
            payload: self.payload.clone(),
            trace_id: copy_option(&self.trace_id),
            run_id: copy_option(&self.run_id),
        }
    }
}

/// The event with the given tokens and time that carries nothing yet.
pub open spec fn bare_event(event_type: Seq<char>, id_token: Seq<char>, correlation_token: Seq<char>, timestamp: i64) -> EventView {
    EventView {
        id: "evt_"@ + id_token,
        timestamp,
        workflow_id: None,
        correlation_id: "cor_"@ + correlation_token,
        actor: None,
        event_type,
        payload: PayloadView::Empty,
        trace_id: None,
        run_id: None,
    }
}

impl AuditEvent {
    /// Creates an event of the given type with a fresh identity, stamped with
    /// the current time.
    pub fn new(event_type: &str) -> (r: Self)
        ensures
            exists|a: Seq<char>, b: Seq<char>| #![trigger bare_event(event_type@, a, b, r.timestamp)] {
                &&& is_hex(a, 32)
                &&& is_hex(b, 32)
                &&& r.deep_view() == bare_event(event_type@, a, b, r.timestamp)
            },
    {
        let id_token = fresh_token();
        let correlation_token = fresh_token();
        let now: i64 = clock_micros();
        Self::assemble(event_type, id_token.as_str(), correlation_token.as_str(), now)
    }

    /// Creates an event of the given type from its tokens and time.
    pub fn assemble(event_type: &str, id_token: &str, correlation_token: &str, timestamp: i64) -> (r: Self)
        ensures
            r.deep_view() == bare_event(event_type@, id_token@, correlation_token@, timestamp),
    {
        let mut id = String::from_str("evt_");
        id.append(id_token);
        let mut correlation_id = String::from_str("cor_");
        correlation_id.append(correlation_token);
        AuditEvent {
            id,
            timestamp,
            workflow_id: None,
            correlation_id,
            actor: None,
            event_type: String::from_str(event_type),
            payload: AuditPayload::Empty,
            trace_id: None,
            run_id: None,
        }
    }

    /// Stamps a record: an event of its type that carries its actor and
    /// payload.
    pub fn from_record(record: AuditRecord) -> (r: Self)
        ensures
            exists|a: Seq<char>, b: Seq<char>| #![trigger bare_event(record.event_type@, a, b, r.timestamp)] {
                &&& is_hex(a, 32)
                &&& is_hex(b, 32)
                &&& r.deep_view() == (EventView {
                    actor: record.deep_view().actor,
                    payload: record.deep_view().payload,
                    ..bare_event(record.event_type@, a, b, r.timestamp)
                })
            },
    {
        let mut event = Self::new(record.event_type.as_str());
        let ghost kind = record.event_type@;
        let ghost stamp = event.timestamp;
        let ghost (a, b) = choose|a: Seq<char>, b: Seq<char>| #![trigger bare_event(kind, a, b, stamp)] {
            &&& is_hex(a, 32)
            &&& is_hex(b, 32)
            &&& event.deep_view() == bare_event(kind, a, b, stamp)
        };
        event.actor = record.actor;
        event.payload = record.payload;
        assert(event.deep_view() == (EventView {
            actor: record.deep_view().actor,
            payload: record.deep_view().payload,
            ..bare_event(kind, a, b, stamp)
        }));
        event
    }

    /// Sets the enclosing workflow.
    pub fn with_workflow(self, workflow_id: &str) -> (r: Self)
        ensures
            r.deep_view() == (EventView { workflow_id: Some(workflow_id@), ..self.deep_view() }),
    {
        let mut r = self;
        r.workflow_id = Some(String::from_str(workflow_id));
        r
    }

    /// Sets the correlation.
    pub fn with_correlation(self, correlation_id: &str) -> (r: Self)
        ensures
            r.deep_view() == (EventView { correlation_id: correlation_id@, ..self.deep_view() }),
    {
        let mut r = self;
        r.correlation_id = String::from_str(correlation_id);
        r
    }

    /// Sets the actor.
    pub fn with_actor(self, actor: &str) -> (r: Self)
        ensures
            r.deep_view() == (EventView { actor: Some(actor@), ..self.deep_view() }),
    {
        let mut r = self;
        r.actor = Some(String::from_str(actor));
        r
    }

    /// Sets the payload.
    pub fn with_payload(self, payload: AuditPayload) -> (r: Self)
        ensures
            r.deep_view() == (EventView { payload: payload.deep_view(), ..self.deep_view() }),
    {
        let mut r = self;
        r.payload = payload;
        r
    }

    /// Sets the trace.
    pub fn with_trace_id(self, trace_id: &str) -> (r: Self)
        ensures
            r.deep_view() == (EventView { trace_id: Some(trace_id@), ..self.deep_view() }),
    {
        let mut r = self;
        r.trace_id = Some(String::from_str(trace_id));
        r
    }

    /// Sets the run.
    pub fn with_run_id(self, run_id: &str) -> (r: Self)
        ensures
            r.deep_view() == (EventView { run_id: Some(run_id@), ..self.deep_view() }),
    {
        let mut r = self;
        r.run_id = Some(String::from_str(run_id));
        r
    }
}

/// A destination for audit events.
pub trait AuditSink {
    /// The events that the sink retains, if it retains any.
    spec fn retained(&self) -> Option<Seq<EventView>>;

    /// Takes an event, or says why it could not. A sink that retains events
    /// has what it took as its last one.
    fn record(&mut self, event: AuditEvent) -> (r: Result<(), String>)
        ensures
            r is Ok ==> match old(self).retained() {
                Some(events) => final(self).retained() == Some(events.push(event.deep_view())),
                None => final(self).retained() is None,
            },
    ;

    /// All events taken so far, or `None` if the sink does not retain them.
    fn list_events(&self) -> (r: Option<Vec<AuditEvent>>)
        ensures
            match self.retained() {
                Some(events) => r matches Some(list) && list.deep_view() == events,
                None => r is None,
            },
    ;
}

/// Drops every event.
pub struct NullAuditSink;

impl AuditSink for NullAuditSink {
    open spec fn retained(&self) -> Option<Seq<EventView>> {
        None
    }

    fn record(&mut self, event: AuditEvent) -> (r: Result<(), String>)
        ensures
            r is Ok,
    {
        Ok(())
    }

    fn list_events(&self) -> (r: Option<Vec<AuditEvent>>) {
        None
    }
}

/// Keeps events in memory.
#[derive(Debug)]
pub struct MemoryAuditSink {
    events: Vec<AuditEvent>,
}

impl MemoryAuditSink {
    /// The events kept so far.
    pub closed spec fn contents(&self) -> Seq<EventView> {
        self.events.deep_view()
    }

    /// An empty sink.
    pub fn new() -> (r: Self)
        ensures
            r.contents() == Seq::<EventView>::empty(),
    {
        let r = MemoryAuditSink { events: Vec::new() };
        assert(r.events.deep_view() =~= Seq::<EventView>::empty());
        r
    }

    /// The events kept so far.
    pub fn snapshot(&self) -> (r: Vec<AuditEvent>)
        ensures
            r.deep_view() == self.contents(),
    {
        let mut r: Vec<AuditEvent> = Vec::new();
        for i in 0..self.events.len()
            invariant
                r.len() == i,
                forall|k: int| 0 <= k < i ==> (#[trigger] r[k]).deep_view() == self.events[k].deep_view(),
        {
            r.push(self.events[i].clone());
        }
        assert(r.deep_view() =~= self.events.deep_view());
        r
    }

    /// The types of the events kept so far.
    pub fn event_types(&self) -> (r: Vec<String>)
        ensures
            r.deep_view() == Seq::new(self.contents().len(), |i: int| self.contents()[i].event_type),
    {
        let mut r: Vec<String> = Vec::new();
        for i in 0..self.events.len()
            invariant
                r.len() == i,
                forall|k: int| 0 <= k < i ==> (#[trigger] r[k])@ == self.events[k].event_type@,
        {
            r.push(self.events[i].event_type.clone());
        }
        assert(r.deep_view() =~= Seq::new(self.contents().len(), |i: int| self.contents()[i].event_type));
        r
    }

    /// Forgets all events.
    pub fn clear(&mut self)
        ensures
            final(self).contents() == Seq::<EventView>::empty(),
    {
        self.events.clear();
        assert(self.events.deep_view() =~= Seq::<EventView>::empty());
    }
}

impl Default for MemoryAuditSink {
    fn default() -> (r: Self)
        ensures
            r.contents() == Seq::<EventView>::empty(),
    {
        Self::new()
    }
}

impl AuditSink for MemoryAuditSink {
    open spec fn retained(&self) -> Option<Seq<EventView>> {
        Some(self.contents())
    }

    fn record(&mut self, event: AuditEvent) -> (r: Result<(), String>)
        ensures
            r is Ok,
    {
        let ghost before = self.events.deep_view();
        self.events.push(event);
        assert(self.events.deep_view() =~= before.push(event.deep_view()));
        Ok(())
    }

    fn list_events(&self) -> (r: Option<Vec<AuditEvent>>) {
        Some(self.snapshot())
    }
}

} // verus!
