//! A Critical Path Method planner with lock-aware cohort scheduling.
//!
//! The kernel computes earliest and latest times, float, the critical path,
//! parallel batches and bottlenecks of a task network. On top of it a planner
//! leases disjoint cohorts of deliverables, so that several workers can run in
//! parallel without touching the same files.
//!
//! - [`task`], [`algorithm`], [`drag`], [`estimator`], [`risk`],
//!   [`network_health`]: the kernel and its metrics; [`network`],
//!   [`schedule`], [`latest`], [`turns`], [`reach`], [`cycles`] and
//!   [`existence`] hold the theory behind it. [`cpm_laws`], [`batch_laws`],
//!   [`timing_laws`], [`analysis_laws`] and [`measure_laws`] say what holds of
//!   every analysis and every figure.
//! - [`plan`], [`paths`], [`validate`], [`hash`], [`submit`]: the planning
//!   model and how a graph becomes a plan; [`submission_laws`] and
//!   [`refusal_laws`] say what a graph becomes or is refused for,
//!   [`naming_laws`] which names are of one file, and [`canonical`] that the
//!   hash tells graphs apart.
//! - [`locks`], [`cohort`], [`lifecycle`]: the state of a plan and what
//!   happens to leases; [`plan_laws`], [`lease_laws`] and [`progress_laws`] say
//!   what holds of every lease.
//! - [`ports`], [`planner`], [`server`]: the planner interface, the planner,
//!   and its tool surface; [`request_laws`] says what each request does, and
//!   [`resubmit`] what a second submission does.
//! - [`plan_store`], [`stored_plan`], [`stored_calls`]: the rows in which a
//!   plan is stored, the plan as a store holds it, and requests on it, with
//!   [`storage_laws`].
//! - [`audit`]: records of lock transitions; [`audit_laws`] says that every
//!   transition has one.
//! - [`text`], [`index`], [`ranking`], [`ratio`], [`textmap`]: texts, ids,
//!   orders and fractions; [`text_laws`] and [`label_laws`] say what texts
//!   stand for, and [`view_laws`] that values agree with their mathematical
//!   form.
//! - [`bridge`]: calls into other crates.
//!
//! Hours are whole numbers of millionths of an hour, estimates of them exact
//! fractions, and points in time whole numbers of microseconds since the Unix
//! epoch.

pub mod algorithm;
pub mod analysis_laws;
pub mod audit;
pub mod audit_laws;
pub mod batch_laws;
pub mod bridge;
pub mod canonical;
pub mod cohort;
pub mod cpm_laws;
pub mod cycles;
pub mod drag;
pub mod estimator;
pub mod existence;
pub mod hash;
pub mod index;
pub mod label_laws;
pub mod latest;
pub mod lease_laws;
pub mod lifecycle;
pub mod locks;
pub mod measure_laws;
pub mod naming_laws;
pub mod network;
pub mod network_health;
pub mod paths;
pub mod plan;
pub mod plan_laws;
pub mod plan_store;
pub mod planner;
pub mod ports;
pub mod progress_laws;
pub mod ranking;
pub mod ratio;
pub mod reach;
pub mod refusal_laws;
pub mod request_laws;
pub mod resubmit;
pub mod risk;
pub mod schedule;
pub mod server;
pub mod storage_laws;
pub mod stored_calls;
pub mod stored_plan;
pub mod submission_laws;
pub mod submit;
pub mod task;
pub mod text;
pub mod text_laws;
pub mod textmap;
pub mod timing_laws;
pub mod turns;
pub mod validate;
pub mod view_laws;

pub use algorithm::CpmAlgorithm;
pub use drag::{diameter, drag, DragResult};
pub use estimator::{EffortEstimator, EstimationConfig};
pub use locks::{MAX_ATTEMPTS, MAX_LAPSES};
pub use planner::{BasicCpmPlanner, DEFAULT_EFFORT_HOURS, DEFAULT_TTL};
pub use server::{
    TOOL_ACQUIRE_COHORT, TOOL_FORCE_RELEASE, TOOL_HEARTBEAT, TOOL_MARK_STATUS, TOOL_STATUS, TOOL_SUBMIT,
};
pub use task::{Bottleneck, CriticalPathResult, Task, TaskBatch, TaskKind, TaskStatus};
