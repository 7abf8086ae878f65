//! Structural health of a project network.
//!
//! - [`cyclomatic_complexity`]: `C = dependencies - activities + 2`, with
//!   three qualitative bands ([`CcFlag`]).
//! - [`project_efficiency`]: planned over actual effort, with three
//!   qualitative bands ([`EffFlag`]).

use vstd::prelude::*;

use crate::ratio::Ratio;

verus! {

/// Qualitative band for the cyclomatic-complexity score.
///
/// | Band        | C range        |
/// |-------------|----------------|
/// | `InTarget`  | C <= 12        |
/// | `Warn`      | 13 <= C <= 15  |
/// | `TooComplex`| C > 15         |
#[derive(Debug, Clone, Copy, PartialEq, Eq, Structural)]
pub enum CcFlag {
    /// Within healthy bounds (includes under-connected networks).
    InTarget,
    /// Approaching the complexity limit; review recommended.
    Warn,
    /// Too complex; restructuring required.
    TooComplex,
}

/// The band of a complexity score.
pub open spec fn cc_band(c: int) -> CcFlag {
    if c <= 12 {
        CcFlag::InTarget
    } else if c <= 15 {
        CcFlag::Warn
    } else {
        CcFlag::TooComplex
    }
}

/// The complexity of a network with so many dependencies and activities.
pub open spec fn complexity_of(dependencies: int, activities: int) -> int {
    dependencies - activities + 2
}

/// Computes `C = num_dependencies - num_activities + 2` and its band.
pub fn cyclomatic_complexity(num_dependencies: usize, num_activities: usize) -> (r: (i64, CcFlag))
    requires
        i64::MIN <= num_dependencies - num_activities + 2 <= i64::MAX,
    ensures
        r.0 == num_dependencies - num_activities + 2,
        r.0 == complexity_of(num_dependencies as int, num_activities as int),
        r.1 == cc_band(num_dependencies - num_activities + 2),
{
    let wide: i128 = num_dependencies as i128 - num_activities as i128 + 2;
    let c: i64 = wide as i64;
    let flag = if c <= 12 {
        CcFlag::InTarget
    } else if c <= 15 {
        CcFlag::Warn
    } else {
        CcFlag::TooComplex
    };
    (c, flag)
}

/// Qualitative band for the project-efficiency ratio.
///
/// | Band       | Ratio                 |
/// |------------|-----------------------|
/// | `Low`      | ratio < 0.15          |
/// | `InTarget` | 0.15 <= ratio <= 0.25 |
/// | `High`     | ratio > 0.25          |
#[derive(Debug, Clone, Copy, PartialEq, Eq, Structural)]
pub enum EffFlag {
    /// Actual effort significantly exceeds planned effort.
    Low,
    /// Healthy efficiency.
    InTarget,
    /// Planned effort significantly exceeds actual effort.
    High,
}

/// The band of the ratio `planned / actual`.
pub open spec fn efficiency_band(planned: int, actual: int) -> EffFlag {
    if planned * 100 < actual * 15 {
        EffFlag::Low
    } else if planned * 100 <= actual * 25 {
        EffFlag::InTarget
    } else {
        EffFlag::High
    }
}

/// Computes `planned / actual` and its band; `None` when the actual effort is
/// zero.
pub fn project_efficiency(sum_planned_effort: u64, sum_actual_effort: u64) -> (r: Option<(Ratio, EffFlag)>)
    ensures
        r is None <==> sum_actual_effort == 0,
        r matches Some(e) ==> {
            &&& e.0 == (Ratio { num: sum_planned_effort as i128, den: sum_actual_effort as i128 })
            &&& e.0.valid()
            &&& e.1 == efficiency_band(sum_planned_effort as int, sum_actual_effort as int)
        },
{
    if sum_actual_effort == 0 {
        return None;
    }
    let planned: i128 = sum_planned_effort as i128;
    let actual: i128 = sum_actual_effort as i128;
    let flag = if planned * 100 < actual * 15 {
        EffFlag::Low
    } else if planned * 100 <= actual * 25 {
        EffFlag::InTarget
    } else {
        EffFlag::High
    };
    Some((Ratio { num: planned, den: actual }, flag))
}

} // verus!
