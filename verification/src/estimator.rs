//! Effort estimation.
//!
//! Given a [`TaskKind`] and a complexity hint, returns a base estimate clamped
//! to a configured range. Configured hours and multipliers are whole numbers
//! of millionths; estimates are exact fractions of them.

use vstd::prelude::*;

use crate::ratio::Ratio;
use crate::task::{KindView, TaskKind};

verus! {

/// Effort estimation configuration.
#[derive(Debug, Clone, Copy, PartialEq, Eq, Structural)]
pub struct EstimationConfig {
    /// Base hours for breaking a dependency cycle.
    pub cycle_base_hours: i64,
    /// Base hours for implementing a requirement.
    pub spec_base_hours: i64,
    /// Base hours for a custom task.
    pub custom_base_hours: i64,
    /// Multiplier for complex work.
    pub complexity_multiplier: i64,
    /// Multiplier for tasks on the critical path.
    pub critical_multiplier: i64,
    /// Smallest estimate.
    pub min_hours: i64,
    /// Largest estimate.
    pub max_hours: i64,
}

/// The configuration used when none is given.
pub open spec fn default_config() -> EstimationConfig {
    EstimationConfig {
        cycle_base_hours: 4_000_000,
        spec_base_hours: 8_000_000,
        custom_base_hours: 4_000_000,
        complexity_multiplier: 1_500_000,
        critical_multiplier: 1_000_000,
        min_hours: 500_000,
        max_hours: 40_000_000,
    }
}

impl Default for EstimationConfig {
    fn default() -> (r: Self)
        ensures
            r == default_config(),
    {
        EstimationConfig {
            cycle_base_hours: 4_000_000,
            spec_base_hours: 8_000_000,
            custom_base_hours: 4_000_000,
            complexity_multiplier: 1_500_000,
            critical_multiplier: 1_000_000,
            min_hours: 500_000,
            max_hours: 40_000_000,
        }
    }
}

/// A fraction, as numerator and denominator, moved into a range.
pub open spec fn clamped(value: (int, int), low: int, high: int) -> (int, int) {
    if value.0 < low * value.1 {
        (low, 1)
    } else if value.0 > high * value.1 {
        (high, 1)
    } else {
        value
    }
}

/// A fraction times a multiplier in millionths.
pub open spec fn scaled(value: (int, int), multiplier: int) -> (int, int) {
    (value.0 * multiplier, value.1 * 1_000_000)
}

/// The base estimate of a kind. A cycle of more than three nodes costs a
/// quarter more for each further one; one of at most two costs a fifth less.
pub open spec fn base_estimate(config: EstimationConfig, kind: KindView) -> (int, int) {
    match kind {
        KindView::BreakCycle { cycle } => if cycle.len() > 3 {
            (config.cycle_base_hours * (cycle.len() + 1), 4)
        } else if cycle.len() <= 2 {
            (config.cycle_base_hours * 4, 5)
        } else {
            (config.cycle_base_hours as int, 1)
        },
        KindView::ImplementSpec { .. } => (config.spec_base_hours as int, 1),
        KindView::Custom { .. } => (config.custom_base_hours as int, 1),
    }
}

/// The estimate of a kind, in millionths of an hour, as numerator and
/// denominator.
pub open spec fn estimate_of(config: EstimationConfig, kind: KindView, is_complex: bool) -> (int, int) {
    let base = base_estimate(config, kind);
    let hours = if is_complex { scaled(base, config.complexity_multiplier as int) } else { base };
    clamped(hours, config.min_hours as int, config.max_hours as int)
}

/// The whole part of a fraction.
pub open spec fn whole_part(value: (int, int)) -> int {
    value.0 / value.1
}

/// Division that rounds down.
pub fn floor_div(x: i128, d: u64) -> (r: i128)
    requires
        d > 0,
    ensures
        r == x as int / d as int,
{
    if x >= 0 {
        let q: u128 = x as u128 / d as u128;
        assert(q <= x) by (nonlinear_arith)
            requires
                q == x as int / d as int,
                x >= 0,
                d > 0,
        ;
        q as i128
    } else {
        // With y = -x - 1, the quotient of x is -(y / d) - 1.
        let y: u128 = (-(x + 1)) as u128;
        let q: u128 = y / d as u128;
        assert(q <= y) by (nonlinear_arith)
            requires
                q == y as int / d as int,
                y >= 0,
                d > 0,
        ;
        assert(x as int / d as int == -(q as int) - 1) by (nonlinear_arith)
            requires
                y as int == -x - 1,
                q as int == y as int / d as int,
                d > 0,
        ;
        -(q as i128) - 1
    }
}

/// Whether a fraction is what `value` says.
pub open spec fn is_fraction(r: Ratio, value: (int, int)) -> bool {
    r.num == value.0 && r.den == value.1
}

/// Moves a fraction into a range.
fn clamp_ratio(value: Ratio, low: i64, high: i64) -> (r: Ratio)
    requires
        0 < value.den <= 5_000_000,
    ensures
        is_fraction(r, clamped((value.num as int, value.den as int), low as int, high as int)),
{
    let (bottom, top) = (low as i128, high as i128);
    assert(-0x8000_0000_0000_0000 * 5_000_000 <= bottom * value.den <= 0x7fff_ffff_ffff_ffff * 5_000_000) by (nonlinear_arith)
        requires
            0 < value.den <= 5_000_000,
            -0x8000_0000_0000_0000 <= bottom <= 0x7fff_ffff_ffff_ffff,
    ;
    assert(-0x8000_0000_0000_0000 * 5_000_000 <= top * value.den <= 0x7fff_ffff_ffff_ffff * 5_000_000) by (nonlinear_arith)
        requires
            0 < value.den <= 5_000_000,
            -0x8000_0000_0000_0000 <= top <= 0x7fff_ffff_ffff_ffff,
    ;
    if value.num < bottom * value.den {
        Ratio { num: bottom, den: 1 }
    } else if value.num > top * value.den {
        Ratio { num: top, den: 1 }
    } else {
        value
    }
}

/// A fraction times a multiplier, moved into a range.
fn scale_and_clamp(value: Ratio, multiplier: i64, low: i64, high: i64) -> (r: Ratio)
    requires
        0 < value.den <= 5,
        low <= high,
    ensures
        is_fraction(r, clamped(scaled((value.num as int, value.den as int), multiplier as int), low as int, high as int)),
{
    let den: i128 = value.den * 1_000_000;
    match value.num.checked_mul(multiplier as i128) {
        Some(num) => clamp_ratio(Ratio { num, den }, low, high),
        None => {
            // The product exceeds every number in the range.
            let ghost product = value.num * multiplier;
            assert(-0x8000_0000_0000_0000 * 5_000_000 <= low * den <= 0x7fff_ffff_ffff_ffff * 5_000_000) by (nonlinear_arith)
                requires
                    0 < den <= 5_000_000,
                    -0x8000_0000_0000_0000 <= low <= 0x7fff_ffff_ffff_ffff,
            ;
            assert(-0x8000_0000_0000_0000 * 5_000_000 <= high * den <= 0x7fff_ffff_ffff_ffff * 5_000_000) by (nonlinear_arith)
                requires
                    0 < den <= 5_000_000,
                    -0x8000_0000_0000_0000 <= high <= 0x7fff_ffff_ffff_ffff,
            ;
            if (value.num < 0) == (multiplier < 0) {
                assert(product >= 0) by (nonlinear_arith)
                    requires
                        product == value.num * multiplier,
                        (value.num < 0 && multiplier < 0) || (value.num >= 0 && multiplier >= 0),
                ;
                Ratio { num: high as i128, den: 1 }
            } else {
                assert(product <= 0) by (nonlinear_arith)
                    requires
                        product == value.num * multiplier,
                        (value.num < 0 && multiplier >= 0) || (value.num >= 0 && multiplier < 0),
                ;
                Ratio { num: low as i128, den: 1 }
            }
        },
    }
}

/// Effort estimator by task kind.
pub struct EffortEstimator {
    config: EstimationConfig,
}

impl EffortEstimator {
    /// The configuration in use.
    pub closed spec fn settings(self) -> EstimationConfig {
        self.config
    }

    /// Creates an estimator with the default configuration.
    #[must_use]
    pub fn new() -> (r: Self)
        ensures
            r.settings() == default_config(),
    {
        Self { config: EstimationConfig::default() }
    }

    /// Creates an estimator with the given configuration.
    #[must_use]
    pub fn with_config(config: EstimationConfig) -> (r: Self)
        ensures
            r.settings() == config,
    {
        Self { config }
    }

    /// Estimates the effort for a kind of task, in millionths of an hour.
    #[must_use]
    pub fn estimate(&self, kind: &TaskKind, is_complex: bool) -> (r: Ratio)
        requires
            self.settings().min_hours <= self.settings().max_hours,
        ensures
            r.valid(),
            is_fraction(r, estimate_of(self.settings(), kind.deep_view(), is_complex)),
    {
        let hours: Ratio = match kind {
            TaskKind::BreakCycle { cycle } => {
                let base: i128 = self.config.cycle_base_hours as i128;
                let count: i128 = cycle.len() as i128;
                assert(cycle.deep_view().len() == cycle.len());
                if count > 3 {
                    assert(-0x8000_0000_0000_0000_0000_0000_0000_0000 <= base * (count + 1) <= 0x7fff_ffff_ffff_ffff_ffff_ffff_ffff_ffff) by (nonlinear_arith)
                        requires
                            -0x8000_0000_0000_0000 <= base <= 0x7fff_ffff_ffff_ffff,
                            0 <= count <= 0xffff_ffff_ffff_ffff,
                    ;
                    Ratio { num: base * (count + 1), den: 4 }
                } else if count <= 2 {
                    Ratio { num: base * 4, den: 5 }
                } else {
                    Ratio { num: base, den: 1 }
                }
            },
            TaskKind::ImplementSpec { .. } => Ratio { num: self.config.spec_base_hours as i128, den: 1 },
            TaskKind::Custom { .. } => Ratio { num: self.config.custom_base_hours as i128, den: 1 },
        };
        if is_complex {
            scale_and_clamp(hours, self.config.complexity_multiplier, self.config.min_hours, self.config.max_hours)
        } else {
            clamp_ratio(hours, self.config.min_hours, self.config.max_hours)
        }
    }

    /// Applies the critical-path multiplier to an estimate, and moves the
    /// result into the range again.
    #[must_use]
    pub fn apply_critical_multiplier(&self, hours: i64) -> (r: Ratio)
        requires
            self.settings().min_hours <= self.settings().max_hours,
        ensures
            r.valid(),
            is_fraction(
                r,
                clamped(
                    scaled((hours as int, 1), self.settings().critical_multiplier as int),
                    self.settings().min_hours as int,
                    self.settings().max_hours as int,
                ),
            ),
    {
        let given = Ratio { num: hours as i128, den: 1 };
        scale_and_clamp(given, self.config.critical_multiplier, self.config.min_hours, self.config.max_hours)
    }

    /// Estimates the effort for a kind of task in whole millionths of an hour,
    /// the unit in which a task holds its effort.
    #[must_use]
    pub fn estimate_whole(&self, kind: &TaskKind, is_complex: bool) -> (r: i64)
        requires
            self.settings().min_hours <= self.settings().max_hours,
        ensures
            r == whole_part(estimate_of(self.settings(), kind.deep_view(), is_complex)),
    {
        let exact = self.estimate(kind, is_complex);
        proof {
            estimates_stay_in_range(self.settings(), kind.deep_view(), is_complex);
        }
        floor_div(exact.num, exact.den as u64) as i64
    }

    /// The configuration.
    #[must_use]
    pub fn config(&self) -> (r: &EstimationConfig)
        ensures
            *r == self.settings(),
    {
        &self.config
    }
}

impl Default for EffortEstimator {
    fn default() -> (r: Self)
        ensures
            r.settings() == default_config(),
    {
        Self::new()
    }
}

/// Every estimate lies in the configured range.
pub proof fn estimates_stay_in_range(config: EstimationConfig, kind: KindView, is_complex: bool)
    requires
        config.min_hours <= config.max_hours,
    ensures
        0 < estimate_of(config, kind, is_complex).1 <= 5_000_000,
        config.min_hours * estimate_of(config, kind, is_complex).1 <= estimate_of(config, kind, is_complex).0 <= config.max_hours * estimate_of(
            config,
            kind,
            is_complex,
        ).1,
        config.min_hours <= whole_part(estimate_of(config, kind, is_complex)) <= config.max_hours,
{
    let (n, d) = estimate_of(config, kind, is_complex);
    let (low, high) = (config.min_hours as int, config.max_hours as int);
    assert(low <= n / d <= high) by (nonlinear_arith)
        requires
            d > 0,
            low * d <= n <= high * d,
    ;
}

/// With the configuration used when none is given, the estimate of a custom
/// task is a whole number of millionths.
pub proof fn default_estimates_are_whole(description: Seq<char>, is_complex: bool)
    ensures
        ({
            let value = estimate_of(default_config(), KindView::Custom { description }, is_complex);
            value.0 == whole_part(value) * value.1
        }),
{
    let value = estimate_of(default_config(), KindView::Custom { description }, is_complex);
    if is_complex {
        assert(value == (6_000_000_000_000int, 1_000_000int));
    } else {
        assert(value == (4_000_000int, 1int));
    }
}

} // verus!
