//! Activity risk and criticality risk of a schedule.
//!
//! Float values here are whole token units.

use vstd::prelude::*;

use crate::ratio::Ratio;

verus! {

/// Weight for a Critical-band task.
pub const W_CRITICAL: u64 = 4;

/// Weight for a High-band task.
pub const W_HIGH: u64 = 3;

/// Weight for a Medium-band task.
pub const W_MEDIUM: u64 = 2;

/// Weight for a Low-band task.
pub const W_LOW: u64 = 1;

/// Band that a task's float falls into relative to the project maximum.
#[derive(Debug, Clone, Copy, PartialEq, Eq, Structural)]
pub enum CriticalityBand {
    /// Float is zero: on the critical path.
    Critical,
    /// Float in the lower third of the range.
    High,
    /// Float in the middle third of the range.
    Medium,
    /// Float in the upper third of the range.
    Low,
}

/// Two thresholds with `0 < high_end < medium_end < 1`, used by [`classify`].
#[derive(Debug, Clone, Copy)]
pub struct ValidatedThresholdSet {
    /// Upper bound (inclusive) of the High band.
    high_end: Ratio,
    /// Upper bound (inclusive) of the Medium band.
    medium_end: Ratio,
}

/// Zero and one, the bounds of a threshold.
pub open spec fn inside_unit(r: Ratio) -> bool {
    r.valid() && 0 < r.num < r.den
}

impl ValidatedThresholdSet {
    /// Upper bound of the High band.
    pub closed spec fn high(self) -> Ratio {
        self.high_end
    }

    /// Upper bound of the Medium band.
    pub closed spec fn medium(self) -> Ratio {
        self.medium_end
    }

    /// Both thresholds lie strictly between zero and one, in strict order.
    pub open spec fn valid(self) -> bool {
        inside_unit(self.high()) && inside_unit(self.medium()) && self.high().below(self.medium())
    }

    /// Creates a threshold set.
    #[must_use]
    pub fn new(high_end: Ratio, medium_end: Ratio) -> (r: Self)
        requires
            inside_unit(high_end),
            inside_unit(medium_end),
            high_end.below(medium_end),
        ensures
            r.valid(),
            r.high() == high_end,
            r.medium() == medium_end,
    {
        Self { high_end, medium_end }
    }

    /// The thresholds one third and two thirds.
    #[must_use]
    pub fn default_thirds() -> (r: Self)
        ensures
            r.valid(),
            r.high() == (Ratio { num: 1, den: 3 }),
            r.medium() == (Ratio { num: 2, den: 3 }),
    {
        Self { high_end: Ratio { num: 1, den: 3 }, medium_end: Ratio { num: 2, den: 3 } }
    }
}

/// The band of `float / max_float` for the given thresholds; a zero float, or
/// a zero maximum, is critical.
pub open spec fn band_of(float: int, max_float: int, high: Ratio, medium: Ratio) -> CriticalityBand {
    if float == 0 || max_float == 0 {
        CriticalityBand::Critical
    } else if float * high.den <= high.num * max_float {
        CriticalityBand::High
    } else if float * medium.den <= medium.num * max_float {
        CriticalityBand::Medium
    } else {
        CriticalityBand::Low
    }
}

/// Classifies a float by thirds of the maximum.
#[must_use]
pub fn classify(float: u64, max_float: u64) -> (r: CriticalityBand)
    ensures
        r == (if float == 0 || max_float == 0 {
            CriticalityBand::Critical
        } else if 3 * float <= max_float {
            CriticalityBand::High
        } else if 3 * float <= 2 * max_float {
            CriticalityBand::Medium
        } else {
            CriticalityBand::Low
        }),
        r == band_of(float as int, max_float as int, Ratio { num: 1, den: 3 }, Ratio { num: 2, den: 3 }),
{
    let thresholds = ValidatedThresholdSet::default_thirds();
    classify_with(float, max_float, &thresholds)
}

/// Like [`classify`] but with explicit thresholds.
#[must_use]
pub fn classify_with(float: u64, max_float: u64, thresholds: &ValidatedThresholdSet) -> (r: CriticalityBand)
    requires
        thresholds.valid(),
    ensures
        r == band_of(float as int, max_float as int, thresholds.high(), thresholds.medium()),
{
    if float == 0 || max_float == 0 {
        return CriticalityBand::Critical;
    }
    let ratio = Ratio { num: float as i128, den: max_float as i128 };
    if !thresholds.high_end.less_than(&ratio) {
        CriticalityBand::High
    } else if !thresholds.medium_end.less_than(&ratio) {
        CriticalityBand::Medium
    } else {
        CriticalityBand::Low
    }
}

/// Result of [`activity_risk`].
#[derive(Debug, Clone, Copy, PartialEq, Eq, Structural)]
pub enum ActivityRiskResult {
    /// The risk score.
    Risk(Ratio),
    /// Every task is on the critical path, or there is none.
    AllCritical,
}

/// Sum of the values.
pub open spec fn total(values: Seq<u64>) -> int
    decreases values.len(),
{
    if values.len() == 0 {
        0
    } else {
        total(values.drop_last()) + values.last()
    }
}

proof fn lemma_total_prefix(values: Seq<u64>, i: int)
    requires
        0 <= i <= values.len(),
    ensures
        0 <= total(values.take(i)) <= total(values),
    decreases values.len(),
{
    if i == values.len() {
        assert(values.take(i) =~= values);
        if i > 0 {
            lemma_total_prefix(values.drop_last(), i - 1);
            assert(values.drop_last().take(i - 1) =~= values.drop_last());
        }
    } else {
        lemma_total_prefix(values.drop_last(), i);
        assert(values.drop_last().take(i) =~= values.take(i));
    }
}

/// The risk of activities with the given floats, as numerator and denominator:
/// the part of the largest possible float that they do not have.
pub open spec fn risk_score(floats: Seq<u64>, max_float: int) -> (int, int) {
    (max_float * floats.len() - total(floats), max_float * floats.len())
}

/// Computes `1 - sum(floats) / (max_float * len)`.
///
/// [`ActivityRiskResult::AllCritical`] when `max_float` is zero or there is no
/// float.
#[must_use]
pub fn activity_risk(floats: &[u64], max_float: u64) -> (r: ActivityRiskResult)
    requires
        max_float > 0 ==> total(floats@) <= u64::MAX && max_float * floats@.len() <= u64::MAX,
    ensures
        r is AllCritical <==> max_float == 0 || floats@.len() == 0,
        r matches ActivityRiskResult::Risk(score) ==> {
            &&& score.den == max_float * floats@.len()
            &&& score.num == score.den - total(floats@)
            &&& (score.num as int, score.den as int) == risk_score(floats@, max_float as int)
            &&& score.valid()
        },
{
    if max_float == 0 || floats.len() == 0 {
        return ActivityRiskResult::AllCritical;
    }
    let mut sum: u64 = 0;
    for i in 0..floats.len()
        invariant
            sum == total(floats@.take(i as int)),
            total(floats@) <= u64::MAX,
    {
        proof {
            lemma_total_prefix(floats@, i + 1);
            assert(floats@.take(i + 1).drop_last() =~= floats@.take(i as int));
        }
        sum = sum + floats[i];
    }
    assert(floats@.take(floats@.len() as int) =~= floats@);
    assert(max_float * floats@.len() > 0) by (nonlinear_arith)
        requires
            max_float > 0,
            floats@.len() > 0,
    ;
    let count: u64 = floats.len() as u64;
    let denominator: i128 = (max_float * count) as i128;
    ActivityRiskResult::Risk(Ratio { num: denominator - sum as i128, den: denominator })
}

/// The weight of a band.
pub open spec fn weight(band: CriticalityBand) -> int {
    match band {
        CriticalityBand::Critical => W_CRITICAL as int,
        CriticalityBand::High => W_HIGH as int,
        CriticalityBand::Medium => W_MEDIUM as int,
        CriticalityBand::Low => W_LOW as int,
    }
}

/// Sum of the weights of the bands.
pub open spec fn total_weight(bands: Seq<CriticalityBand>) -> int
    decreases bands.len(),
{
    if bands.len() == 0 {
        0
    } else {
        total_weight(bands.drop_last()) + weight(bands.last())
    }
}

/// The weight of bands as a part of the largest they could have, as numerator
/// and denominator.
pub open spec fn weight_score(bands: Seq<CriticalityBand>) -> (int, int) {
    (total_weight(bands), W_CRITICAL * bands.len())
}

/// Computes `sum(weights) / (W_CRITICAL * len)`; one for no bands.
#[must_use]
pub fn criticality_risk(bands: &[CriticalityBand]) -> (r: Ratio)
    ensures
        r.valid(),
        bands@.len() == 0 ==> r == (Ratio { num: 1, den: 1 }),
        bands@.len() > 0 ==> r.num == total_weight(bands@) && r.den == W_CRITICAL * bands@.len(),
        bands@.len() > 0 ==> (r.num as int, r.den as int) == weight_score(bands@),
{
    if bands.len() == 0 {
        return Ratio { num: 1, den: 1 };
    }
    let mut sum: i128 = 0;
    for i in 0..bands.len()
        invariant
            sum == total_weight(bands@.take(i as int)),
            0 <= sum <= 4 * i,
    {
        assert(bands@.take(i + 1).drop_last() =~= bands@.take(i as int));
        let w: u64 = match bands[i] {
            CriticalityBand::Critical => W_CRITICAL,
            CriticalityBand::High => W_HIGH,
            CriticalityBand::Medium => W_MEDIUM,
            CriticalityBand::Low => W_LOW,
        };
        sum = sum + w as i128;
    }
    assert(bands@.take(bands@.len() as int) =~= bands@);
    Ratio { num: sum, den: W_CRITICAL as i128 * bands.len() as i128 }
}

/// Categorical flag for a risk score.
#[derive(Debug, Clone, Copy, PartialEq, Eq, Structural)]
pub enum RiskBandFlag {
    /// Score from 0.4 to 0.75: healthy range.
    InTarget,
    /// Score above 0.75: too many high-criticality tasks.
    HighRisk,
    /// Score below 0.4: too much slack.
    OverDecompressed,
}

/// The flag of the score `num / den`.
pub open spec fn flag_of(num: int, den: int) -> RiskBandFlag {
    if 10 * num < 4 * den {
        RiskBandFlag::OverDecompressed
    } else if 100 * num > 75 * den {
        RiskBandFlag::HighRisk
    } else {
        RiskBandFlag::InTarget
    }
}

/// Maps a risk score to its flag.
#[must_use]
pub fn band_flag(risk: Ratio) -> (r: RiskBandFlag)
    requires
        risk.valid(),
    ensures
        r == (if 10 * risk.num < 4 * risk.den {
            RiskBandFlag::OverDecompressed
        } else if 100 * risk.num > 75 * risk.den {
            RiskBandFlag::HighRisk
        } else {
            RiskBandFlag::InTarget
        }),
        r == flag_of(risk.num as int, risk.den as int),
{
    let low = Ratio { num: 4, den: 10 };
    let high = Ratio { num: 75, den: 100 };
    if risk.less_than(&low) {
        RiskBandFlag::OverDecompressed
    } else if high.less_than(&risk) {
        RiskBandFlag::HighRisk
    } else {
        RiskBandFlag::InTarget
    }
}

/// A risk score built from bands never leaves the interval from one quarter to
/// one.
pub proof fn criticality_risk_in_unit(bands: Seq<CriticalityBand>)
    ensures
        bands.len() <= total_weight(bands) <= W_CRITICAL * bands.len(),
    decreases bands.len(),
{
    if bands.len() > 0 {
        criticality_risk_in_unit(bands.drop_last());
    }
}

/// Where no float exceeds the maximum, the activity risk lies between zero and
/// one.
pub proof fn activity_risk_in_unit(floats: Seq<u64>, max_float: int)
    requires
        forall|i: int| 0 <= i < floats.len() ==> floats[i] <= max_float,
    ensures
        0 <= total(floats) <= max_float * floats.len(),
    decreases floats.len(),
{
    if floats.len() > 0 {
        let rest = floats.drop_last();
        assert forall|i: int| 0 <= i < rest.len() implies rest[i] <= max_float by {
            assert(rest[i] == floats[i]);
        }
        activity_risk_in_unit(rest, max_float);
        assert(max_float * floats.len() == max_float * rest.len() + max_float) by (nonlinear_arith)
            requires
                floats.len() == rest.len() + 1,
        ;
    }
}

} // verus!
