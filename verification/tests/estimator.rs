use cpm_planner::estimator::{EffortEstimator, EstimationConfig};
use cpm_planner::ratio::Ratio;
use cpm_planner::task::TaskKind;

fn hours(h: f64) -> i64 {
    (h * 1_000_000.0) as i64
}

fn exactly(millionths: i64) -> Ratio {
    Ratio { num: i128::from(millionths), den: 1 }
}

/// Two fractions of the same value.
fn equal(a: Ratio, b: Ratio) -> bool {
    !a.less_than(&b) && !b.less_than(&a)
}

fn custom() -> TaskKind {
    TaskKind::Custom { description: "x".into() }
}

fn implement() -> TaskKind {
    TaskKind::ImplementSpec { spec_id: "s".into() }
}

fn cycle(n: usize) -> TaskKind {
    TaskKind::BreakCycle { cycle: (0..n).map(|i| format!("n{i}")).collect() }
}

#[test]
fn test_default_estimates_within_bounds() {
    let estimator = EffortEstimator::new();
    let h = estimator.estimate(&custom(), false);
    assert!(!h.less_than(&exactly(estimator.config().min_hours)));
    assert!(!exactly(estimator.config().max_hours).less_than(&h));
}

#[test]
fn test_complexity_multiplier() {
    let estimator = EffortEstimator::new();
    let simple = estimator.estimate(&implement(), false);
    let complex = estimator.estimate(&implement(), true);
    assert!(simple.less_than(&complex));
}

#[test]
fn test_cycle_length_scales_estimate() {
    let estimator = EffortEstimator::new();
    let short = estimator.estimate(&TaskKind::BreakCycle { cycle: vec!["a".into(), "b".into()] }, false);
    let long = estimator.estimate(
        &TaskKind::BreakCycle { cycle: vec!["a".into(), "b".into(), "c".into(), "d".into(), "e".into()] },
        false,
    );
    assert!(short.less_than(&long));
}

#[test]
fn test_custom_config_applies() {
    let config = EstimationConfig { custom_base_hours: hours(10.0), ..Default::default() };
    let estimator = EffortEstimator::with_config(config);
    let h = estimator.estimate(&custom(), false);
    assert!(!h.less_than(&exactly(hours(9.0))));
}

#[test]
fn test_clamp_to_max() {
    let config = EstimationConfig {
        min_hours: hours(1.0),
        max_hours: hours(5.0),
        spec_base_hours: hours(100.0),
        ..Default::default()
    };
    let estimator = EffortEstimator::with_config(config);
    let h = estimator.estimate(&implement(), true);
    assert!(!exactly(hours(5.0)).less_than(&h));
}

#[test]
fn test_apply_critical_multiplier_uses_config() {
    let config = EstimationConfig { critical_multiplier: 1_500_000, ..Default::default() };
    let estimator = EffortEstimator::with_config(config);
    let bumped = estimator.apply_critical_multiplier(hours(2.0));
    assert!(equal(bumped, exactly(hours(3.0))));
}

#[test]
fn base_estimates_are_exact() {
    let estimator = EffortEstimator::default();
    let check = |kind: TaskKind, complex: bool, h: f64| {
        assert!(equal(estimator.estimate(&kind, complex), exactly(hours(h))), "{kind:?}");
        assert_eq!(estimator.estimate_whole(&kind, complex), hours(h));
    };
    check(custom(), false, 4.0);
    check(implement(), true, 12.0);
    check(cycle(2), false, 3.2);
    check(cycle(3), false, 4.0);
    check(cycle(5), false, 6.0);
    check(cycle(1000), false, 40.0);
}

#[test]
fn estimates_keep_fractions_of_a_millionth() {
    let config = EstimationConfig {
        cycle_base_hours: 1_000_001,
        complexity_multiplier: 1_000_001,
        critical_multiplier: 333_333,
        ..Default::default()
    };
    let estimator = EffortEstimator::with_config(config);
    assert!(equal(estimator.estimate(&cycle(4), false), Ratio { num: 5_000_005, den: 4 }));
    assert!(equal(estimator.estimate(&cycle(1), false), Ratio { num: 4_000_004, den: 5 }));
    assert!(equal(estimator.estimate(&cycle(3), true), Ratio { num: 1_000_002_000_001, den: 1_000_000 }));
    assert_eq!(estimator.estimate_whole(&cycle(4), false), 1_250_001);
    assert!(equal(estimator.apply_critical_multiplier(2_000_001), Ratio { num: 2_000_001 * 333_333, den: 1_000_000 }));
}

#[test]
fn extreme_configurations_stay_in_range() {
    let config = EstimationConfig {
        cycle_base_hours: i64::MAX,
        complexity_multiplier: i64::MAX,
        min_hours: i64::MIN,
        max_hours: i64::MAX,
        ..Default::default()
    };
    let estimator = EffortEstimator::with_config(config);
    assert_eq!(estimator.estimate(&cycle(9), true), exactly(i64::MAX));
    let config = EstimationConfig { complexity_multiplier: i64::MIN, ..config };
    assert_eq!(EffortEstimator::with_config(config).estimate(&cycle(9), true), exactly(i64::MIN));
    let config = EstimationConfig { complexity_multiplier: 0, ..config };
    assert!(equal(EffortEstimator::with_config(config).estimate(&cycle(9), true), exactly(0)));
}

#[test]
fn negative_hours_round_down() {
    assert_eq!(cpm_planner::estimator::floor_div(-7, 2), -4);
    assert_eq!(cpm_planner::estimator::floor_div(-8, 2), -4);
    assert_eq!(cpm_planner::estimator::floor_div(7, 2), 3);
    assert_eq!(cpm_planner::estimator::floor_div(i128::MIN, 1), i128::MIN);
}
