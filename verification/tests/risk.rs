use cpm_planner::ratio::Ratio;
use cpm_planner::risk::{
    activity_risk, band_flag, classify, classify_with, criticality_risk, ActivityRiskResult, CriticalityBand,
    RiskBandFlag, ValidatedThresholdSet, W_CRITICAL, W_HIGH, W_LOW, W_MEDIUM,
};

fn value(r: Ratio) -> f64 {
    r.num as f64 / r.den as f64
}

fn ratio(num: i128, den: i128) -> Ratio {
    Ratio { num, den }
}

#[test]
fn test_weights_are_exactly_4_3_2_1() {
    assert_eq!(W_CRITICAL, 4, "W_CRITICAL must be exactly 4");
    assert_eq!(W_HIGH, 3, "W_HIGH must be exactly 3");
    assert_eq!(W_MEDIUM, 2, "W_MEDIUM must be exactly 2");
    assert_eq!(W_LOW, 1, "W_LOW must be exactly 1");
}

#[test]
fn test_classify_zero_float_is_critical() {
    assert_eq!(classify(0, 12), CriticalityBand::Critical);
}

#[test]
fn test_classify_high_band() {
    assert_eq!(classify(3, 12), CriticalityBand::High);
    assert_eq!(classify(4, 12), CriticalityBand::High);
}

#[test]
fn test_classify_medium_band() {
    assert_eq!(classify(5, 12), CriticalityBand::Medium);
    assert_eq!(classify(8, 12), CriticalityBand::Medium);
}

#[test]
fn test_classify_low_band() {
    assert_eq!(classify(9, 12), CriticalityBand::Low);
    assert_eq!(classify(12, 12), CriticalityBand::Low);
}

#[test]
fn test_classify_max_float_zero_returns_critical() {
    assert_eq!(classify(5, 0), CriticalityBand::Critical);
}

#[test]
fn classify_with_own_thresholds() {
    let thresholds = ValidatedThresholdSet::new(ratio(1, 10), ratio(1, 2));
    assert_eq!(classify_with(1, 10, &thresholds), CriticalityBand::High);
    assert_eq!(classify_with(2, 10, &thresholds), CriticalityBand::Medium);
    assert_eq!(classify_with(5, 10, &thresholds), CriticalityBand::Medium);
    assert_eq!(classify_with(6, 10, &thresholds), CriticalityBand::Low);
}

#[test]
fn test_activity_risk_all_critical_when_max_float_zero() {
    let floats = [0u64, 0, 0];
    assert_eq!(activity_risk(&floats, 0), ActivityRiskResult::AllCritical);
}

#[test]
fn test_activity_risk_all_zero_floats_with_positive_max() {
    let floats = [0u64, 0, 0];
    match activity_risk(&floats, 12) {
        ActivityRiskResult::Risk(r) => assert_eq!(value(r), 1.0),
        ActivityRiskResult::AllCritical => panic!("expected Risk, got AllCritical"),
    }
}

#[test]
fn test_activity_risk_known_distribution() {
    let floats = [0u64, 4, 8];
    let max_float = 12u64;
    let expected = 1.0 - 12.0_f64 / 36.0_f64;
    match activity_risk(&floats, max_float) {
        ActivityRiskResult::Risk(r) => {
            assert!((value(r) - expected).abs() < 1e-10, "expected {expected}, got {r:?}");
        }
        ActivityRiskResult::AllCritical => panic!("expected Risk, got AllCritical"),
    }
}

#[test]
fn test_activity_risk_empty_returns_all_critical() {
    assert_eq!(activity_risk(&[], 10), ActivityRiskResult::AllCritical);
}

#[test]
fn test_criticality_risk_all_critical_is_one() {
    let bands = [CriticalityBand::Critical, CriticalityBand::Critical, CriticalityBand::Critical];
    let r = value(criticality_risk(&bands));
    assert!((r - 1.0).abs() < 1e-10, "all-critical criticality_risk must be 1.0, got {r}");
}

#[test]
fn test_criticality_risk_empty_is_one() {
    let r = value(criticality_risk(&[]));
    assert!((r - 1.0).abs() < 1e-10, "empty criticality_risk must be 1.0, got {r}");
}

#[test]
fn test_criticality_risk_known_distribution() {
    let bands = [CriticalityBand::Critical, CriticalityBand::High, CriticalityBand::Medium, CriticalityBand::Low];
    let expected = 10.0_f64 / 16.0_f64;
    let r = value(criticality_risk(&bands));
    assert!((r - expected).abs() < 1e-10, "expected {expected}, got {r}");
}

#[test]
fn test_criticality_risk_all_low_is_one_quarter() {
    let bands = [CriticalityBand::Low; 4];
    let r = value(criticality_risk(&bands));
    assert!((r - 0.25).abs() < 1e-10, "all-low criticality_risk must be 0.25, got {r}");
}

#[test]
fn test_band_flag_below_0_4_is_over_decompressed() {
    assert_eq!(band_flag(ratio(0, 1)), RiskBandFlag::OverDecompressed);
    assert_eq!(band_flag(ratio(39, 100)), RiskBandFlag::OverDecompressed);
    assert_eq!(band_flag(ratio(4, 10)), RiskBandFlag::InTarget);
}

#[test]
fn test_band_flag_in_target_range() {
    assert_eq!(band_flag(ratio(4, 10)), RiskBandFlag::InTarget);
    assert_eq!(band_flag(ratio(57, 100)), RiskBandFlag::InTarget);
    assert_eq!(band_flag(ratio(75, 100)), RiskBandFlag::InTarget);
}

#[test]
fn test_band_flag_above_0_75_is_high_risk() {
    assert_eq!(band_flag(ratio(751, 1000)), RiskBandFlag::HighRisk);
    assert_eq!(band_flag(ratio(1, 1)), RiskBandFlag::HighRisk);
    assert_eq!(band_flag(ratio(75, 100)), RiskBandFlag::InTarget);
}

#[test]
fn test_all_critical_schedule_end_to_end() {
    let floats = [0u64, 0, 0, 0];
    let max_float = 0u64;
    assert_eq!(activity_risk(&floats, max_float), ActivityRiskResult::AllCritical);
    for &f in &floats {
        assert_eq!(classify(f, max_float), CriticalityBand::Critical);
    }
    let bands: Vec<_> = floats.iter().map(|&f| classify(f, max_float)).collect();
    let cr = value(criticality_risk(&bands));
    assert!((cr - 1.0).abs() < 1e-10, "all-critical criticality_risk must be 1.0, got {cr}");
}

#[test]
fn fractions_compare_by_value() {
    assert!(ratio(1, 3).less_than(&ratio(2, 3)));
    assert!(!ratio(2, 6).less_than(&ratio(1, 3)));
    assert!(ratio(-1, 2).less_than(&ratio(-1, 3)));
    assert!(ratio(i128::MIN, 1).less_than(&ratio(i128::MIN, 2)));
    assert!(!ratio(i128::MAX, i128::MAX).less_than(&ratio(i128::MAX - 1, i128::MAX - 1)));
    assert!(ratio(i128::MAX - 1, i128::MAX).less_than(&ratio(i128::MAX, i128::MAX)));
}
