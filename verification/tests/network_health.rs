use cpm_planner::network_health::{cyclomatic_complexity, project_efficiency, CcFlag, EffFlag};
use cpm_planner::ratio::Ratio;

fn value(r: Ratio) -> f64 {
    r.num as f64 / r.den as f64
}

#[test]
fn cc_boundary_12_is_in_target() {
    let (c, flag) = cyclomatic_complexity(20, 10);
    assert_eq!(c, 12);
    assert_eq!(flag, CcFlag::InTarget);
}

#[test]
fn cc_boundary_13_is_warn() {
    let (c, flag) = cyclomatic_complexity(21, 10);
    assert_eq!(c, 13);
    assert_eq!(flag, CcFlag::Warn);
}

#[test]
fn cc_boundary_15_is_warn() {
    let (c, flag) = cyclomatic_complexity(23, 10);
    assert_eq!(c, 15);
    assert_eq!(flag, CcFlag::Warn);
}

#[test]
fn cc_boundary_16_is_too_complex() {
    let (c, flag) = cyclomatic_complexity(24, 10);
    assert_eq!(c, 16);
    assert_eq!(flag, CcFlag::TooComplex);
}

#[test]
fn cc_small_network_in_target() {
    let (c, flag) = cyclomatic_complexity(2, 5);
    assert_eq!(c, -1);
    assert_eq!(flag, CcFlag::InTarget);
}

#[test]
fn efficiency_none_when_actual_is_zero() {
    assert_eq!(project_efficiency(100, 0), None);
    assert_eq!(project_efficiency(0, 0), None);
}

#[test]
fn efficiency_equal_planned_actual_is_high() {
    let (ratio, flag) = project_efficiency(100, 100).expect("Some expected");
    assert!((value(ratio) - 1.0).abs() < 1e-9);
    assert_eq!(flag, EffFlag::High);
}

#[test]
fn efficiency_boundary_015_is_in_target() {
    let (ratio, flag) = project_efficiency(15, 100).expect("Some expected");
    assert!((value(ratio) - 0.15).abs() < 1e-9);
    assert_eq!(flag, EffFlag::InTarget);
}

#[test]
fn efficiency_boundary_025_is_in_target() {
    let (ratio, flag) = project_efficiency(25, 100).expect("Some expected");
    assert!((value(ratio) - 0.25).abs() < 1e-9);
    assert_eq!(flag, EffFlag::InTarget);
}

#[test]
fn efficiency_just_above_025_is_high() {
    let (ratio, flag) = project_efficiency(26, 100).expect("Some expected");
    assert!((value(ratio) - 0.26).abs() < 1e-9);
    assert_eq!(flag, EffFlag::High);
}

#[test]
fn efficiency_just_below_015_is_low() {
    let (ratio, flag) = project_efficiency(14, 100).expect("Some expected");
    assert!((value(ratio) - 0.14).abs() < 1e-9);
    assert_eq!(flag, EffFlag::Low);
}

#[test]
fn efficiency_zero_planned_is_low() {
    let (ratio, flag) = project_efficiency(0, 50).expect("Some expected");
    assert!((value(ratio) - 0.0).abs() < 1e-9);
    assert_eq!(flag, EffFlag::Low);
}
