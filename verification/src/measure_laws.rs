//! What estimates, drag, risk and health figures say, in terms of what they
//! are computed from.

use vstd::prelude::*;

use crate::drag::{bounds_drag, drag_of, latest_finish, least_float, parallel, recorded_float};
use crate::estimator::{base_estimate, clamped, default_config, estimate_of, scaled, whole_part, EstimationConfig};
use crate::network_health::{cc_band, complexity_of, efficiency_band};
use crate::ratio::Ratio;
use crate::risk::{band_of, flag_of, risk_score, total, total_weight, weight_score, CriticalityBand};
use crate::task::{KindView, TaskView};

verus! {

/// The fraction is `num / den`, moved to the nearest bound where it lies
/// outside of `low` and `high`.
pub open spec fn moved_into(value: (int, int), num: int, den: int, low: int, high: int) -> bool {
    &&& value.1 > 0
    &&& num < low * den ==> value.0 == low * value.1
    &&& num >= low * den && num > high * den ==> value.0 == high * value.1
    &&& low * den <= num <= high * den ==> value.0 * den == num * value.1
}

/// Moving a fraction into a range.
proof fn lemma_moved(value: (int, int), low: int, high: int)
    requires
        value.1 > 0,
    ensures
        moved_into(clamped(value, low, high), value.0, value.1, low, high),
{
}

/// How many twentieths of its base it takes to break a cycle of `n` nodes:
/// sixteen for up to two nodes, twenty for three, and five more for each
/// further one.
pub open spec fn cycle_parts(n: nat) -> int {
    if n <= 2 {
        16
    } else {
        5 * (n as int + 1)
    }
}

/// What an estimate is: the base hours of the kind of work, times the
/// multiplier in millionths for complex work, moved into the range of the
/// configuration. A cycle takes longer the more nodes it has.
pub proof fn estimates_follow_the_kind(config: EstimationConfig, kind: KindView)
    ensures
        ({
            let low = config.min_hours as int;
            let high = config.max_hours as int;
            let m = config.complexity_multiplier as int;
            match kind {
                KindView::Custom { description } => {
                    &&& moved_into(estimate_of(config, kind, false), config.custom_base_hours as int, 1, low, high)
                    &&& moved_into(estimate_of(config, kind, true), config.custom_base_hours * m, 1_000_000, low, high)
                },
                KindView::ImplementSpec { spec_id } => {
                    &&& moved_into(estimate_of(config, kind, false), config.spec_base_hours as int, 1, low, high)
                    &&& moved_into(estimate_of(config, kind, true), config.spec_base_hours * m, 1_000_000, low, high)
                },
                KindView::BreakCycle { cycle } => {
                    &&& moved_into(estimate_of(config, kind, false), config.cycle_base_hours * cycle_parts(cycle.len()), 20, low, high)
                    &&& moved_into(estimate_of(config, kind, true), config.cycle_base_hours * m * cycle_parts(cycle.len()), 20_000_000, low, high)
                },
            }
        }),
{
    let low = config.min_hours as int;
    let high = config.max_hours as int;
    let m = config.complexity_multiplier as int;
    let base = base_estimate(config, kind);
    lemma_moved(base, low, high);
    assert(base.1 > 0 ==> scaled(base, m).1 > 0);
    lemma_moved(scaled(base, m), low, high);
    if let KindView::BreakCycle { cycle } = kind {
        let b = config.cycle_base_hours as int;
        let n = cycle.len() as int;
        let parts = cycle_parts(cycle.len());
        let e = estimate_of(config, kind, false);
        let f = estimate_of(config, kind, true);
        if n <= 2 {
            lemma_rescaled(e, b * 4, 5, 4, low, high);
            lemma_rescaled(f, (b * 4) * m, 5_000_000, 4, low, high);
            assert((b * 4) * 4 == b * parts && ((b * 4) * m) * 4 == b * m * parts) by (nonlinear_arith)
                requires
                    parts == 16,
            ;
        } else if n == 3 {
            lemma_rescaled(e, b, 1, 20, low, high);
            lemma_rescaled(f, b * m, 1_000_000, 20, low, high);
        } else {
            lemma_rescaled(e, b * (n + 1), 4, 5, low, high);
            lemma_rescaled(f, (b * (n + 1)) * m, 4_000_000, 5, low, high);
            assert((b * (n + 1)) * 5 == b * parts && ((b * (n + 1)) * m) * 5 == b * m * parts) by (nonlinear_arith)
                requires
                    parts == 5 * (n + 1),
            ;
        }
    }
}

/// A fraction can be written with another denominator.
proof fn lemma_rescaled(value: (int, int), num: int, den: int, times: int, low: int, high: int)
    requires
        times > 0,
        moved_into(value, num, den, low, high),
    ensures
        moved_into(value, num * times, den * times, low, high),
{
    assert((num * times < low * (den * times) <==> num < low * den) && (num * times > high * (den * times) <==> num > high * den)) by (nonlinear_arith)
        requires
            times > 0,
    ;
    assert(value.0 * den == num * value.1 ==> value.0 * (den * times) == (num * times) * value.1) by (nonlinear_arith);
}

/// The hours of a critical task are the hours times the multiplier in
/// millionths, moved into the range of the configuration.
pub proof fn critical_work_is_multiplied(hours: int, multiplier: int, low: int, high: int)
    ensures
        moved_into(clamped(scaled((hours, 1), multiplier), low, high), hours * multiplier, 1_000_000, low, high),
{
    lemma_moved(scaled((hours, 1), multiplier), low, high);
}

/// The whole part of a fraction is the largest whole number that is not more.
pub proof fn whole_parts_round_down(value: (int, int))
    requires
        value.1 > 0,
    ensures
        whole_part(value) * value.1 <= value.0 < (whole_part(value) + 1) * value.1,
{
    vstd::arithmetic::div_mod::lemma_fundamental_div_mod(value.0, value.1);
    vstd::arithmetic::div_mod::lemma_mod_bound(value.0, value.1);
    let q = value.0 / value.1;
    assert(value.1 * q == q * value.1 && (q + 1) * value.1 == q * value.1 + value.1) by (nonlinear_arith);
}

/// The two tasks are under way at the same time, if each starts as early as
/// it can.
pub open spec fn run_together(a: TaskView, b: TaskView) -> bool {
    exists|t: int| #![trigger under_way(a, t)] under_way(a, t) && under_way(b, t)
}

/// The task is under way between `t` and the moment after.
pub open spec fn under_way(a: TaskView, t: int) -> bool {
    a.earliest_start <= t < a.earliest_finish
}

/// Task `l` is the last with the id.
pub open spec fn last_named(tasks: Seq<TaskView>, id: Seq<char>, l: int) -> bool {
    &&& 0 <= l < tasks.len()
    &&& tasks[l].id == id
    &&& forall|x: int| l < x < tasks.len() ==> (#[trigger] tasks[x]).id != id
}

/// The float recorded for an id is that of the last task with it.
proof fn lemma_recorded(tasks: Seq<TaskView>, id: Seq<char>, l: int, m: nat)
    requires
        0 <= l < m <= tasks.len(),
        tasks[l].id == id,
        forall|x: int| l < x < m ==> (#[trigger] tasks[x]).id != id,
    ensures
        recorded_float(tasks, id, m) == tasks[l].float,
    decreases m,
{
    if l < m - 1 {
        lemma_recorded(tasks, id, l, (m - 1) as nat);
    }
}

/// Some task is the last with the id of task `k`.
proof fn lemma_last_named(tasks: Seq<TaskView>, k: int, m: nat) -> (l: int)
    requires
        0 <= k < m <= tasks.len(),
    ensures
        k <= l < m,
        tasks[l].id == tasks[k].id,
        forall|x: int| l < x < m ==> (#[trigger] tasks[x]).id != tasks[k].id,
    decreases m,
{
    if tasks[m - 1].id == tasks[k].id {
        m - 1
    } else {
        lemma_last_named(tasks, k, (m - 1) as nat)
    }
}

/// The least float is that of some task that bounds the drag, and none is
/// less.
proof fn lemma_least_float(tasks: Seq<TaskView>, a: TaskView, m: nat)
    requires
        m <= tasks.len(),
    ensures
        forall|k: int| 0 <= k < m && bounds_drag(a, #[trigger] tasks[k]) ==> (least_float(tasks, a, m) matches Some(x) && x <= recorded_float(tasks, tasks[k].id, tasks.len())),
        least_float(tasks, a, m) matches Some(x) ==> exists|k: int| 0 <= k < m && bounds_drag(a, #[trigger] tasks[k]) && x == recorded_float(tasks, tasks[k].id, tasks.len()),
    decreases m,
{
    if m > 0 {
        lemma_least_float(tasks, a, (m - 1) as nat);
        let p = tasks[m - 1];
        if bounds_drag(a, p) {
            let f = recorded_float(tasks, p.id, tasks.len());
            if let Some(x) = least_float(tasks, a, m) {
                if x == f {
                    assert(bounds_drag(a, tasks[m - 1]) && x == recorded_float(tasks, tasks[m - 1].id, tasks.len()));
                }
            }
        }
    }
}

/// Task `b` is beside `a`: another task that is not critical and whose window,
/// from earliest start to earliest finish, overlaps its own.
pub open spec fn beside(a: TaskView, b: TaskView) -> bool {
    &&& !b.is_critical
    &&& b.id != a.id
    &&& b.earliest_start < a.earliest_finish
    &&& a.earliest_start < b.earliest_finish
}

/// The drag of a task: how much of the time of the project it is answerable
/// for. A task that is not critical has none. A critical one has its effort,
/// or the least float of the tasks beside it, if that is less. Where an id
/// occurs more than once, the last task with it gives the float.
pub proof fn drag_is_effort_or_the_least_float_beside(tasks: Seq<TaskView>, a: TaskView)
    ensures
        !a.is_critical ==> drag_of(tasks, a) == 0,
        a.is_critical ==> drag_of(tasks, a) <= a.effort,
        a.is_critical ==> forall|k: int, l: int| 0 <= k < tasks.len() && beside(a, #[trigger] tasks[k]) && #[trigger] last_named(tasks, tasks[k].id, l) ==> drag_of(tasks, a) <= tasks[l].float,
        a.is_critical ==> drag_of(tasks, a) == a.effort || exists|k: int, l: int| 0 <= k < tasks.len() && beside(a, #[trigger] tasks[k]) && #[trigger] last_named(tasks, tasks[k].id, l) && drag_of(tasks, a) == tasks[l].float,
{
    lemma_least_float(tasks, a, tasks.len());
    if a.is_critical {
        assert forall|k: int, l: int| 0 <= k < tasks.len() && beside(a, #[trigger] tasks[k]) && #[trigger] last_named(tasks, tasks[k].id, l) implies drag_of(tasks, a) <= tasks[l].float by {
            assert(bounds_drag(a, tasks[k]));
            lemma_recorded(tasks, tasks[k].id, l, tasks.len());
        }
        if drag_of(tasks, a) != a.effort {
            let x = least_float(tasks, a, tasks.len())->0;
            let k = choose|k: int| 0 <= k < tasks.len() && bounds_drag(a, #[trigger] tasks[k]) && x == recorded_float(tasks, tasks[k].id, tasks.len());
            let l = lemma_last_named(tasks, k, tasks.len());
            lemma_recorded(tasks, tasks[k].id, l, tasks.len());
            assert(beside(a, tasks[k]) && last_named(tasks, tasks[k].id, l) && drag_of(tasks, a) == tasks[l].float);
        }
    }
}

/// Two tasks that take time overlap exactly when both are under way at some
/// moment.
pub proof fn overlapping_tasks_run_together(a: TaskView, b: TaskView)
    requires
        a.earliest_start < a.earliest_finish,
        b.earliest_start < b.earliest_finish,
    ensures
        parallel(a, b) <==> run_together(a, b),
{
    if parallel(a, b) {
        let t = if a.earliest_start < b.earliest_start { b.earliest_start } else { a.earliest_start };
        assert(under_way(a, t) && under_way(b, t));
    }
    if run_together(a, b) {
        let t = choose|t: int| #![trigger under_way(a, t)] under_way(a, t) && under_way(b, t);
        assert(under_way(a, t) && under_way(b, t));
    }
}

/// The diameter is when the last task finishes, and nothing where none
/// finishes after the start.
pub proof fn the_diameter_is_the_last_finish(tasks: Seq<TaskView>)
    ensures
        latest_finish(tasks) >= 0,
        forall|i: int| 0 <= i < tasks.len() ==> (#[trigger] tasks[i]).earliest_finish <= latest_finish(tasks),
        latest_finish(tasks) == 0 || exists|i: int| 0 <= i < tasks.len() && (#[trigger] tasks[i]).earliest_finish == latest_finish(tasks),
    decreases tasks.len(),
{
    if tasks.len() > 0 {
        let head = tasks.drop_last();
        the_diameter_is_the_last_finish(head);
        let top = latest_finish(tasks);
        assert forall|i: int| 0 <= i < tasks.len() implies (#[trigger] tasks[i]).earliest_finish <= top by {
            if i < head.len() {
                assert(head[i] == tasks[i]);
            }
        }
        if top > 0 {
            if latest_finish(head) == top {
                let i = choose|i: int| 0 <= i < head.len() && (#[trigger] head[i]).earliest_finish == top;
                assert(tasks[i].earliest_finish == top);
            } else {
                assert(tasks[tasks.len() - 1].earliest_finish == top);
            }
        }
    }
}

/// How urgent a band is.
pub open spec fn urgency(band: CriticalityBand) -> int {
    match band {
        CriticalityBand::Critical => 3,
        CriticalityBand::High => 2,
        CriticalityBand::Medium => 1,
        CriticalityBand::Low => 0,
    }
}

/// Only no float at all is critical. Otherwise the band is decided by the
/// float as a part of the largest: up to the first threshold it is high, up to
/// the second medium, and beyond it low. The bounds belong to the band below.
pub proof fn bands_divide_the_range(float: int, max_float: int, high: Ratio, medium: Ratio)
    requires
        float >= 0,
        max_float >= 0,
        high.den > 0,
        medium.den > 0,
    ensures
        urgency(band_of(float, max_float, high, medium)) == 3 <==> float == 0 || max_float == 0,
        float > 0 && max_float > 0 && float * high.den <= max_float * high.num ==> urgency(band_of(float, max_float, high, medium)) == 2,
        float > 0 && max_float > 0 && float * high.den > max_float * high.num && float * medium.den <= max_float * medium.num ==> urgency(band_of(float, max_float, high, medium)) == 1,
        float > 0 && max_float > 0 && float * high.den > max_float * high.num && float * medium.den > max_float * medium.num ==> urgency(band_of(float, max_float, high, medium)) == 0,
{
    assert(max_float * high.num == high.num * max_float && max_float * medium.num == medium.num * max_float) by (nonlinear_arith);
}

/// More float is never more urgent.
pub proof fn more_float_is_never_more_urgent(less: int, more: int, max_float: int, high: Ratio, medium: Ratio)
    requires
        0 <= less <= more,
        high.den > 0,
        medium.den > 0,
    ensures
        urgency(band_of(more, max_float, high, medium)) <= urgency(band_of(less, max_float, high, medium)),
{
    assert(less * high.den <= more * high.den && less * medium.den <= more * medium.den) by (nonlinear_arith)
        requires
            less <= more,
            high.den > 0,
            medium.den > 0,
    ;
}

/// Measuring in another unit changes no band.
pub proof fn bands_have_no_unit(float: int, max_float: int, high: Ratio, medium: Ratio, unit: int)
    requires
        unit > 0,
    ensures
        band_of(float * unit, max_float * unit, high, medium) == band_of(float, max_float, high, medium),
{
    assert((float * unit == 0 <==> float == 0) && (max_float * unit == 0 <==> max_float == 0)) by (nonlinear_arith)
        requires
            unit > 0,
    ;
    lemma_unit(float, max_float, high.num as int, high.den as int, unit);
    lemma_unit(float, max_float, medium.num as int, medium.den as int, unit);
}

/// Scaling both sides changes no comparison.
proof fn lemma_unit(float: int, max_float: int, num: int, den: int, unit: int)
    requires
        unit > 0,
    ensures
        (float * unit) * den <= num * (max_float * unit) <==> float * den <= num * max_float,
{
    assert((float * unit) * den == (float * den) * unit && num * (max_float * unit) == (num * max_float) * unit) by (nonlinear_arith);
    let x = float * den;
    let y = num * max_float;
    assert(x * unit <= y * unit <==> x <= y) by (nonlinear_arith)
        requires
            unit > 0,
    ;
}

/// A critical task weighs four, one of the high band three, of the medium two
/// and of the low one; lists of bands weigh what their parts weigh together.
pub proof fn weights_add_up(a: Seq<CriticalityBand>, b: Seq<CriticalityBand>, band: CriticalityBand)
    ensures
        total_weight(Seq::<CriticalityBand>::empty()) == 0,
        total_weight(seq![band]) == 1 + urgency(band),
        total_weight(a + b) == total_weight(a) + total_weight(b),
    decreases b.len(),
{
    assert(seq![band].drop_last() =~= Seq::<CriticalityBand>::empty());
    assert(total_weight(seq![band].drop_last()) == 0);
    if b.len() > 0 {
        weights_add_up(a, b.drop_last(), band);
        assert((a + b).drop_last() =~= a + b.drop_last());
        assert((a + b).last() == b.last());
    } else {
        assert(a + b =~= a);
    }
}

/// Floats add up as their parts do.
pub proof fn floats_add_up(a: Seq<u64>, b: Seq<u64>, float: u64)
    ensures
        total(Seq::<u64>::empty()) == 0,
        total(seq![float]) == float,
        total(a + b) == total(a) + total(b),
    decreases b.len(),
{
    assert(seq![float].drop_last() =~= Seq::<u64>::empty());
    assert(total(seq![float].drop_last()) == 0);
    if b.len() > 0 {
        floats_add_up(a, b.drop_last(), float);
        assert((a + b).drop_last() =~= a + b.drop_last());
        assert((a + b).last() == b.last());
    } else {
        assert(a + b =~= a);
    }
}

/// A network is in its target up to twelve, needs review up to fifteen, and is
/// too complex beyond.
pub proof fn complexity_bands_are_intervals(c: int)
    ensures
        cc_band(c) is InTarget <==> c < 13,
        cc_band(c) is Warn <==> 13 <= c < 16,
        cc_band(c) is TooComplex <==> c > 15,
{
}

/// Efficiency is low below fifteen hundredths, high above a quarter, and in
/// its target from the one to the other, whatever the unit.
pub proof fn efficiency_bands_are_intervals(planned: int, actual: int, unit: int)
    requires
        unit > 0,
    ensures
        efficiency_band(planned, actual) is Low <==> 20 * planned < 3 * actual,
        efficiency_band(planned, actual) is High <==> 4 * planned > actual && 20 * planned >= 3 * actual,
        efficiency_band(planned, actual) is InTarget <==> 20 * planned >= 3 * actual && 4 * planned <= actual,
        efficiency_band(planned * unit, actual * unit) == efficiency_band(planned, actual),
{
    lemma_unit(planned, actual, 15, 100, unit);
    lemma_unit(planned, actual, 25, 100, unit);
    lemma_unit_strict(planned, actual, unit);
}

/// Scaling both sides changes no strict comparison.
proof fn lemma_unit_strict(planned: int, actual: int, unit: int)
    requires
        unit > 0,
    ensures
        (planned * unit) * 100 < (actual * unit) * 15 <==> planned * 100 < actual * 15,
        (planned * unit) * 100 <= (actual * unit) * 25 <==> planned * 100 <= actual * 25,
{
    let x = planned * 100;
    let y = actual * 15;
    let z = actual * 25;
    assert((planned * unit) * 100 == x * unit && (actual * unit) * 15 == y * unit && (actual * unit) * 25 == z * unit) by (nonlinear_arith)
        requires
            x == planned * 100,
            y == actual * 15,
            z == actual * 25,
    ;
    assert((x * unit < y * unit <==> x < y) && (x * unit <= z * unit <==> x <= z)) by (nonlinear_arith)
        requires
            unit > 0,
    ;
}

/// Every activity adds to the risk what it lacks of the largest float, and to
/// what it is measured by the largest float.
pub proof fn each_activity_adds_what_it_lacks(floats: Seq<u64>, float: u64, max_float: int)
    ensures
        risk_score(Seq::<u64>::empty(), max_float) == (0int, 0int),
        risk_score(floats.push(float), max_float) == (
            risk_score(floats, max_float).0 + (max_float - float),
            risk_score(floats, max_float).1 + max_float,
        ),
{
    let n = floats.len() as int;
    assert(floats.push(float).drop_last() =~= floats);
    assert(max_float * (n + 1) == max_float * n + max_float && max_float * 0 == 0) by (nonlinear_arith);
}

/// Every task adds to the score its weight of one to four, and four to what it
/// is measured by.
pub proof fn each_task_adds_its_weight(bands: Seq<CriticalityBand>, band: CriticalityBand)
    ensures
        weight_score(Seq::<CriticalityBand>::empty()) == (0int, 0int),
        weight_score(bands.push(band)) == (weight_score(bands).0 + 1 + urgency(band), weight_score(bands).1 + 4),
{
    assert(bands.push(band).drop_last() =~= bands);
}

/// A score is in its target from two fifths to three quarters, both included;
/// below there is too much slack and above too much risk, whatever the unit.
pub proof fn risk_flags_are_intervals(num: int, den: int, unit: int)
    requires
        den > 0,
        unit > 0,
    ensures
        flag_of(num, den) is OverDecompressed <==> 5 * num < 2 * den,
        flag_of(num, den) is HighRisk <==> 4 * num > 3 * den,
        flag_of(num, den) is InTarget <==> 5 * num >= 2 * den && 4 * num <= 3 * den,
        flag_of(num * unit, den * unit) == flag_of(num, den),
{
    let x = 10 * num;
    let y = 4 * den;
    let z = 100 * num;
    let w = 75 * den;
    assert(10 * (num * unit) == x * unit && 4 * (den * unit) == y * unit && 100 * (num * unit) == z * unit && 75 * (den * unit) == w * unit) by (nonlinear_arith)
        requires
            x == 10 * num,
            y == 4 * den,
            z == 100 * num,
            w == 75 * den,
    ;
    assert((x * unit < y * unit <==> x < y) && (z * unit > w * unit <==> z > w)) by (nonlinear_arith)
        requires
            unit > 0,
    ;
}

/// A network in which one dependency less than there are activities joins them
/// has complexity one; every further dependency adds one, and every further
/// activity takes one off.
pub proof fn dependencies_add_complexity(dependencies: int, activities: int)
    ensures
        complexity_of(activities - 1, activities) == 1,
        complexity_of(dependencies + 1, activities) == complexity_of(dependencies, activities) + 1,
        complexity_of(dependencies, activities + 1) == complexity_of(dependencies, activities) - 1,
{
}

/// Estimates where nothing else is said: four hours for custom work and to
/// break a cycle of three nodes, eight to implement a requirement; half as much
/// again for complex work; no more for critical work; never less than half an
/// hour or more than forty.
pub proof fn default_estimates(description: Seq<char>, spec_id: Seq<char>, cycle: Seq<Seq<char>>)
    ensures
        ({
            let config = default_config();
            &&& whole_part(estimate_of(config, KindView::Custom { description }, false)) == 4_000_000
            &&& whole_part(estimate_of(config, KindView::Custom { description }, true)) == 6_000_000
            &&& whole_part(estimate_of(config, KindView::ImplementSpec { spec_id }, false)) == 8_000_000
            &&& whole_part(estimate_of(config, KindView::ImplementSpec { spec_id }, true)) == 12_000_000
            &&& cycle.len() == 3 ==> whole_part(estimate_of(config, KindView::BreakCycle { cycle }, false)) == 4_000_000
            &&& cycle.len() == 3 ==> whole_part(estimate_of(config, KindView::BreakCycle { cycle }, true)) == 6_000_000
            &&& config.critical_multiplier == 1_000_000
            &&& config.min_hours == 500_000
            &&& config.max_hours == 40_000_000
        }),
{
    let config = default_config();
    lemma_default(config, KindView::Custom { description }, 4_000_000);
    lemma_default(config, KindView::ImplementSpec { spec_id }, 8_000_000);
    if cycle.len() == 3 {
        lemma_default(config, KindView::BreakCycle { cycle }, 4_000_000);
    }
}

/// An estimate from whole hours.
proof fn lemma_default(config: EstimationConfig, kind: KindView, base: int)
    requires
        config == default_config(),
        base_estimate(config, kind) == (base, 1int),
        1_000_000 <= base <= 20_000_000,
        base % 2 == 0,
    ensures
        whole_part(estimate_of(config, kind, false)) == base,
        whole_part(estimate_of(config, kind, true)) == base + base / 2,
{
    let raised = scaled((base, 1int), config.complexity_multiplier as int);
    let more = base + base / 2;
    assert(raised.0 == more * 1_000_000) by (nonlinear_arith)
        requires
            raised.0 == base * config.complexity_multiplier,
            config.complexity_multiplier == 1_500_000,
            more == base + base / 2,
            base % 2 == 0,
    ;
    assert(estimate_of(config, kind, false) == (base, 1int));
    assert(estimate_of(config, kind, true) == raised);
    assert((more * 1_000_000) / 1_000_000 == more);
}

} // verus!
