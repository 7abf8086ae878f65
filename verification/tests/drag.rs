use cpm_planner::algorithm::CpmAlgorithm;
use cpm_planner::drag::{diameter, drag};
use cpm_planner::task::{Task, TaskKind, TICKS_PER_HOUR};

fn make_task(id: &str, effort: f64, deps: Vec<&str>) -> Task {
    Task {
        id: id.to_string(),
        name: format!("Task {id}"),
        kind: TaskKind::Custom { description: String::new() },
        effort_hours: (effort * TICKS_PER_HOUR as f64) as i64,
        dependencies: deps.into_iter().map(String::from).collect(),
        ..Default::default()
    }
}

fn value(ticks: i128) -> f64 {
    ticks as f64 / TICKS_PER_HOUR as f64
}

#[test]
fn test_drag_parallel_constrains() {
    let mut tasks =
        vec![make_task("A", 1.0, vec![]), make_task("B", 5.0, vec![]), make_task("end", 0.0, vec!["A", "B"])];
    let result = CpmAlgorithm::calculate(&mut tasks);
    assert!(result.unscheduled.is_empty(), "should be acyclic");

    let b = result.get_task("B").expect("B");
    let a = result.get_task("A").expect("A");
    assert!(b.is_critical, "B should be on critical path");
    assert!(!a.is_critical, "A should NOT be on critical path");

    let drags = drag(&result.tasks);

    let drag_b = drags.iter().find(|d| d.task_id == "B").expect("drag for B");
    let drag_a = drags.iter().find(|d| d.task_id == "A").expect("drag for A");

    assert_eq!(value(drag_b.drag), 4.0, "drag(B) should be min(duration=5, float_A=4) = 4");
    assert_eq!(value(drag_a.drag), 0.0, "drag(A) should be 0 (non-critical)");

    assert_eq!(value(diameter(&result.tasks)), 5.0, "diameter should be 5");
}

#[test]
fn test_drag_serial_chain() {
    let mut tasks =
        vec![make_task("A", 2.0, vec![]), make_task("B", 3.0, vec!["A"]), make_task("C", 1.0, vec!["B"])];
    let result = CpmAlgorithm::calculate(&mut tasks);
    assert!(result.unscheduled.is_empty());

    for id in &["A", "B", "C"] {
        assert!(result.get_task(id).expect(id).is_critical, "{id} should be critical");
    }

    let drags = drag(&result.tasks);

    let drag_a = drags.iter().find(|d| d.task_id == "A").expect("A").drag;
    let drag_b = drags.iter().find(|d| d.task_id == "B").expect("B").drag;
    let drag_c = drags.iter().find(|d| d.task_id == "C").expect("C").drag;

    assert_eq!(value(drag_a), 2.0, "serial drag(A)=duration=2");
    assert_eq!(value(drag_b), 3.0, "serial drag(B)=duration=3");
    assert_eq!(value(drag_c), 1.0, "serial drag(C)=duration=1");

    assert_eq!(value(diameter(&result.tasks)), 6.0, "diameter of serial chain = 6");
}

#[test]
fn test_drag_bounded_by_smallest_float() {
    let mut tasks = vec![
        make_task("CRIT", 10.0, vec![]),
        make_task("NC1", 8.0, vec![]),
        make_task("NC2", 5.0, vec![]),
        make_task("end", 0.0, vec!["CRIT", "NC1", "NC2"]),
    ];
    let result = CpmAlgorithm::calculate(&mut tasks);
    assert!(result.unscheduled.is_empty());

    let crit = result.get_task("CRIT").expect("CRIT");
    assert!(crit.is_critical, "CRIT should be critical");

    let drags = drag(&result.tasks);
    let d = drags.iter().find(|d| d.task_id == "CRIT").expect("CRIT drag").drag;
    assert_eq!(value(d), 2.0, "drag(CRIT) = min(10, min_float(2,5)) = 2");

    assert_eq!(value(diameter(&result.tasks)), 10.0);
}

#[test]
fn test_non_critical_drag_is_zero() {
    let mut tasks =
        vec![make_task("A", 1.0, vec![]), make_task("B", 5.0, vec![]), make_task("C", 1.0, vec!["A", "B"])];
    let result = CpmAlgorithm::calculate(&mut tasks);
    let drags = drag(&result.tasks);
    let da = drags.iter().find(|d| d.task_id == "A").unwrap().drag;
    assert_eq!(value(da), 0.0);
}

#[test]
fn test_empty() {
    assert!(drag(&[]).is_empty());
    assert_eq!(value(diameter(&[])), 0.0);
}
