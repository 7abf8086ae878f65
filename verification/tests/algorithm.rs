use cpm_planner::algorithm::CpmAlgorithm;
use cpm_planner::ratio::Ratio;
use cpm_planner::task::{Task, TaskKind, TICKS_PER_HOUR};

fn hours(h: f64) -> i64 {
    (h * TICKS_PER_HOUR as f64).round() as i64
}

fn value(ticks: i128) -> f64 {
    ticks as f64 / TICKS_PER_HOUR as f64
}

fn quotient(r: Ratio) -> f64 {
    r.num as f64 / r.den as f64
}

fn make_task(id: &str, effort: f64, deps: Vec<&str>) -> Task {
    Task {
        id: id.to_string(),
        name: format!("Task {id}"),
        kind: TaskKind::Custom { description: format!("integration fixture for {id}") },
        effort_hours: hours(effort),
        dependencies: deps.into_iter().map(String::from).collect(),
        ..Default::default()
    }
}

#[test]
fn test_simple_chain() {
    let mut tasks =
        vec![make_task("A", 2.0, vec![]), make_task("B", 3.0, vec!["A"]), make_task("C", 1.0, vec!["B"])];

    let result = CpmAlgorithm::calculate(&mut tasks);

    assert_eq!(result.critical_path.len(), 3);
    assert_eq!(value(result.critical_path_duration), 6.0);
    assert!((quotient(result.speedup_factor) - 1.0).abs() < 0.01);
}

#[test]
fn test_parallel_tasks() {
    let mut tasks =
        vec![make_task("A", 1.0, vec![]), make_task("B", 2.0, vec!["A"]), make_task("C", 3.0, vec!["A"])];

    let result = CpmAlgorithm::calculate(&mut tasks);

    assert_eq!(value(result.critical_path_duration), 4.0);
    assert_eq!(value(result.total_duration_sequential), 6.0);
    assert!(quotient(result.speedup_factor) > 1.0);
}

#[test]
fn test_diamond_dependency() {
    let mut tasks = vec![
        make_task("A", 1.0, vec![]),
        make_task("B", 2.0, vec!["A"]),
        make_task("C", 4.0, vec!["A"]),
        make_task("D", 1.0, vec!["B", "C"]),
    ];

    let result = CpmAlgorithm::calculate(&mut tasks);

    assert_eq!(value(result.critical_path_duration), 6.0);
    assert!(!result.critical_path.contains(&"B".to_string()));
}

#[test]
fn test_bottleneck_identification() {
    let mut tasks = vec![
        make_task("A", 1.0, vec![]),
        make_task("B", 5.0, vec!["A"]),
        make_task("C", 5.0, vec!["A"]),
        make_task("D", 5.0, vec!["A"]),
    ];

    let result = CpmAlgorithm::calculate(&mut tasks);

    assert!(!result.bottlenecks.is_empty());
    assert_eq!(result.bottlenecks[0].task_id, "A");
    assert!(quotient(result.bottlenecks[0].roi) >= 14.0);
}

#[test]
fn test_empty_tasks() {
    let mut tasks: Vec<Task> = vec![];
    let result = CpmAlgorithm::calculate(&mut tasks);
    assert_eq!(result.total_tasks, 0);
    assert!(result.critical_path.is_empty());
}

#[test]
fn test_single_task() {
    let mut tasks = vec![make_task("A", 5.0, vec![])];
    let result = CpmAlgorithm::calculate(&mut tasks);

    assert_eq!(result.total_tasks, 1);
    assert_eq!(value(result.critical_path_duration), 5.0);
    assert_eq!(result.critical_path, vec!["A".to_string()]);
}

#[test]
fn test_cyclic_graph_is_reported_unscheduled() {
    let mut tasks =
        vec![make_task("A", 1.0, vec!["C"]), make_task("B", 1.0, vec!["A"]), make_task("C", 1.0, vec!["B"])];

    let result = CpmAlgorithm::calculate(&mut tasks);

    assert_eq!(result.unscheduled, vec!["A".to_string(), "B".to_string(), "C".to_string()]);
}

#[test]
fn test_partial_cycle_reports_only_cycle_members() {
    let mut tasks = vec![
        make_task("ROOT", 1.0, vec![]),
        make_task("X", 1.0, vec!["ROOT", "Y"]),
        make_task("Y", 1.0, vec!["X"]),
    ];

    let result = CpmAlgorithm::calculate(&mut tasks);

    assert_eq!(result.unscheduled, vec!["X".to_string(), "Y".to_string()]);
}

#[test]
fn test_acyclic_graph_has_empty_unscheduled() {
    let mut tasks = vec![make_task("A", 2.0, vec![]), make_task("B", 3.0, vec!["A"])];
    let result = CpmAlgorithm::calculate(&mut tasks);
    assert!(result.unscheduled.is_empty());
}

#[test]
fn test_batch_grouping() {
    let mut tasks = vec![make_task("A", 2.0, vec![]), make_task("B", 3.0, vec![])];

    let result = CpmAlgorithm::calculate(&mut tasks);

    assert_eq!(result.parallelizable_batches.len(), 1);
    assert_eq!(result.parallelizable_batches[0].tasks.len(), 2);
    assert_eq!(value(result.parallelizable_batches[0].duration_hours as i128), 3.0);
    assert_eq!(value(result.parallelizable_batches[0].total_effort_hours), 5.0);
}

#[test]
fn integration_linear_chain_marks_all_critical() {
    let mut tasks =
        vec![make_task("A", 1.0, vec![]), make_task("B", 2.0, vec!["A"]), make_task("C", 3.0, vec!["B"])];

    let result = CpmAlgorithm::calculate(&mut tasks);

    assert_eq!(result.total_tasks, 3);
    assert_eq!(result.critical_path, vec!["A", "B", "C"]);
    assert!((value(result.critical_path_duration) - 6.0).abs() < 0.001);
    assert!((value(result.optimal_duration_parallel) - 6.0).abs() < 0.001);
}

#[test]
fn integration_diamond_es_ef_values() {
    let mut tasks = vec![
        make_task("A", 1.0, vec![]),
        make_task("B", 2.0, vec!["A"]),
        make_task("C", 4.0, vec!["A"]),
        make_task("D", 1.0, vec!["B", "C"]),
    ];

    let result = CpmAlgorithm::calculate(&mut tasks);

    let by_id = |id: &str| result.tasks.iter().find(|t| t.id == id).expect("task");

    assert!((value(by_id("A").earliest_start) - 0.0).abs() < 0.001);
    assert!((value(by_id("A").earliest_finish) - 1.0).abs() < 0.001);
    assert!((value(by_id("B").earliest_start) - 1.0).abs() < 0.001);
    assert!((value(by_id("B").earliest_finish) - 3.0).abs() < 0.001);
    assert!((value(by_id("C").earliest_start) - 1.0).abs() < 0.001);
    assert!((value(by_id("C").earliest_finish) - 5.0).abs() < 0.001);
    assert!((value(by_id("D").earliest_start) - 5.0).abs() < 0.001);
    assert!((value(by_id("D").earliest_finish) - 6.0).abs() < 0.001);

    assert!(!by_id("B").is_critical);
    assert!(by_id("A").is_critical);
    assert!(by_id("C").is_critical);
    assert!(by_id("D").is_critical);
}

#[test]
fn integration_parallel_batches_collapse_independent_tasks() {
    let mut tasks = vec![make_task("X", 1.0, vec![]), make_task("Y", 2.0, vec![]), make_task("Z", 4.0, vec![])];
    let result = CpmAlgorithm::calculate(&mut tasks);

    assert_eq!(result.parallelizable_batches.len(), 1);
    let batch = &result.parallelizable_batches[0];
    assert_eq!(batch.tasks.len(), 3);
    assert!((value(batch.duration_hours as i128) - 4.0).abs() < 0.001);
    assert!((value(result.total_duration_sequential) - 7.0).abs() < 0.001);
    assert!(quotient(result.speedup_factor) > 1.7);
}

#[test]
fn integration_bottleneck_roi_ordering() {
    let mut tasks = vec![
        make_task("ROOT", 1.0, vec![]),
        make_task("L1", 2.0, vec!["ROOT"]),
        make_task("L2", 2.0, vec!["ROOT"]),
        make_task("L3", 2.0, vec!["ROOT"]),
        make_task("L4", 2.0, vec!["ROOT"]),
    ];
    let result = CpmAlgorithm::calculate(&mut tasks);

    let first = result.bottlenecks.first().expect("at least one bottleneck");
    assert_eq!(first.task_id, "ROOT");
    assert_eq!(first.blocks_count, 4);
    assert!(quotient(first.roi) >= 7.9);
}

#[test]
fn readme_example_has_its_critical_path() {
    let mut tasks = vec![
        Task::new("design", "Design", TaskKind::Custom { description: "design".into() }, hours(4.0)),
        Task::new("build", "Build", TaskKind::Custom { description: "build".into() }, hours(8.0)).depends_on("design"),
        Task::new("test", "Test", TaskKind::Custom { description: "test".into() }, hours(2.0)).depends_on("build"),
    ];
    let result = CpmAlgorithm::calculate(&mut tasks);
    assert_eq!(result.critical_path, vec!["design", "build", "test"]);
    assert_eq!(value(result.optimal_duration_parallel), 14.0);
}

#[test]
fn latest_times_and_float_are_exact() {
    let mut tasks = vec![
        make_task("A", 1.0, vec![]),
        make_task("B", 2.0, vec!["A"]),
        make_task("C", 4.0, vec!["A"]),
        make_task("D", 1.0, vec!["B", "C"]),
    ];
    CpmAlgorithm::calculate(&mut tasks);
    let b = &tasks[1];
    assert_eq!(b.latest_finish, hours(5.0) as i128);
    assert_eq!(b.latest_start, hours(3.0) as i128);
    assert_eq!(b.float, hours(2.0) as i128);
    let d = &tasks[3];
    assert_eq!(d.latest_finish, hours(6.0) as i128);
    assert_eq!(d.float, 0);
}

#[test]
fn a_start_of_no_effort_still_passes_time_on() {
    let mut tasks = vec![
        make_task("start", 0.0, vec![]),
        make_task("A", 1.0, vec!["start"]),
        make_task("B", 5.0, vec!["start"]),
        make_task("end", 0.0, vec!["A", "B"]),
    ];
    let result = CpmAlgorithm::calculate(&mut tasks);
    assert_eq!(tasks[2].earliest_finish, hours(5.0) as i128);
    assert_eq!(tasks[3].earliest_start, hours(5.0) as i128);
    assert_eq!(result.critical_path, vec!["start", "B", "end"]);
}

#[test]
fn unknown_dependencies_are_unscheduled() {
    let mut tasks = vec![
        make_task("A", 1.0, vec![]),
        make_task("lost", 1.0, vec!["nowhere"]),
        make_task("after", 1.0, vec!["lost"]),
    ];
    let result = CpmAlgorithm::calculate(&mut tasks);
    assert_eq!(result.unscheduled, vec!["after", "lost"]);
}

#[test]
fn a_dependency_listed_twice_counts_once() {
    let mut tasks = vec![make_task("A", 1.0, vec![]), make_task("B", 1.0, vec!["A", "A"])];
    let result = CpmAlgorithm::calculate(&mut tasks);
    assert!(result.unscheduled.is_empty());
    assert_eq!(tasks[1].earliest_start, hours(1.0) as i128);
    assert_eq!(tasks[1].earliest_finish, hours(2.0) as i128);
    assert_eq!(result.critical_path, vec!["A", "B"]);
}

#[test]
fn parallel_critical_chains_last_as_long_as_one() {
    let mut tasks = vec![make_task("A", 2.0, vec![]), make_task("B", 2.0, vec![])];
    let result = CpmAlgorithm::calculate(&mut tasks);
    assert_eq!(result.critical_path, vec!["A", "B"]);
    assert_eq!(result.critical_path_duration, hours(2.0) as i128);
    assert_eq!(result.optimal_duration_parallel, hours(2.0) as i128);
    assert_eq!(result.speedup_factor, Ratio { num: hours(4.0) as i128, den: hours(2.0) as i128 });
}

#[test]
fn the_optimum_does_not_wait_for_whole_batches() {
    let mut tasks = vec![make_task("A", 1.0, vec![]), make_task("B", 5.0, vec![]), make_task("C", 1.0, vec!["A"])];
    let result = CpmAlgorithm::calculate(&mut tasks);
    assert_eq!(result.parallelizable_batches.len(), 2);
    let one_by_one: i64 = result.parallelizable_batches.iter().map(|b| b.duration_hours).sum();
    assert_eq!(one_by_one, hours(6.0));
    assert_eq!(result.total_duration_sequential, hours(7.0) as i128);
    assert_eq!(result.optimal_duration_parallel, hours(5.0) as i128);
    assert_eq!(result.critical_path_duration, hours(5.0) as i128);
}

#[test]
fn the_critical_path_lists_dependencies_first() {
    let mut tasks = vec![make_task("B", 1.0, vec!["A"]), make_task("A", 0.0, vec![])];
    let result = CpmAlgorithm::calculate(&mut tasks);
    assert_eq!(result.critical_path, vec!["A", "B"]);

    let mut tasks = vec![
        make_task("C", 1.0, vec!["B"]),
        make_task("B", 0.0, vec!["A"]),
        make_task("A", 0.0, vec!["S"]),
        make_task("S", 3.0, vec![]),
    ];
    let result = CpmAlgorithm::calculate(&mut tasks);
    assert_eq!(result.critical_path, vec!["S", "A", "B", "C"]);
    let names: Vec<Vec<String>> = result.parallelizable_batches.iter().map(|b| b.tasks.clone()).collect();
    assert_eq!(names, vec![vec!["S"], vec!["A"], vec!["B"], vec!["C"]]);
    let starts: Vec<i128> = result.parallelizable_batches.iter().map(|b| b.start_time).collect();
    assert_eq!(starts, vec![0, hours(3.0) as i128, hours(3.0) as i128, hours(3.0) as i128]);
}

#[test]
fn recalculating_gives_the_same_times() {
    let mut tasks = vec![
        make_task("A", 1.5, vec![]),
        make_task("B", 2.25, vec!["A"]),
        make_task("C", 0.75, vec!["A"]),
        make_task("D", 1.0, vec!["B", "C"]),
    ];
    let first = CpmAlgorithm::calculate(&mut tasks);
    let again = CpmAlgorithm::calculate(&mut tasks);
    assert_eq!(first.critical_path, again.critical_path);
    for (a, b) in first.tasks.iter().zip(again.tasks.iter()) {
        assert_eq!(a.earliest_start, b.earliest_start);
        assert_eq!(a.latest_finish, b.latest_finish);
        assert_eq!(a.float, b.float);
    }
}

#[test]
fn batches_are_numbered_by_start() {
    let mut tasks = vec![
        make_task("A", 1.0, vec![]),
        make_task("B", 1.0, vec![]),
        make_task("C", 1.0, vec!["A"]),
        make_task("D", 1.0, vec!["B"]),
    ];
    let result = CpmAlgorithm::calculate(&mut tasks);
    assert_eq!(result.parallelizable_batches.len(), 2);
    assert_eq!(result.parallelizable_batches[0].id, "Batch-0");
    assert_eq!(result.parallelizable_batches[1].id, "Batch-1");
    assert_eq!(result.parallelizable_batches[1].tasks, vec!["C", "D"]);
    assert_eq!(result.parallelizable_batches[1].start_time, hours(1.0) as i128);
}

#[test]
fn a_batch_holds_one_start_only() {
    let mut tasks = vec![make_task("A", 0.04, vec![]), make_task("B", 1.0, vec!["A"])];
    let result = CpmAlgorithm::calculate(&mut tasks);
    assert_eq!(result.parallelizable_batches.len(), 2);
    assert_eq!(result.parallelizable_batches[0].tasks, vec!["A"]);
    assert_eq!(result.parallelizable_batches[1].tasks, vec!["B"]);
    assert_eq!(result.parallelizable_batches[1].start_time, hours(0.04) as i128);
}

#[test]
fn tasks_of_different_depth_share_a_batch() {
    let mut tasks = vec![
        make_task("A", 2.0, vec![]),
        make_task("B", 1.0, vec![]),
        make_task("C", 1.0, vec!["B"]),
        make_task("D", 1.0, vec!["A"]),
        make_task("E", 1.0, vec!["C"]),
    ];
    let result = CpmAlgorithm::calculate(&mut tasks);
    let names: Vec<Vec<String>> = result.parallelizable_batches.iter().map(|b| b.tasks.clone()).collect();
    assert_eq!(names, vec![vec!["A", "B"], vec!["C"], vec!["D", "E"]]);
}

#[test]
fn critical_without_float_only() {
    let mut tasks = vec![make_task("long", 1.0, vec![]), make_task("short", 1.0, vec![])];
    let result = CpmAlgorithm::calculate(&mut tasks);
    assert_eq!(result.critical_path, vec!["long", "short"]);

    tasks[1].effort_hours -= 1;
    let result = CpmAlgorithm::calculate(&mut tasks);
    assert_eq!(tasks[1].float, 1);
    assert_eq!(result.critical_path, vec!["long"]);
}

#[test]
fn bottlenecks_count_transitive_successors_once() {
    let mut tasks = vec![
        make_task("A", 2.0, vec![]),
        make_task("B", 1.0, vec!["A"]),
        make_task("C", 1.0, vec!["A"]),
        make_task("D", 4.0, vec!["B", "C"]),
    ];
    let result = CpmAlgorithm::calculate(&mut tasks);
    let ids: Vec<&str> = result.bottlenecks.iter().map(|b| b.task_id.as_str()).collect();
    assert_eq!(ids, vec!["B", "C", "A"]);
    let a = &result.bottlenecks[2];
    assert_eq!(a.blocks_count, 3);
    assert_eq!(a.blocked_hours, hours(6.0) as i128);
    assert_eq!(quotient(a.roi), 3.0);
}

#[test]
fn every_task_is_in_one_batch() {
    let mut tasks = vec![
        make_task("A", 0.02, vec![]),
        make_task("B", 0.02, vec!["A"]),
        make_task("C", 2.0, vec!["A"]),
        make_task("D", 0.0, vec!["B", "C"]),
        make_task("E", 1.0, vec![]),
    ];
    let result = CpmAlgorithm::calculate(&mut tasks);
    let mut listed: Vec<String> = result.parallelizable_batches.iter().flat_map(|b| b.tasks.clone()).collect();
    listed.sort();
    assert_eq!(listed, vec!["A", "B", "C", "D", "E"]);
    assert!(result.optimal_duration_parallel <= result.total_duration_sequential);
    assert!(result.speedup_factor.num >= result.speedup_factor.den);
}

#[test]
fn a_chain_without_float_takes_the_whole_project() {
    let mut tasks = vec![
        make_task("A", 1.0, vec![]),
        make_task("B", 2.0, vec!["A"]),
        make_task("C", 4.0, vec!["A"]),
        make_task("D", 1.0, vec!["B", "C"]),
    ];
    let result = CpmAlgorithm::calculate(&mut tasks);
    assert_eq!(result.critical_path, vec!["A", "C", "D"]);
    let total: i128 = tasks.iter().filter(|t| t.float == 0).map(|t| t.effort_hours as i128).sum();
    assert_eq!(total, cpm_planner::diameter(&tasks));
}

#[test]
fn an_empty_schedule_is_blank() {
    let mut tasks: Vec<Task> = vec![];
    let result = CpmAlgorithm::calculate(&mut tasks);
    assert_eq!(result.speedup_factor, Ratio { num: 0, den: 1 });
    assert!(result.unscheduled.is_empty() && result.tasks.is_empty() && result.bottlenecks.is_empty());
}

#[test]
fn what_cannot_be_scheduled_still_limits_what_it_waits_for() {
    let mut tasks = vec![make_task("A", 1.0, vec![]), make_task("B", 2.0, vec!["A", "missing"])];
    CpmAlgorithm::calculate(&mut tasks);
    assert_eq!(value(tasks[0].earliest_finish), 1.0);
    assert_eq!(value(tasks[1].latest_finish), value(tasks[1].earliest_finish));
    assert_eq!(tasks[0].latest_finish, tasks[1].latest_start);
    assert_eq!(value(tasks[0].latest_finish), 1.0);

    let mut tasks = vec![make_task("A", 0.0, vec![]), make_task("B", 5.0, vec!["A", "missing"])];
    CpmAlgorithm::calculate(&mut tasks);
    assert_eq!(value(tasks[0].float), -5.0);
}

#[test]
fn circles_without_a_way_out_do_not_limit_anything() {
    let mut tasks = vec![
        make_task("A", 1.0, vec![]),
        make_task("B", 2.0, vec!["A"]),
        make_task("C", 3.0, vec!["B"]),
        make_task("X", 4.0, vec!["B", "Y"]),
        make_task("Y", 4.0, vec!["X"]),
    ];
    let result = CpmAlgorithm::calculate(&mut tasks);
    assert_eq!(result.unscheduled, vec!["X", "Y"]);
    let end = tasks[2].latest_finish;
    assert_eq!(tasks[1].latest_finish, tasks[2].latest_start);
    assert_eq!(tasks[0].latest_finish, tasks[1].latest_start);
    assert_eq!(tasks[3].latest_finish, end);
    assert_eq!(tasks[4].latest_finish, end);
}
