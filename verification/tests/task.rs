use cpm_planner::task::{CriticalPathResult, Task, TaskKind, TaskStatus, TICKS_PER_HOUR};

fn hours(h: f64) -> i64 {
    (h * TICKS_PER_HOUR as f64) as i64
}

#[test]
fn test_task_creation() {
    let task = Task::new(
        "SPEC-001",
        "Implement login flow",
        TaskKind::ImplementSpec { spec_id: "auth.login".to_string() },
        hours(2.0),
    )
    .depends_on("SPEC-000")
    .affects_file("src/auth/login.rs")
    .affects_file("src/auth/mod.rs");

    assert_eq!(task.id, "SPEC-001");
    assert_eq!(task.effort_hours, hours(2.0));
    assert_eq!(task.dependencies, vec!["SPEC-000"]);
    assert_eq!(task.affected_files, vec!["src/auth/login.rs", "src/auth/mod.rs"]);
}

#[test]
fn test_task_kind_display() {
    assert_eq!(TaskKind::ImplementSpec { spec_id: "auth.login".to_string() }.to_string(), "SPEC-auth.login");
    assert_eq!(TaskKind::BreakCycle { cycle: vec!["a".to_string(), "b".to_string()] }.to_string(), "CYCLE");
    assert_eq!(TaskKind::Custom { description: "anything".to_string() }.to_string(), "CUSTOM");
}

#[test]
fn test_get_task() {
    let result = CriticalPathResult {
        total_tasks: 2,
        tasks: vec![
            Task { id: "T1".to_string(), effort_hours: hours(5.0), ..Default::default() },
            Task { id: "T2".to_string(), effort_hours: hours(3.0), ..Default::default() },
        ],
        ..Default::default()
    };

    assert_eq!(result.get_task("T2").expect("T2 present").effort_hours, hours(3.0));
    assert!(result.get_task("missing").is_none());
}

#[test]
fn status_names() {
    assert_eq!(TaskStatus::default(), TaskStatus::Pending);
    assert_eq!(TaskStatus::Pending.to_string(), "pending");
    assert_eq!(TaskStatus::Ready.to_string(), "ready");
    assert_eq!(TaskStatus::InProgress.to_string(), "in_progress");
    assert_eq!(TaskStatus::Completed.to_string(), "completed");
    assert_eq!(TaskStatus::Blocked.to_string(), "blocked");
}
