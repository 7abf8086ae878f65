use cpm_planner::paths::shortest_name;
use cpm_planner::plan::{Deliverable, PlanGraph, PlannerError};
use cpm_planner::text::{decimal, join, signed_decimal, text_lt};
use cpm_planner::validate::validate_graph;

fn part(id: &str, files: &[&str], needs: &[&str]) -> Deliverable {
    Deliverable {
        id: id.to_string(),
        owned_files: files.iter().map(|t| t.to_string()).collect(),
        prerequisites: needs.iter().map(|t| t.to_string()).collect(),
        estimated_effort_hours: None,
        metadata: "null".to_string(),
    }
}

fn verdict(parts: Vec<Deliverable>) -> Result<(), String> {
    match validate_graph(&PlanGraph { deliverables: parts, max_chained_dispatch: None }) {
        Ok(()) => Ok(()),
        Err(PlannerError::InvalidGraph { reason }) => Err(reason),
        Err(other) => panic!("unexpected error {other:?}"),
    }
}

#[test]
fn sound_graphs_pass() {
    assert_eq!(verdict(vec![]), Ok(()));
    assert_eq!(verdict(vec![part("b", &["y"], &["a"]), part("a", &["x"], &[])]), Ok(()));
}

#[test]
fn each_fault_has_its_message() {
    assert_eq!(
        verdict(vec![part("a", &[], &["zz"]), part("a", &[], &[])]),
        Err("duplicate deliverable id 'a'".to_string())
    );
    assert_eq!(
        verdict(vec![part("a", &["f"], &[]), part("b", &["f"], &["x"])]),
        Err("prerequisite 'x' for deliverable 'b' does not exist".to_string())
    );
    assert_eq!(
        verdict(vec![part("a", &["f"], &["b"]), part("b", &["g", "f"], &["a"])]),
        Err("file 'f' is owned by both 'a' and 'b'".to_string())
    );
    assert_eq!(
        verdict(vec![part("a", &["f", "f"], &[])]),
        Err("file 'f' is owned by both 'a' and 'a'".to_string())
    );
    assert_eq!(
        verdict(vec![part("c", &[], &["b"]), part("b", &[], &["c"]), part("a", &[], &[])]),
        Err("cycle detected in prerequisite graph involving deliverables: [b, c]".to_string())
    );
    assert_eq!(
        verdict(vec![part("a", &[], &["a"])]),
        Err("cycle detected in prerequisite graph involving deliverables: [a]".to_string())
    );
}

#[test]
fn every_error_starts_with_its_code() {
    let t = |s: &str| s.to_string();
    let errors = vec![
        ("LOCK_HELD:", PlannerError::LockHeld { deliverable_id: t("d"), holder: t("c") }),
        ("LOCK_NOT_HELD:", PlannerError::LockNotHeld { caller_id: t("c"), deliverable_id: t("d") }),
        ("LOCK_EXPIRED:", PlannerError::LockExpired { deliverable_id: t("d"), expired_at: -4 }),
        ("OVERLAP_DETECTED:", PlannerError::OverlapDetected { file: t("f"), deliverable_id: t("d") }),
        ("MISSING_PREREQUISITE:", PlannerError::MissingPrerequisite { deliverable_id: t("d"), prerequisite: t("p") }),
        ("PLAN_NOT_FOUND:", PlannerError::PlanNotFound { plan_id: t("p") }),
        ("DELIVERABLE_NOT_FOUND:", PlannerError::DeliverableNotFound { plan_id: t("p"), deliverable_id: t("d") }),
        ("INVALID_GRAPH:", PlannerError::InvalidGraph { reason: t("r") }),
        ("BACKEND_ERROR:", PlannerError::BackendError(t("r"))),
        ("LAPSE_LIMIT:", PlannerError::LapseLimit { deliverable_id: t("d"), lapse_count: 10, max_lapses: 10 }),
    ];
    for (code, error) in errors {
        assert!(error.to_string().starts_with(code), "{} does not start with {code}", error.to_string());
    }
    let late = PlannerError::LockExpired { deliverable_id: t("d"), expired_at: -4 };
    assert!(late.to_string().ends_with("-4"));
}

#[test]
fn numbers_are_written_in_decimal() {
    for n in [0, 7, 10, 1_000_000, u64::MAX] {
        assert_eq!(decimal(n), n.to_string());
    }
    for n in [0, -1, 42, i64::MAX, i64::MIN] {
        assert_eq!(signed_decimal(n), n.to_string());
    }
}

#[test]
fn texts_compare_and_join() {
    for a in ["", "a", "ab", "b", "é", "\u{1F600}"] {
        for b in ["", "a", "ab", "b", "é", "\u{1F600}"] {
            assert_eq!(text_lt(a, b), a < b);
        }
    }
    assert_eq!(join(&vec!["a".to_string(), "b".to_string()], ", "), "a, b");
    assert_eq!(join(&vec![], ", "), "");
}

#[test]
fn file_names_compare_as_paths() {
    let names = [
        "a/b", "a//b", "a/b/", "a/./b", "a/b/.", "./a/b", ".//a/./b", "/a/b", "//a/b", "/./a/b", "a/../b", "", ".", "./", "./.", "/",
        "/.", "..", "a", "a.", ".a", "a/.b", "é/ü", "é//ü/",
    ];
    for x in names {
        for y in names {
            assert_eq!(
                shortest_name(x) == shortest_name(y),
                std::path::Path::new(x) == std::path::Path::new(y),
                "{x:?} and {y:?}"
            );
        }
    }
    assert_eq!(shortest_name("a//b/./c/"), "a/b/c");
    assert_eq!(shortest_name("./a"), "./a");
    assert_eq!(shortest_name("//"), "/");
}
