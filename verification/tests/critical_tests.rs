use beadgraph::critical::{critical_path_internal, AnalysisError, BeadNode};

fn node(id: &str, blocked_by: Vec<&str>, blocks: Vec<&str>, duration: Option<u32>) -> BeadNode {
    BeadNode {
        id: id.to_string(),
        title: id.to_uppercase(),
        status: "open".to_string(),
        priority: 0,
        blocked_by: blocked_by.into_iter().map(|s| s.to_string()).collect(),
        blocks: blocks.into_iter().map(|s| s.to_string()).collect(),
        duration,
    }
}

#[test]
fn test_critical_path_linear() {
    let beads = vec![
        node("a", vec![], vec!["b"], Some(10)),
        node("b", vec!["a"], vec!["c"], Some(20)),
        node("c", vec!["b"], vec![], Some(15)),
    ];

    let result = critical_path_internal(&beads).unwrap();

    assert_eq!(result.total_duration, 45);
    assert_eq!(result.path.len(), 3);
    assert_eq!(result.path[0], "a");
    assert_eq!(result.path[1], "b");
    assert_eq!(result.path[2], "c");

    // All nodes are critical (no slack)
    for (_, s) in &result.slack {
        assert_eq!(*s, 0);
    }
}

#[test]
fn test_critical_path_with_slack() {
    // a (10) -> c (5)
    // b (30) -> c (5)
    // Critical path: b -> c (35 total)
    // a has slack of 20
    let beads = vec![
        node("a", vec![], vec!["c"], Some(10)),
        node("b", vec![], vec!["c"], Some(30)),
        node("c", vec!["a", "b"], vec![], Some(5)),
    ];

    let result = critical_path_internal(&beads).unwrap();

    assert_eq!(result.total_duration, 35);
    assert_eq!(result.slack_of(&"a".to_string()), Some(20));
    assert_eq!(result.slack_of(&"b".to_string()), Some(0));
    assert_eq!(result.slack_of(&"c".to_string()), Some(0));
    assert_eq!(result.path, vec!["b".to_string(), "c".to_string()]);
}

#[test]
fn test_cpm_empty_graph() {
    let beads: Vec<BeadNode> = vec![];
    let result = critical_path_internal(&beads).unwrap();
    assert_eq!(result.total_duration, 0);
    assert!(result.path.is_empty());
    assert!(result.slack.is_empty());
}

#[test]
fn test_cpm_mutual_dependency_fails() {
    let beads = vec![
        node("a", vec!["b"], vec!["b"], Some(1)),
        node("b", vec!["a"], vec!["a"], Some(1)),
    ];
    let result = critical_path_internal(&beads);
    assert_eq!(result.unwrap_err(), AnalysisError::CycleDetected);
}

#[test]
fn test_cpm_self_dependency_fails() {
    let beads = vec![node("a", vec!["a"], vec![], Some(1))];
    let result = critical_path_internal(&beads);
    assert!(matches!(result, Err(AnalysisError::CycleDetected)));
}

#[test]
fn test_cpm_determinism() {
    let beads = vec![
        node("a", vec![], vec!["c"], Some(10)),
        node("b", vec![], vec!["c"], Some(30)),
        node("c", vec!["a", "b"], vec![], Some(5)),
    ];
    let first = critical_path_internal(&beads).unwrap();
    let second = critical_path_internal(&beads).unwrap();
    assert_eq!(first.total_duration, second.total_duration);
    assert_eq!(first.path, second.path);
    assert_eq!(first.slack, second.slack);
}

#[test]
fn test_cpm_dangling_references_ignored() {
    // references to absent ids contribute nothing, in either direction
    let beads = vec![
        node("a", vec!["ghost"], vec!["b", "phantom"], Some(10)),
        node("b", vec!["a"], vec![], Some(20)),
    ];
    let result = critical_path_internal(&beads).unwrap();
    assert_eq!(result.total_duration, 30);
    assert_eq!(result.slack_of(&"a".to_string()), Some(0));
    assert_eq!(result.slack_of(&"b".to_string()), Some(0));
    assert_eq!(result.path, vec!["a".to_string(), "b".to_string()]);
}

#[test]
fn test_cpm_default_duration_is_one() {
    let beads = vec![
        node("a", vec![], vec!["b"], None),
        node("b", vec!["a"], vec![], None),
    ];
    let result = critical_path_internal(&beads).unwrap();
    assert_eq!(result.total_duration, 2);
}

#[test]
fn test_slack_of_missing_id() {
    let beads = vec![node("a", vec![], vec![], Some(3))];
    let result = critical_path_internal(&beads).unwrap();
    assert_eq!(result.slack_of(&"zz".to_string()), None);
}

#[test]
fn test_cpm_parallel_chains_pick_first_start() {
    // two equally critical chains; the path follows the one whose start
    // comes first in the execution order
    let beads = vec![
        node("p", vec![], vec!["q"], Some(5)),
        node("q", vec!["p"], vec![], Some(5)),
        node("x", vec![], vec!["y"], Some(5)),
        node("y", vec!["x"], vec![], Some(5)),
    ];
    let result = critical_path_internal(&beads).unwrap();
    assert_eq!(result.total_duration, 10);
    assert_eq!(result.path, vec!["p".to_string(), "q".to_string()]);
    for (_, s) in &result.slack {
        assert_eq!(*s, 0);
    }
}
