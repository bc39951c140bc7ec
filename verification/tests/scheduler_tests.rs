use anchor_scheduler::scheduler::{calculate_backwards_schedule, ScheduleError, ScheduleRequest, Task};

fn task(id: &str, name: &str, days: i64, minutes: Option<i64>, deps: &[&str]) -> Task {
    Task {
        id: id.to_string(),
        name: name.to_string(),
        duration_days: days,
        duration_minutes: minutes,
        dependencies: deps.iter().map(|d| d.to_string()).collect(),
        completed: false,
        notes: None,
        is_milestone: false,
        subtasks: vec![],
    }
}

fn anchors(pairs: &[(&str, &str)]) -> Vec<(String, String)> {
    pairs.iter().map(|(k, v)| (k.to_string(), v.to_string())).collect()
}

#[test]
fn test_simple_chain_with_days() {
    let request = ScheduleRequest {
        tasks: vec![
            task("a", "Task A", 5, None, &[]),
            task("b", "Task B", 3, None, &["a"]),
        ],
        anchors: anchors(&[("b", "2026-01-15")]),
    };

    let result = calculate_backwards_schedule(request).expect("Should work with days");
    assert_eq!(result.len(), 2);
}

#[test]
fn test_minute_granularity() {
    // Task A (30 mins) -> Task B (60 mins) -> Anchor at 2026-01-15T10:00:00
    // Expected: B starts at 09:00, A starts at 08:30
    let request = ScheduleRequest {
        tasks: vec![
            task("a", "Task A", 0, Some(30), &[]),
            task("b", "Task B", 0, Some(60), &["a"]),
        ],
        anchors: anchors(&[("b", "2026-01-15T10:00:00")]),
    };

    let result = calculate_backwards_schedule(request).expect("Should work with minutes");

    let task_a = result.iter().find(|t| t.id == "a").unwrap();
    let task_b = result.iter().find(|t| t.id == "b").unwrap();

    assert!(task_b.end_date.contains("10:00:00"));
    assert!(task_b.start_date.contains("09:00:00"));
    assert!(task_a.end_date.contains("09:00:00"));
    assert!(task_a.start_date.contains("08:30:00"));
}

#[test]
fn test_disconnected_subgraph() {
    let request = ScheduleRequest {
        tasks: vec![
            task("a", "Task A", 5, None, &[]),
            task("b", "Task B", 3, None, &["a"]),
        ],
        anchors: anchors(&[("a", "2026-01-15")]),
    };

    let result = calculate_backwards_schedule(request);
    assert!(result.is_err());
    match result {
        Err(ScheduleError::NoEndDateComputed(msg)) => {
            assert!(msg.contains("Task B"));
        }
        _ => panic!("Expected NoEndDateComputed error"),
    }
}

#[test]
fn test_anchor_with_consumer_constraint() {
    // A -> B.
    // Anchor A at T=20 (Late).
    // Anchor B at T=10 (Early).
    // Duration 1 each (in days, so 24h).
    // A must finish by its own anchor (20), and by B's start (B ends at 10,
    // so B starts at 9). Expected: A.end_date = 2026-01-09...
    let tasks = vec![
        task("a", "Task A", 1, None, &[]),
        task("b", "Task B", 1, None, &["a"]),
    ];
    let anchor_pairs = anchors(&[
        ("a", "2026-01-20T00:00:00"),
        ("b", "2026-01-10T00:00:00"),
    ]);

    // Run multiple times to catch potential iteration-order effects
    for _ in 0..20 {
        let result = calculate_backwards_schedule(ScheduleRequest {
            tasks: tasks.clone(),
            anchors: anchor_pairs.clone(),
        })
        .expect("Schedule failed");

        let task_a = result.iter().find(|t| t.id == "a").unwrap();

        // Check if it respected the tighter constraint
        assert!(
            task_a.end_date.contains("2026-01-09"),
            "Task A end_date was {}, expected 2026-01-09",
            task_a.end_date
        );
    }
}

#[test]
fn test_empty_project() {
    let request = ScheduleRequest {
        tasks: vec![],
        anchors: vec![],
    };

    let result = calculate_backwards_schedule(request).expect("Should handle empty project");
    assert!(result.is_empty());
}

#[test]
fn simple_chain_exact_dates() {
    let request = ScheduleRequest {
        tasks: vec![
            task("a", "Task A", 5, None, &[]),
            task("b", "Task B", 3, None, &["a"]),
        ],
        anchors: anchors(&[("b", "2026-01-15")]),
    };

    let result = calculate_backwards_schedule(request).unwrap();
    let a = &result[0];
    let b = &result[1];
    assert_eq!(b.end_date, "2026-01-15T23:59:59");
    assert_eq!(b.start_date, "2026-01-12T23:59:59");
    assert_eq!(a.end_date, "2026-01-12T23:59:59");
    assert_eq!(a.start_date, "2026-01-07T23:59:59");
    assert!(a.is_critical && b.is_critical);
    assert_eq!(a.slack_minutes, 0);
    assert_eq!(b.slack_minutes, 0);
}

#[test]
fn diamond_with_slack() {
    let request = ScheduleRequest {
        tasks: vec![
            task("a", "A", 2, None, &[]),
            task("b", "B", 1, None, &["a"]),
            task("c", "C", 3, None, &["a"]),
            task("d", "D", 1, None, &["b", "c"]),
        ],
        anchors: anchors(&[("d", "2026-01-10")]),
    };

    let result = calculate_backwards_schedule(request).unwrap();
    let b = result.iter().find(|t| t.id == "b").unwrap();
    let c = result.iter().find(|t| t.id == "c").unwrap();
    // C is on the critical path; B has two days of slack
    assert_eq!(c.slack_minutes, 0);
    assert!(c.is_critical);
    assert_eq!(b.slack_minutes, 2880);
    assert!(!b.is_critical);
}

#[test]
fn unknown_anchor_rejected() {
    let request = ScheduleRequest {
        tasks: vec![task("a", "Task A", 1, None, &[])],
        anchors: anchors(&[("z", "2026-01-15")]),
    };
    match calculate_backwards_schedule(request) {
        Err(ScheduleError::AnchorTaskNotFound(id)) => assert_eq!(id, "z"),
        other => panic!("expected AnchorTaskNotFound, got {:?}", other),
    }
}

#[test]
fn invalid_anchor_date_rejected() {
    let request = ScheduleRequest {
        tasks: vec![task("a", "Task A", 1, None, &[])],
        anchors: anchors(&[("a", "not-a-date")]),
    };
    match calculate_backwards_schedule(request) {
        Err(ScheduleError::InvalidAnchorDate { task_id, details }) => {
            assert_eq!(task_id, "a");
            assert_eq!(
                details,
                "Could not parse date 'not-a-date', expected %Y-%m-%dT%H:%M:%S or %Y-%m-%d"
            );
        }
        other => panic!("expected InvalidAnchorDate, got {:?}", other),
    }
}

#[test]
fn unknown_dependency_rejected() {
    let request = ScheduleRequest {
        tasks: vec![task("a", "Task A", 1, None, &["ghost"])],
        anchors: anchors(&[("a", "2026-01-15")]),
    };
    match calculate_backwards_schedule(request) {
        Err(ScheduleError::TaskNotFound(id)) => assert_eq!(id, "ghost"),
        other => panic!("expected TaskNotFound, got {:?}", other),
    }
}

#[test]
fn cycle_rejected() {
    let request = ScheduleRequest {
        tasks: vec![
            task("a", "Task A", 1, None, &["b"]),
            task("b", "Task B", 1, None, &["a"]),
        ],
        anchors: anchors(&[("a", "2026-01-15")]),
    };
    match calculate_backwards_schedule(request) {
        Err(ScheduleError::NoEndDateComputed(msg)) => {
            assert!(msg.contains("Task A"));
            assert!(msg.contains("Task B"));
            assert!(msg.contains("disconnected?"));
        }
        other => panic!("expected NoEndDateComputed, got {:?}", other),
    }
}

#[test]
fn output_preserves_input_order() {
    let request = ScheduleRequest {
        tasks: vec![
            task("x", "X", 1, None, &[]),
            task("y", "Y", 1, None, &["x"]),
            task("z", "Z", 1, None, &["y"]),
        ],
        anchors: anchors(&[("z", "2026-02-01")]),
    };
    let result = calculate_backwards_schedule(request).unwrap();
    let ids: Vec<&str> = result.iter().map(|t| t.id.as_str()).collect();
    assert_eq!(ids, vec!["x", "y", "z"]);
}

#[test]
fn repeated_calls_are_identical() {
    let tasks = vec![
        task("a", "A", 2, None, &[]),
        task("b", "B", 1, None, &["a"]),
        task("c", "C", 3, None, &["a"]),
        task("d", "D", 1, None, &["b", "c"]),
    ];
    let anchor_pairs = anchors(&[("d", "2026-01-10"), ("b", "2026-01-20T00:00:00")]);
    let first = calculate_backwards_schedule(ScheduleRequest {
        tasks: tasks.clone(),
        anchors: anchor_pairs.clone(),
    })
    .unwrap();
    for _ in 0..10 {
        let again = calculate_backwards_schedule(ScheduleRequest {
            tasks: tasks.clone(),
            anchors: anchor_pairs.clone(),
        })
        .unwrap();
        assert_eq!(first.len(), again.len());
        for (x, y) in first.iter().zip(again.iter()) {
            assert_eq!(x.id, y.id);
            assert_eq!(x.start_date, y.start_date);
            assert_eq!(x.end_date, y.end_date);
            assert_eq!(x.slack_minutes, y.slack_minutes);
            assert_eq!(x.is_critical, y.is_critical);
        }
    }
}

#[test]
fn passthrough_fields_flow_unchanged() {
    let mut t = task("a", "Task A", 1, None, &[]);
    t.completed = true;
    t.notes = Some("remember the milk".to_string());
    t.is_milestone = true;
    let request = ScheduleRequest {
        tasks: vec![t],
        anchors: anchors(&[("a", "2026-01-15")]),
    };
    let result = calculate_backwards_schedule(request).unwrap();
    assert!(result[0].completed);
    assert_eq!(result[0].notes.as_deref(), Some("remember the milk"));
    assert!(result[0].is_milestone);
    assert_eq!(result[0].name, "Task A");
}

#[test]
fn negative_duration_still_satisfies_edges() {
    // A negative duration means the finish precedes the start; the edge
    // constraints still hold and the slack stays non-negative.
    let request = ScheduleRequest {
        tasks: vec![
            task("a", "A", 0, Some(-60), &[]),
            task("b", "B", 1, None, &["a"]),
        ],
        anchors: anchors(&[("b", "2026-01-15T00:00:00")]),
    };
    let result = calculate_backwards_schedule(request).unwrap();
    let a = &result[0];
    assert_eq!(a.end_date, "2026-01-14T00:00:00");
    assert_eq!(a.start_date, "2026-01-14T01:00:00");
    assert!(result.iter().all(|t| t.slack_minutes >= 0));
}

#[test]
fn anchors_on_every_node_tighten() {
    // Anchors may sit on non-sinks; only a tighter constraint overrides.
    let request = ScheduleRequest {
        tasks: vec![
            task("a", "A", 1, None, &[]),
            task("b", "B", 1, None, &["a"]),
            task("c", "C", 1, None, &["b"]),
        ],
        anchors: anchors(&[
            ("a", "2026-01-02T00:00:00"),
            ("c", "2026-01-09T00:00:00"),
        ]),
    };
    let result = calculate_backwards_schedule(request).unwrap();
    let a = result.iter().find(|t| t.id == "a").unwrap();
    // C forces B to end by 01-08 and A to end by 01-07, but A's own anchor
    // at 01-02 is tighter.
    assert_eq!(a.end_date, "2026-01-02T00:00:00");
    assert_eq!(a.start_date, "2026-01-01T00:00:00");
}
