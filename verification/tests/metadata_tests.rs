use anchor_scheduler::config::AppConfig;
use anchor_scheduler::dates::{parse_anchor_seconds, render_datetime_seconds};
use anchor_scheduler::project::{progress_reference, project_metadata, widget_tasks, Project};
use anchor_scheduler::scheduler::{calculate_backwards_schedule, ScheduleRequest, Task};

fn task(id: &str, name: &str, days: i64, deps: &[&str]) -> Task {
    Task {
        id: id.to_string(),
        name: name.to_string(),
        duration_days: days,
        duration_minutes: None,
        dependencies: deps.iter().map(|d| d.to_string()).collect(),
        completed: false,
        notes: None,
        is_milestone: false,
        subtasks: vec![],
    }
}

fn ts(s: &str) -> i64 {
    chrono::NaiveDateTime::parse_from_str(s, "%Y-%m-%dT%H:%M:%S")
        .unwrap()
        .and_utc()
        .timestamp()
}

fn project(tasks: Vec<Task>, anchors: &[(&str, &str)]) -> Project {
    Project {
        id: "p1".to_string(),
        name: "Plan".to_string(),
        created_at: "2026-01-01T00:00:00".to_string(),
        last_modified: "2026-01-02T00:00:00".to_string(),
        tasks,
        anchors: anchors.iter().map(|(k, v)| (k.to_string(), v.to_string())).collect(),
    }
}

#[test]
fn date_codec_round_trip() {
    let t = parse_anchor_seconds("2026-01-15T10:30:00").unwrap();
    assert_eq!(render_datetime_seconds(t), "2026-01-15T10:30:00");
    // a bare date is taken at end of day
    let d = parse_anchor_seconds("2026-01-15").unwrap();
    assert_eq!(render_datetime_seconds(d), "2026-01-15T23:59:59");
    assert!(parse_anchor_seconds("15/01/2026").is_none());
}

#[test]
fn default_config_uses_system_theme() {
    assert_eq!(AppConfig::default().theme, "system");
}

#[test]
fn metadata_empty_without_anchors() {
    let m = project_metadata(project(vec![task("a", "A", 1, &[])], &[]), ts("2026-01-01T00:00:00"));
    assert_eq!(m.status, "empty");
    assert!(m.next_deadline.is_none());
    assert!(m.current_focus.is_none());
    assert_eq!(m.task_count, 1);
    assert_eq!(m.id, "p1");
    assert_eq!(m.name, "Plan");
}

#[test]
fn metadata_upcoming_task_on_track() {
    let now = ts("2026-01-10T00:00:00");
    let m = project_metadata(
        project(vec![task("a", "Task A", 1, &[])], &[("a", "2026-01-15T00:00:00")]),
        now,
    );
    // the schedule's focus task refines the anchor-derived deadline
    assert_eq!(m.next_deadline.as_deref(), Some("2026-01-15 00:00"));
    assert_eq!(m.status, "on_track");
    assert_eq!(m.current_focus.as_deref(), Some("Task A (starts in 4 days)"));
}

#[test]
fn metadata_urgent_and_active() {
    let now = ts("2026-01-14T12:00:00");
    let m = project_metadata(
        project(vec![task("a", "Task A", 1, &[])], &[("a", "2026-01-15T00:00:00")]),
        now,
    );
    // the task is running (started 01-14T00:00) and ends within 2 days
    assert_eq!(m.status, "urgent");
    assert_eq!(m.current_focus.as_deref(), Some("Task A"));
}

#[test]
fn metadata_starts_in_hours() {
    let now = ts("2026-01-13T20:00:00");
    let m = project_metadata(
        project(vec![task("a", "Task A", 1, &[])], &[("a", "2026-01-15T00:00:00")]),
        now,
    );
    // starts in 4 hours: under a day away
    assert_eq!(m.current_focus.as_deref(), Some("Task A (starts in 4 hours)"));
}

#[test]
fn metadata_all_tasks_completed() {
    let mut t = task("a", "Task A", 1, &[]);
    t.completed = true;
    let now = ts("2026-01-10T00:00:00");
    let m = project_metadata(project(vec![t], &[("a", "2026-01-15T00:00:00")]), now);
    assert_eq!(m.current_focus.as_deref(), Some("All tasks completed"));
    // the deadline falls back to the nearest upcoming anchor, five days out:
    // just inside the anchor-derived urgency window
    assert_eq!(m.next_deadline.as_deref(), Some("2026-01-15 00:00"));
    assert_eq!(m.status, "urgent");
}

#[test]
fn metadata_overdue_when_every_anchor_passed() {
    let mut t = task("a", "Task A", 1, &[]);
    t.completed = true;
    let now = ts("2026-03-01T00:00:00");
    let m = project_metadata(project(vec![t], &[("a", "2026-01-15T00:00:00")]), now);
    assert_eq!(m.status, "overdue");
    assert!(m.next_deadline.is_none());
}

#[test]
fn widget_tasks_sorted_and_classified() {
    let request = ScheduleRequest {
        tasks: vec![
            task("a", "A", 2, &[]),
            task("b", "B", 1, &["a"]),
            task("c", "C", 3, &["a"]),
            task("d", "D", 1, &["b", "c"]),
        ],
        anchors: vec![("d".to_string(), "2026-01-10T00:00:00".to_string())],
    };
    let schedule = calculate_backwards_schedule(request).unwrap();
    let now = ts("2026-01-05T00:00:00");
    let upcoming = widget_tasks(&schedule, now);
    // everything is uncompleted and upcoming; ordered by start date,
    // schedule order on ties
    let ids: Vec<&str> = upcoming.iter().map(|w| w.id.as_str()).collect();
    assert_eq!(ids, vec!["a", "c", "b", "d"]);
    assert_eq!(upcoming[0].status, "active");
    assert_eq!(upcoming[3].status, "future");
}

#[test]
fn widget_tasks_skip_completed_and_past() {
    let request = ScheduleRequest {
        tasks: vec![
            {
                let mut t = task("a", "A", 1, &[]);
                t.completed = true;
                t
            },
            task("b", "B", 1, &["a"]),
        ],
        anchors: vec![("b".to_string(), "2026-01-10T00:00:00".to_string())],
    };
    let schedule = calculate_backwards_schedule(request).unwrap();
    let now = ts("2026-01-09T12:00:00");
    let upcoming = widget_tasks(&schedule, now);
    let ids: Vec<&str> = upcoming.iter().map(|w| w.id.as_str()).collect();
    assert_eq!(ids, vec!["b"]);
}

#[test]
fn progress_reference_picks_running_task() {
    let request = ScheduleRequest {
        tasks: vec![task("a", "A", 1, &[]), task("b", "B", 1, &["a"])],
        anchors: vec![("b".to_string(), "2026-01-10T00:00:00".to_string())],
    };
    let schedule = calculate_backwards_schedule(request).unwrap();
    let now = ts("2026-01-08T12:00:00");
    let (start, end) = progress_reference(&schedule, now).unwrap();
    assert_eq!(start, ts("2026-01-08T00:00:00"));
    assert_eq!(end, ts("2026-01-09T00:00:00"));
    // no uncompleted running or upcoming task: nothing to report
    let later = ts("2026-02-01T00:00:00");
    assert!(progress_reference(&schedule, later).is_none());
}
