//! Project records and the derived metadata shown by the UI: the next
//! deadline, the status classification, the current focus text, and the
//! upcoming-task list for the widget. Persistence itself (one JSON file per
//! project) lives outside the library; these functions take the loaded
//! record and the current time as plain values.

use vstd::prelude::*;
use vstd::string::StringExecFns;
use crate::dates::{
    anchor_seconds, datetime_seconds, parse_anchor_seconds, parse_datetime_seconds,
    rendered_minute_or_empty, render_minute_seconds, TIMESTAMP_LIMIT,
};
use crate::model::{
    anchor_keys_unique, ids_unique, schedulable, schedule_outputs_ok, sum_abs_dur,
    DURATION_BUDGET,
};
use crate::scheduler::{
    calculate_backwards_schedule, ScheduleRequest, ScheduledTask, Task,
};
use crate::text::{dec_string, decimal_string};

verus! {

/// A stored project: identity, bookkeeping dates, and the schedule inputs.
#[derive(Debug, Clone)]
pub struct Project {
    pub id: String,
    pub name: String,
    pub created_at: String,
    pub last_modified: String,
    pub tasks: Vec<Task>,
    pub anchors: Vec<(String, String)>,
}

/// The derived list entry for one project.
#[derive(Debug, Clone)]
pub struct ProjectMetadata {
    pub id: String,
    pub name: String,
    pub created_at: String,
    pub last_modified: String,
    pub task_count: usize,
    pub next_deadline: Option<String>,
    pub current_focus: Option<String>,
    pub status: String,
}

/// One scheduled task as shown by the widget.
#[derive(Debug, Clone)]
pub struct WidgetTask {
    pub id: String,
    pub name: String,
    pub start_date: String,
    pub end_date: String,
    pub completed: bool,
    pub is_milestone: bool,
    /// "active", "future" or "overdue".
    pub status: String,
}

/// A project's identity, for the widget's switcher.
#[derive(Debug, Clone)]
pub struct ProjectSummary {
    pub id: String,
    pub name: String,
}

/// The nearest anchor timestamp at or after `now`, over the first `k`
/// anchors whose date strings parse.
pub open spec fn nearest_anchor_ts(
    anchors: Seq<(String, String)>,
    now: int,
    k: int,
) -> Option<int>
    decreases k,
{
    if k <= 0 {
        None
    } else {
        let prev = nearest_anchor_ts(anchors, now, k - 1);
        let cur = anchor_seconds(anchors[k - 1].1@);
        if cur is Some && cur->0 >= now {
            match prev {
                None => Some(cur->0),
                Some(p) => if cur->0 < p {
                    Some(cur->0)
                } else {
                    Some(p)
                },
            }
        } else {
            prev
        }
    }
}

/// A record the focus logic may pick: uncompleted, both dates parse, and it
/// ends at or after `now`.
pub open spec fn focus_eligible(st: ScheduledTask, now: int) -> bool {
    &&& !st.completed
    &&& datetime_seconds(st.start_date@) is Some
    &&& datetime_seconds(st.end_date@) is Some
    &&& datetime_seconds(st.end_date@)->0 >= now
}

pub open spec fn start_ts(st: ScheduledTask) -> int {
    datetime_seconds(st.start_date@)->0
}

pub open spec fn end_ts(st: ScheduledTask) -> int {
    datetime_seconds(st.end_date@)->0
}

/// The index of the record controlling the focus: the eligible record with
/// the earliest end date, the first one on ties.
pub open spec fn focus_pick(out: Seq<ScheduledTask>, now: int, k: int) -> Option<int>
    decreases k,
{
    if k <= 0 {
        None
    } else {
        let prev = focus_pick(out, now, k - 1);
        if focus_eligible(out[k - 1], now) {
            match prev {
                None => Some(k - 1),
                Some(p) => if end_ts(out[p]) <= end_ts(out[k - 1]) {
                    Some(p)
                } else {
                    Some(k - 1)
                },
            }
        } else {
            prev
        }
    }
}

/// The status classification for a deadline: overdue when past, urgent when
/// within the given number of whole days, on track otherwise.
pub open spec fn status_text(deadline: int, now: int, urgent_days: int) -> Seq<char> {
    if deadline - now < 0 {
        "overdue"@
    } else if (deadline - now) / 86400 <= urgent_days {
        "urgent"@
    } else {
        "on_track"@
    }
}

/// The focus line: the task's name while it is running, else the name with
/// how far away its start lies, in whole days or hours.
pub open spec fn focus_text(name: Seq<char>, start: int, end: int, now: int) -> Seq<char> {
    if start <= now && now <= end {
        name
    } else {
        let days = (start - now) / 86400;
        if days > 0 {
            name + " (starts in "@ + dec_string(days) + " days)"@
        } else {
            name + " (starts in "@ + dec_string((start - now) / 3600) + " hours)"@
        }
    }
}

/// What the metadata fields say once the schedule is available: the focus
/// task's deadline and status (urgent within 2 days) and the focus line, or
/// "All tasks completed" with the anchor-derived fields kept.
pub open spec fn schedule_metadata_ok(
    m: ProjectMetadata,
    base: Option<int>,
    out: Seq<ScheduledTask>,
    now: int,
) -> bool {
    match focus_pick(out, now, out.len() as int) {
        Some(p) => {
            &&& m.next_deadline matches Some(d) && d@ == rendered_minute_or_empty(end_ts(out[p]))
            &&& m.status@ == status_text(end_ts(out[p]), now, 2)
            &&& m.current_focus matches Some(f) && f@ == focus_text(
                out[p].name@,
                start_ts(out[p]),
                end_ts(out[p]),
                now,
            )
        },
        None => {
            &&& m.current_focus matches Some(f) && f@ == "All tasks completed"@
            &&& anchor_metadata_ok(m, base, now)
        },
    }
}

/// What the metadata fields say from the anchors alone: the nearest upcoming
/// anchor as the deadline with its status (urgent within 5 days), or overdue
/// when every anchor has passed.
pub open spec fn anchor_metadata_ok(m: ProjectMetadata, base: Option<int>, now: int) -> bool {
    match base {
        Some(a) => {
            &&& m.next_deadline matches Some(d) && d@ == rendered_minute_or_empty(a)
            &&& m.status@ == status_text(a, now, 5)
        },
        None => {
            &&& m.next_deadline is None
            &&& m.status@ == "overdue"@
        },
    }
}

/// The nearest upcoming anchor, scanning the anchor values in order.
fn nearest_upcoming_anchor(anchors: &Vec<(String, String)>, now: i64) -> (r: Option<i64>)
    ensures
        r is Some <==> nearest_anchor_ts(anchors@, now as int, anchors@.len() as int) is Some,
        r is Some ==> r->0 as int == nearest_anchor_ts(
            anchors@,
            now as int,
            anchors@.len() as int,
        )->0 && -(TIMESTAMP_LIMIT as int) < r->0 < TIMESTAMP_LIMIT as int,
{
    let len = anchors.len();
    let mut acc: Option<i64> = None;
    let mut k: usize = 0;
    while k < len
        invariant
            k <= len,
            len == anchors@.len(),
            acc is Some <==> nearest_anchor_ts(anchors@, now as int, k as int) is Some,
            acc is Some ==> acc->0 as int == nearest_anchor_ts(anchors@, now as int, k as int)->0
                && -(TIMESTAMP_LIMIT as int) < acc->0 < TIMESTAMP_LIMIT as int,
        decreases len - k,
    {
        match parse_anchor_seconds(anchors[k].1.as_str()) {
            Some(ts) => {
                if ts >= now {
                    acc = match acc {
                        None => Some(ts),
                        Some(p) => if ts < p {
                            Some(ts)
                        } else {
                            Some(p)
                        },
                    };
                }
            },
            None => {},
        }
        k += 1;
    }
    acc
}

/// Build the focus line for a task that has not started yet or is running.
fn build_focus_text(name: &String, start: i64, end: i64, now: i64) -> (r: String)
    requires
        -(TIMESTAMP_LIMIT as int) < start < TIMESTAMP_LIMIT as int,
        -(TIMESTAMP_LIMIT as int) < now <= TIMESTAMP_LIMIT as int,
        end >= now,
    ensures
        r@ == focus_text(name@, start as int, end as int, now as int),
{
    if start <= now && now <= end {
        name.clone()
    } else {
        let diff = start - now;
        let days = ((diff as u64) / 86400u64) as i64;
        proof {
            assert(days as int == (start - now) as int / 86400);
        }
        let mut r = name.clone();
        r.append(" (starts in ");
        if days > 0 {
            r.append(decimal_string(days as u64).as_str());
            r.append(" days)");
            proof {
                assert(r@ =~= name@ + " (starts in "@ + dec_string(days as int) + " days)"@);
            }
        } else {
            let hours = ((diff as u64) / 3600u64) as i64;
            proof {
                assert(hours as int == (start - now) as int / 3600);
            }
            r.append(decimal_string(hours as u64).as_str());
            r.append(" hours)");
            proof {
                assert(r@ =~= name@ + " (starts in "@ + dec_string(hours as int) + " hours)"@);
            }
        }
        r
    }
}

/// Derive one project's list entry: identity and bookkeeping copied over,
/// the nearest upcoming anchor as the base deadline, refined by the
/// schedule's focus task when the request schedules.
pub fn project_metadata(project: Project, now: i64) -> (m: ProjectMetadata)
    requires
        ids_unique(project.tasks@),
        anchor_keys_unique(project.anchors@),
        sum_abs_dur(project.tasks@) <= DURATION_BUDGET as int,
        -(TIMESTAMP_LIMIT as int) < now <= TIMESTAMP_LIMIT as int,
    ensures
        m.id@ == project.id@,
        m.name@ == project.name@,
        m.created_at@ == project.created_at@,
        m.last_modified@ == project.last_modified@,
        m.task_count == project.tasks@.len(),
        project.anchors@.len() == 0 ==> m.status@ == "empty"@ && m.next_deadline is None
            && m.current_focus is None,
        (project.anchors@.len() > 0 && !(project.tasks@.len() == 0 || schedulable(
            project.tasks@,
            project.anchors@,
        ))) ==> anchor_metadata_ok(
            m,
            nearest_anchor_ts(project.anchors@, now as int, project.anchors@.len() as int),
            now as int,
        ) && m.current_focus is None,
        (project.anchors@.len() > 0 && (project.tasks@.len() == 0 || schedulable(
            project.tasks@,
            project.anchors@,
        ))) ==> exists|ls: Seq<i64>, lf: Seq<i64>, es: Seq<i64>, ef: Seq<i64>, out: Seq<
            ScheduledTask,
        >|
            {
                &&& #[trigger] schedule_outputs_ok(
                    project.tasks@,
                    project.anchors@,
                    ls,
                    lf,
                    es,
                    ef,
                    out,
                )
                &&& schedule_metadata_ok(
                    m,
                    nearest_anchor_ts(project.anchors@, now as int, project.anchors@.len() as int),
                    out,
                    now as int,
                )
            },
{
    let Project { id, name, created_at, last_modified, tasks, anchors } = project;
    let task_count = tasks.len();
    if anchors.len() == 0 {
        return ProjectMetadata {
            id,
            name,
            created_at,
            last_modified,
            task_count,
            next_deadline: None,
            current_focus: None,
            status: String::from_str("empty"),
        };
    }
    let base = nearest_upcoming_anchor(&anchors, now);
    let ghost anchors_view = anchors@;
    let ghost tasks_view = tasks@;
    let schedule = calculate_backwards_schedule(ScheduleRequest { tasks, anchors });
    match schedule {
        Ok(out) => {
            let pick = focus_task(&out, now);
            match pick {
                Some(p) => {
                    let end = parse_datetime_seconds(out[p].end_date.as_str()).unwrap();
                    let start = parse_datetime_seconds(out[p].start_date.as_str()).unwrap();
                    let next_deadline = Some(render_minute_seconds(end));
                    let status = deadline_status(end, now, 2);
                    let current_focus = Some(build_focus_text(&out[p].name, start, end, now));
                    ProjectMetadata {
                        id,
                        name,
                        created_at,
                        last_modified,
                        task_count,
                        next_deadline,
                        current_focus,
                        status,
                    }
                },
                None => {
                    let (next_deadline, status) = anchor_deadline_status(base, now);
                    ProjectMetadata {
                        id,
                        name,
                        created_at,
                        last_modified,
                        task_count,
                        next_deadline,
                        current_focus: Some(String::from_str("All tasks completed")),
                        status,
                    }
                },
            }
        },
        Err(_) => {
            let (next_deadline, status) = anchor_deadline_status(base, now);
            ProjectMetadata {
                id,
                name,
                created_at,
                last_modified,
                task_count,
                next_deadline,
                current_focus: None,
                status,
            }
        },
    }
}

/// The anchor-derived deadline text and status.
fn anchor_deadline_status(base: Option<i64>, now: i64) -> (r: (Option<String>, String))
    requires
        base is Some ==> -(TIMESTAMP_LIMIT as int) < base->0 < TIMESTAMP_LIMIT as int,
        -(TIMESTAMP_LIMIT as int) < now <= TIMESTAMP_LIMIT as int,
    ensures
        base matches Some(a) ==> (r.0 matches Some(d) && d@ == rendered_minute_or_empty(
            a as int,
        )) && r.1@ == status_text(a as int, now as int, 5),
        base is None ==> r.0 is None && r.1@ == "overdue"@,
{
    match base {
        Some(a) => (Some(render_minute_seconds(a)), deadline_status(a, now, 5)),
        None => (None, String::from_str("overdue")),
    }
}

/// Classify a deadline against the current time.
fn deadline_status(deadline: i64, now: i64, urgent_days: i64) -> (r: String)
    requires
        -(TIMESTAMP_LIMIT as int) < deadline < TIMESTAMP_LIMIT as int,
        -(TIMESTAMP_LIMIT as int) < now <= TIMESTAMP_LIMIT as int,
        0 <= urgent_days < 100,
    ensures
        r@ == status_text(deadline as int, now as int, urgent_days as int),
{
    let diff = deadline - now;
    if diff < 0 {
        String::from_str("overdue")
    } else {
        let days = ((diff as u64) / 86400u64) as i64;
        if days <= urgent_days {
            String::from_str("urgent")
        } else {
            String::from_str("on_track")
        }
    }
}

/// Find the record controlling the focus: the eligible record with the
/// earliest end date, the first one on ties.
pub fn focus_task(out: &Vec<ScheduledTask>, now: i64) -> (r: Option<usize>)
    ensures
        r is Some <==> focus_pick(out@, now as int, out@.len() as int) is Some,
        r matches Some(p) ==> p < out@.len() && focus_pick(out@, now as int, out@.len() as int)
            == Some(p as int) && focus_eligible(out@[p as int], now as int),
{
    let len = out.len();
    let mut acc: Option<usize> = None;
    let mut k: usize = 0;
    while k < len
        invariant
            k <= len,
            len == out@.len(),
            acc is Some <==> focus_pick(out@, now as int, k as int) is Some,
            acc matches Some(p) ==> p < len && focus_pick(out@, now as int, k as int) == Some(
                p as int,
            ) && focus_eligible(out@[p as int], now as int),
        decreases len - k,
    {
        let eligible = if out[k].completed {
            false
        } else {
            match (
                parse_datetime_seconds(out[k].start_date.as_str()),
                parse_datetime_seconds(out[k].end_date.as_str()),
            ) {
                (Some(_), Some(e)) => e >= now,
                _ => false,
            }
        };
        if eligible {
            acc = match acc {
                None => Some(k),
                Some(p) => {
                    let ep = parse_datetime_seconds(out[p].end_date.as_str()).unwrap();
                    let ek = parse_datetime_seconds(out[k].end_date.as_str()).unwrap();
                    if ep <= ek {
                        Some(p)
                    } else {
                        Some(k)
                    }
                },
            };
        }
        k += 1;
    }
    acc
}

/// The widget's classification of one upcoming task.
pub open spec fn widget_status(st: ScheduledTask, now: int) -> Seq<char> {
    if start_ts(st) <= now && end_ts(st) >= now {
        "active"@
    } else {
        "future"@
    }
}

/// One widget record against its scheduled task.
pub open spec fn widget_fields_ok(st: ScheduledTask, now: int, w: WidgetTask) -> bool {
    &&& w.id@ == st.id@
    &&& w.name@ == st.name@
    &&& w.start_date@ == st.start_date@
    &&& w.end_date@ == st.end_date@
    &&& w.completed == st.completed
    &&& w.is_milestone == st.is_milestone
    &&& w.status@ == widget_status(st, now)
}

/// The widget's upcoming-task list: the eligible records ordered by start
/// date, ties kept in schedule order.
pub open spec fn widget_list_ok(
    out: Seq<ScheduledTask>,
    now: int,
    idxs: Seq<int>,
    r: Seq<WidgetTask>,
) -> bool {
    &&& r.len() == idxs.len()
    &&& forall|k: int|
        0 <= k < idxs.len() ==> 0 <= #[trigger] idxs[k] < out.len() && focus_eligible(
            out[idxs[k]],
            now,
        )
    &&& forall|i: int| 0 <= i < out.len() && focus_eligible(#[trigger] out[i], now) ==> idxs.contains(i)
    &&& forall|k1: int, k2: int|
        0 <= k1 < k2 < idxs.len() ==> (start_ts(out[#[trigger] idxs[k1]]) < start_ts(
            out[#[trigger] idxs[k2]],
        ) || (start_ts(out[idxs[k1]]) == start_ts(out[idxs[k2]]) && idxs[k1] < idxs[k2]))
    &&& forall|k: int|
        0 <= k < idxs.len() ==> widget_fields_ok(out[#[trigger] idxs[k]], now, r[k])
}

/// Build the widget's upcoming-task list: each uncompleted task whose end
/// lies at or after `now`, ordered by start date (schedule order on ties),
/// classified active or future.
pub fn widget_tasks(out: &Vec<ScheduledTask>, now: i64) -> (r: Vec<WidgetTask>)
    ensures
        exists|idxs: Seq<int>| #[trigger] widget_list_ok(out@, now as int, idxs, r@),
{
    let len = out.len();
    let mut taken: Vec<bool> = Vec::new();
    let mut i: usize = 0;
    while i < len
        invariant
            i <= len,
            taken@.len() == i as int,
            forall|k: int| 0 <= k < i ==> !(#[trigger] taken@[k]),
        decreases len - i,
    {
        taken.push(false);
        i += 1;
    }
    let mut r: Vec<WidgetTask> = Vec::new();
    let ghost mut idxs: Seq<int> = Seq::empty();
    let ghost mut takenset: Set<int> = Set::empty();
    proof {
        vstd::set_lib::lemma_int_range(0, len as int);
    }
    loop
        invariant
            len == out@.len(),
            taken@.len() == len,
            takenset.finite(),
            takenset.subset_of(vstd::set_lib::set_int_range(0, len as int)),
            vstd::set_lib::set_int_range(0, len as int).finite(),
            vstd::set_lib::set_int_range(0, len as int).len() == len,
            forall|i2: int| takenset.contains(i2) <==> 0 <= i2 < len && taken@[i2],
            r@.len() == idxs.len(),
            forall|k: int|
                0 <= k < idxs.len() ==> 0 <= #[trigger] idxs[k] < len && focus_eligible(
                    out@[idxs[k]],
                    now as int,
                ) && taken@[idxs[k]],
            forall|i2: int| 0 <= i2 < len && #[trigger] taken@[i2] ==> idxs.contains(i2),
            forall|i2: int|
                0 <= i2 < len && #[trigger] taken@[i2] ==> focus_eligible(out@[i2], now as int),
            forall|k1: int, k2: int|
                0 <= k1 < k2 < idxs.len() ==> (start_ts(out@[#[trigger] idxs[k1]]) < start_ts(
                    out@[#[trigger] idxs[k2]],
                ) || (start_ts(out@[idxs[k1]]) == start_ts(out@[idxs[k2]]) && idxs[k1]
                    < idxs[k2])),
            // everything still free sorts after everything taken
            forall|k: int, i2: int|
                0 <= k < idxs.len() && 0 <= i2 < len && !taken@[i2] && focus_eligible(
                    #[trigger] out@[i2],
                    now as int,
                ) ==> (start_ts(out@[#[trigger] idxs[k]]) < start_ts(out@[i2]) || (start_ts(
                    out@[idxs[k]],
                ) == start_ts(out@[i2]) && idxs[k] < i2)),
            forall|k: int|
                0 <= k < idxs.len() ==> widget_fields_ok(out@[#[trigger] idxs[k]], now as int, r@[k]),
        ensures
            forall|i2: int|
                0 <= i2 < len && focus_eligible(#[trigger] out@[i2], now as int) ==> taken@[i2],
        decreases len as int - takenset.len(),
    {
        proof {
            vstd::set_lib::lemma_len_subset(takenset, vstd::set_lib::set_int_range(0, len as int));
        }
        // find the free eligible record with the smallest (start, index)
        let mut best: Option<usize> = None;
        let mut i: usize = 0;
        while i < len
            invariant
                i <= len,
                len == out@.len(),
                taken@.len() == len,
                best matches Some(b) ==> b < i && !taken@[b as int] && focus_eligible(
                    out@[b as int],
                    now as int,
                ),
                best matches Some(b) ==> forall|i2: int|
                    0 <= i2 < i && !taken@[i2] && focus_eligible(#[trigger] out@[i2], now as int)
                        ==> (start_ts(out@[b as int]) < start_ts(out@[i2]) || (start_ts(
                        out@[b as int],
                    ) == start_ts(out@[i2]) && b as int <= i2)),
                best is None ==> forall|i2: int|
                    0 <= i2 < i ==> !(!taken@[i2] && focus_eligible(
                        #[trigger] out@[i2],
                        now as int,
                    )),
            decreases len - i,
        {
            let free = !taken[i];
            let eligible = if out[i].completed {
                false
            } else {
                match (
                    parse_datetime_seconds(out[i].start_date.as_str()),
                    parse_datetime_seconds(out[i].end_date.as_str()),
                ) {
                    (Some(_), Some(e)) => e >= now,
                    _ => false,
                }
            };
            if free && eligible {
                best = match best {
                    None => Some(i),
                    Some(b) => {
                        let sb = parse_datetime_seconds(out[b].start_date.as_str()).unwrap();
                        let si = parse_datetime_seconds(out[i].start_date.as_str()).unwrap();
                        proof {
                            assert(sb as int == start_ts(out@[b as int]));
                            assert(si as int == start_ts(out@[i as int]));
                        }
                        if sb <= si {
                            Some(b)
                        } else {
                            Some(i)
                        }
                    },
                };
            }
            i += 1;
        }
        match best {
            None => {
                break ;
            },
            Some(b) => {
                let start = parse_datetime_seconds(out[b].start_date.as_str()).unwrap();
                let end = parse_datetime_seconds(out[b].end_date.as_str()).unwrap();
                let status = if start <= now && end >= now {
                    String::from_str("active")
                } else {
                    String::from_str("future")
                };
                let w = WidgetTask {
                    id: out[b].id.clone(),
                    name: out[b].name.clone(),
                    start_date: out[b].start_date.clone(),
                    end_date: out[b].end_date.clone(),
                    completed: out[b].completed,
                    is_milestone: out[b].is_milestone,
                    status,
                };
                let ghost old_idxs = idxs;
                let ghost old_taken = taken@;
                taken.set(b, true);
                r.push(w);
                proof {
                    idxs = idxs.push(b as int);
                    assert forall|i2: int|
                        0 <= i2 < len && #[trigger] taken@[i2] implies idxs.contains(i2) by {
                        if i2 == b as int {
                            assert(idxs[idxs.len() - 1] == i2);
                        } else {
                            assert(old_taken[i2]);
                            let q = choose|q: int| 0 <= q < old_idxs.len() && old_idxs[q] == i2;
                            assert(idxs[q] == i2);
                        }
                    }
                    assert(start as int == start_ts(out@[b as int]));
                    assert(end as int == end_ts(out@[b as int]));
                    assert(widget_fields_ok(out@[b as int], now as int, w));
                    let ghost old_takenset = takenset;
                    takenset = takenset.insert(b as int);
                    assert(!old_takenset.contains(b as int));
                    vstd::set::axiom_set_insert_len(old_takenset, b as int);
                    assert(takenset.subset_of(
                        vstd::set_lib::set_int_range(0, len as int),
                    ));
                    vstd::set_lib::lemma_len_subset(
                        takenset,
                        vstd::set_lib::set_int_range(0, len as int),
                    );
                }
            },
        }
    }
    proof {
        assert forall|i2: int|
            0 <= i2 < len && focus_eligible(#[trigger] out@[i2], now as int) implies idxs.contains(
            i2,
        ) by {
            assert(taken@[i2]);
        }
        assert(widget_list_ok(out@, now as int, idxs, r@));
    }
    r
}

/// The record the progress display follows: scanning in end-date order, the
/// first uncompleted task that is running now or has not started yet.
pub open spec fn progress_pick(out: Seq<ScheduledTask>, now: int, k: int) -> Option<int>
    decreases k,
{
    if k <= 0 {
        None
    } else {
        let prev = progress_pick(out, now, k - 1);
        if progress_eligible(out[k - 1], now) {
            match prev {
                None => Some(k - 1),
                Some(p) => if end_ts(out[p]) <= end_ts(out[k - 1]) {
                    Some(p)
                } else {
                    Some(k - 1)
                },
            }
        } else {
            prev
        }
    }
}

/// Both dates parse, the task is uncompleted, and it is running or upcoming.
pub open spec fn progress_eligible(st: ScheduledTask, now: int) -> bool {
    &&& datetime_seconds(st.start_date@) is Some
    &&& datetime_seconds(st.end_date@) is Some
    &&& !st.completed
    &&& ((start_ts(st) <= now && now <= end_ts(st)) || now < start_ts(st))
}

/// Find the task whose progress the widget reports, with its start and end:
/// among the uncompleted tasks that are running or upcoming, the one with
/// the earliest end date (the first on ties).
pub fn progress_reference(out: &Vec<ScheduledTask>, now: i64) -> (r: Option<(i64, i64)>)
    ensures
        r is Some <==> progress_pick(out@, now as int, out@.len() as int) is Some,
        r matches Some(se) ==> exists|p: int|
            #[trigger] progress_pick(out@, now as int, out@.len() as int) == Some(p) && 0 <= p
                < out@.len() && se.0 as int == start_ts(out@[p]) && se.1 as int == end_ts(out@[p]),
{
    let len = out.len();
    let mut acc: Option<usize> = None;
    let mut k: usize = 0;
    while k < len
        invariant
            k <= len,
            len == out@.len(),
            acc is Some <==> progress_pick(out@, now as int, k as int) is Some,
            acc matches Some(p) ==> p < len && progress_pick(out@, now as int, k as int) == Some(
                p as int,
            ) && progress_eligible(out@[p as int], now as int),
        decreases len - k,
    {
        let eligible = if out[k].completed {
            false
        } else {
            match (
                parse_datetime_seconds(out[k].start_date.as_str()),
                parse_datetime_seconds(out[k].end_date.as_str()),
            ) {
                (Some(s), Some(e)) => (s <= now && now <= e) || now < s,
                _ => false,
            }
        };
        if eligible {
            acc = match acc {
                None => Some(k),
                Some(p) => {
                    let ep = parse_datetime_seconds(out[p].end_date.as_str()).unwrap();
                    let ek = parse_datetime_seconds(out[k].end_date.as_str()).unwrap();
                    if ep <= ek {
                        Some(p)
                    } else {
                        Some(k)
                    }
                },
            };
        }
        k += 1;
    }
    match acc {
        Some(p) => {
            let s = parse_datetime_seconds(out[p].start_date.as_str()).unwrap();
            let e = parse_datetime_seconds(out[p].end_date.as_str()).unwrap();
            Some((s, e))
        },
        None => None,
    }
}

} // verus!
