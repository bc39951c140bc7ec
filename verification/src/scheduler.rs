//! The scheduler's data contract and its entry point,
//! `calculate_backwards_schedule`.

use vstd::prelude::*;
use crate::dates::{
    parse_anchor_seconds, parse_error_details, render_datetime_seconds, TIMESTAMP_LIMIT,
};
use crate::graph::{build_consumers, find_task_index, resolve_dependencies, resolved_deps_ok};
use crate::model::{
    abs_val, anchor_entry_valid, anchor_error_for, anchor_index_of, anchor_keys_unique,
    anchor_ts, anchors_all_valid, backward_ok, dep_count, dep_id, dep_idx, deps_all_known,
    dur_seconds, es_attains_task, first_bad_anchor, first_unknown_dep, forward_ok, has_anchor,
    ids_unique, is_sink, lemma_anchor_index_of_props, lemma_anchor_index_of_unique,
    lemma_seq_min_props, lemma_sum_abs_dur_bounds_each, lemma_sum_abs_dur_nonneg,
    lemma_task_index_of_props, lemma_task_index_of_self, lf_attains_task, rev_topo_order,
    schedulable, schedule_outputs_ok, scheduled_fields_ok, seq_min, sinks_anchored, sum_abs_dur,
    task_index_of, acyclic, DURATION_BUDGET,
};
use crate::passes::{
    acyclic_idx, backward_pass, es_attains, forward_pass, lf_attains, rev_topo_idx, sink_idx,
    sinks_anchored_idx, sum_abs_i64, sum_abs_upto,
};
use crate::graph::{consumer_count, lemma_consumer_count_zero_iff};

verus! {

/// A subtask within a larger task; opaque passthrough for the scheduler.
#[derive(Debug, Clone)]
pub struct SubTask {
    pub id: String,
    pub name: String,
    pub completed: bool,
}

/// A task definition with dependencies.
#[derive(Debug, Clone)]
pub struct Task {
    pub id: String,
    pub name: String,
    /// Duration in whole days; used when `duration_minutes` is absent.
    pub duration_days: i64,
    /// Duration in whole minutes; overrides `duration_days` when present.
    pub duration_minutes: Option<i64>,
    /// Identifiers of tasks that must finish before this one can start.
    pub dependencies: Vec<String>,
    pub completed: bool,
    pub notes: Option<String>,
    pub is_milestone: bool,
    pub subtasks: Vec<SubTask>,
}

/// A scheduled task with computed start and end dates
/// (both are Late values, formatted `%Y-%m-%dT%H:%M:%S`).
#[derive(Debug, Clone)]
pub struct ScheduledTask {
    pub id: String,
    pub name: String,
    pub start_date: String,
    pub end_date: String,
    pub completed: bool,
    pub notes: Option<String>,
    pub is_critical: bool,
    pub slack_minutes: i64,
    pub is_milestone: bool,
}

/// Request to calculate a backwards schedule: the tasks, and the anchors as
/// pairs of task identifier and end date (`%Y-%m-%dT%H:%M:%S` or `%Y-%m-%d`).
/// The anchor keys form a mapping, so each identifier appears at most once.
#[derive(Debug, Clone)]
pub struct ScheduleRequest {
    pub tasks: Vec<Task>,
    pub anchors: Vec<(String, String)>,
}

/// Errors that can occur during schedule calculation.
#[derive(Debug, Clone)]
pub enum ScheduleError {
    /// An anchor string matches neither accepted date shape.
    InvalidAnchorDate { task_id: String, details: String },
    /// An anchor references an identifier not present in the tasks.
    AnchorTaskNotFound(String),
    /// An identifier referenced by a dependency list is not a task.
    TaskNotFound(String),
    /// The backward pass left at least one task unreached; carries the
    /// task's name, or a diagnostic listing the unreached tasks' names.
    NoEndDateComputed(String),
    /// Defensive signal for a dependency cycle.
    CycleDetected,
}

/// Whether a request meets the scheduler's preconditions: unique task
/// identifiers, unique anchor keys, and a summed absolute duration within
/// the budget. Callers outside the library test this before scheduling.
pub fn schedule_input_ok(tasks: &Vec<Task>, anchors: &Vec<(String, String)>) -> (b: bool)
    ensures
        b <==> (ids_unique(tasks@) && anchor_keys_unique(anchors@) && sum_abs_dur(tasks@)
            <= DURATION_BUDGET as int),
{
    let n = tasks.len();
    let mut i: usize = 0;
    while i < n
        invariant
            i <= n,
            n == tasks@.len(),
            forall|x: int, y: int|
                0 <= x < y < n && x < i ==> (#[trigger] tasks@[x].id@) != (#[trigger] tasks@[y].id@),
        decreases n - i,
    {
        let mut j = i + 1;
        while j < n
            invariant
                i < j <= n,
                n == tasks@.len(),
                forall|y: int| i < y < j ==> (#[trigger] tasks@[y].id@) != tasks@[i as int].id@,
            decreases n - j,
        {
            if tasks[i].id == tasks[j].id {
                return false;
            }
            j += 1;
        }
        i += 1;
    }
    let a_len = anchors.len();
    let mut i: usize = 0;
    while i < a_len
        invariant
            i <= a_len,
            a_len == anchors@.len(),
            forall|x: int, y: int|
                0 <= x < y < a_len && x < i ==> (#[trigger] anchors@[x].0@) != (
                #[trigger] anchors@[y].0@),
        decreases a_len - i,
    {
        let mut j = i + 1;
        while j < a_len
            invariant
                i < j <= a_len,
                a_len == anchors@.len(),
                forall|y: int| i < y < j ==> (#[trigger] anchors@[y].0@) != anchors@[i as int].0@,
            decreases a_len - j,
        {
            if anchors[i].0 == anchors[j].0 {
                return false;
            }
            j += 1;
        }
        i += 1;
    }
    let mut acc: i128 = 0;
    let mut i: usize = 0;
    proof {
        assert(tasks@.take(0).len() == 0);
    }
    while i < n
        invariant
            i <= n,
            n == tasks@.len(),
            acc as int == sum_abs_dur(tasks@.take(i as int)),
            acc <= DURATION_BUDGET as i128,
        decreases n - i,
    {
        let d: i128 = match tasks[i].duration_minutes {
            Some(m) => (m as i128) * 60,
            None => (tasks[i].duration_days as i128) * 86400,
        };
        let a: i128 = if d < 0 {
            -d
        } else {
            d
        };
        proof {
            lemma_sum_abs_dur_take_step(tasks@, i as int);
            assert(a as int == abs_val(dur_seconds(tasks@[i as int])));
        }
        acc = acc + a;
        if acc > DURATION_BUDGET as i128 {
            proof {
                lemma_sum_abs_dur_prefix_le(tasks@, i as int + 1);
            }
            return false;
        }
        i += 1;
    }
    proof {
        assert(tasks@.take(n as int) =~= tasks@);
    }
    true
}

/// A task's effective duration in seconds: minutes when given, else days.
fn effective_duration_seconds(t: &Task) -> (d: i64)
    requires
        abs_val(dur_seconds(*t)) <= DURATION_BUDGET as int,
    ensures
        d as int == dur_seconds(*t),
{
    match t.duration_minutes {
        Some(m) => m * 60,
        None => t.duration_days * 86400,
    }
}

/// One entry's absolute value against a prefix sum, for the running total.
proof fn lemma_sum_abs_dur_take_step(tasks: Seq<Task>, k: int)
    requires
        0 <= k < tasks.len(),
    ensures
        sum_abs_dur(tasks.take(k + 1)) == sum_abs_dur(tasks.take(k)) + abs_val(
            dur_seconds(tasks[k]),
        ),
{
    assert(tasks.take(k + 1).drop_last() =~= tasks.take(k));
    assert(tasks.take(k + 1).last() == tasks[k]);
}

proof fn lemma_sum_abs_upto_push(s: Seq<i64>, d: i64, k: int)
    requires
        k <= s.len() + 1,
    ensures
        sum_abs_upto(s.push(d), k) == if k <= s.len() {
            sum_abs_upto(s, k)
        } else {
            sum_abs_upto(s, s.len() as int) + abs_val(d as int)
        },
    decreases k,
{
    if k > 0 {
        lemma_sum_abs_upto_push(s, d, k - 1);
        if k - 1 < s.len() {
            assert(s.push(d)[k - 1] == s[k - 1]);
        } else {
            assert(s.push(d)[k - 1] == d);
        }
    }
}

/// Each task's effective duration, in seconds.
fn build_durations(tasks: &Vec<Task>) -> (durs: Vec<i64>)
    requires
        sum_abs_dur(tasks@) <= DURATION_BUDGET as int,
    ensures
        durs@.len() == tasks@.len(),
        forall|i: int| 0 <= i < tasks@.len() ==> (#[trigger] durs@[i]) as int == dur_seconds(
            tasks@[i],
        ),
        sum_abs_i64(durs@) <= DURATION_BUDGET as int,
{
    let n = tasks.len();
    let mut durs: Vec<i64> = Vec::new();
    proof {
        lemma_sum_abs_dur_nonneg(tasks@);
        assert(tasks@.take(0).len() == 0);
    }
    let mut i: usize = 0;
    while i < n
        invariant
            i <= n,
            n == tasks@.len(),
            sum_abs_dur(tasks@) <= DURATION_BUDGET as int,
            durs@.len() == i as int,
            forall|k: int| 0 <= k < i ==> (#[trigger] durs@[k]) as int == dur_seconds(tasks@[k]),
            sum_abs_upto(durs@, i as int) == sum_abs_dur(tasks@.take(i as int)),
            sum_abs_dur(tasks@.take(i as int)) <= sum_abs_dur(tasks@),
        decreases n - i,
    {
        proof {
            lemma_sum_abs_dur_bounds_each(tasks@, i as int);
        }
        let ghost old_durs = durs@;
        let d = effective_duration_seconds(&tasks[i]);
        durs.push(d);
        proof {
            lemma_sum_abs_upto_push(old_durs, d, i as int + 1);
            lemma_sum_abs_dur_take_step(tasks@, i as int);
            lemma_sum_abs_dur_prefix_le(tasks@, i as int + 1);
        }
        i += 1;
    }
    proof {
        assert(tasks@.take(n as int) =~= tasks@);
    }
    durs
}

/// A prefix's summed durations never exceed the whole sum.
proof fn lemma_sum_abs_dur_prefix_le(tasks: Seq<Task>, k: int)
    requires
        0 <= k <= tasks.len(),
    ensures
        sum_abs_dur(tasks.take(k)) <= sum_abs_dur(tasks),
    decreases tasks.len() - k,
{
    if k == tasks.len() {
        assert(tasks.take(k) =~= tasks);
    } else {
        lemma_sum_abs_dur_prefix_le(tasks, k + 1);
        lemma_sum_abs_dur_take_step(tasks, k);
    }
}

/// Validate and parse the anchors: each key must name a task and each date
/// string must parse. The result maps each task index to its anchor
/// timestamp, when it has one.
fn seed_anchors(tasks: &Vec<Task>, anchors: &Vec<(String, String)>) -> (r: Result<
    Vec<Option<i64>>,
    ScheduleError,
>)
    requires
        ids_unique(tasks@),
        anchor_keys_unique(anchors@),
    ensures
        r matches Ok(v) ==> {
            &&& anchors_all_valid(tasks@, anchors@)
            &&& v@.len() == tasks@.len()
            &&& forall|i: int|
                0 <= i < tasks@.len() ==> ((#[trigger] v@[i]) is Some <==> has_anchor(
                    anchors@,
                    tasks@[i].id@,
                ))
            &&& forall|i: int|
                0 <= i < tasks@.len() && (#[trigger] v@[i]) is Some ==> v@[i]->0 as int
                    == anchor_ts(anchors@, tasks@[i].id@) && -(TIMESTAMP_LIMIT as int) < v@[i]->0
                    < TIMESTAMP_LIMIT as int
        },
        r matches Err(e) ==> !anchors_all_valid(tasks@, anchors@) && exists|k: int|
            #[trigger] first_bad_anchor(tasks@, anchors@, k) && anchor_error_for(
                tasks@,
                anchors@,
                k,
                e,
            ),
{
    let n = tasks.len();
    let a_len = anchors.len();
    let mut v: Vec<Option<i64>> = Vec::new();
    let mut i: usize = 0;
    while i < n
        invariant
            i <= n,
            v@.len() == i as int,
            forall|k: int| 0 <= k < i ==> (#[trigger] v@[k]) is None,
        decreases n - i,
    {
        v.push(None);
        i += 1;
    }
    let mut k: usize = 0;
    while k < a_len
        invariant
            k <= a_len,
            n == tasks@.len(),
            a_len == anchors@.len(),
            ids_unique(tasks@),
            anchor_keys_unique(anchors@),
            v@.len() == n,
            forall|m: int| 0 <= m < k ==> #[trigger] anchor_entry_valid(tasks@, anchors@, m),
            forall|i2: int|
                0 <= i2 < n && (#[trigger] v@[i2]) is Some ==> exists|m: int|
                    0 <= m < k && #[trigger] task_index_of(tasks@, anchors@[m].0@) == i2
                        && crate::dates::anchor_seconds(anchors@[m].1@) == Some(
                        v@[i2]->0 as int,
                    ) && -(TIMESTAMP_LIMIT as int) < v@[i2]->0 < TIMESTAMP_LIMIT as int,
            forall|i2: int, m: int|
                0 <= i2 < n && (#[trigger] v@[i2]) is None && 0 <= m < k ==> #[trigger]
                task_index_of(tasks@, anchors@[m].0@) != i2,
        decreases a_len - k,
    {
        let idx = match find_task_index(tasks, &anchors[k].0) {
            Some(idx) => idx,
            None => {
                proof {
                    assert(!anchor_entry_valid(tasks@, anchors@, k as int));
                    assert(first_bad_anchor(tasks@, anchors@, k as int));
                }
                return Err(ScheduleError::AnchorTaskNotFound(anchors[k].0.clone()));
            },
        };
        let ts = match parse_anchor_seconds(anchors[k].1.as_str()) {
            Some(ts) => ts,
            None => {
                proof {
                    assert(!anchor_entry_valid(tasks@, anchors@, k as int));
                    assert(first_bad_anchor(tasks@, anchors@, k as int));
                }
                let details = parse_error_details(anchors[k].1.as_str());
                return Err(ScheduleError::InvalidAnchorDate {
                    task_id: anchors[k].0.clone(),
                    details,
                });
            },
        };
        let ghost old_v = v@;
        v.set(idx, Some(ts));
        proof {
            assert(anchor_entry_valid(tasks@, anchors@, k as int));
            assert forall|i2: int|
                0 <= i2 < n && (#[trigger] v@[i2]) is Some implies exists|m: int|
                    0 <= m < k as int + 1 && #[trigger] task_index_of(tasks@, anchors@[m].0@) == i2
                        && crate::dates::anchor_seconds(anchors@[m].1@) == Some(v@[i2]->0 as int)
                        && -(TIMESTAMP_LIMIT as int) < v@[i2]->0 < TIMESTAMP_LIMIT as int by {
                if i2 == idx as int {
                    assert(task_index_of(tasks@, anchors@[k as int].0@) == i2);
                } else {
                    assert(old_v[i2] is Some);
                    let m = choose|m: int|
                        0 <= m < k as int && #[trigger] task_index_of(tasks@, anchors@[m].0@) == i2
                            && crate::dates::anchor_seconds(anchors@[m].1@) == Some(
                            old_v[i2]->0 as int,
                        ) && -(TIMESTAMP_LIMIT as int) < old_v[i2]->0 < TIMESTAMP_LIMIT as int;
                    assert(task_index_of(tasks@, anchors@[m].0@) == i2);
                }
            }
        }
        k += 1;
    }
    proof {
        assert forall|i2: int|
            0 <= i2 < n implies ((#[trigger] v@[i2]) is Some <==> has_anchor(
            anchors@,
            tasks@[i2].id@,
        )) && (v@[i2] is Some ==> v@[i2]->0 as int == anchor_ts(anchors@, tasks@[i2].id@)) by {
            lemma_anchor_index_of_props(anchors@, tasks@[i2].id@);
            if v@[i2] is Some {
                let m = choose|m: int|
                    0 <= m < a_len as int && #[trigger] task_index_of(tasks@, anchors@[m].0@) == i2
                        && crate::dates::anchor_seconds(anchors@[m].1@) == Some(v@[i2]->0 as int)
                        && -(TIMESTAMP_LIMIT as int) < v@[i2]->0 < TIMESTAMP_LIMIT as int;
                lemma_task_index_of_props(tasks@, anchors@[m].0@);
                assert(anchors@[m].0@ == tasks@[i2].id@);
                lemma_anchor_index_of_unique(anchors@, m);
                assert(anchor_index_of(anchors@, tasks@[i2].id@) == m);
            } else {
                if has_anchor(anchors@, tasks@[i2].id@) {
                    let m = anchor_index_of(anchors@, tasks@[i2].id@);
                    assert(anchors@[m].0@ == tasks@[i2].id@);
                    lemma_task_index_of_self(tasks@, i2);
                    assert(task_index_of(tasks@, anchors@[m].0@) == i2);
                    assert(false);
                }
            }
        }
    }
    Ok(v)
}

/// The project start: the minimum Late Start across all tasks.
fn project_start(ls: &Vec<i64>) -> (r: i64)
    requires
        ls@.len() > 0,
    ensures
        r == seq_min(ls@),
{
    let n = ls.len();
    let mut m = ls[0];
    let mut i: usize = 1;
    while i < n
        invariant
            1 <= i <= n,
            n == ls@.len(),
            m == seq_min(ls@.take(i as int)),
        decreases n - i,
    {
        proof {
            assert(ls@.take(i as int + 1).drop_last() =~= ls@.take(i as int));
            assert(ls@.take(i as int + 1).last() == ls@[i as int]);
        }
        if ls[i] < m {
            m = ls[i];
        }
        i += 1;
    }
    proof {
        assert(ls@.take(n as int) =~= ls@);
    }
    m
}

/// Join the two passes per task: formatted Late dates, slack in whole
/// minutes, and the critical flag.
fn assemble(tasks: &Vec<Task>, ls: &Vec<i64>, lf: &Vec<i64>, es: &Vec<i64>) -> (out: Vec<
    ScheduledTask,
>)
    requires
        ls@.len() == tasks@.len(),
        lf@.len() == tasks@.len(),
        es@.len() == tasks@.len(),
        forall|i: int| 0 <= i < tasks@.len() ==> #[trigger] es@[i] <= ls@[i],
        forall|i: int|
            0 <= i < tasks@.len() ==> abs_val((#[trigger] ls@[i]) as int) <= TIMESTAMP_LIMIT + 2
                * DURATION_BUDGET && abs_val(es@[i] as int) <= TIMESTAMP_LIMIT + 2
                * DURATION_BUDGET,
    ensures
        out@.len() == tasks@.len(),
        forall|i: int|
            0 <= i < tasks@.len() ==> #[trigger] scheduled_fields_ok(
                tasks@[i],
                ls@[i],
                lf@[i],
                es@[i],
                out@[i],
            ),
{
    let n = tasks.len();
    let mut out: Vec<ScheduledTask> = Vec::new();
    let mut i: usize = 0;
    while i < n
        invariant
            i <= n,
            n == tasks@.len(),
            ls@.len() == n,
            lf@.len() == n,
            es@.len() == n,
            forall|k: int| 0 <= k < n ==> #[trigger] es@[k] <= ls@[k],
            forall|k: int|
                0 <= k < n ==> abs_val((#[trigger] ls@[k]) as int) <= TIMESTAMP_LIMIT + 2
                    * DURATION_BUDGET && abs_val(es@[k] as int) <= TIMESTAMP_LIMIT + 2
                    * DURATION_BUDGET,
            out@.len() == i as int,
            forall|k: int|
                0 <= k < i ==> #[trigger] scheduled_fields_ok(
                    tasks@[k],
                    ls@[k],
                    lf@[k],
                    es@[k],
                    out@[k],
                ),
        decreases n - i,
    {
        let slack_seconds = ls[i] - es[i];
        let slack_minutes = ((slack_seconds as u64) / 60u64) as i64;
        proof {
            assert(slack_seconds as int == ls@[i as int] - es@[i as int]);
            assert(slack_minutes as int == (ls@[i as int] - es@[i as int]) / 60);
        }
        let notes = match &tasks[i].notes {
            Some(s) => Some(s.clone()),
            None => None,
        };
        let st = ScheduledTask {
            id: tasks[i].id.clone(),
            name: tasks[i].name.clone(),
            start_date: render_datetime_seconds(ls[i]),
            end_date: render_datetime_seconds(lf[i]),
            completed: tasks[i].completed,
            notes,
            is_critical: slack_minutes <= 0,
            slack_minutes,
            is_milestone: tasks[i].is_milestone,
        };
        out.push(st);
        i += 1;
    }
    out
}

/// A sink among the tasks is exactly a sink of the resolved graph.
proof fn lemma_sink_bridge(tasks: Seq<Task>, deps: Seq<Vec<usize>>, i: int)
    requires
        ids_unique(tasks),
        resolved_deps_ok(tasks, deps),
        deps_all_known(tasks),
        0 <= i < tasks.len(),
    ensures
        sink_idx(deps, i) <==> is_sink(tasks, i),
{
    lemma_consumer_count_zero_iff(deps, i);
    if consumer_count(deps, i) == 0 {
        assert forall|c: int, j: int|
            0 <= c < tasks.len() && 0 <= j < dep_count(tasks, c) implies #[trigger] dep_id(
            tasks,
            c,
            j,
        ) != tasks[i].id@ by {
            if dep_id(tasks, c, j) == tasks[i].id@ {
                lemma_task_index_of_self(tasks, i);
                assert(deps[c]@[j] as int == dep_idx(tasks, c, j));
                assert(deps[c]@[j] as int == i);
            }
        }
    }
    if is_sink(tasks, i) {
        assert forall|c: int, j: int|
            0 <= c < deps.len() && 0 <= j < deps[c]@.len() implies (#[trigger] deps[c]@[j]) as int
                != i by {
            if deps[c]@[j] as int == i {
                assert(dep_idx(tasks, c, j) == i);
                lemma_task_index_of_props(tasks, dep_id(tasks, c, j));
                assert(dep_id(tasks, c, j) == tasks[i].id@);
            }
        }
    }
}

/// A topological order of the resolved graph is one of the task graph, and
/// back.
proof fn lemma_topo_bridge(tasks: Seq<Task>, deps: Seq<Vec<usize>>, ord: Seq<int>)
    requires
        resolved_deps_ok(tasks, deps),
        deps_all_known(tasks),
    ensures
        rev_topo_idx(deps, ord) <==> rev_topo_order(tasks, ord),
{
    if rev_topo_idx(deps, ord) {
        assert forall|p: int, c: int, j: int|
            0 <= p < ord.len() && 0 <= c < tasks.len() && 0 <= j < dep_count(tasks, c) && #[trigger]
        dep_idx(tasks, c, j) == #[trigger] ord[p] implies exists|q: int|
            0 <= q < p && ord[q] == c by {
            assert((deps[c]@[j]) as int == ord[p]);
        }
    }
    if rev_topo_order(tasks, ord) {
        assert forall|p: int, c: int, j: int|
            0 <= p < ord.len() && 0 <= c < deps.len() && 0 <= j < deps[c]@.len() && (
            #[trigger] deps[c]@[j]) as int == #[trigger] ord[p] implies exists|q: int|
            0 <= q < p && ord[q] == c by {
            assert(dep_idx(tasks, c, j) == ord[p]);
        }
    }
}

/// Calculate a backwards schedule with critical path analysis.
///
/// Anchors pin chosen tasks' Late Finish; the backward pass tightens every
/// provider's Late Finish to the minimum of its consumers' Late Starts, the
/// forward pass derives the Early values from the minimum Late Start, and
/// the result carries slack and the critical flag per task, in input order.
#[verifier::rlimit(100)]
pub fn calculate_backwards_schedule(request: ScheduleRequest) -> (r: Result<
    Vec<ScheduledTask>,
    ScheduleError,
>)
    requires
        ids_unique(request.tasks@),
        anchor_keys_unique(request.anchors@),
        sum_abs_dur(request.tasks@) <= DURATION_BUDGET as int,
    ensures
        r is Ok <==> (request.tasks@.len() == 0 || schedulable(request.tasks@, request.anchors@)),
        request.tasks@.len() == 0 ==> (r matches Ok(out) && out@.len() == 0),
        r matches Ok(out) ==> out@.len() == request.tasks@.len() && exists|
            ls: Seq<i64>,
            lf: Seq<i64>,
            es: Seq<i64>,
            ef: Seq<i64>,
        | #[trigger] schedule_outputs_ok(request.tasks@, request.anchors@, ls, lf, es, ef, out@),
        r matches Ok(out) ==> forall|i: int|
            0 <= i < out@.len() ==> (#[trigger] out@[i]).slack_minutes >= 0 && (out@[i].is_critical
                <==> out@[i].slack_minutes <= 0) && out@[i].id@ == request.tasks@[i].id@,
        (request.tasks@.len() > 0 && !anchors_all_valid(request.tasks@, request.anchors@)) ==> (
        r matches Err(e) && exists|k: int|
            #[trigger] first_bad_anchor(request.tasks@, request.anchors@, k) && anchor_error_for(
                request.tasks@,
                request.anchors@,
                k,
                e,
            )),
        (request.tasks@.len() > 0 && anchors_all_valid(request.tasks@, request.anchors@)
            && !deps_all_known(request.tasks@)) ==> (r matches Err(e) && exists|c: int, j: int|
            #[trigger] first_unknown_dep(request.tasks@, c, j) && (
            e matches ScheduleError::TaskNotFound(tid) && tid@ == dep_id(request.tasks@, c, j))),
        (request.tasks@.len() > 0 && anchors_all_valid(request.tasks@, request.anchors@)
            && deps_all_known(request.tasks@) && !sinks_anchored(
            request.tasks@,
            request.anchors@,
        )) ==> (r matches Err(e) && e matches ScheduleError::NoEndDateComputed(nm) && exists|i: int|
            0 <= i < request.tasks@.len() && #[trigger] is_sink(request.tasks@, i) && !has_anchor(
                request.anchors@,
                request.tasks@[i].id@,
            ) && nm@ == request.tasks@[i].name@),
        (request.tasks@.len() > 0 && anchors_all_valid(request.tasks@, request.anchors@)
            && deps_all_known(request.tasks@) && sinks_anchored(request.tasks@, request.anchors@)
            && !acyclic(request.tasks@)) ==> (r matches Err(e)
            && e matches ScheduleError::NoEndDateComputed(nm)),
{
    let ScheduleRequest { tasks, anchors } = request;
    let n = tasks.len();
    if n == 0 {
        let out: Vec<ScheduledTask> = Vec::new();
        proof {
            let e = Seq::<i64>::empty();
            assert(schedule_outputs_ok(tasks@, anchors@, e, e, e, e, out@));
        }
        return Ok(out);
    }
    let anchor_vec = match seed_anchors(&tasks, &anchors) {
        Ok(v) => v,
        Err(e) => {
            return Err(e);
        },
    };
    let deps = match resolve_dependencies(&tasks) {
        Ok(d) => d,
        Err(e) => {
            return Err(e);
        },
    };
    let durs = build_durations(&tasks);
    proof {
        assert forall|c: int, j: int|
            0 <= c < deps@.len() && 0 <= j < deps@[c]@.len() implies (#[trigger] deps@[c]@[j])
            < tasks@.len() by {
            assert(deps@[c]@[j] as int == dep_idx(tasks@, c, j));
            lemma_task_index_of_props(tasks@, dep_id(tasks@, c, j));
        }
    }
    let consumers = build_consumers(&deps, n);
    let passes_result = backward_pass(&tasks, &deps, &consumers, &durs, &anchor_vec);
    proof {
        // the success condition of the backward pass is the task-level one
        assert forall|i: int| 0 <= i < n implies (#[trigger] sink_idx(deps@, i) <==> is_sink(
            tasks@,
            i,
        )) by {
            lemma_sink_bridge(tasks@, deps@, i);
        }
        assert(sinks_anchored_idx(deps@, anchor_vec@) <==> sinks_anchored(tasks@, anchors@)) by {
            if sinks_anchored_idx(deps@, anchor_vec@) {
                assert forall|i: int|
                    0 <= i < tasks@.len() && #[trigger] is_sink(tasks@, i) implies has_anchor(
                    anchors@,
                    tasks@[i].id@,
                ) by {
                    assert(sink_idx(deps@, i));
                    assert(anchor_vec@[i] is Some);
                }
            }
            if sinks_anchored(tasks@, anchors@) {
                assert forall|i: int|
                    0 <= i < deps@.len() && #[trigger] sink_idx(deps@, i) implies anchor_vec@[i]
                    is Some by {
                    assert(is_sink(tasks@, i));
                    assert(has_anchor(anchors@, tasks@[i].id@));
                }
            }
        }
        assert(acyclic_idx(deps@) <==> acyclic(tasks@)) by {
            if acyclic_idx(deps@) {
                let ord = choose|ord: Seq<int>| rev_topo_idx(deps@, ord);
                lemma_topo_bridge(tasks@, deps@, ord);
                assert(rev_topo_order(tasks@, ord));
            }
            if acyclic(tasks@) {
                let ord = choose|ord: Seq<int>| rev_topo_order(tasks@, ord);
                lemma_topo_bridge(tasks@, deps@, ord);
                assert(rev_topo_idx(deps@, ord));
            }
        }
    }
    let (ls, lf) = match passes_result {
        Ok(p) => p,
        Err(e) => {
            return Err(e);
        },
    };
    let ps = project_start(&ls);
    proof {
        lemma_seq_min_props(ls@);
        let w = choose|w: int| 0 <= w < ls@.len() && seq_min(ls@) == ls@[w];
        assert(abs_val(ls@[w] as int) <= TIMESTAMP_LIMIT + DURATION_BUDGET);
    }
    let fwd = forward_pass(&deps, &consumers, &durs, ps, &ls, &lf);
    let es = fwd.0;
    let ef = fwd.1;
    let out = assemble(&tasks, &ls, &lf, &es);
    proof {
        // bridge the index-level characterizations to the task level
        assert(backward_ok(tasks@, anchors@, ls@, lf@)) by {
            assert forall|i: int|
                0 <= i < n && has_anchor(anchors@, tasks@[i].id@) implies #[trigger] lf@[i]
                <= anchor_ts(anchors@, tasks@[i].id@) by {
                assert(anchor_vec@[i] is Some);
            }
            assert forall|c: int, j: int|
                0 <= c < n && 0 <= j < dep_count(tasks@, c) implies lf@[#[trigger] dep_idx(
                tasks@,
                c,
                j,
            )] <= ls@[c] by {
                assert(deps@[c]@[j] as int == dep_idx(tasks@, c, j));
            }
            assert forall|i: int| 0 <= i < n implies #[trigger] lf_attains_task(
                tasks@,
                anchors@,
                ls@,
                lf@,
                i,
            ) by {
                assert(lf_attains(deps@, anchor_vec@, ls@, lf@, i));
                if anchor_vec@[i] is Some && lf@[i] == anchor_vec@[i]->0 {
                    assert(has_anchor(anchors@, tasks@[i].id@));
                    assert(lf@[i] == anchor_ts(anchors@, tasks@[i].id@));
                } else {
                    let (c, j) = choose|c: int, j: int|
                        0 <= c < deps@.len() && 0 <= j < deps@[c]@.len() && (
                        #[trigger] deps@[c]@[j]) as int == i && lf@[i] == ls@[c];
                    assert(dep_idx(tasks@, c, j) == i && lf@[i] == ls@[c]);
                    assert(0 <= c < tasks@.len() && 0 <= j < dep_count(tasks@, c));
                }
            }
        }
        assert(forward_ok(tasks@, ps, es@, ef@)) by {
            assert forall|c: int, j: int|
                0 <= c < n && 0 <= j < dep_count(tasks@, c) implies ef@[#[trigger] dep_idx(
                tasks@,
                c,
                j,
            )] <= es@[c] by {
                assert(deps@[c]@[j] as int == dep_idx(tasks@, c, j));
            }
            assert forall|i: int| 0 <= i < n implies #[trigger] es_attains_task(
                tasks@,
                ps,
                es@,
                ef@,
                i,
            ) by {
                assert(es_attains(deps@, ps, es@, ef@, i));
                if es@[i] != ps {
                    let j = choose|j: int|
                        0 <= j < deps@[i]@.len() && es@[i] == ef@[(
                        #[trigger] deps@[i]@[j]) as int];
                    assert(dep_idx(tasks@, i, j) == deps@[i]@[j] as int);
                    assert(0 <= j < dep_count(tasks@, i) && es@[i] == ef@[dep_idx(tasks@, i, j)]);
                }
            }
        }
        assert(schedule_outputs_ok(tasks@, anchors@, ls@, lf@, es@, ef@, out@));
        assert forall|i: int|
            0 <= i < out@.len() implies (#[trigger] out@[i]).slack_minutes >= 0 && (
        out@[i].is_critical <==> out@[i].slack_minutes <= 0) && out@[i].id@
            == tasks@[i].id@ by {
            assert(scheduled_fields_ok(tasks@[i], ls@[i], lf@[i], es@[i], out@[i]));
            assert(ls@[i] - es@[i] >= 0);
            assert(out@[i].slack_minutes == (ls@[i] - es@[i]) / 60);
        }
    }
    Ok(out)
}

} // verus!
