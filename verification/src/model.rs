//! The mathematical model of a schedule: durations, the dependency graph
//! induced by a task list, topological orders, and the characterizations of
//! the backward and forward passes that the scheduler's contracts state.

use vstd::prelude::*;
use crate::dates::{anchor_seconds, TIMESTAMP_LIMIT};
use crate::scheduler::Task;

verus! {

/// A bound on the summed absolute durations of one request, in seconds.
/// Together with `TIMESTAMP_LIMIT` it keeps every computed timestamp well
/// inside `i64`.
pub const DURATION_BUDGET: i64 = 1_000_000_000_000_000;

pub open spec fn abs_val(x: int) -> int {
    if x < 0 {
        -x
    } else {
        x
    }
}

/// A task's effective duration in seconds: whole minutes when given,
/// else whole days.
pub open spec fn dur_seconds(t: Task) -> int {
    match t.duration_minutes {
        Some(m) => m * 60,
        None => t.duration_days * 86400,
    }
}

/// Summed absolute effective durations, in seconds.
pub open spec fn sum_abs_dur(tasks: Seq<Task>) -> int
    decreases tasks.len(),
{
    if tasks.len() == 0 {
        0
    } else {
        sum_abs_dur(tasks.drop_last()) + abs_val(dur_seconds(tasks.last()))
    }
}

pub proof fn lemma_sum_abs_dur_nonneg(tasks: Seq<Task>)
    ensures
        sum_abs_dur(tasks) >= 0,
    decreases tasks.len(),
{
    if tasks.len() > 0 {
        lemma_sum_abs_dur_nonneg(tasks.drop_last());
    }
}

/// Each task's absolute duration is at most the sum over the whole list.
pub proof fn lemma_sum_abs_dur_bounds_each(tasks: Seq<Task>, i: int)
    requires
        0 <= i < tasks.len(),
    ensures
        abs_val(dur_seconds(tasks[i])) <= sum_abs_dur(tasks),
    decreases tasks.len(),
{
    lemma_sum_abs_dur_nonneg(tasks.drop_last());
    if i < tasks.len() - 1 {
        lemma_sum_abs_dur_bounds_each(tasks.drop_last(), i);
        assert(tasks.drop_last()[i] == tasks[i]);
    } else {
        assert(tasks.last() == tasks[i]);
    }
}

/// Task identifiers are unique within one request.
pub open spec fn ids_unique(tasks: Seq<Task>) -> bool {
    forall|i: int, j: int|
        0 <= i < j < tasks.len() ==> (#[trigger] tasks[i].id@) != (#[trigger] tasks[j].id@)
}

/// Anchor keys form a mapping: each appears at most once.
pub open spec fn anchor_keys_unique(anchors: Seq<(String, String)>) -> bool {
    forall|i: int, j: int|
        0 <= i < j < anchors.len() ==> (#[trigger] anchors[i].0@) != (#[trigger] anchors[j].0@)
}

/// The first index whose task carries the identifier, or -1.
pub open spec fn task_index_of(tasks: Seq<Task>, id: Seq<char>) -> int
    decreases tasks.len(),
{
    if tasks.len() == 0 {
        -1
    } else if tasks[0].id@ == id {
        0
    } else {
        let r = task_index_of(tasks.drop_first(), id);
        if r < 0 {
            -1
        } else {
            r + 1
        }
    }
}

pub proof fn lemma_task_index_of_props(tasks: Seq<Task>, id: Seq<char>)
    ensures
        task_index_of(tasks, id) >= 0 ==> {
            &&& task_index_of(tasks, id) < tasks.len()
            &&& tasks[task_index_of(tasks, id)].id@ == id
            &&& forall|k: int| 0 <= k < task_index_of(tasks, id) ==> (#[trigger] tasks[k].id@) != id
        },
        task_index_of(tasks, id) < 0 ==> forall|k: int|
            0 <= k < tasks.len() ==> (#[trigger] tasks[k].id@) != id,
    decreases tasks.len(),
{
    if tasks.len() > 0 && tasks[0].id@ != id {
        lemma_task_index_of_props(tasks.drop_first(), id);
        assert(forall|k: int|
            1 <= k < tasks.len() ==> #[trigger] tasks[k] == tasks.drop_first()[k - 1]);
    }
}

/// With unique identifiers, looking up a task's own identifier yields its
/// index.
pub proof fn lemma_task_index_of_self(tasks: Seq<Task>, i: int)
    requires
        ids_unique(tasks),
        0 <= i < tasks.len(),
    ensures
        task_index_of(tasks, tasks[i].id@) == i,
{
    lemma_task_index_of_props(tasks, tasks[i].id@);
    let r = task_index_of(tasks, tasks[i].id@);
    if r < 0 {
        assert(tasks[i].id@ != tasks[i].id@);
    } else if r < i {
        assert(tasks[r].id@ != tasks[i].id@);
        assert(false);
    } else if r > i {
        assert(tasks[i].id@ != tasks[r].id@);
        assert(false);
    }
}

/// The first index whose anchor key equals the identifier, or -1.
pub open spec fn anchor_index_of(anchors: Seq<(String, String)>, id: Seq<char>) -> int
    decreases anchors.len(),
{
    if anchors.len() == 0 {
        -1
    } else if anchors[0].0@ == id {
        0
    } else {
        let r = anchor_index_of(anchors.drop_first(), id);
        if r < 0 {
            -1
        } else {
            r + 1
        }
    }
}

pub proof fn lemma_anchor_index_of_props(anchors: Seq<(String, String)>, id: Seq<char>)
    ensures
        anchor_index_of(anchors, id) >= 0 ==> {
            &&& anchor_index_of(anchors, id) < anchors.len()
            &&& anchors[anchor_index_of(anchors, id)].0@ == id
        },
        anchor_index_of(anchors, id) < 0 ==> forall|k: int|
            0 <= k < anchors.len() ==> (#[trigger] anchors[k].0@) != id,
    decreases anchors.len(),
{
    if anchors.len() > 0 && anchors[0].0@ != id {
        lemma_anchor_index_of_props(anchors.drop_first(), id);
        assert(forall|k: int|
            1 <= k < anchors.len() ==> #[trigger] anchors[k] == anchors.drop_first()[k - 1]);
    }
}

/// With unique keys, any entry whose key matches is the entry found.
pub proof fn lemma_anchor_index_of_unique(anchors: Seq<(String, String)>, k: int)
    requires
        anchor_keys_unique(anchors),
        0 <= k < anchors.len(),
    ensures
        anchor_index_of(anchors, anchors[k].0@) == k,
{
    lemma_anchor_index_of_props(anchors, anchors[k].0@);
    let r = anchor_index_of(anchors, anchors[k].0@);
    if r < 0 {
        assert(anchors[k].0@ != anchors[k].0@);
    } else if r < k {
        assert(anchors[r].0@ != anchors[k].0@);
        assert(false);
    } else if r > k {
        assert(anchors[k].0@ != anchors[r].0@);
        assert(false);
    }
}

/// Whether the identifier carries an anchor.
pub open spec fn has_anchor(anchors: Seq<(String, String)>, id: Seq<char>) -> bool {
    anchor_index_of(anchors, id) >= 0
}

/// The anchor's date string for an anchored identifier.
pub open spec fn anchor_value(anchors: Seq<(String, String)>, id: Seq<char>) -> Seq<char> {
    anchors[anchor_index_of(anchors, id)].1@
}

/// The anchor's parsed timestamp for an anchored identifier whose string
/// parses.
pub open spec fn anchor_ts(anchors: Seq<(String, String)>, id: Seq<char>) -> int {
    anchor_seconds(anchor_value(anchors, id))->0
}

/// Number of dependencies of task `c`.
pub open spec fn dep_count(tasks: Seq<Task>, c: int) -> int {
    tasks[c].dependencies@.len() as int
}

/// The `j`-th dependency identifier of task `c`.
pub open spec fn dep_id(tasks: Seq<Task>, c: int, j: int) -> Seq<char> {
    tasks[c].dependencies@[j]@
}

/// The index of the `j`-th dependency of task `c`, or -1 when unknown.
pub open spec fn dep_idx(tasks: Seq<Task>, c: int, j: int) -> int {
    task_index_of(tasks, dep_id(tasks, c, j))
}

/// Every identifier referenced by a dependency list names a task.
pub open spec fn deps_all_known(tasks: Seq<Task>) -> bool {
    forall|c: int, j: int|
        0 <= c < tasks.len() && 0 <= j < dep_count(tasks, c) ==> #[trigger] dep_idx(tasks, c, j)
            >= 0
}

/// A sink: a task that appears in no dependency list (it has no consumers).
pub open spec fn is_sink(tasks: Seq<Task>, i: int) -> bool {
    forall|c: int, j: int|
        0 <= c < tasks.len() && 0 <= j < dep_count(tasks, c) ==> #[trigger] dep_id(tasks, c, j)
            != tasks[i].id@
}

/// Every sink carries an anchor (otherwise no end date can be computed
/// for it).
pub open spec fn sinks_anchored(tasks: Seq<Task>, anchors: Seq<(String, String)>) -> bool {
    forall|i: int|
        0 <= i < tasks.len() && #[trigger] is_sink(tasks, i) ==> has_anchor(anchors, tasks[i].id@)
}

/// Anchor entry `k` names a known task and its date string parses.
pub open spec fn anchor_entry_valid(
    tasks: Seq<Task>,
    anchors: Seq<(String, String)>,
    k: int,
) -> bool {
    &&& task_index_of(tasks, anchors[k].0@) >= 0
    &&& anchor_seconds(anchors[k].1@) is Some
}

pub open spec fn anchors_all_valid(tasks: Seq<Task>, anchors: Seq<(String, String)>) -> bool {
    forall|k: int| 0 <= k < anchors.len() ==> #[trigger] anchor_entry_valid(tasks, anchors, k)
}

/// `k` is the first anchor entry that is invalid.
pub open spec fn first_bad_anchor(
    tasks: Seq<Task>,
    anchors: Seq<(String, String)>,
    k: int,
) -> bool {
    &&& 0 <= k < anchors.len()
    &&& !anchor_entry_valid(tasks, anchors, k)
    &&& forall|m: int| 0 <= m < k ==> #[trigger] anchor_entry_valid(tasks, anchors, m)
}

/// `(c, j)` locates the first dependency identifier that names no task,
/// scanning tasks in order and each dependency list in order.
pub open spec fn first_unknown_dep(tasks: Seq<Task>, c: int, j: int) -> bool {
    &&& 0 <= c < tasks.len()
    &&& 0 <= j < dep_count(tasks, c)
    &&& dep_idx(tasks, c, j) < 0
    &&& forall|c2: int, j2: int|
        0 <= c2 < tasks.len() && 0 <= j2 < dep_count(tasks, c2) && (c2 < c || (c2 == c && j2 < j))
            ==> #[trigger] dep_idx(tasks, c2, j2) >= 0
}

/// A reverse topological order: distinct indices covering every task, and
/// each task's consumers appear before it.
pub open spec fn rev_topo_order(tasks: Seq<Task>, ord: Seq<int>) -> bool {
    &&& forall|p: int| 0 <= p < ord.len() ==> 0 <= #[trigger] ord[p] < tasks.len()
    &&& forall|i: int| 0 <= i < tasks.len() ==> ord.contains(i)
    &&& forall|p: int, q: int| 0 <= p < q < ord.len() ==> #[trigger] ord[p] != #[trigger] ord[q]
    &&& forall|p: int, c: int, j: int|
        0 <= p < ord.len() && 0 <= c < tasks.len() && 0 <= j < dep_count(tasks, c) && #[trigger]
        dep_idx(tasks, c, j) == #[trigger] ord[p] ==> exists|q: int| 0 <= q < p && ord[q] == c
}

/// The dependency relation is acyclic.
pub open spec fn acyclic(tasks: Seq<Task>) -> bool {
    exists|ord: Seq<int>| rev_topo_order(tasks, ord)
}

/// Late Finish attains one of its bounds: the task's own anchor, or the
/// Late Start of one of its consumers.
pub open spec fn lf_attains_task(
    tasks: Seq<Task>,
    anchors: Seq<(String, String)>,
    ls: Seq<i64>,
    lf: Seq<i64>,
    i: int,
) -> bool {
    (has_anchor(anchors, tasks[i].id@) && lf[i] == anchor_ts(anchors, tasks[i].id@)) || (exists|
        c: int,
        j: int,
    |
        0 <= c < tasks.len() && 0 <= j < dep_count(tasks, c) && #[trigger] dep_idx(tasks, c, j)
            == i && lf[i] == ls[c])
}

/// The whole characterization of the backward pass: for every task,
/// Late Start is Late Finish minus the duration, and Late Finish is the
/// minimum of the task's own anchor (when anchored) and the Late Starts of
/// its consumers - stated as: it is a lower bound of all of them, and it
/// attains one of them.
pub open spec fn backward_ok(
    tasks: Seq<Task>,
    anchors: Seq<(String, String)>,
    ls: Seq<i64>,
    lf: Seq<i64>,
) -> bool {
    let n = tasks.len() as int;
    &&& ls.len() == n
    &&& lf.len() == n
    &&& deps_all_known(tasks)
    &&& forall|i: int| 0 <= i < n ==> #[trigger] ls[i] == lf[i] - dur_seconds(tasks[i])
    &&& forall|i: int|
        0 <= i < n && has_anchor(anchors, tasks[i].id@) ==> #[trigger] lf[i] <= anchor_ts(
            anchors,
            tasks[i].id@,
        )
    &&& forall|c: int, j: int|
        0 <= c < n && 0 <= j < dep_count(tasks, c) ==> lf[#[trigger] dep_idx(tasks, c, j)] <= ls[c]
    &&& forall|i: int| 0 <= i < n ==> #[trigger] lf_attains_task(tasks, anchors, ls, lf, i)
}

/// Early Start attains one of its bounds: the project start, or the Early
/// Finish of one of the task's dependencies.
pub open spec fn es_attains_task(
    tasks: Seq<Task>,
    ps: i64,
    es: Seq<i64>,
    ef: Seq<i64>,
    i: int,
) -> bool {
    es[i] == ps || (exists|j: int|
        0 <= j < dep_count(tasks, i) && es[i] == ef[#[trigger] dep_idx(tasks, i, j)])
}

/// The whole characterization of the forward pass against a project start:
/// Early Finish is Early Start plus the duration, and Early Start is the
/// maximum of the project start and the Early Finishes of the task's
/// dependencies - stated as: it is an upper bound of all of them, and it
/// attains one of them.
pub open spec fn forward_ok(tasks: Seq<Task>, ps: i64, es: Seq<i64>, ef: Seq<i64>) -> bool {
    let n = tasks.len() as int;
    &&& es.len() == n
    &&& ef.len() == n
    &&& deps_all_known(tasks)
    &&& forall|i: int| 0 <= i < n ==> #[trigger] ef[i] == es[i] + dur_seconds(tasks[i])
    &&& forall|i: int| 0 <= i < n ==> #[trigger] es[i] >= ps
    &&& forall|c: int, j: int|
        0 <= c < n && 0 <= j < dep_count(tasks, c) ==> ef[#[trigger] dep_idx(tasks, c, j)] <= es[c]
    &&& forall|i: int| 0 <= i < n ==> #[trigger] es_attains_task(tasks, ps, es, ef, i)
}

/// The minimum of a non-empty sequence (0 for an empty one).
pub open spec fn seq_min(s: Seq<i64>) -> i64
    decreases s.len(),
{
    if s.len() == 0 {
        0
    } else if s.len() == 1 {
        s[0]
    } else {
        let m = seq_min(s.drop_last());
        if s.last() < m {
            s.last()
        } else {
            m
        }
    }
}

pub proof fn lemma_seq_min_props(s: Seq<i64>)
    requires
        s.len() > 0,
    ensures
        forall|i: int| 0 <= i < s.len() ==> seq_min(s) <= #[trigger] s[i],
        exists|i: int| 0 <= i < s.len() && seq_min(s) == s[i],
    decreases s.len(),
{
    if s.len() == 1 {
        assert(seq_min(s) == s[0]);
    } else {
        lemma_seq_min_props(s.drop_last());
        assert(forall|i: int| 0 <= i < s.len() - 1 ==> #[trigger] s[i] == s.drop_last()[i]);
        if s.last() < seq_min(s.drop_last()) {
            assert(seq_min(s) == s[s.len() - 1]);
        } else {
            let i = choose|i: int| 0 <= i < s.drop_last().len() && seq_min(s.drop_last())
                == s.drop_last()[i];
            assert(seq_min(s) == s[i]);
        }
    }
}

/// Two optional strings hold the same text.
pub open spec fn opt_str_eq(a: Option<String>, b: Option<String>) -> bool {
    match (a, b) {
        (Option::Some(x), Option::Some(y)) => x@ == y@,
        (Option::None, Option::None) => true,
        _ => false,
    }
}

/// One output record against its input task and computed times: the dates
/// are the rendered Late values, slack is Late Start minus Early Start in
/// whole minutes, the critical flag marks non-positive slack, and the
/// passthrough fields are carried over unchanged.
pub open spec fn scheduled_fields_ok(
    t: Task,
    lsv: i64,
    lfv: i64,
    esv: i64,
    st: crate::scheduler::ScheduledTask,
) -> bool {
    &&& st.id@ == t.id@
    &&& st.name@ == t.name@
    &&& st.start_date@ == crate::dates::rendered_or_empty(lsv as int)
    &&& st.end_date@ == crate::dates::rendered_or_empty(lfv as int)
    &&& st.completed == t.completed
    &&& opt_str_eq(st.notes, t.notes)
    &&& st.is_milestone == t.is_milestone
    &&& st.slack_minutes == (lsv - esv) / 60
    &&& (st.is_critical <==> st.slack_minutes <= 0)
}

/// The full success contract of the scheduler, over witness sequences for
/// the two passes: the backward characterization, the forward
/// characterization against the minimum Late Start, non-negative slack, and
/// every output record built from its task's computed times.
pub open spec fn schedule_outputs_ok(
    tasks: Seq<Task>,
    anchors: Seq<(String, String)>,
    ls: Seq<i64>,
    lf: Seq<i64>,
    es: Seq<i64>,
    ef: Seq<i64>,
    out: Seq<crate::scheduler::ScheduledTask>,
) -> bool {
    let n = tasks.len() as int;
    &&& out.len() == n
    &&& backward_ok(tasks, anchors, ls, lf)
    &&& forward_ok(tasks, seq_min(ls), es, ef)
    &&& forall|i: int| 0 <= i < n ==> #[trigger] es[i] <= ls[i]
    &&& forall|i: int|
        0 <= i < n ==> #[trigger] scheduled_fields_ok(tasks[i], ls[i], lf[i], es[i], out[i])
}

/// Which error a bad anchor entry produces: an unknown task identifier, or
/// a date string that matches neither shape.
pub open spec fn anchor_error_for(
    tasks: Seq<Task>,
    anchors: Seq<(String, String)>,
    k: int,
    e: crate::scheduler::ScheduleError,
) -> bool {
    if task_index_of(tasks, anchors[k].0@) < 0 {
        e matches crate::scheduler::ScheduleError::AnchorTaskNotFound(id) && id@ == anchors[k].0@
    } else {
        e matches crate::scheduler::ScheduleError::InvalidAnchorDate { task_id, details }
            && task_id@ == anchors[k].0@ && details@ == crate::dates::parse_error_details_spec(
            anchors[k].1@,
        )
    }
}

/// The conditions under which a non-empty request schedules successfully.
pub open spec fn schedulable(tasks: Seq<Task>, anchors: Seq<(String, String)>) -> bool {
    &&& anchors_all_valid(tasks, anchors)
    &&& deps_all_known(tasks)
    &&& sinks_anchored(tasks, anchors)
    &&& acyclic(tasks)
}

} // verus!
