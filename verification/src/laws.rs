//! The laws of the scheduler, proved once and for all over the
//! characterizations that `calculate_backwards_schedule` guarantees:
//! precedence along every edge, exact duration closure, anchors respected
//! and attained, non-negative slack, the critical flag, and determinism.

use vstd::prelude::*;
use crate::model::{
    acyclic, anchor_ts, backward_ok, dep_count, dep_idx, deps_all_known, dur_seconds,
    es_attains_task, forward_ok, has_anchor, ids_unique, is_sink, lemma_task_index_of_props,
    lemma_task_index_of_self, lf_attains_task, opt_str_eq, rev_topo_order, schedule_outputs_ok,
    scheduled_fields_ok, seq_min, sinks_anchored,
};
use crate::scheduler::{ScheduledTask, Task};

verus! {

/// Precedence: for every edge from a provider to a consumer, the provider's
/// Late Finish is at most the consumer's Late Start, and the provider's
/// Early Finish is at most the consumer's Early Start.
pub proof fn lemma_precedence(
    tasks: Seq<Task>,
    anchors: Seq<(String, String)>,
    ls: Seq<i64>,
    lf: Seq<i64>,
    ps: i64,
    es: Seq<i64>,
    ef: Seq<i64>,
)
    requires
        backward_ok(tasks, anchors, ls, lf),
        forward_ok(tasks, ps, es, ef),
    ensures
        forall|c: int, j: int|
            0 <= c < tasks.len() && 0 <= j < dep_count(tasks, c) ==> lf[#[trigger] dep_idx(
                tasks,
                c,
                j,
            )] <= ls[c] && ef[dep_idx(tasks, c, j)] <= es[c],
{
}

/// Duration closure: for every task, Late Finish minus Late Start and Early
/// Finish minus Early Start both equal the task's effective duration,
/// exactly.
pub proof fn lemma_duration_closure(
    tasks: Seq<Task>,
    anchors: Seq<(String, String)>,
    ls: Seq<i64>,
    lf: Seq<i64>,
    ps: i64,
    es: Seq<i64>,
    ef: Seq<i64>,
)
    requires
        backward_ok(tasks, anchors, ls, lf),
        forward_ok(tasks, ps, es, ef),
    ensures
        forall|i: int|
            0 <= i < tasks.len() ==> (#[trigger] lf[i]) - ls[i] == dur_seconds(tasks[i]) && ef[i]
                - es[i] == dur_seconds(tasks[i]),
{
}

/// Anchor respect: every anchored task finishes no later than its anchor,
/// and on a well-formed graph at least one anchored task meets its anchor
/// exactly (the tightest anchor controls its subgraph).
pub proof fn lemma_anchor_respect(
    tasks: Seq<Task>,
    anchors: Seq<(String, String)>,
    ls: Seq<i64>,
    lf: Seq<i64>,
)
    requires
        ids_unique(tasks),
        tasks.len() > 0,
        backward_ok(tasks, anchors, ls, lf),
        sinks_anchored(tasks, anchors),
        acyclic(tasks),
    ensures
        forall|i: int|
            0 <= i < tasks.len() && has_anchor(anchors, tasks[i].id@) ==> #[trigger] lf[i]
                <= anchor_ts(anchors, tasks[i].id@),
        exists|i: int|
            0 <= i < tasks.len() && has_anchor(anchors, tasks[i].id@) && #[trigger] lf[i]
                == anchor_ts(anchors, tasks[i].id@),
{
    let ord = choose|ord: Seq<int>| rev_topo_order(tasks, ord);
    assert(ord.contains(0));
    let p0 = choose|p: int| 0 <= p < ord.len() && ord[p] == 0;
    // the first task in the order has no consumers: it is a sink
    let i0 = ord[0];
    assert forall|c: int, j: int|
        0 <= c < tasks.len() && 0 <= j < dep_count(tasks, c) implies #[trigger] dep_idx(
        tasks,
        c,
        j,
    ) != i0 by {
        if dep_idx(tasks, c, j) == i0 {
            assert(exists|q: int| 0 <= q < 0 && ord[q] == c);
        }
    }
    assert(is_sink(tasks, i0)) by {
        assert forall|c: int, j: int|
            0 <= c < tasks.len() && 0 <= j < dep_count(tasks, c) implies #[trigger] crate::model::dep_id(
            tasks,
            c,
            j,
        ) != tasks[i0].id@ by {
            if crate::model::dep_id(tasks, c, j) == tasks[i0].id@ {
                lemma_task_index_of_self(tasks, i0);
                assert(dep_idx(tasks, c, j) == i0);
            }
        }
    }
    assert(has_anchor(anchors, tasks[i0].id@));
    // a sink's Late Finish can only attain its own anchor
    assert(lf_attains_task(tasks, anchors, ls, lf, i0));
    if !(has_anchor(anchors, tasks[i0].id@) && lf[i0] == anchor_ts(anchors, tasks[i0].id@)) {
        let (c, j) = choose|c: int, j: int|
            0 <= c < tasks.len() && 0 <= j < dep_count(tasks, c) && #[trigger] dep_idx(tasks, c, j)
                == i0 && lf[i0] == ls[c];
        assert(dep_idx(tasks, c, j) != i0);
        assert(false);
    }
}

/// Non-negative slack: on a connected, anchored graph every task's Early
/// Start is at most its Late Start, so slack in minutes is never negative.
pub proof fn lemma_nonnegative_slack(
    tasks: Seq<Task>,
    anchors: Seq<(String, String)>,
    ls: Seq<i64>,
    lf: Seq<i64>,
    es: Seq<i64>,
    ef: Seq<i64>,
    out: Seq<ScheduledTask>,
)
    requires
        schedule_outputs_ok(tasks, anchors, ls, lf, es, ef, out),
    ensures
        forall|i: int| 0 <= i < out.len() ==> (#[trigger] out[i]).slack_minutes >= 0,
{
    assert forall|i: int| 0 <= i < out.len() implies (#[trigger] out[i]).slack_minutes >= 0 by {
        assert(scheduled_fields_ok(tasks[i], ls[i], lf[i], es[i], out[i]));
        assert(ls[i] - es[i] >= 0);
    }
}

/// The critical flag marks exactly the tasks with non-positive slack.
pub proof fn lemma_critical_flag(
    tasks: Seq<Task>,
    anchors: Seq<(String, String)>,
    ls: Seq<i64>,
    lf: Seq<i64>,
    es: Seq<i64>,
    ef: Seq<i64>,
    out: Seq<ScheduledTask>,
)
    requires
        schedule_outputs_ok(tasks, anchors, ls, lf, es, ef, out),
    ensures
        forall|i: int|
            0 <= i < out.len() ==> ((#[trigger] out[i]).is_critical <==> out[i].slack_minutes
                <= 0),
{
    assert forall|i: int|
        0 <= i < out.len() implies ((#[trigger] out[i]).is_critical <==> out[i].slack_minutes
        <= 0) by {
        assert(scheduled_fields_ok(tasks[i], ls[i], lf[i], es[i], out[i]));
    }
}

/// Input order preserved: the output has one record per input task, in the
/// same order, carrying the same identifier and name.
pub proof fn lemma_order_preserved(
    tasks: Seq<Task>,
    anchors: Seq<(String, String)>,
    ls: Seq<i64>,
    lf: Seq<i64>,
    es: Seq<i64>,
    ef: Seq<i64>,
    out: Seq<ScheduledTask>,
)
    requires
        schedule_outputs_ok(tasks, anchors, ls, lf, es, ef, out),
    ensures
        out.len() == tasks.len(),
        forall|i: int|
            0 <= i < out.len() ==> (#[trigger] out[i]).id@ == tasks[i].id@ && out[i].name@
                == tasks[i].name@,
{
    assert forall|i: int|
        0 <= i < out.len() implies (#[trigger] out[i]).id@ == tasks[i].id@ && out[i].name@
        == tasks[i].name@ by {
        assert(scheduled_fields_ok(tasks[i], ls[i], lf[i], es[i], out[i]));
    }
}

/// Two output records carry the same observable fields.
pub open spec fn outputs_equivalent(out1: Seq<ScheduledTask>, out2: Seq<ScheduledTask>) -> bool {
    &&& out1.len() == out2.len()
    &&& forall|i: int|
        0 <= i < out1.len() ==> {
            let a = #[trigger] out1[i];
            let b = #[trigger] out2[i];
            a.id@ == b.id@ && a.name@ == b.name@ && a.start_date@ == b.start_date@ && a.end_date@
                == b.end_date@ && a.completed == b.completed && opt_str_eq(a.notes, b.notes)
                && a.is_critical == b.is_critical && a.slack_minutes == b.slack_minutes
                && a.is_milestone == b.is_milestone
        }
}

/// The Late values are a function of the request alone: any two sequences
/// that satisfy the backward characterization agree, position by position
/// along a reverse topological order.
proof fn lemma_backward_unique_upto(
    tasks: Seq<Task>,
    anchors: Seq<(String, String)>,
    ls1: Seq<i64>,
    lf1: Seq<i64>,
    ls2: Seq<i64>,
    lf2: Seq<i64>,
    ord: Seq<int>,
    p: int,
)
    requires
        backward_ok(tasks, anchors, ls1, lf1),
        backward_ok(tasks, anchors, ls2, lf2),
        rev_topo_order(tasks, ord),
        0 <= p <= ord.len(),
    ensures
        forall|q: int|
            0 <= q < p ==> lf1[#[trigger] ord[q]] == lf2[ord[q]] && ls1[ord[q]] == ls2[ord[q]],
    decreases p,
{
    if p > 0 {
        lemma_backward_unique_upto(tasks, anchors, ls1, lf1, ls2, lf2, ord, p - 1);
        let i = ord[p - 1];
        assert(lf_attains_task(tasks, anchors, ls1, lf1, i));
        assert(lf_attains_task(tasks, anchors, ls2, lf2, i));
        assert(lf1[i] <= lf2[i]) by {
            if !(has_anchor(anchors, tasks[i].id@) && lf2[i] == anchor_ts(anchors, tasks[i].id@)) {
                let (c, j) = choose|c: int, j: int|
                    0 <= c < tasks.len() && 0 <= j < dep_count(tasks, c) && #[trigger] dep_idx(
                        tasks,
                        c,
                        j,
                    ) == i && lf2[i] == ls2[c];
                let q = choose|q: int| 0 <= q < p - 1 && ord[q] == c;
                assert(ls1[c] == ls2[c]);
                assert(lf1[i] <= ls1[c]);
            }
        }
        assert(lf2[i] <= lf1[i]) by {
            if !(has_anchor(anchors, tasks[i].id@) && lf1[i] == anchor_ts(anchors, tasks[i].id@)) {
                let (c, j) = choose|c: int, j: int|
                    0 <= c < tasks.len() && 0 <= j < dep_count(tasks, c) && #[trigger] dep_idx(
                        tasks,
                        c,
                        j,
                    ) == i && lf1[i] == ls1[c];
                let q = choose|q: int| 0 <= q < p - 1 && ord[q] == c;
                assert(ls2[c] == ls1[c]);
                assert(lf2[i] <= ls2[c]);
            }
        }
    }
}

/// The Early values are a function of the request and project start alone.
proof fn lemma_forward_unique_from(
    tasks: Seq<Task>,
    ps: i64,
    es1: Seq<i64>,
    ef1: Seq<i64>,
    es2: Seq<i64>,
    ef2: Seq<i64>,
    ord: Seq<int>,
    p: int,
)
    requires
        forward_ok(tasks, ps, es1, ef1),
        forward_ok(tasks, ps, es2, ef2),
        rev_topo_order(tasks, ord),
        0 <= p <= ord.len(),
    ensures
        forall|q: int|
            p <= q < ord.len() ==> es1[#[trigger] ord[q]] == es2[ord[q]] && ef1[ord[q]]
                == ef2[ord[q]],
    decreases ord.len() - p,
{
    if p < ord.len() {
        lemma_forward_unique_from(tasks, ps, es1, ef1, es2, ef2, ord, p + 1);
        let i = ord[p];
        assert(es_attains_task(tasks, ps, es1, ef1, i));
        assert(es_attains_task(tasks, ps, es2, ef2, i));
        assert(es1[i] <= es2[i]) by {
            if es1[i] != ps {
                let j = choose|j: int|
                    0 <= j < dep_count(tasks, i) && es1[i] == ef1[#[trigger] dep_idx(tasks, i, j)];
                let d = dep_idx(tasks, i, j);
                lemma_task_index_of_props(tasks, crate::model::dep_id(tasks, i, j));
                assert(ord.contains(d));
                let q2 = choose|q2: int| 0 <= q2 < ord.len() && ord[q2] == d;
                let q1 = choose|q1: int| 0 <= q1 < q2 && ord[q1] == i;
                if q1 < p {
                    assert(ord[q1] != ord[p]);
                    assert(false);
                }
                assert(p < q2);
                assert(ef1[d] == ef2[d]);
                assert(ef2[d] <= es2[i]);
            }
        }
        assert(es2[i] <= es1[i]) by {
            if es2[i] != ps {
                let j = choose|j: int|
                    0 <= j < dep_count(tasks, i) && es2[i] == ef2[#[trigger] dep_idx(tasks, i, j)];
                let d = dep_idx(tasks, i, j);
                lemma_task_index_of_props(tasks, crate::model::dep_id(tasks, i, j));
                assert(ord.contains(d));
                let q2 = choose|q2: int| 0 <= q2 < ord.len() && ord[q2] == d;
                let q1 = choose|q1: int| 0 <= q1 < q2 && ord[q1] == i;
                if q1 < p {
                    assert(ord[q1] != ord[p]);
                    assert(false);
                }
                assert(p < q2);
                assert(ef2[d] == ef1[d]);
                assert(ef1[d] <= es1[i]);
            }
        }
    }
}

/// Determinism: on an acyclic request, any two outputs that satisfy the
/// scheduler's success contract carry the same observable fields - the
/// result is a function of the request alone, independent of any iteration
/// order inside the implementation.
pub proof fn lemma_schedule_deterministic(
    tasks: Seq<Task>,
    anchors: Seq<(String, String)>,
    ls1: Seq<i64>,
    lf1: Seq<i64>,
    es1: Seq<i64>,
    ef1: Seq<i64>,
    out1: Seq<ScheduledTask>,
    ls2: Seq<i64>,
    lf2: Seq<i64>,
    es2: Seq<i64>,
    ef2: Seq<i64>,
    out2: Seq<ScheduledTask>,
)
    requires
        acyclic(tasks),
        schedule_outputs_ok(tasks, anchors, ls1, lf1, es1, ef1, out1),
        schedule_outputs_ok(tasks, anchors, ls2, lf2, es2, ef2, out2),
    ensures
        outputs_equivalent(out1, out2),
{
    let ord = choose|ord: Seq<int>| rev_topo_order(tasks, ord);
    lemma_backward_unique_upto(tasks, anchors, ls1, lf1, ls2, lf2, ord, ord.len() as int);
    assert forall|i: int| 0 <= i < tasks.len() implies #[trigger] ls1[i] == ls2[i] by {
        assert(ord.contains(i));
        let q = choose|q: int| 0 <= q < ord.len() && ord[q] == i;
        assert(lf1[ord[q]] == lf2[ord[q]] && ls1[ord[q]] == ls2[ord[q]]);
    }
    assert forall|i: int| 0 <= i < tasks.len() implies #[trigger] lf1[i] == lf2[i] by {
        assert(ord.contains(i));
        let q = choose|q: int| 0 <= q < ord.len() && ord[q] == i;
        assert(lf1[ord[q]] == lf2[ord[q]] && ls1[ord[q]] == ls2[ord[q]]);
    }
    assert(ls1 =~= ls2);
    assert(lf1 =~= lf2);
    lemma_forward_unique_from(tasks, seq_min(ls1), es1, ef1, es2, ef2, ord, 0);
    assert forall|i: int| 0 <= i < tasks.len() implies #[trigger] es1[i] == es2[i] by {
        assert(ord.contains(i));
        let q = choose|q: int| 0 <= q < ord.len() && ord[q] == i;
        assert(es1[ord[q]] == es2[ord[q]]);
    }
    assert forall|i: int|
        0 <= i < out1.len() implies {
        let a = #[trigger] out1[i];
        let b = #[trigger] out2[i];
        a.id@ == b.id@ && a.name@ == b.name@ && a.start_date@ == b.start_date@ && a.end_date@
            == b.end_date@ && a.completed == b.completed && opt_str_eq(a.notes, b.notes)
            && a.is_critical == b.is_critical && a.slack_minutes == b.slack_minutes
            && a.is_milestone == b.is_milestone
    } by {
        assert(scheduled_fields_ok(tasks[i], ls1[i], lf1[i], es1[i], out1[i]));
        assert(scheduled_fields_ok(tasks[i], ls2[i], lf2[i], es2[i], out2[i]));
        assert(opt_str_eq(out1[i].notes, out2[i].notes)) by {
            assert(opt_str_eq(out1[i].notes, tasks[i].notes));
            assert(opt_str_eq(out2[i].notes, tasks[i].notes));
        }
    }
}

} // verus!
