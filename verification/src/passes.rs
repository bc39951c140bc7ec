//! The backward topological pass over resolved task indices: Kahn's
//! algorithm on the reverse graph, tightening each provider's Late Finish to
//! the minimum of its own anchor and its consumers' Late Starts.

use vstd::prelude::*;
use vstd::set_lib::{lemma_int_range, lemma_len_subset, set_int_range};
use crate::dates::TIMESTAMP_LIMIT;
use crate::graph::{
    consumer_count, lemma_consumer_count_zero_iff, lemma_occ_upto_nonneg, lemma_pending_all_false,
    lemma_pending_flip, lemma_pending_upto_nonneg, lemma_pending_zero_iff, occ, occ_upto, pending,
};
use crate::model::{abs_val, DURATION_BUDGET};
use crate::scheduler::{ScheduleError, Task};

verus! {

/// Summed absolute values of the first `k` entries.
pub open spec fn sum_abs_upto(s: Seq<i64>, k: int) -> int
    decreases k,
{
    if k <= 0 {
        0
    } else {
        sum_abs_upto(s, k - 1) + abs_val(s[k - 1] as int)
    }
}

/// Summed absolute values, in seconds.
pub open spec fn sum_abs_i64(s: Seq<i64>) -> int {
    sum_abs_upto(s, s.len() as int)
}

/// Summed absolute durations of the processed tasks among the first `k`.
pub open spec fn pds_upto(durs: Seq<i64>, processed: Seq<bool>, k: int) -> int
    decreases k,
{
    if k <= 0 {
        0
    } else {
        pds_upto(durs, processed, k - 1) + if processed[k - 1] {
            abs_val(durs[k - 1] as int)
        } else {
            0int
        }
    }
}

/// Summed absolute durations of the processed tasks.
pub open spec fn processed_dur_sum(durs: Seq<i64>, processed: Seq<bool>) -> int {
    pds_upto(durs, processed, durs.len() as int)
}

pub proof fn lemma_pds_le_sum(durs: Seq<i64>, processed: Seq<bool>, k: int)
    ensures
        0 <= pds_upto(durs, processed, k) <= sum_abs_upto(durs, k),
    decreases k,
{
    if k > 0 {
        lemma_pds_le_sum(durs, processed, k - 1);
    }
}

/// Marking one unprocessed task processed raises the processed-duration sum
/// by that task's absolute duration.
pub proof fn lemma_pds_flip(durs: Seq<i64>, processed: Seq<bool>, c: int, k: int)
    requires
        0 <= c < durs.len(),
        durs.len() <= processed.len(),
        !processed[c],
        k <= durs.len(),
    ensures
        pds_upto(durs, processed.update(c, true), k) == pds_upto(durs, processed, k) + if c < k {
            abs_val(durs[c] as int)
        } else {
            0int
        },
    decreases k,
{
    if k > 0 {
        lemma_pds_flip(durs, processed, c, k - 1);
    }
}

/// A sink at the index level: no dependency list mentions it.
pub open spec fn sink_idx(deps: Seq<Vec<usize>>, i: int) -> bool {
    consumer_count(deps, i) == 0
}

/// Every sink carries an anchor.
pub open spec fn sinks_anchored_idx(deps: Seq<Vec<usize>>, anchor: Seq<Option<i64>>) -> bool {
    forall|i: int| 0 <= i < deps.len() && #[trigger] sink_idx(deps, i) ==> anchor[i] is Some
}

/// A reverse topological order at the index level: distinct indices covering
/// every task, with each task's consumers placed before it.
pub open spec fn rev_topo_idx(deps: Seq<Vec<usize>>, ord: Seq<int>) -> bool {
    &&& forall|p: int| 0 <= p < ord.len() ==> 0 <= #[trigger] ord[p] < deps.len()
    &&& forall|p: int, q: int| 0 <= p < q < ord.len() ==> #[trigger] ord[p] != #[trigger] ord[q]
    &&& forall|i: int| 0 <= i < deps.len() ==> ord.contains(i)
    &&& forall|p: int, c: int, j: int|
        0 <= p < ord.len() && 0 <= c < deps.len() && 0 <= j < deps[c]@.len() && (
        #[trigger] deps[c]@[j]) as int == #[trigger] ord[p] ==> exists|q: int|
            0 <= q < p && ord[q] == c
}

/// The dependency relation is acyclic at the index level.
pub open spec fn acyclic_idx(deps: Seq<Vec<usize>>) -> bool {
    exists|ord: Seq<int>| rev_topo_idx(deps, ord)
}

/// Late Finish attains one of its bounds: the task's own anchor, or the
/// Late Start of one of its consumers.
pub open spec fn lf_attains(
    deps: Seq<Vec<usize>>,
    anchor: Seq<Option<i64>>,
    ls: Seq<i64>,
    lf: Seq<i64>,
    i: int,
) -> bool {
    (anchor[i] is Some && lf[i] == anchor[i]->0) || (exists|c: int, j: int|
        0 <= c < deps.len() && 0 <= j < deps[c]@.len() && (#[trigger] deps[c]@[j]) as int == i
            && lf[i] == ls[c])
}

/// The characterization of the backward pass at the index level: Late Start
/// is Late Finish minus the duration, and Late Finish is the minimum of the
/// task's anchor and its consumers' Late Starts (a lower bound that attains
/// one of them).
pub open spec fn backward_char_idx(
    deps: Seq<Vec<usize>>,
    anchor: Seq<Option<i64>>,
    durs: Seq<i64>,
    ls: Seq<i64>,
    lf: Seq<i64>,
) -> bool {
    let n = deps.len() as int;
    &&& ls.len() == n
    &&& lf.len() == n
    &&& forall|i: int| 0 <= i < n ==> #[trigger] ls[i] == lf[i] - durs[i]
    &&& forall|i: int|
        0 <= i < n && anchor[i] is Some ==> #[trigger] lf[i] <= anchor[i]->0
    &&& forall|c: int, j: int|
        0 <= c < n && 0 <= j < deps[c]@.len() ==> lf[(#[trigger] deps[c]@[j]) as int] <= ls[c]
    &&& forall|i: int| 0 <= i < n ==> #[trigger] lf_attains(deps, anchor, ls, lf, i)
}

/// The set over which the backward pass is closed: once every consumer
/// occurrence of a task lies inside, the task itself lies inside.
pub open spec fn consumer_closed(deps: Seq<Vec<usize>>, done: Seq<bool>) -> bool {
    forall|i: int|
        0 <= i < deps.len() && (forall|c: int, j: int|
            0 <= c < deps.len() && 0 <= j < deps[c]@.len() && (#[trigger] deps[c]@[j]) as int == i
                ==> done[c]) ==> #[trigger] done[i]
}

/// On an acyclic graph, a consumer-closed set covers every task.
pub proof fn lemma_kahn_complete(
    deps: Seq<Vec<usize>>,
    done: Seq<bool>,
    ord: Seq<int>,
    p: int,
)
    requires
        rev_topo_idx(deps, ord),
        done.len() == deps.len(),
        consumer_closed(deps, done),
        0 <= p <= ord.len(),
    ensures
        forall|q: int| 0 <= q < p ==> done[#[trigger] ord[q]],
    decreases p,
{
    if p > 0 {
        lemma_kahn_complete(deps, done, ord, p - 1);
        let i = ord[p - 1];
        assert forall|c: int, j: int|
            0 <= c < deps.len() && 0 <= j < deps[c]@.len() && (#[trigger] deps[c]@[j]) as int == i
                implies done[c] by {
            let q = choose|q: int| 0 <= q < p - 1 && ord[q] == c;
            assert(done[ord[q]]);
        }
        assert(done[i]);
    }
}

/// The quoted, comma-separated rendering of a list of names.
pub open spec fn quoted_names(names: Seq<Seq<char>>) -> Seq<char>
    decreases names.len(),
{
    if names.len() == 0 {
        Seq::empty()
    } else if names.len() == 1 {
        "\""@ + names[0] + "\""@
    } else {
        quoted_names(names.drop_last()) + ", "@ + "\""@ + names.last() + "\""@
    }
}

/// The names of the tasks among the first `k` that the pass left unreached.
pub open spec fn missing_names(tasks: Seq<Task>, done: Seq<bool>, k: int) -> Seq<Seq<char>>
    decreases k,
{
    if k <= 0 {
        Seq::empty()
    } else {
        missing_names(tasks, done, k - 1) + if done[k - 1] {
            Seq::<Seq<char>>::empty()
        } else {
            seq![tasks[k - 1].name@]
        }
    }
}

/// The diagnostic text for a backward pass that left tasks unreached.
pub open spec fn missing_message(tasks: Seq<Task>, done: Seq<bool>) -> Seq<char> {
    "Tasks not processing from anchors (disconnected?): ["@ + quoted_names(
        missing_names(tasks, done, tasks.len() as int),
    ) + "]"@
}

/// Build the diagnostic text listing every unreached task's name, in task
/// order.
fn missing_tasks_message(tasks: &Vec<Task>, processed: &Vec<bool>) -> (msg: String)
    requires
        processed@.len() == tasks@.len(),
    ensures
        msg@ == missing_message(tasks@, processed@),
{
    let n = tasks.len();
    let mut names_part = String::new();
    let mut any = false;
    let mut i: usize = 0;
    while i < n
        invariant
            i <= n,
            n == tasks@.len(),
            processed@.len() == n,
            names_part@ == quoted_names(missing_names(tasks@, processed@, i as int)),
            any <==> missing_names(tasks@, processed@, i as int).len() > 0,
        decreases n - i,
    {
        if !processed[i] {
            let ghost prev = missing_names(tasks@, processed@, i as int);
            if any {
                names_part.append(", ");
            }
            names_part.append("\"");
            names_part.append(tasks[i].name.as_str());
            names_part.append("\"");
            proof {
                let cur = missing_names(tasks@, processed@, i as int + 1);
                assert(cur == prev + seq![tasks@[i as int].name@]);
                assert(cur.drop_last() =~= prev);
                assert(cur.last() == tasks@[i as int].name@);
                if prev.len() == 0 {
                    assert(quoted_names(cur) == "\""@ + cur[0] + "\""@);
                    assert(cur[0] == tasks@[i as int].name@);
                }
            }
            any = true;
        } else {
            proof {
                assert(missing_names(tasks@, processed@, i as int + 1) =~= missing_names(
                    tasks@,
                    processed@,
                    i as int,
                ));
            }
        }
        i += 1;
    }
    let mut msg = String::from_str("Tasks not processing from anchors (disconnected?): [");
    msg.append(names_part.as_str());
    msg.append("]");
    msg
}

/// The backward pass: reverse topological traversal from the sinks,
/// computing each task's Late Start and Late Finish while tightening every
/// provider's Late Finish to the minimum of its consumers' Late Starts and
/// its own anchor.
#[verifier::rlimit(100)]
pub fn backward_pass(
    tasks: &Vec<Task>,
    deps: &Vec<Vec<usize>>,
    consumers: &Vec<Vec<usize>>,
    durs: &Vec<i64>,
    anchor: &Vec<Option<i64>>,
) -> (r: Result<(Vec<i64>, Vec<i64>), ScheduleError>)
    requires
        deps@.len() == tasks@.len(),
        consumers@.len() == tasks@.len(),
        durs@.len() == tasks@.len(),
        anchor@.len() == tasks@.len(),
        forall|c: int, j: int|
            0 <= c < deps@.len() && 0 <= j < deps@[c]@.len() ==> (#[trigger] deps@[c]@[j])
                < tasks@.len(),
        forall|d: int|
            0 <= d < tasks@.len() ==> (#[trigger] consumers@[d]@).len() == consumer_count(
                deps@,
                d,
            ),
        sum_abs_i64(durs@) <= DURATION_BUDGET as int,
        forall|i: int|
            0 <= i < tasks@.len() && anchor@[i] is Some ==> -(TIMESTAMP_LIMIT as int) < (
            #[trigger] anchor@[i])->0 < TIMESTAMP_LIMIT as int,
    ensures
        r is Ok <==> sinks_anchored_idx(deps@, anchor@) && acyclic_idx(deps@),
        r matches Ok(out) ==> {
            &&& backward_char_idx(deps@, anchor@, durs@, out.0@, out.1@)
            &&& forall|i: int|
                0 <= i < tasks@.len() ==> abs_val((#[trigger] out.0@[i]) as int) <= TIMESTAMP_LIMIT
                    + DURATION_BUDGET && abs_val(out.1@[i] as int) <= TIMESTAMP_LIMIT
                    + DURATION_BUDGET
        },
        r matches Err(e) ==> (e matches ScheduleError::NoEndDateComputed(msg) && ((exists|i: int|
            0 <= i < tasks@.len() && sink_idx(deps@, i) && anchor@[i] is None && msg@
                == tasks@[i].name@) || (sinks_anchored_idx(deps@, anchor@) && !acyclic_idx(deps@)
            && exists|done: Seq<bool>|
            {
                &&& done.len() == tasks@.len()
                &&& consumer_closed(deps@, done)
                &&& exists|i: int| 0 <= i < tasks@.len() && !done[i]
                &&& msg@ == missing_message(tasks@, done)
            }))),
{
    let n = tasks.len();

    // Working tables.
    let mut counts: Vec<usize> = Vec::new();
    let mut i: usize = 0;
    while i < n
        invariant
            i <= n,
            consumers@.len() == n,
            counts@.len() == i as int,
            forall|k: int| 0 <= k < i ==> (#[trigger] counts@[k]) as int == consumers@[k]@.len(),
        decreases n - i,
    {
        counts.push(consumers[i].len());
        i += 1;
    }

    let mut lf_map: Vec<Option<i64>> = Vec::new();
    let mut i: usize = 0;
    while i < n
        invariant
            i <= n,
            anchor@.len() == n,
            lf_map@.len() == i as int,
            forall|k: int| 0 <= k < i ==> #[trigger] lf_map@[k] == anchor@[k],
        decreases n - i,
    {
        lf_map.push(anchor[i]);
        i += 1;
    }

    let mut processed: Vec<bool> = Vec::new();
    let mut ls_out: Vec<i64> = Vec::new();
    let mut lf_out: Vec<i64> = Vec::new();
    let mut i: usize = 0;
    while i < n
        invariant
            i <= n,
            processed@.len() == i as int,
            ls_out@.len() == i as int,
            lf_out@.len() == i as int,
            forall|k: int| 0 <= k < i ==> !(#[trigger] processed@[k]),
        decreases n - i,
    {
        processed.push(false);
        ls_out.push(0);
        lf_out.push(0);
        i += 1;
    }

    // Initial frontier: the sinks, in task order.
    let mut queue: Vec<usize> = Vec::new();
    let mut i: usize = 0;
    while i < n
        invariant
            i <= n,
            counts@.len() == n,
            consumers@.len() == n,
            deps@.len() == n,
            forall|k: int| 0 <= k < n ==> (#[trigger] counts@[k]) as int == consumers@[k]@.len(),
            forall|d: int|
                0 <= d < n ==> (#[trigger] consumers@[d]@).len() == consumer_count(deps@, d),
            forall|k: int| 0 <= k < queue@.len() ==> (#[trigger] queue@[k]) < n,
            forall|k: int|
                0 <= k < queue@.len() ==> consumer_count(deps@, (#[trigger] queue@[k]) as int)
                    == 0,
            forall|t: int| 0 <= t < i && counts@[t] as int == 0 ==> queue@.contains(t as usize),
        decreases n - i,
    {
        if counts[i] == 0 {
            let ghost oldq = queue@;
            queue.push(i);
            proof {
                assert forall|t2: int|
                    0 <= t2 < i as int + 1 && counts@[t2] as int == 0 implies queue@.contains(
                    t2 as usize,
                ) by {
                    if t2 < i as int {
                        let k = choose|k: int| 0 <= k < oldq.len() && oldq[k] == t2 as usize;
                        assert(queue@[k] == t2 as usize);
                    } else {
                        assert(queue@[oldq.len() as int] == i);
                    }
                }
            }
        }
        i += 1;
    }

    let ghost mut ord: Seq<int> = Seq::empty();
    let ghost mut procset: Set<int> = Set::empty();
    proof {
        lemma_int_range(0, n as int);
        lemma_pds_le_sum(durs@, processed@, n as int);
        assert forall|i2: int| 0 <= i2 < n implies (#[trigger] counts@[i2]) as int == pending(
            deps@,
            processed@,
            i2,
        ) by {
            lemma_pending_all_false(deps@, processed@, i2, n as int);
        }
        assert forall|k: int| 0 <= k < queue@.len() implies pending(
            deps@,
            processed@,
            (#[trigger] queue@[k]) as int,
        ) == 0 by {
            lemma_pending_all_false(deps@, processed@, queue@[k] as int, n as int);
        }
        assert forall|i2: int|
            0 <= i2 < n && pending(deps@, processed@, i2) == 0 implies processed@[i2]
            || queue@.contains(i2 as usize) by {
            lemma_pending_all_false(deps@, processed@, i2, n as int);
            assert(counts@[i2] as int == 0);
        }
    }

    while queue.len() > 0
        invariant
            n == tasks@.len(),
            deps@.len() == n,
            durs@.len() == n,
            anchor@.len() == n,
            counts@.len() == n,
            lf_map@.len() == n,
            processed@.len() == n,
            ls_out@.len() == n,
            lf_out@.len() == n,
            forall|c: int, j: int|
                0 <= c < deps@.len() && 0 <= j < deps@[c]@.len() ==> (#[trigger] deps@[c]@[j]) < n,
            sum_abs_i64(durs@) <= DURATION_BUDGET as int,
            forall|i2: int|
                0 <= i2 < n && anchor@[i2] is Some ==> -(TIMESTAMP_LIMIT as int) < (
                #[trigger] anchor@[i2])->0 < TIMESTAMP_LIMIT as int,
            // counts track the pending consumer occurrences
            forall|i2: int|
                0 <= i2 < n ==> (#[trigger] counts@[i2]) as int == pending(deps@, processed@, i2),
            // queue holds ready tasks
            forall|k: int| 0 <= k < queue@.len() ==> (#[trigger] queue@[k]) < n,
            forall|k: int|
                0 <= k < queue@.len() ==> pending(deps@, processed@, (#[trigger] queue@[k]) as int)
                    == 0,
            // every ready task is processed or queued
            forall|i2: int|
                0 <= i2 < n && pending(deps@, processed@, i2) == 0 ==> processed@[i2]
                    || queue@.contains(i2 as usize),
            // a processed task's consumers are processed
            forall|d: int, c: int, j: int|
                0 <= d < n && #[trigger] processed@[d] && 0 <= c < n && 0 <= j < deps@[c]@.len()
                    && (#[trigger] deps@[c]@[j]) as int == d ==> processed@[c],
            // an anchored, unprocessed task keeps a Late Finish at most its anchor
            forall|i2: int|
                0 <= i2 < n && !processed@[i2] && anchor@[i2] is Some ==> #[trigger] lf_map@[i2]
                    is Some && lf_map@[i2]->0 <= anchor@[i2]->0,
            // an unprocessed task's Late Finish, when set, is attained
            forall|i2: int|
                0 <= i2 < n && !processed@[i2] && #[trigger] lf_map@[i2] is Some ==> (
                anchor@[i2] is Some && lf_map@[i2]->0 == anchor@[i2]->0) || (exists|c: int, j: int|
                    0 <= c < n && 0 <= j < deps@[c]@.len() && (#[trigger] deps@[c]@[j]) as int == i2
                        && processed@[c] && lf_map@[i2]->0 == ls_out@[c]),
            // an unset Late Finish means: no anchor and no processed consumer
            forall|i2: int, c: int, j: int|
                0 <= i2 < n && !processed@[i2] && (#[trigger] lf_map@[i2]) is None && #[trigger]
                processed@[c] && 0 <= c < n && 0 <= j < deps@[c]@.len() ==> (
                #[trigger] deps@[c]@[j]) as int != i2,
            forall|i2: int|
                0 <= i2 < n && !processed@[i2] && #[trigger] lf_map@[i2] is None ==> anchor@[i2]
                    is None,
            // edge constraint, for processed consumers
            forall|c: int, j: int|
                0 <= c < n && #[trigger] processed@[c] && 0 <= j < deps@[c]@.len() ==> {
                    let d = (#[trigger] deps@[c]@[j]) as int;
                    (processed@[d] ==> lf_out@[d] <= ls_out@[c]) && (!processed@[d] ==> lf_map@[d]
                        is Some && lf_map@[d]->0 <= ls_out@[c])
                },
            // anchors respected on processed tasks
            forall|i2: int|
                0 <= i2 < n && #[trigger] processed@[i2] && anchor@[i2] is Some ==> lf_out@[i2]
                    <= anchor@[i2]->0,
            // attainment on processed tasks
            forall|i2: int|
                0 <= i2 < n && #[trigger] processed@[i2] ==> (anchor@[i2] is Some && lf_out@[i2]
                    == anchor@[i2]->0) || (exists|c: int, j: int|
                    0 <= c < n && 0 <= j < deps@[c]@.len() && (#[trigger] deps@[c]@[j]) as int == i2
                        && processed@[c] && lf_out@[i2] == ls_out@[c]),
            // duration closure on processed tasks
            forall|i2: int|
                0 <= i2 < n && #[trigger] processed@[i2] ==> ls_out@[i2] == lf_out@[i2]
                    - durs@[i2],
            // bounds
            forall|i2: int|
                0 <= i2 < n && #[trigger] processed@[i2] ==> abs_val(ls_out@[i2] as int)
                    <= TIMESTAMP_LIMIT + processed_dur_sum(durs@, processed@) && abs_val(
                    lf_out@[i2] as int,
                ) <= TIMESTAMP_LIMIT + processed_dur_sum(durs@, processed@),
            forall|i2: int|
                0 <= i2 < n && !processed@[i2] && #[trigger] lf_map@[i2] is Some ==> abs_val(
                    lf_map@[i2]->0 as int,
                ) <= TIMESTAMP_LIMIT + processed_dur_sum(durs@, processed@),
            // the ghost processing order
            forall|p: int| 0 <= p < ord.len() ==> 0 <= #[trigger] ord[p] < n,
            forall|p: int, q: int| 0 <= p < q < ord.len() ==> #[trigger] ord[p] != #[trigger] ord[q],
            forall|i2: int| 0 <= i2 < n && #[trigger] processed@[i2] ==> ord.contains(i2),
            forall|p: int| 0 <= p < ord.len() ==> processed@[#[trigger] ord[p]],
            forall|p: int, c: int, j: int|
                0 <= p < ord.len() && 0 <= c < n && 0 <= j < deps@[c]@.len() && (
                #[trigger] deps@[c]@[j]) as int == #[trigger] ord[p] ==> exists|q: int|
                    0 <= q < p && ord[q] == c,
            // the processed set, for termination
            procset.finite(),
            procset.subset_of(set_int_range(0, n as int)),
            set_int_range(0, n as int).finite(),
            set_int_range(0, n as int).len() == n,
            forall|i2: int| procset.contains(i2) <==> 0 <= i2 < n && processed@[i2],
        decreases n as int - procset.len(), queue@.len(),
    {
        proof {
            lemma_len_subset(procset, set_int_range(0, n as int));
        }
        let ghost old_queue = queue@;
        let t = queue.pop().unwrap();
        proof {
            assert(old_queue[old_queue.len() - 1] == t);
            assert(pending(deps@, processed@, t as int) == 0);
            assert forall|i2: int|
                0 <= i2 < n && pending(deps@, processed@, i2) == 0 && i2 != t as int
                    && !processed@[i2] implies queue@.contains(i2 as usize) by {
                let k = choose|k: int|
                    0 <= k < old_queue.len() && old_queue[k] == i2 as usize;
                assert(k < old_queue.len() - 1);
                assert(queue@[k] == i2 as usize);
            }
        }
        if !processed[t] {
            let lf_opt = lf_map[t];
            if lf_opt.is_none() {
                // An unanchored sink: no consumer can ever set its Late
                // Finish.
                proof {
                    lemma_pending_zero_iff(deps@, processed@, t as int);
                    assert forall|c: int, j: int|
                        0 <= c < deps@.len() && 0 <= j < deps@[c]@.len() implies (
                    #[trigger] deps@[c]@[j]) as int != t as int by {
                        if deps@[c]@[j] as int == t as int {
                            assert(processed@[c]);
                        }
                    }
                    lemma_consumer_count_zero_iff(deps@, t as int);
                    assert(sink_idx(deps@, t as int));
                    assert(!(sinks_anchored_idx(deps@, anchor@) && acyclic_idx(deps@)));
                }
                return Err(ScheduleError::NoEndDateComputed(tasks[t].name.clone()));
            }
            let lf_t = lf_opt.unwrap();
            let d_t = durs[t];
            proof {
                lemma_pds_le_sum(durs@, processed@, n as int);
                lemma_sum_abs_entry(durs@, t as int);
            }
            let ls_t = lf_t - d_t;
            ls_out.set(t, ls_t);
            lf_out.set(t, lf_t);
            let ghost old_processed = processed@;
            processed.set(t, true);
            let ghost old_ord = ord;
            let ghost old_procset = procset;
            proof {
                ord = ord.push(t as int);
                procset = procset.insert(t as int);
                assert(!old_procset.contains(t as int));
                vstd::set::axiom_set_insert_len(old_procset, t as int);
                assert(procset.len() == old_procset.len() + 1);
                assert(queue@ == old_queue.subrange(0, old_queue.len() - 1));
                lemma_pds_flip(durs@, old_processed, t as int, n as int);
                lemma_pending_zero_iff(deps@, old_processed, t as int);
                // no self-dependency: t's consumers were processed, t was not
                assert forall|j: int| 0 <= j < deps@[t as int]@.len() implies (
                #[trigger] deps@[t as int]@[j]) as int != t as int by {
                    if deps@[t as int]@[j] as int == t as int {
                        assert(old_processed[t as int]);
                    }
                }
                assert forall|i2: int| 0 <= i2 < n implies (#[trigger] counts@[i2]) as int
                    == pending(deps@, processed@, i2) + (occ(deps@[t as int]@, i2) - occ_upto(
                    deps@[t as int]@,
                    i2,
                    0,
                )) by {
                    lemma_pending_flip(deps@, old_processed, t as int, i2, n as int);
                }
                assert forall|k: int| 0 <= k < queue@.len() implies pending(
                    deps@,
                    processed@,
                    (#[trigger] queue@[k]) as int,
                ) == 0 by {
                    assert(queue@[k] == old_queue.subrange(0, old_queue.len() - 1)[k]);
                    assert(queue@[k] == old_queue[k]);
                    assert(pending(deps@, old_processed, queue@[k] as int) == 0);
                    lemma_still_ready(deps@, old_processed, t as int, queue@[k] as int);
                }
                assert forall|i2: int|
                    0 <= i2 < n && pending(deps@, processed@, i2) == 0 && occ(
                        deps@[t as int]@,
                        i2,
                    ) == occ_upto(deps@[t as int]@, i2, 0) implies processed@[i2]
                    || queue@.contains(i2 as usize) by {
                    lemma_pending_flip(deps@, old_processed, t as int, i2, n as int);
                    lemma_occ_upto_nonneg(deps@[t as int]@, i2, deps@[t as int]@.len() as int);
                }
                // the providers of t are themselves unprocessed
                assert forall|j2: int| 0 <= j2 < deps@[t as int]@.len() implies !processed@[(
                #[trigger] deps@[t as int]@[j2]) as int] by {
                    let d = deps@[t as int]@[j2] as int;
                    if old_processed[d] {
                        assert(old_processed[t as int]);
                    }
                }
                // the ghost order keeps its shape under the push
                assert forall|i2: int| 0 <= i2 < n && #[trigger] processed@[i2] implies
                    ord.contains(i2) by {
                    if i2 == t as int {
                        assert(ord[ord.len() - 1] == t as int);
                    } else {
                        let q = choose|q: int| 0 <= q < old_ord.len() && old_ord[q] == i2;
                        assert(ord[q] == i2);
                    }
                }
                assert forall|p: int, q: int| 0 <= p < q < ord.len() implies #[trigger] ord[p]
                    != #[trigger] ord[q] by {
                    if q == ord.len() - 1 {
                        assert(old_processed[ord[p]]);
                    }
                }
                assert forall|p: int, c: int, j2: int|
                    0 <= p < ord.len() && 0 <= c < n && 0 <= j2 < deps@[c]@.len() && (
                    #[trigger] deps@[c]@[j2]) as int == #[trigger] ord[p] implies exists|q: int|
                        0 <= q < p && ord[q] == c by {
                    if p < ord.len() - 1 {
                        let q = choose|q: int| 0 <= q < p && old_ord[q] == c;
                        assert(ord[q] == c);
                    } else {
                        assert(old_processed[c]);
                        let q = choose|q: int| 0 <= q < old_ord.len() && old_ord[q] == c;
                        assert(ord[q] == c);
                    }
                }
            }
            // Propagate to the providers: tighten and discharge.
            let m = deps[t].len();
            let mut j: usize = 0;
            while j < m
                invariant
                    j <= m,
                    t < n,
                    n == tasks@.len(),
                    deps@.len() == n,
                    durs@.len() == n,
                    anchor@.len() == n,
                    counts@.len() == n,
                    lf_map@.len() == n,
                    processed@.len() == n,
                    ls_out@.len() == n,
                    lf_out@.len() == n,
                    m == deps@[t as int]@.len(),
                    processed@[t as int],
                    ls_out@[t as int] == ls_t,
                    lf_out@[t as int] == lf_t,
                    ls_t == lf_t - durs@[t as int],
                    forall|c: int, j2: int|
                        0 <= c < deps@.len() && 0 <= j2 < deps@[c]@.len() ==> (
                        #[trigger] deps@[c]@[j2]) < n,
                    sum_abs_i64(durs@) <= DURATION_BUDGET as int,
                    forall|i2: int|
                        0 <= i2 < n && anchor@[i2] is Some ==> -(TIMESTAMP_LIMIT as int) < (
                        #[trigger] anchor@[i2])->0 < TIMESTAMP_LIMIT as int,
                    // no self-dependency of t
                    forall|j2: int|
                        0 <= j2 < m ==> (#[trigger] deps@[t as int]@[j2]) as int != t as int,
                    // the providers of t are unprocessed
                    forall|j2: int|
                        0 <= j2 < m ==> !processed@[(#[trigger] deps@[t as int]@[j2]) as int],
                    // counts with the remaining occurrences of this pass
                    forall|i2: int|
                        0 <= i2 < n ==> (#[trigger] counts@[i2]) as int == pending(
                            deps@,
                            processed@,
                            i2,
                        ) + (occ(deps@[t as int]@, i2) - occ_upto(deps@[t as int]@, i2, j as int)),
                    forall|k: int| 0 <= k < queue@.len() ==> (#[trigger] queue@[k]) < n,
                    forall|k: int|
                        0 <= k < queue@.len() ==> pending(
                            deps@,
                            processed@,
                            (#[trigger] queue@[k]) as int,
                        ) == 0,
                    forall|i2: int|
                        0 <= i2 < n && pending(deps@, processed@, i2) == 0 && occ(
                            deps@[t as int]@,
                            i2,
                        ) == occ_upto(deps@[t as int]@, i2, j as int) ==> processed@[i2]
                            || queue@.contains(i2 as usize),
                    forall|d: int, c: int, j2: int|
                        0 <= d < n && #[trigger] processed@[d] && 0 <= c < n && 0 <= j2
                            < deps@[c]@.len() && (#[trigger] deps@[c]@[j2]) as int == d
                            ==> processed@[c],
                    forall|i2: int|
                        0 <= i2 < n && !processed@[i2] && anchor@[i2] is Some ==> #[trigger]
                        lf_map@[i2] is Some && lf_map@[i2]->0 <= anchor@[i2]->0,
                    forall|i2: int|
                        0 <= i2 < n && !processed@[i2] && #[trigger] lf_map@[i2] is Some ==> (
                        anchor@[i2] is Some && lf_map@[i2]->0 == anchor@[i2]->0) || (exists|
                            c: int,
                            j2: int,
                        |
                            0 <= c < n && 0 <= j2 < deps@[c]@.len() && (
                            #[trigger] deps@[c]@[j2]) as int == i2 && processed@[c]
                                && lf_map@[i2]->0 == ls_out@[c]),
                    // unset Late Finish: no anchor, and no processed consumer
                    // but for t's not-yet-propagated occurrences
                    forall|i2: int, c: int, j2: int|
                        0 <= i2 < n && !processed@[i2] && (#[trigger] lf_map@[i2]) is None
                            && #[trigger] processed@[c] && 0 <= c < n && 0 <= j2
                            < deps@[c]@.len() && (c != t as int || j2 < j) ==> (
                        #[trigger] deps@[c]@[j2]) as int != i2,
                    forall|i2: int|
                        0 <= i2 < n && !processed@[i2] && #[trigger] lf_map@[i2] is None
                            ==> anchor@[i2] is None,
                    // edge constraint: processed consumers, except t's
                    // not-yet-propagated occurrences
                    forall|c: int, j2: int|
                        0 <= c < n && #[trigger] processed@[c] && 0 <= j2 < deps@[c]@.len() && (c
                            != t as int || j2 < j) ==> {
                            let d = (#[trigger] deps@[c]@[j2]) as int;
                            (processed@[d] ==> lf_out@[d] <= ls_out@[c]) && (!processed@[d]
                                ==> lf_map@[d] is Some && lf_map@[d]->0 <= ls_out@[c])
                        },
                    forall|i2: int|
                        0 <= i2 < n && #[trigger] processed@[i2] && anchor@[i2] is Some
                            ==> lf_out@[i2] <= anchor@[i2]->0,
                    forall|i2: int|
                        0 <= i2 < n && #[trigger] processed@[i2] ==> (anchor@[i2] is Some
                            && lf_out@[i2] == anchor@[i2]->0) || (exists|c: int, j2: int|
                            0 <= c < n && 0 <= j2 < deps@[c]@.len() && (
                            #[trigger] deps@[c]@[j2]) as int == i2 && processed@[c] && lf_out@[i2]
                                == ls_out@[c]),
                    forall|i2: int|
                        0 <= i2 < n && #[trigger] processed@[i2] ==> ls_out@[i2] == lf_out@[i2]
                            - durs@[i2],
                    forall|i2: int|
                        0 <= i2 < n && #[trigger] processed@[i2] ==> abs_val(ls_out@[i2] as int)
                            <= TIMESTAMP_LIMIT + processed_dur_sum(durs@, processed@) && abs_val(
                            lf_out@[i2] as int,
                        ) <= TIMESTAMP_LIMIT + processed_dur_sum(durs@, processed@),
                    forall|i2: int|
                        0 <= i2 < n && !processed@[i2] && #[trigger] lf_map@[i2] is Some
                            ==> abs_val(lf_map@[i2]->0 as int) <= TIMESTAMP_LIMIT
                            + processed_dur_sum(durs@, processed@),
                    forall|p: int| 0 <= p < ord.len() ==> 0 <= #[trigger] ord[p] < n,
                    forall|p: int, q: int|
                        0 <= p < q < ord.len() ==> #[trigger] ord[p] != #[trigger] ord[q],
                    forall|i2: int| 0 <= i2 < n && #[trigger] processed@[i2] ==> ord.contains(i2),
                    forall|p: int| 0 <= p < ord.len() ==> processed@[#[trigger] ord[p]],
                    forall|p: int, c: int, j2: int|
                        0 <= p < ord.len() && 0 <= c < n && 0 <= j2 < deps@[c]@.len() && (
                        #[trigger] deps@[c]@[j2]) as int == #[trigger] ord[p] ==> exists|q: int|
                            0 <= q < p && ord[q] == c,
                    procset.finite(),
                    procset.subset_of(set_int_range(0, n as int)),
                    set_int_range(0, n as int).finite(),
                    set_int_range(0, n as int).len() == n,
                    forall|i2: int| procset.contains(i2) <==> 0 <= i2 < n && processed@[i2],
                decreases m - j,
            {
                let p = deps[t][j];
                proof {
                    lemma_occ_upto_nonneg(deps@[t as int]@, p as int, j as int);
                    assert(occ_upto(deps@[t as int]@, p as int, j as int + 1) == occ_upto(
                        deps@[t as int]@,
                        p as int,
                        j as int,
                    ) + 1);
                    lemma_occ_upto_le(deps@[t as int]@, p as int, j as int + 1, m as int);
                    lemma_pending_upto_nonneg(deps@, processed@, p as int, n as int);
                    assert(!processed@[p as int]);
                }
                // Tighten the provider's Late Finish.
                let do_write = match lf_map[p] {
                    None => true,
                    Some(v) => ls_t < v,
                };
                let ghost old_lf_map = lf_map@;
                if do_write {
                    lf_map.set(p, Some(ls_t));
                }
                proof {
                    lemma_pds_le_sum(durs@, processed@, n as int);
                    assert(lf_map@[p as int] is Some && lf_map@[p as int]->0 <= ls_t);
                    assert forall|i2: int| 0 <= i2 < n && i2 != p as int implies lf_map@[i2]
                        == old_lf_map[i2] by {}
                }
                // Discharge one consumer occurrence.
                let ghost old_counts = counts@;
                let ghost old_queue2 = queue@;
                let cnt = counts[p];
                counts.set(p, cnt - 1);
                if cnt - 1 == 0 {
                    queue.push(p);
                }
                proof {
                    let sq = deps@[t as int]@;
                    assert(sq[j as int] == p);
                    assert forall|i2: int| 0 <= i2 < n && i2 != p as int implies occ_upto(
                        sq,
                        i2,
                        j as int + 1,
                    ) == occ_upto(sq, i2, j as int) by {}
                    assert forall|k: int| 0 <= k < queue@.len() implies (#[trigger] queue@[k]) < n
                        && pending(deps@, processed@, queue@[k] as int) == 0 by {
                        if k < old_queue2.len() {
                            assert(queue@[k] == old_queue2[k]);
                        } else {
                            assert(queue@[k] == p);
                            assert(old_counts[p as int] as int == pending(deps@, processed@, p as int)
                                + (occ(sq, p as int) - occ_upto(sq, p as int, j as int)));
                            lemma_occ_upto_le(sq, p as int, j as int + 1, m as int);
                        }
                    }
                    assert forall|i2: int|
                        0 <= i2 < n && pending(deps@, processed@, i2) == 0 && occ(sq, i2)
                            == occ_upto(sq, i2, j as int + 1) implies processed@[i2]
                        || queue@.contains(i2 as usize) by {
                        if !processed@[i2] {
                            if i2 == p as int {
                                assert(old_counts[i2] as int == pending(deps@, processed@, i2)
                                    + (occ(sq, i2) - occ_upto(sq, i2, j as int)));
                                assert(old_counts[i2] as int == 1);
                                assert(cnt == 1);
                                assert(queue@[queue@.len() - 1] == p);
                            } else {
                                assert(occ(sq, i2) == occ_upto(sq, i2, j as int));
                                assert(processed@[i2] || old_queue2.contains(i2 as usize));
                                let k = choose|k: int|
                                    0 <= k < old_queue2.len() && old_queue2[k] == i2 as usize;
                                assert(queue@[k] == i2 as usize);
                            }
                        }
                    }
                }
                j += 1;
            }
            proof {
                // all occurrences propagated: counts again track pending
                assert forall|i2: int| 0 <= i2 < n implies (#[trigger] counts@[i2]) as int
                    == pending(deps@, processed@, i2) by {
                    assert(occ(deps@[t as int]@, i2) == occ_upto(
                        deps@[t as int]@,
                        i2,
                        m as int,
                    ));
                }
                assert forall|i2: int|
                    0 <= i2 < n && pending(deps@, processed@, i2) == 0 implies processed@[i2]
                    || queue@.contains(i2 as usize) by {
                    assert(occ(deps@[t as int]@, i2) == occ_upto(
                        deps@[t as int]@,
                        i2,
                        m as int,
                    ));
                }
                assert(procset.subset_of(set_int_range(0, n as int)));
                lemma_len_subset(procset, set_int_range(0, n as int));
            }
        }
    }

    // Every discharged task is processed; collect any task the pass never
    // reached.
    let mut unreached = false;
    let mut i: usize = 0;
    while i < n
        invariant
            i <= n,
            processed@.len() == n,
            unreached <==> exists|k: int| 0 <= k < i && !processed@[k],
        decreases n - i,
    {
        if !processed[i] {
            unreached = true;
        }
        i += 1;
    }

    if unreached {
        // The queue drained with tasks left over: a dependency cycle.
        proof {
            lemma_drained_closed(deps@, processed@);
            let k0 = choose|k: int| 0 <= k < n && !processed@[k];
            lemma_drained_not_acyclic(deps@, processed@, k0);
            lemma_processed_sinks_anchored(deps@, anchor@, processed@, ls_out@, lf_out@);
        }
        let msg = missing_tasks_message(tasks, &processed);
        return Err(ScheduleError::NoEndDateComputed(msg));
    }

    proof {
        // all tasks processed: the characterization holds outright, and the
        // processing order witnesses acyclicity
        assert(forall|i2: int| 0 <= i2 < n ==> #[trigger] processed@[i2]);
        assert forall|i2: int| 0 <= i2 < deps@.len() implies ord.contains(i2) by {
            assert(processed@[i2]);
        }
        assert(rev_topo_idx(deps@, ord));
        lemma_pds_le_sum(durs@, processed@, n as int);
        lemma_drained_closed(deps@, processed@);
        lemma_processed_sinks_anchored(deps@, anchor@, processed@, ls_out@, lf_out@);
        lemma_assemble_char(deps@, anchor@, durs@, processed@, ls_out@, lf_out@);
        assert forall|i2: int| 0 <= i2 < n implies abs_val((#[trigger] ls_out@[i2]) as int)
            <= TIMESTAMP_LIMIT + DURATION_BUDGET && abs_val(lf_out@[i2] as int) <= TIMESTAMP_LIMIT
            + DURATION_BUDGET by {
            assert(processed@[i2]);
        }
    }
    Ok((ls_out, lf_out))
}

/// Once every task is processed, the loop's per-task facts assemble into
/// the backward characterization.
proof fn lemma_assemble_char(
    deps: Seq<Vec<usize>>,
    anchor: Seq<Option<i64>>,
    durs: Seq<i64>,
    processed: Seq<bool>,
    ls_out: Seq<i64>,
    lf_out: Seq<i64>,
)
    requires
        processed.len() == deps.len(),
        anchor.len() == deps.len(),
        durs.len() == deps.len(),
        ls_out.len() == deps.len(),
        lf_out.len() == deps.len(),
        forall|c: int, j: int|
            0 <= c < deps.len() && 0 <= j < deps[c]@.len() ==> (#[trigger] deps[c]@[j])
                < deps.len(),
        forall|i2: int| 0 <= i2 < deps.len() ==> #[trigger] processed[i2],
        forall|i2: int|
            0 <= i2 < deps.len() && #[trigger] processed[i2] ==> ls_out[i2] == lf_out[i2]
                - durs[i2],
        forall|i2: int|
            0 <= i2 < deps.len() && #[trigger] processed[i2] && anchor[i2] is Some
                ==> lf_out[i2] <= anchor[i2]->0,
        forall|c: int, j: int|
            0 <= c < deps.len() && #[trigger] processed[c] && 0 <= j < deps[c]@.len() ==> {
                let d = (#[trigger] deps[c]@[j]) as int;
                processed[d] ==> lf_out[d] <= ls_out[c]
            },
        forall|i2: int|
            0 <= i2 < deps.len() && #[trigger] processed[i2] ==> (anchor[i2] is Some
                && lf_out[i2] == anchor[i2]->0) || (exists|c: int, j: int|
                0 <= c < deps.len() && 0 <= j < deps[c]@.len() && (#[trigger] deps[c]@[j]) as int
                    == i2 && processed[c] && lf_out[i2] == ls_out[c]),
    ensures
        backward_char_idx(deps, anchor, durs, ls_out, lf_out),
{
    let n = deps.len() as int;
    assert forall|i: int| 0 <= i < n implies #[trigger] ls_out[i] == lf_out[i] - durs[i] by {
        assert(processed[i]);
    }
    assert forall|i: int| 0 <= i < n && anchor[i] is Some implies #[trigger] lf_out[i]
        <= anchor[i]->0 by {
        assert(processed[i]);
    }
    assert forall|c: int, j: int| 0 <= c < n && 0 <= j < deps[c]@.len() implies lf_out[(
    #[trigger] deps[c]@[j]) as int] <= ls_out[c] by {
        assert(processed[c]);
        assert(processed[deps[c]@[j] as int]);
    }
    assert forall|i: int| 0 <= i < n implies #[trigger] lf_attains(
        deps,
        anchor,
        ls_out,
        lf_out,
        i,
    ) by {
        assert(processed[i]);
        if !(anchor[i] is Some && lf_out[i] == anchor[i]->0) {
            let (c, j) = choose|c: int, j: int|
                0 <= c < deps.len() && 0 <= j < deps[c]@.len() && (#[trigger] deps[c]@[j]) as int
                    == i && processed[c] && lf_out[i] == ls_out[c];
            assert(0 <= c < deps.len() && 0 <= j < deps[c]@.len() && deps[c]@[j] as int == i
                && lf_out[i] == ls_out[c]);
        }
    }
}

/// A task with no pending consumer occurrences keeps none when another task
/// is marked processed.
proof fn lemma_still_ready(deps: Seq<Vec<usize>>, processed: Seq<bool>, t: int, i: int)
    requires
        0 <= t < deps.len() <= processed.len(),
        !processed[t],
        0 <= i < deps.len(),
        pending(deps, processed, i) == 0,
    ensures
        pending(deps, processed.update(t, true), i) == 0,
{
    lemma_pending_flip(deps, processed, t, i, deps.len() as int);
    lemma_pending_upto_nonneg(deps, processed.update(t, true), i, deps.len() as int);
    lemma_occ_upto_nonneg(deps[t]@, i, deps[t]@.len() as int);
}

/// When the frontier has drained, the processed set is consumer-closed.
proof fn lemma_drained_closed(deps: Seq<Vec<usize>>, processed: Seq<bool>)
    requires
        processed.len() == deps.len(),
        forall|i2: int|
            0 <= i2 < deps.len() && pending(deps, processed, i2) == 0 ==> processed[i2],
    ensures
        consumer_closed(deps, processed),
{
    assert forall|i2: int|
        0 <= i2 < deps.len() && (forall|c: int, j: int|
            0 <= c < deps.len() && 0 <= j < deps[c]@.len() && (#[trigger] deps[c]@[j]) as int == i2
                ==> processed[c]) implies #[trigger] processed[i2] by {
        lemma_pending_zero_iff(deps, processed, i2);
    }
}

/// A consumer-closed set that misses a task witnesses a cycle.
proof fn lemma_drained_not_acyclic(deps: Seq<Vec<usize>>, processed: Seq<bool>, k0: int)
    requires
        processed.len() == deps.len(),
        consumer_closed(deps, processed),
        0 <= k0 < deps.len(),
        !processed[k0],
    ensures
        !acyclic_idx(deps),
{
    if acyclic_idx(deps) {
        let ord2 = choose|ord2: Seq<int>| rev_topo_idx(deps, ord2);
        lemma_kahn_complete(deps, processed, ord2, ord2.len() as int);
        assert(ord2.contains(k0));
        let p0 = choose|p: int| 0 <= p < ord2.len() && ord2[p] == k0;
        assert(processed[ord2[p0]]);
        assert(false);
    }
}

/// With the frontier drained, every sink was processed, and a processed sink
/// can only have attained its own anchor: the sinks are anchored.
proof fn lemma_processed_sinks_anchored(
    deps: Seq<Vec<usize>>,
    anchor: Seq<Option<i64>>,
    processed: Seq<bool>,
    ls_out: Seq<i64>,
    lf_out: Seq<i64>,
)
    requires
        processed.len() == deps.len(),
        anchor.len() == deps.len(),
        consumer_closed(deps, processed),
        forall|i2: int|
            0 <= i2 < deps.len() && #[trigger] processed[i2] ==> (anchor[i2] is Some && lf_out[i2]
                == anchor[i2]->0) || (exists|c: int, j: int|
                0 <= c < deps.len() && 0 <= j < deps[c]@.len() && (#[trigger] deps[c]@[j]) as int
                    == i2 && processed[c] && lf_out[i2] == ls_out[c]),
    ensures
        sinks_anchored_idx(deps, anchor),
{
    assert forall|i2: int|
        0 <= i2 < deps.len() && #[trigger] sink_idx(deps, i2) implies anchor[i2] is Some by {
        lemma_consumer_count_zero_iff(deps, i2);
        assert forall|c: int, j: int|
            0 <= c < deps.len() && 0 <= j < deps[c]@.len() && (#[trigger] deps[c]@[j]) as int == i2
                implies processed[c] by {
            assert(deps[c]@[j] as int != i2);
        }
        assert(processed[i2]);
        if anchor[i2] is None {
            let (c, j) = choose|c: int, j: int|
                0 <= c < deps.len() && 0 <= j < deps[c]@.len() && (#[trigger] deps[c]@[j]) as int
                    == i2 && processed[c] && lf_out[i2] == ls_out[c];
            assert(deps[c]@[j] as int != i2);
            assert(false);
        }
    }
}

/// Occurrence counts over a longer prefix never shrink.
pub proof fn lemma_occ_upto_le(s: Seq<usize>, x: int, j: int, k: int)
    requires
        j <= k,
    ensures
        occ_upto(s, x, j) <= occ_upto(s, x, k),
    decreases k - j,
{
    if j < k {
        lemma_occ_upto_le(s, x, j, k - 1);
        lemma_occ_upto_nonneg(s, x, k);
    }
}

/// Each entry's absolute value is at most the whole sum.
pub proof fn lemma_sum_abs_upto_le(s: Seq<i64>, j: int, k: int)
    requires
        j <= k,
    ensures
        sum_abs_upto(s, j) <= sum_abs_upto(s, k),
    decreases k - j,
{
    if j < k {
        lemma_sum_abs_upto_le(s, j, k - 1);
    }
}

pub proof fn lemma_sum_abs_entry(s: Seq<i64>, i: int)
    requires
        0 <= i < s.len(),
    ensures
        abs_val(s[i] as int) <= sum_abs_i64(s),
{
    lemma_pds_le_sum(s, Seq::new(s.len(), |k: int| true), i);
    assert(sum_abs_upto(s, i + 1) == sum_abs_upto(s, i) + abs_val(s[i] as int));
    lemma_pds_le_sum(s, Seq::new(s.len(), |k: int| true), i);
    assert(sum_abs_upto(s, i) >= 0) by {
        lemma_sum_abs_nonneg(s, i);
    }
    lemma_sum_abs_upto_le(s, i + 1, s.len() as int);
}

pub proof fn lemma_sum_abs_nonneg(s: Seq<i64>, k: int)
    ensures
        sum_abs_upto(s, k) >= 0,
    decreases k,
{
    if k > 0 {
        lemma_sum_abs_nonneg(s, k - 1);
    }
}

/// Pending dependency occurrences of one task: one per entry of its
/// dependency list whose provider is not yet processed.
pub open spec fn fpend_upto(row: Seq<usize>, done: Seq<bool>, k: int) -> int
    decreases k,
{
    if k <= 0 {
        0
    } else {
        fpend_upto(row, done, k - 1) + if done[row[k - 1] as int] {
            0int
        } else {
            1int
        }
    }
}

pub open spec fn fpending(deps: Seq<Vec<usize>>, done: Seq<bool>, i: int) -> int {
    fpend_upto(deps[i]@, done, deps[i]@.len() as int)
}

/// The set over which the forward pass is closed: once every provider of a
/// task lies inside, the task itself lies inside.
pub open spec fn dep_closed(deps: Seq<Vec<usize>>, done: Seq<bool>) -> bool {
    forall|i: int|
        0 <= i < deps.len() && (forall|j: int|
            0 <= j < deps[i]@.len() ==> done[(#[trigger] deps[i]@[j]) as int]) ==> #[trigger]
        done[i]
}

pub proof fn lemma_fpend_upto_nonneg(row: Seq<usize>, done: Seq<bool>, k: int)
    ensures
        fpend_upto(row, done, k) >= 0,
    decreases k,
{
    if k > 0 {
        lemma_fpend_upto_nonneg(row, done, k - 1);
    }
}

pub proof fn lemma_fpend_zero_iff(row: Seq<usize>, done: Seq<bool>, k: int)
    requires
        k <= row.len(),
    ensures
        fpend_upto(row, done, k) == 0 <==> forall|j: int|
            0 <= j < k ==> done[(#[trigger] row[j]) as int],
    decreases k,
{
    lemma_fpend_upto_nonneg(row, done, k);
    if k > 0 {
        lemma_fpend_zero_iff(row, done, k - 1);
        lemma_fpend_upto_nonneg(row, done, k - 1);
    }
}

/// With nothing processed, each pending count is the dependency count.
pub proof fn lemma_fpend_all_false(row: Seq<usize>, done: Seq<bool>, k: int)
    requires
        forall|j: int| 0 <= j < row.len() ==> !done[(#[trigger] row[j]) as int],
        k <= row.len(),
    ensures
        fpend_upto(row, done, k) == k || k < 0,
    decreases k,
{
    if k > 0 {
        lemma_fpend_all_false(row, done, k - 1);
    }
}

/// Marking one unprocessed provider processed lowers a pending count by its
/// occurrences in the dependency list.
pub proof fn lemma_fpend_flip(row: Seq<usize>, done: Seq<bool>, t: int, k: int)
    requires
        0 <= t < done.len(),
        !done[t],
        k <= row.len(),
        forall|j: int| 0 <= j < row.len() ==> ((#[trigger] row[j]) as int) < done.len(),
    ensures
        fpend_upto(row, done.update(t, true), k) == fpend_upto(row, done, k) - occ_upto(
            row,
            t,
            k,
        ),
    decreases k,
{
    if k > 0 {
        lemma_fpend_flip(row, done, t, k - 1);
    }
}

/// On an acyclic graph, a dependency-closed set covers every task.
pub proof fn lemma_forward_complete(
    deps: Seq<Vec<usize>>,
    done: Seq<bool>,
    ord: Seq<int>,
    p: int,
)
    requires
        rev_topo_idx(deps, ord),
        done.len() == deps.len(),
        forall|c: int, j: int|
            0 <= c < deps.len() && 0 <= j < deps[c]@.len() ==> (#[trigger] deps[c]@[j])
                < deps.len(),
        dep_closed(deps, done),
        0 <= p <= ord.len(),
    ensures
        forall|q: int| p <= q < ord.len() ==> done[#[trigger] ord[q]],
    decreases ord.len() - p,
{
    if p < ord.len() {
        lemma_forward_complete(deps, done, ord, p + 1);
        let i = ord[p];
        assert forall|j: int| 0 <= j < deps[i]@.len() implies done[(
        #[trigger] deps[i]@[j]) as int] by {
            let d = deps[i]@[j] as int;
            assert(ord.contains(d));
            let q2 = choose|q2: int| 0 <= q2 < ord.len() && ord[q2] == d;
            assert(deps[i]@[j] as int == ord[q2]);
            let q1 = choose|q1: int| 0 <= q1 < q2 && ord[q1] == i;
            if q1 < p {
                assert(ord[q1] != ord[p]);
                assert(false);
            }
            assert(p <= q1 < q2);
            assert(done[ord[q2]]);
        }
        assert(done[i]);
    }
}

/// Early Start attains one of its bounds: the project start, or the Early
/// Finish of one of the task's providers.
pub open spec fn es_attains(
    deps: Seq<Vec<usize>>,
    ps: i64,
    es: Seq<i64>,
    ef: Seq<i64>,
    i: int,
) -> bool {
    es[i] == ps || (exists|j: int|
        0 <= j < deps[i]@.len() && es[i] == ef[(#[trigger] deps[i]@[j]) as int])
}

/// The characterization of the forward pass at the index level: Early Finish
/// is Early Start plus the duration, and Early Start is the maximum of the
/// project start and the providers' Early Finishes (an upper bound that
/// attains one of them).
pub open spec fn forward_char_idx(
    deps: Seq<Vec<usize>>,
    durs: Seq<i64>,
    ps: i64,
    es: Seq<i64>,
    ef: Seq<i64>,
) -> bool {
    let n = deps.len() as int;
    &&& es.len() == n
    &&& ef.len() == n
    &&& forall|i: int| 0 <= i < n ==> #[trigger] ef[i] == es[i] + durs[i]
    &&& forall|i: int| 0 <= i < n ==> #[trigger] es[i] >= ps
    &&& forall|c: int, j: int|
        0 <= c < n && 0 <= j < deps[c]@.len() ==> ef[(#[trigger] deps[c]@[j]) as int] <= es[c]
    &&& forall|i: int| 0 <= i < n ==> #[trigger] es_attains(deps, ps, es, ef, i)
}

/// The forward pass: forward topological traversal from the sources,
/// computing Early Start / Early Finish from the project start. It also
/// establishes that no Early value exceeds the matching Late value, which is
/// what makes slack non-negative.
#[verifier::rlimit(100)]
pub fn forward_pass(
    deps: &Vec<Vec<usize>>,
    consumers: &Vec<Vec<usize>>,
    durs: &Vec<i64>,
    ps: i64,
    ls: &Vec<i64>,
    lf: &Vec<i64>,
) -> (r: (Vec<i64>, Vec<i64>))
    requires
        consumers@.len() == deps@.len(),
        durs@.len() == deps@.len(),
        ls@.len() == deps@.len(),
        lf@.len() == deps@.len(),
        forall|c: int, j: int|
            0 <= c < deps@.len() && 0 <= j < deps@[c]@.len() ==> (#[trigger] deps@[c]@[j])
                < deps@.len(),
        forall|d: int, k: int|
            0 <= d < deps@.len() && 0 <= k < consumers@[d]@.len() ==> (
            #[trigger] consumers@[d]@[k]) < deps@.len(),
        forall|d: int, x: int|
            0 <= d < deps@.len() ==> #[trigger] occ(consumers@[d]@, x) == if 0 <= x
                < deps@.len() {
                occ(deps@[x]@, d)
            } else {
                0int
            },
        sum_abs_i64(durs@) <= DURATION_BUDGET as int,
        -(TIMESTAMP_LIMIT + DURATION_BUDGET) <= ps as int <= TIMESTAMP_LIMIT + DURATION_BUDGET,
        forall|i: int| 0 <= i < deps@.len() ==> ps <= #[trigger] ls@[i],
        forall|i: int| 0 <= i < deps@.len() ==> #[trigger] ls@[i] == lf@[i] - durs@[i],
        forall|c: int, j: int|
            0 <= c < deps@.len() && 0 <= j < deps@[c]@.len() ==> lf@[(
            #[trigger] deps@[c]@[j]) as int] <= ls@[c],
        forall|i: int|
            0 <= i < deps@.len() ==> abs_val((#[trigger] ls@[i]) as int) <= TIMESTAMP_LIMIT
                + DURATION_BUDGET && abs_val(lf@[i] as int) <= TIMESTAMP_LIMIT + DURATION_BUDGET,
        acyclic_idx(deps@),
    ensures
        forward_char_idx(deps@, durs@, ps, r.0@, r.1@),
        forall|i: int|
            0 <= i < deps@.len() ==> #[trigger] r.0@[i] <= ls@[i] && r.1@[i] <= lf@[i],
        forall|i: int|
            0 <= i < deps@.len() ==> abs_val((#[trigger] r.0@[i]) as int) <= TIMESTAMP_LIMIT
                + DURATION_BUDGET && abs_val(r.1@[i] as int) <= TIMESTAMP_LIMIT + 2
                * DURATION_BUDGET,
{
    let n = deps.len();

    let mut fcounts: Vec<usize> = Vec::new();
    let mut i: usize = 0;
    while i < n
        invariant
            i <= n,
            deps@.len() == n,
            fcounts@.len() == i as int,
            forall|k: int| 0 <= k < i ==> (#[trigger] fcounts@[k]) as int == deps@[k]@.len(),
        decreases n - i,
    {
        fcounts.push(deps[i].len());
        i += 1;
    }

    let mut fdone: Vec<bool> = Vec::new();
    let mut es_out: Vec<i64> = Vec::new();
    let mut ef_out: Vec<i64> = Vec::new();
    let mut i: usize = 0;
    while i < n
        invariant
            i <= n,
            fdone@.len() == i as int,
            es_out@.len() == i as int,
            ef_out@.len() == i as int,
            forall|k: int| 0 <= k < i ==> !(#[trigger] fdone@[k]),
        decreases n - i,
    {
        fdone.push(false);
        es_out.push(0);
        ef_out.push(0);
        i += 1;
    }

    // Initial frontier: the sources, in task order.
    let mut queue: Vec<usize> = Vec::new();
    let mut i: usize = 0;
    while i < n
        invariant
            i <= n,
            deps@.len() == n,
            forall|k: int| 0 <= k < queue@.len() ==> (#[trigger] queue@[k]) < n,
            forall|k: int|
                0 <= k < queue@.len() ==> deps@[(#[trigger] queue@[k]) as int]@.len() == 0,
            forall|t: int|
                0 <= t < i && deps@[t]@.len() == 0 ==> queue@.contains(t as usize),
        decreases n - i,
    {
        if deps[i].len() == 0 {
            let ghost oldq = queue@;
            queue.push(i);
            proof {
                assert forall|t2: int|
                    0 <= t2 < i as int + 1 && deps@[t2]@.len() == 0 implies queue@.contains(
                    t2 as usize,
                ) by {
                    if t2 < i as int {
                        let k = choose|k: int| 0 <= k < oldq.len() && oldq[k] == t2 as usize;
                        assert(queue@[k] == t2 as usize);
                    } else {
                        assert(queue@[oldq.len() as int] == i);
                    }
                }
            }
        }
        i += 1;
    }

    let ghost mut procset: Set<int> = Set::empty();
    proof {
        lemma_int_range(0, n as int);
        assert forall|i2: int| 0 <= i2 < n implies (#[trigger] fcounts@[i2]) as int == fpending(
            deps@,
            fdone@,
            i2,
        ) by {
            assert forall|j: int| 0 <= j < deps@[i2]@.len() implies !fdone@[(
            #[trigger] deps@[i2]@[j]) as int] by {}
            lemma_fpend_all_false(deps@[i2]@, fdone@, deps@[i2]@.len() as int);
        }
        assert forall|k: int| 0 <= k < queue@.len() implies fpending(
            deps@,
            fdone@,
            (#[trigger] queue@[k]) as int,
        ) == 0 by {}
        assert forall|i2: int|
            0 <= i2 < n && fpending(deps@, fdone@, i2) == 0 implies fdone@[i2]
            || queue@.contains(i2 as usize) by {
            lemma_fpend_zero_iff(deps@[i2]@, fdone@, deps@[i2]@.len() as int);
            if deps@[i2]@.len() > 0 {
                assert(!fdone@[deps@[i2]@[0] as int]);
            }
        }
    }

    while queue.len() > 0
        invariant
            deps@.len() == n,
            consumers@.len() == n,
            durs@.len() == n,
            ls@.len() == n,
            lf@.len() == n,
            fcounts@.len() == n,
            fdone@.len() == n,
            es_out@.len() == n,
            ef_out@.len() == n,
            forall|c: int, j: int|
                0 <= c < deps@.len() && 0 <= j < deps@[c]@.len() ==> (#[trigger] deps@[c]@[j]) < n,
            forall|d: int, k: int|
                0 <= d < n && 0 <= k < consumers@[d]@.len() ==> (#[trigger] consumers@[d]@[k]) < n,
            forall|d: int, x: int|
                0 <= d < n ==> #[trigger] occ(consumers@[d]@, x) == if 0 <= x < n {
                    occ(deps@[x]@, d)
                } else {
                    0int
                },
            sum_abs_i64(durs@) <= DURATION_BUDGET as int,
            -(TIMESTAMP_LIMIT + DURATION_BUDGET) <= ps as int <= TIMESTAMP_LIMIT
                + DURATION_BUDGET,
            forall|i2: int| 0 <= i2 < n ==> ps <= #[trigger] ls@[i2],
            forall|i2: int| 0 <= i2 < n ==> #[trigger] ls@[i2] == lf@[i2] - durs@[i2],
            forall|c: int, j: int|
                0 <= c < n && 0 <= j < deps@[c]@.len() ==> lf@[(#[trigger] deps@[c]@[j]) as int]
                    <= ls@[c],
            forall|i2: int|
                0 <= i2 < n ==> abs_val((#[trigger] ls@[i2]) as int) <= TIMESTAMP_LIMIT
                    + DURATION_BUDGET && abs_val(lf@[i2] as int) <= TIMESTAMP_LIMIT
                    + DURATION_BUDGET,
            // counts track pending providers
            forall|i2: int|
                0 <= i2 < n ==> (#[trigger] fcounts@[i2]) as int == fpending(deps@, fdone@, i2),
            forall|k: int| 0 <= k < queue@.len() ==> (#[trigger] queue@[k]) < n,
            forall|k: int|
                0 <= k < queue@.len() ==> fpending(deps@, fdone@, (#[trigger] queue@[k]) as int)
                    == 0,
            forall|i2: int|
                0 <= i2 < n && fpending(deps@, fdone@, i2) == 0 ==> fdone@[i2]
                    || queue@.contains(i2 as usize),
            // a processed task's providers are processed
            forall|i2: int, j: int|
                0 <= i2 < n && #[trigger] fdone@[i2] && 0 <= j < deps@[i2]@.len() ==> fdone@[(
                #[trigger] deps@[i2]@[j]) as int],
            // the characterization on processed tasks
            forall|i2: int|
                0 <= i2 < n && #[trigger] fdone@[i2] ==> ef_out@[i2] == es_out@[i2] + durs@[i2],
            forall|i2: int| 0 <= i2 < n && #[trigger] fdone@[i2] ==> es_out@[i2] >= ps,
            forall|c: int, j: int|
                0 <= c < n && #[trigger] fdone@[c] && 0 <= j < deps@[c]@.len() ==> ef_out@[(
                #[trigger] deps@[c]@[j]) as int] <= es_out@[c],
            forall|i2: int|
                0 <= i2 < n && #[trigger] fdone@[i2] ==> es_attains(
                    deps@,
                    ps,
                    es_out@,
                    ef_out@,
                    i2,
                ),
            // the Early values never pass the Late values
            forall|i2: int|
                0 <= i2 < n && #[trigger] fdone@[i2] ==> es_out@[i2] <= ls@[i2] && ef_out@[i2]
                    <= lf@[i2],
            procset.finite(),
            procset.subset_of(set_int_range(0, n as int)),
            set_int_range(0, n as int).finite(),
            set_int_range(0, n as int).len() == n,
            forall|i2: int| procset.contains(i2) <==> 0 <= i2 < n && fdone@[i2],
        decreases n as int - procset.len(), queue@.len(),
    {
        proof {
            lemma_len_subset(procset, set_int_range(0, n as int));
        }
        let ghost old_queue = queue@;
        let t = queue.pop().unwrap();
        proof {
            assert(old_queue[old_queue.len() - 1] == t);
            assert(fpending(deps@, fdone@, t as int) == 0);
            assert forall|i2: int|
                0 <= i2 < n && fpending(deps@, fdone@, i2) == 0 && i2 != t as int
                    && !fdone@[i2] implies queue@.contains(i2 as usize) by {
                let k = choose|k: int| 0 <= k < old_queue.len() && old_queue[k] == i2 as usize;
                assert(k < old_queue.len() - 1);
                assert(queue@[k] == i2 as usize);
            }
        }
        if !fdone[t] {
            proof {
                lemma_fpend_zero_iff(deps@[t as int]@, fdone@, deps@[t as int]@.len() as int);
            }
            // Early Start: the project start, or the latest provider finish.
            let mut max_ef = ps;
            let m = deps[t].len();
            let mut j: usize = 0;
            while j < m
                invariant
                    j <= m,
                    t < n,
                    deps@.len() == n,
                    ef_out@.len() == n,
                    es_out@.len() == n,
                    ls@.len() == n,
                    lf@.len() == n,
                    fdone@.len() == n,
                    m == deps@[t as int]@.len(),
                    forall|c: int, j2: int|
                        0 <= c < deps@.len() && 0 <= j2 < deps@[c]@.len() ==> (
                        #[trigger] deps@[c]@[j2]) < n,
                    forall|j2: int|
                        0 <= j2 < m ==> fdone@[(#[trigger] deps@[t as int]@[j2]) as int],
                    forall|i2: int|
                        0 <= i2 < n && #[trigger] fdone@[i2] ==> es_out@[i2] <= ls@[i2]
                            && ef_out@[i2] <= lf@[i2],
                    forall|c: int, j2: int|
                        0 <= c < n && 0 <= j2 < deps@[c]@.len() ==> lf@[(
                        #[trigger] deps@[c]@[j2]) as int] <= ls@[c],
                    forall|i2: int| 0 <= i2 < n ==> ps <= #[trigger] ls@[i2],
                    -(TIMESTAMP_LIMIT + DURATION_BUDGET) <= ps as int <= TIMESTAMP_LIMIT
                        + DURATION_BUDGET,
                    max_ef >= ps,
                    max_ef <= ls@[t as int],
                    forall|j2: int|
                        0 <= j2 < j ==> ef_out@[(#[trigger] deps@[t as int]@[j2]) as int]
                            <= max_ef,
                    max_ef == ps || (exists|j2: int|
                        0 <= j2 < m && max_ef == ef_out@[(#[trigger] deps@[t as int]@[j2]) as int]),
                decreases m - j,
            {
                let d = deps[t][j];
                if fdone[d] {
                    if ef_out[d] > max_ef {
                        max_ef = ef_out[d];
                    }
                }
                j += 1;
            }
            let es_t = max_ef;
            let d_t = durs[t];
            proof {
                lemma_sum_abs_entry(durs@, t as int);
            }
            let ef_t = es_t + d_t;
            let ghost old_es = es_out@;
            let ghost old_ef = ef_out@;
            es_out.set(t, es_t);
            ef_out.set(t, ef_t);
            let ghost old_fdone = fdone@;
            fdone.set(t, true);
            let ghost old_procset = procset;
            proof {
                procset = procset.insert(t as int);
                assert(!old_procset.contains(t as int));
                vstd::set::axiom_set_insert_len(old_procset, t as int);
                assert(procset.subset_of(set_int_range(0, n as int)));
                lemma_len_subset(procset, set_int_range(0, n as int));
                assert(ef_t <= lf@[t as int]);
                // the new values satisfy the per-task characterization
                assert(es_attains(deps@, ps, es_out@, ef_out@, t as int)) by {
                    if es_t != ps {
                        let j2 = choose|j2: int|
                            0 <= j2 < m && es_t == old_ef[(#[trigger] deps@[t as int]@[j2]) as int];
                        assert(old_fdone[deps@[t as int]@[j2] as int]);
                        assert(deps@[t as int]@[j2] as int != t as int);
                        assert(0 <= j2 < deps@[t as int]@.len() && es_out@[t as int] == ef_out@[(
                        deps@[t as int]@[j2]) as int]);
                    }
                }
                assert forall|i2: int|
                    0 <= i2 < n && #[trigger] fdone@[i2] && i2 != t as int implies es_attains(
                    deps@,
                    ps,
                    es_out@,
                    ef_out@,
                    i2,
                ) by {
                    assert(es_attains(deps@, ps, old_es, old_ef, i2));
                    if old_es[i2] != ps {
                        let j2 = choose|j2: int|
                            0 <= j2 < deps@[i2]@.len() && old_es[i2] == old_ef[(
                            #[trigger] deps@[i2]@[j2]) as int];
                        assert(old_fdone[deps@[i2]@[j2] as int]);
                        assert(deps@[i2]@[j2] as int != t as int);
                        assert(es_out@[i2] == ef_out@[(deps@[i2]@[j2]) as int]);
                    }
                }
            }
            // Discharge the consumers.
            let ghost flip_fdone = fdone@;
            let k_len = consumers[t].len();
            let mut k: usize = 0;
            proof {
                assert forall|i2: int| 0 <= i2 < n implies (#[trigger] fcounts@[i2]) as int
                    == fpending(deps@, fdone@, i2) + (occ(consumers@[t as int]@, i2) - occ_upto(
                    consumers@[t as int]@,
                    i2,
                    0,
                )) by {
                    lemma_fpend_flip(
                        deps@[i2]@,
                        old_fdone,
                        t as int,
                        deps@[i2]@.len() as int,
                    );
                    assert(occ(consumers@[t as int]@, i2) == occ(deps@[i2]@, t as int));
                }
                assert forall|k2: int| 0 <= k2 < queue@.len() implies fpending(
                    deps@,
                    fdone@,
                    (#[trigger] queue@[k2]) as int,
                ) == 0 by {
                    let qi = queue@[k2] as int;
                    lemma_fpend_flip(deps@[qi]@, old_fdone, t as int, deps@[qi]@.len() as int);
                    lemma_fpend_upto_nonneg(deps@[qi]@, fdone@, deps@[qi]@.len() as int);
                    lemma_occ_upto_nonneg(deps@[qi]@, t as int, deps@[qi]@.len() as int);
                }
                assert forall|i2: int|
                    0 <= i2 < n && fpending(deps@, fdone@, i2) == 0 && occ(
                        consumers@[t as int]@,
                        i2,
                    ) == occ_upto(consumers@[t as int]@, i2, 0) implies fdone@[i2]
                    || queue@.contains(i2 as usize) by {
                    lemma_fpend_flip(
                        deps@[i2]@,
                        old_fdone,
                        t as int,
                        deps@[i2]@.len() as int,
                    );
                    assert(occ(consumers@[t as int]@, i2) == occ(deps@[i2]@, t as int));
                    lemma_occ_upto_nonneg(deps@[i2]@, t as int, deps@[i2]@.len() as int);
                }
            }
            while k < k_len
                invariant
                    k <= k_len,
                    t < n,
                    deps@.len() == n,
                    consumers@.len() == n,
                    fcounts@.len() == n,
                    fdone@.len() == n,
                    es_out@.len() == n,
                    ef_out@.len() == n,
                    k_len == consumers@[t as int]@.len(),
                    fdone@ == flip_fdone,
                    forall|c: int, j2: int|
                        0 <= c < deps@.len() && 0 <= j2 < deps@[c]@.len() ==> (
                        #[trigger] deps@[c]@[j2]) < n,
                    forall|d: int, k2: int|
                        0 <= d < n && 0 <= k2 < consumers@[d]@.len() ==> (
                        #[trigger] consumers@[d]@[k2]) < n,
                    forall|i2: int|
                        0 <= i2 < n ==> (#[trigger] fcounts@[i2]) as int == fpending(
                            deps@,
                            fdone@,
                            i2,
                        ) + (occ(consumers@[t as int]@, i2) - occ_upto(
                            consumers@[t as int]@,
                            i2,
                            k as int,
                        )),
                    forall|k2: int| 0 <= k2 < queue@.len() ==> (#[trigger] queue@[k2]) < n,
                    forall|k2: int|
                        0 <= k2 < queue@.len() ==> fpending(
                            deps@,
                            fdone@,
                            (#[trigger] queue@[k2]) as int,
                        ) == 0,
                    forall|i2: int|
                        0 <= i2 < n && fpending(deps@, fdone@, i2) == 0 && occ(
                            consumers@[t as int]@,
                            i2,
                        ) == occ_upto(consumers@[t as int]@, i2, k as int) ==> fdone@[i2]
                            || queue@.contains(i2 as usize),
                decreases k_len - k,
            {
                let c = consumers[t][k];
                proof {
                    lemma_occ_upto_nonneg(consumers@[t as int]@, c as int, k as int);
                    assert(occ_upto(consumers@[t as int]@, c as int, k as int + 1) == occ_upto(
                        consumers@[t as int]@,
                        c as int,
                        k as int,
                    ) + 1);
                    lemma_occ_upto_le(
                        consumers@[t as int]@,
                        c as int,
                        k as int + 1,
                        k_len as int,
                    );
                    lemma_fpend_upto_nonneg(deps@[c as int]@, fdone@, deps@[c as int]@.len() as int);
                }
                let ghost old_fcounts = fcounts@;
                let ghost old_queue2 = queue@;
                let cnt = fcounts[c];
                fcounts.set(c, cnt - 1);
                if cnt - 1 == 0 {
                    queue.push(c);
                }
                proof {
                    let sq = consumers@[t as int]@;
                    assert(sq[k as int] == c);
                    assert forall|i2: int| 0 <= i2 < n && i2 != c as int implies occ_upto(
                        sq,
                        i2,
                        k as int + 1,
                    ) == occ_upto(sq, i2, k as int) by {}
                    assert forall|k2: int| 0 <= k2 < queue@.len() implies (#[trigger] queue@[k2])
                        < n && fpending(deps@, fdone@, queue@[k2] as int) == 0 by {
                        if k2 < old_queue2.len() {
                            assert(queue@[k2] == old_queue2[k2]);
                        } else {
                            assert(queue@[k2] == c);
                            assert(old_fcounts[c as int] as int == fpending(
                                deps@,
                                fdone@,
                                c as int,
                            ) + (occ(sq, c as int) - occ_upto(sq, c as int, k as int)));
                            lemma_occ_upto_le(sq, c as int, k as int + 1, k_len as int);
                        }
                    }
                    assert forall|i2: int|
                        0 <= i2 < n && fpending(deps@, fdone@, i2) == 0 && occ(sq, i2)
                            == occ_upto(sq, i2, k as int + 1) implies fdone@[i2]
                        || queue@.contains(i2 as usize) by {
                        if !fdone@[i2] {
                            if i2 == c as int {
                                assert(old_fcounts[i2] as int == fpending(deps@, fdone@, i2)
                                    + (occ(sq, i2) - occ_upto(sq, i2, k as int)));
                                assert(old_fcounts[i2] as int == 1);
                                assert(cnt == 1);
                                assert(queue@[queue@.len() - 1] == c);
                            } else {
                                assert(occ(sq, i2) == occ_upto(sq, i2, k as int));
                                assert(fdone@[i2] || old_queue2.contains(i2 as usize));
                                let k3 = choose|k3: int|
                                    0 <= k3 < old_queue2.len() && old_queue2[k3] == i2 as usize;
                                assert(queue@[k3] == i2 as usize);
                            }
                        }
                    }
                }
                k += 1;
            }
            proof {
                assert forall|i2: int| 0 <= i2 < n implies (#[trigger] fcounts@[i2]) as int
                    == fpending(deps@, fdone@, i2) by {
                    assert(occ(consumers@[t as int]@, i2) == occ_upto(
                        consumers@[t as int]@,
                        i2,
                        k_len as int,
                    ));
                }
                assert forall|i2: int|
                    0 <= i2 < n && fpending(deps@, fdone@, i2) == 0 implies fdone@[i2]
                    || queue@.contains(i2 as usize) by {
                    assert(occ(consumers@[t as int]@, i2) == occ_upto(
                        consumers@[t as int]@,
                        i2,
                        k_len as int,
                    ));
                }
            }
        }
    }

    proof {
        // the frontier drained on an acyclic graph: every task was reached
        assert forall|i2: int|
            0 <= i2 < deps@.len() && (forall|j: int|
                0 <= j < deps@[i2]@.len() ==> fdone@[(#[trigger] deps@[i2]@[j]) as int]) implies
        #[trigger] fdone@[i2] by {
            lemma_fpend_zero_iff(deps@[i2]@, fdone@, deps@[i2]@.len() as int);
        }
        assert(dep_closed(deps@, fdone@));
        let ord2 = choose|ord2: Seq<int>| rev_topo_idx(deps@, ord2);
        lemma_forward_complete(deps@, fdone@, ord2, 0);
        assert forall|i2: int| 0 <= i2 < n implies #[trigger] fdone@[i2] by {
            assert(ord2.contains(i2));
            let p2 = choose|p2: int| 0 <= p2 < ord2.len() && ord2[p2] == i2;
            assert(fdone@[ord2[p2]]);
        }
        assert forall|i2: int| 0 <= i2 < n implies #[trigger] ef_out@[i2] == es_out@[i2]
            + durs@[i2] by {
            assert(fdone@[i2]);
        }
        assert forall|i2: int| 0 <= i2 < n implies #[trigger] es_out@[i2] >= ps by {
            assert(fdone@[i2]);
        }
        assert forall|c: int, j: int|
            0 <= c < n && 0 <= j < deps@[c]@.len() implies ef_out@[(
        #[trigger] deps@[c]@[j]) as int] <= es_out@[c] by {
            assert(fdone@[c]);
        }
        assert forall|i2: int| 0 <= i2 < n implies #[trigger] es_attains(
            deps@,
            ps,
            es_out@,
            ef_out@,
            i2,
        ) by {
            assert(fdone@[i2]);
        }
        assert forall|i2: int| 0 <= i2 < n implies #[trigger] es_out@[i2] <= ls@[i2]
            && ef_out@[i2] <= lf@[i2] by {
            assert(fdone@[i2]);
        }
        assert forall|i2: int| 0 <= i2 < n implies abs_val((#[trigger] es_out@[i2]) as int)
            <= TIMESTAMP_LIMIT + DURATION_BUDGET && abs_val(ef_out@[i2] as int)
            <= TIMESTAMP_LIMIT + 2 * DURATION_BUDGET by {
            assert(fdone@[i2]);
            lemma_sum_abs_entry(durs@, i2);
        }
    }
    (es_out, ef_out)
}

} // verus!
