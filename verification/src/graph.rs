//! Graph builder: the task index, resolved dependency lists, and the
//! reverse adjacency (consumers), together with the occurrence counts that
//! the topological passes' proofs rest on.

use vstd::prelude::*;
use crate::model::{
    dep_count, dep_id, dep_idx, deps_all_known, first_unknown_dep, task_index_of,
    lemma_task_index_of_props,
};
use crate::scheduler::{ScheduleError, Task};

verus! {

/// Occurrences of `x` among the first `k` entries of `s`.
pub open spec fn occ_upto(s: Seq<usize>, x: int, k: int) -> int
    decreases k,
{
    if k <= 0 {
        0
    } else {
        occ_upto(s, x, k - 1) + if s[k - 1] as int == x {
            1int
        } else {
            0int
        }
    }
}

/// Occurrences of `x` in `s`.
pub open spec fn occ(s: Seq<usize>, x: int) -> int {
    occ_upto(s, x, s.len() as int)
}

pub proof fn lemma_occ_upto_nonneg(s: Seq<usize>, x: int, k: int)
    ensures
        occ_upto(s, x, k) >= 0,
    decreases k,
{
    if k > 0 {
        lemma_occ_upto_nonneg(s, x, k - 1);
    }
}

pub proof fn lemma_occ_upto_zero_iff(s: Seq<usize>, x: int, k: int)
    requires
        k <= s.len(),
    ensures
        occ_upto(s, x, k) == 0 <==> forall|j: int| 0 <= j < k ==> (#[trigger] s[j]) as int != x,
    decreases k,
{
    lemma_occ_upto_nonneg(s, x, k);
    if k > 0 {
        lemma_occ_upto_zero_iff(s, x, k - 1);
        lemma_occ_upto_nonneg(s, x, k - 1);
    }
}

/// Occurrences of `x` in all of `s`, restated over every index.
pub proof fn lemma_occ_zero_iff(s: Seq<usize>, x: int)
    ensures
        occ(s, x) == 0 <==> forall|j: int| 0 <= j < s.len() ==> (#[trigger] s[j]) as int != x,
{
    lemma_occ_upto_zero_iff(s, x, s.len() as int);
}

/// Pending consumer occurrences of `i` among tasks `c < upto`: one per
/// occurrence of `i` in the dependency list of an unprocessed task.
pub open spec fn pending_upto(
    deps: Seq<Vec<usize>>,
    processed: Seq<bool>,
    i: int,
    upto: int,
) -> int
    decreases upto,
{
    if upto <= 0 {
        0
    } else {
        pending_upto(deps, processed, i, upto - 1) + if processed[upto - 1] {
            0int
        } else {
            occ(deps[upto - 1]@, i)
        }
    }
}

/// Pending consumer occurrences of `i` over all tasks.
pub open spec fn pending(deps: Seq<Vec<usize>>, processed: Seq<bool>, i: int) -> int {
    pending_upto(deps, processed, i, deps.len() as int)
}

pub proof fn lemma_pending_upto_nonneg(
    deps: Seq<Vec<usize>>,
    processed: Seq<bool>,
    i: int,
    upto: int,
)
    ensures
        pending_upto(deps, processed, i, upto) >= 0,
    decreases upto,
{
    if upto > 0 {
        lemma_pending_upto_nonneg(deps, processed, i, upto - 1);
        lemma_occ_upto_nonneg(deps[upto - 1]@, i, deps[upto - 1]@.len() as int);
    }
}

pub proof fn lemma_pending_upto_zero_iff(
    deps: Seq<Vec<usize>>,
    processed: Seq<bool>,
    i: int,
    upto: int,
)
    requires
        upto <= deps.len(),
    ensures
        pending_upto(deps, processed, i, upto) == 0 <==> forall|c: int|
            0 <= c < upto && !processed[c] ==> occ(#[trigger] deps[c]@, i) == 0,
    decreases upto,
{
    if upto > 0 {
        lemma_pending_upto_zero_iff(deps, processed, i, upto - 1);
        lemma_pending_upto_nonneg(deps, processed, i, upto - 1);
        lemma_occ_upto_nonneg(deps[upto - 1]@, i, deps[upto - 1]@.len() as int);
    }
}

/// Pending occurrences of `i` vanish exactly when every consumer occurrence
/// of `i` lies in a processed task.
pub proof fn lemma_pending_zero_iff(deps: Seq<Vec<usize>>, processed: Seq<bool>, i: int)
    ensures
        pending(deps, processed, i) == 0 <==> forall|c: int, j: int|
            0 <= c < deps.len() && 0 <= j < deps[c]@.len() && (#[trigger] deps[c]@[j]) as int == i
                ==> processed[c],
{
    lemma_pending_upto_zero_iff(deps, processed, i, deps.len() as int);
    if pending(deps, processed, i) == 0 {
        assert forall|c: int, j: int|
            0 <= c < deps.len() && 0 <= j < deps[c]@.len() && (#[trigger] deps[c]@[j]) as int == i
                implies processed[c] by {
            if !processed[c] {
                lemma_occ_zero_iff(deps[c]@, i);
            }
        }
    }
    if forall|c: int, j: int|
        0 <= c < deps.len() && 0 <= j < deps[c]@.len() && (#[trigger] deps[c]@[j]) as int == i
            ==> processed[c] {
        assert forall|c: int| 0 <= c < deps.len() && !processed[c] implies occ(
            #[trigger] deps[c]@,
            i,
        ) == 0 by {
            lemma_occ_zero_iff(deps[c]@, i);
            assert forall|j: int| 0 <= j < deps[c]@.len() implies (#[trigger] deps[c]@[j]) as int
                != i by {
                if deps[c]@[j] as int == i {
                    assert(processed[c]);
                }
            }
        }
    }
}

/// Marking one unprocessed task processed lowers each pending count by that
/// task's occurrences.
pub proof fn lemma_pending_flip(
    deps: Seq<Vec<usize>>,
    processed: Seq<bool>,
    c: int,
    i: int,
    upto: int,
)
    requires
        0 <= c < deps.len() <= processed.len(),
        !processed[c],
        upto <= deps.len(),
    ensures
        pending_upto(deps, processed.update(c, true), i, upto) == pending_upto(
            deps,
            processed,
            i,
            upto,
        ) - if c < upto {
            occ(deps[c]@, i)
        } else {
            0int
        },
    decreases upto,
{
    if upto > 0 {
        lemma_pending_flip(deps, processed, c, i, upto - 1);
    }
}

/// Total consumer occurrences of `d` among tasks `c < upto`.
pub open spec fn consumer_count_upto(deps: Seq<Vec<usize>>, d: int, upto: int) -> int
    decreases upto,
{
    if upto <= 0 {
        0
    } else {
        consumer_count_upto(deps, d, upto - 1) + occ(deps[upto - 1]@, d)
    }
}

/// Total consumer occurrences of `d`: how many times `d` appears in a
/// dependency list.
pub open spec fn consumer_count(deps: Seq<Vec<usize>>, d: int) -> int {
    consumer_count_upto(deps, d, deps.len() as int)
}

/// With nothing processed, the pending count is the consumer count.
pub proof fn lemma_pending_all_false(deps: Seq<Vec<usize>>, processed: Seq<bool>, i: int, upto: int)
    requires
        forall|c: int| 0 <= c < deps.len() ==> !(#[trigger] processed[c]),
        upto <= deps.len(),
    ensures
        pending_upto(deps, processed, i, upto) == consumer_count_upto(deps, i, upto),
    decreases upto,
{
    if upto > 0 {
        lemma_pending_all_false(deps, processed, i, upto - 1);
    }
}

/// A task has consumer count zero exactly when it appears in no dependency
/// list.
pub proof fn lemma_consumer_count_zero_iff(deps: Seq<Vec<usize>>, d: int)
    ensures
        consumer_count(deps, d) == 0 <==> forall|c: int, j: int|
            0 <= c < deps.len() && 0 <= j < deps[c]@.len() ==> (#[trigger] deps[c]@[j]) as int != d,
{
    lemma_consumer_count_upto_zero_iff(deps, d, deps.len() as int);
}

pub proof fn lemma_consumer_count_upto_zero_iff(deps: Seq<Vec<usize>>, d: int, upto: int)
    requires
        upto <= deps.len(),
    ensures
        consumer_count_upto(deps, d, upto) == 0 <==> forall|c: int, j: int|
            0 <= c < upto && 0 <= j < deps[c]@.len() ==> (#[trigger] deps[c]@[j]) as int != d,
        consumer_count_upto(deps, d, upto) >= 0,
    decreases upto,
{
    if upto > 0 {
        lemma_consumer_count_upto_zero_iff(deps, d, upto - 1);
        lemma_occ_zero_iff(deps[upto - 1]@, d);
        lemma_occ_upto_nonneg(deps[upto - 1]@, d, deps[upto - 1]@.len() as int);
    }
}

/// The resolved dependency lists match the tasks' dependency identifiers,
/// entry for entry.
pub open spec fn resolved_deps_ok(tasks: Seq<Task>, deps: Seq<Vec<usize>>) -> bool {
    &&& deps.len() == tasks.len()
    &&& forall|c: int| 0 <= c < deps.len() ==> (#[trigger] deps[c]@).len() == dep_count(tasks, c)
    &&& forall|c: int, j: int|
        0 <= c < deps.len() && 0 <= j < deps[c]@.len() ==> (#[trigger] deps[c]@[j]) as int
            == dep_idx(tasks, c, j)
}

/// Find the task carrying an identifier: the first index, scanning in order.
pub fn find_task_index(tasks: &Vec<Task>, id: &String) -> (r: Option<usize>)
    ensures
        r is Some ==> r->0 < tasks@.len() && task_index_of(tasks@, id@) == r->0 as int,
        r is None ==> task_index_of(tasks@, id@) == -1,
{
    let n = tasks.len();
    let mut i: usize = 0;
    while i < n
        invariant
            i <= n,
            n == tasks@.len(),
            forall|k: int| 0 <= k < i ==> (#[trigger] tasks@[k].id@) != id@,
        decreases n - i,
    {
        if tasks[i].id == *id {
            proof {
                lemma_task_index_of_first(tasks@, id@, i as int);
            }
            return Some(i);
        }
        i += 1;
    }
    proof {
        lemma_task_index_of_props(tasks@, id@);
        if task_index_of(tasks@, id@) >= 0 {
            assert(tasks@[task_index_of(tasks@, id@)].id@ != id@);
        }
    }
    None
}

/// The first matching index is what `task_index_of` yields.
pub proof fn lemma_task_index_of_first(tasks: Seq<Task>, id: Seq<char>, i: int)
    requires
        0 <= i < tasks.len(),
        tasks[i].id@ == id,
        forall|k: int| 0 <= k < i ==> (#[trigger] tasks[k].id@) != id,
    ensures
        task_index_of(tasks, id) == i,
    decreases i,
{
    if i > 0 {
        assert(forall|k: int|
            0 <= k < tasks.len() - 1 ==> #[trigger] tasks.drop_first()[k] == tasks[k + 1]);
        lemma_task_index_of_first(tasks.drop_first(), id, i - 1);
    }
}

/// Resolve every dependency identifier to a task index; the first unknown
/// identifier, scanning tasks and their lists in order, is the error.
pub fn resolve_dependencies(tasks: &Vec<Task>) -> (r: Result<Vec<Vec<usize>>, ScheduleError>)
    ensures
        r matches Ok(deps) ==> deps_all_known(tasks@) && resolved_deps_ok(tasks@, deps@),
        r matches Err(e) ==> {
            &&& !deps_all_known(tasks@)
            &&& exists|c: int, j: int|
                first_unknown_dep(tasks@, c, j) && (e matches ScheduleError::TaskNotFound(tid)
                    && tid@ == dep_id(tasks@, c, j))
        },
{
    let n = tasks.len();
    let mut deps: Vec<Vec<usize>> = Vec::new();
    let mut c: usize = 0;
    while c < n
        invariant
            c <= n,
            n == tasks@.len(),
            deps@.len() == c as int,
            forall|c2: int| 0 <= c2 < c ==> (#[trigger] deps@[c2]@).len() == dep_count(tasks@, c2),
            forall|c2: int, j2: int|
                0 <= c2 < c && 0 <= j2 < dep_count(tasks@, c2) ==> #[trigger] dep_idx(
                    tasks@,
                    c2,
                    j2,
                ) >= 0 && deps@[c2]@[j2] as int == dep_idx(tasks@, c2, j2),
        decreases n - c,
    {
        let m = tasks[c].dependencies.len();
        let mut row: Vec<usize> = Vec::new();
        let mut j: usize = 0;
        while j < m
            invariant
                j <= m,
                c < n,
                n == tasks@.len(),
                m == tasks@[c as int].dependencies@.len(),
                row@.len() == j as int,
                forall|c2: int, j2: int|
                    0 <= c2 < c && 0 <= j2 < dep_count(tasks@, c2) ==> #[trigger] dep_idx(
                        tasks@,
                        c2,
                        j2,
                    ) >= 0,
                forall|j2: int|
                    0 <= j2 < j ==> (#[trigger] row@[j2]) as int == dep_idx(tasks@, c as int, j2)
                        && dep_idx(tasks@, c as int, j2) >= 0,
            decreases m - j,
        {
            match find_task_index(tasks, &tasks[c].dependencies[j]) {
                Some(d) => {
                    row.push(d);
                },
                None => {
                    proof {
                        assert forall|c2: int, j2: int|
                            0 <= c2 < tasks@.len() && 0 <= j2 < dep_count(tasks@, c2) && (c2
                                < c as int || (c2 == c as int && j2 < j as int)) implies #[trigger]
                        dep_idx(tasks@, c2, j2) >= 0 by {
                            if c2 == c as int {
                                assert(row@[j2] as int == dep_idx(tasks@, c2, j2));
                            }
                        }
                        assert(first_unknown_dep(tasks@, c as int, j as int));
                    }
                    return Err(ScheduleError::TaskNotFound(tasks[c].dependencies[j].clone()));
                },
            }
            j += 1;
        }
        proof {
            assert forall|j2: int| 0 <= j2 < dep_count(tasks@, c as int) implies #[trigger] dep_idx(
                tasks@,
                c as int,
                j2,
            ) >= 0 && row@[j2] as int == dep_idx(tasks@, c as int, j2) by {
                assert(row@[j2] as int == dep_idx(tasks@, c as int, j2));
            }
        }
        deps.push(row);
        c += 1;
    }
    proof {
        assert forall|c2: int, j2: int|
            0 <= c2 < deps@.len() && 0 <= j2 < deps@[c2]@.len() implies (
        #[trigger] deps@[c2]@[j2]) as int == dep_idx(tasks@, c2, j2) by {
            assert(deps@[c2]@.len() == dep_count(tasks@, c2));
            assert(dep_idx(tasks@, c2, j2) >= 0 && deps@[c2]@[j2] as int == dep_idx(
                tasks@,
                c2,
                j2,
            ));
        }
    }
    Ok(deps)
}

/// Build the reverse adjacency: `consumers[d]` holds one entry `c` for each
/// occurrence of `d` in the dependency list of `c`.
pub fn build_consumers(deps: &Vec<Vec<usize>>, n: usize) -> (consumers: Vec<Vec<usize>>)
    requires
        deps@.len() == n,
        forall|c: int, j: int|
            0 <= c < deps@.len() && 0 <= j < deps@[c]@.len() ==> (#[trigger] deps@[c]@[j]) < n,
    ensures
        consumers@.len() == n,
        forall|d: int|
            0 <= d < n ==> (#[trigger] consumers@[d]@).len() == consumer_count(deps@, d),
        forall|d: int, x: int|
            0 <= d < n ==> #[trigger] occ(consumers@[d]@, x) == if 0 <= x < n {
                occ(deps@[x]@, d)
            } else {
                0int
            },
        forall|d: int, k: int|
            0 <= d < n && 0 <= k < consumers@[d]@.len() ==> (#[trigger] consumers@[d]@[k]) < n,
{
    let mut consumers: Vec<Vec<usize>> = Vec::new();
    let mut d: usize = 0;
    while d < n
        invariant
            d <= n,
            deps@.len() == n,
            forall|c2: int, j2: int|
                0 <= c2 < deps@.len() && 0 <= j2 < deps@[c2]@.len() ==> (#[trigger] deps@[c2]@[j2])
                    < n,
            consumers@.len() == d as int,
            forall|d2: int|
                0 <= d2 < d ==> (#[trigger] consumers@[d2]@).len() == consumer_count(deps@, d2),
            forall|d2: int, x: int|
                0 <= d2 < d ==> #[trigger] occ(consumers@[d2]@, x) == if 0 <= x < n {
                    occ(deps@[x]@, d2)
                } else {
                    0int
                },
            forall|d2: int, k: int|
                0 <= d2 < d && 0 <= k < consumers@[d2]@.len() ==> (#[trigger] consumers@[d2]@[k])
                    < n,
        decreases n - d,
    {
        let row = consumer_row(deps, n, d);
        consumers.push(row);
        d += 1;
    }
    consumers
}

/// The consumers of one task `d`: each task `c`, once per occurrence of `d`
/// in its dependency list, in task order.
fn consumer_row(deps: &Vec<Vec<usize>>, n: usize, d: usize) -> (row: Vec<usize>)
    requires
        deps@.len() == n,
        d < n,
    ensures
        row@.len() == consumer_count(deps@, d as int),
        forall|x: int|
            #[trigger] occ(row@, x) == if 0 <= x < n {
                occ(deps@[x]@, d as int)
            } else {
                0int
            },
        forall|k: int| 0 <= k < row@.len() ==> (#[trigger] row@[k]) < n,
{
    let mut row: Vec<usize> = Vec::new();
    let mut c: usize = 0;
    while c < n
        invariant
            c <= n,
            d < n,
            deps@.len() == n,
            row@.len() == consumer_count_upto(deps@, d as int, c as int),
            forall|x: int|
                #[trigger] occ(row@, x) == if 0 <= x < c {
                    occ(deps@[x]@, d as int)
                } else {
                    0int
                },
            forall|k: int| 0 <= k < row@.len() ==> (#[trigger] row@[k]) < n,
        decreases n - c,
    {
        let m = deps[c].len();
        let mut j: usize = 0;
        while j < m
            invariant
                j <= m,
                c < n,
                d < n,
                deps@.len() == n,
                m == deps@[c as int]@.len(),
                row@.len() == consumer_count_upto(deps@, d as int, c as int) + occ_upto(
                    deps@[c as int]@,
                    d as int,
                    j as int,
                ),
                forall|x: int|
                    #[trigger] occ(row@, x) == (if 0 <= x < c {
                        occ(deps@[x]@, d as int)
                    } else {
                        0int
                    }) + (if x == c {
                        occ_upto(deps@[c as int]@, d as int, j as int)
                    } else {
                        0int
                    }),
                forall|k: int| 0 <= k < row@.len() ==> (#[trigger] row@[k]) < n,
        decreases m - j,
        {
            if deps[c][j] == d {
                let ghost old_row = row@;
                row.push(c);
                proof {
                    lemma_occ_push(old_row, c);
                }
            }
            j += 1;
        }
        c += 1;
    }
    row
}

/// Pushing one element onto a sequence raises its occurrence count by one
/// and leaves every other count unchanged.
pub proof fn lemma_occ_push(s: Seq<usize>, c: usize)
    ensures
        forall|x: int|
            #[trigger] occ(s.push(c), x) == occ(s, x) + if x == c as int {
                1int
            } else {
                0int
            },
{
    assert forall|x: int|
        #[trigger] occ(s.push(c), x) == occ(s, x) + (if x == c as int {
            1int
        } else {
            0int
        }) by {
        lemma_occ_upto_push(s, c, x, s.len() as int + 1);
    }
}

proof fn lemma_occ_upto_push(s: Seq<usize>, c: usize, x: int, k: int)
    requires
        k <= s.len() + 1,
    ensures
        occ_upto(s.push(c), x, k) == if k <= s.len() {
            occ_upto(s, x, k)
        } else {
            occ_upto(s, x, s.len() as int) + if x == c as int {
                1int
            } else {
                0int
            }
        },
    decreases k,
{
    if k > 0 {
        lemma_occ_upto_push(s, c, x, k - 1);
        if k - 1 < s.len() {
            assert(s.push(c)[k - 1] == s[k - 1]);
        } else {
            assert(s.push(c)[k - 1] == c);
        }
    }
}

} // verus!
