//! The safety oracle: decides whether every unfinished process can still be
//! run to completion.

use crate::accounting::{lemma_held_monotone, lemma_held_push, names_processes};
use crate::ledger::{ints, SystemState};
use crate::model::every_process;
use crate::safety::{lemma_full_list_names_all, lemma_halted_run_decides};
use vstd::prelude::*;

verus! {

/// Process numbers as mathematical integers.
pub open spec fn process_numbers(order: Seq<usize>) -> Seq<int> {
    Seq::new(order.len(), |k: int| order[k] as int)
}

/// Whether process `p` can get all it still needs out of `work`.
fn can_finish(state: &SystemState, p: usize, work: &Vec<i32>) -> (able: bool)
    requires
        state@.shaped(),
        p < state@.processes(),
        work.len() == state@.resources(),
    ensures
        able == state@.can_finish_with(p as int, ints(work@)),
{
    assert(state@.need[p as int].len() == state@.resources());
    let row = &state.need[p];
    let mut r: usize = 0;
    while r < work.len()
        invariant
            r <= work.len(),
            work.len() == row.len(),
            ints(row@) == state@.need[p as int],
            work.len() == state@.resources(),
            forall|i: int| 0 <= i < r ==> state@.need[p as int][i] <= #[trigger] ints(work@)[i],
        decreases work.len() - r,
    {
        if row[r] > work[r] {
            assert(state@.need[p as int][r as int] > ints(work@)[r as int]);
            return false;
        }
        r += 1;
    }
    true
}

/// The lowest-numbered process that is not finished and can get all it still
/// needs out of `work`.
fn first_eligible(state: &SystemState, work: &Vec<i32>, finished: &Vec<bool>) -> (found: Option<
    usize,
>)
    requires
        state@.shaped(),
        work.len() == state@.resources(),
        finished.len() == state@.processes(),
    ensures
        match found {
            Some(p) => {
                &&& p < state@.processes()
                &&& !finished[p as int]
                &&& state@.can_finish_with(p as int, ints(work@))
                &&& forall|q: int|
                    0 <= q < p ==> finished[q] || !#[trigger] state@.can_finish_with(
                        q,
                        ints(work@),
                    )
            },
            None => forall|q: int|
                0 <= q < state@.processes() ==> finished[q] || !#[trigger] state@.can_finish_with(
                    q,
                    ints(work@),
                ),
        },
{
    let mut p: usize = 0;
    while p < finished.len()
        invariant
            p <= finished.len(),
            state@.shaped(),
            work.len() == state@.resources(),
            finished.len() == state@.processes(),
            forall|q: int|
                0 <= q < p ==> finished[q] || !#[trigger] state@.can_finish_with(q, ints(work@)),
        decreases finished.len() - p,
    {
        if !finished[p] && can_finish(state, p, work) {
            return Some(p);
        }
        p += 1;
    }
    None
}

/// Hands what process `p` holds back into `work`.
fn reclaim(state: &SystemState, p: usize, work: &mut Vec<i32>, Ghost(run): Ghost<Seq<int>>)
    requires
        state.wf(),
        p < state@.processes(),
        run.no_duplicates(),
        names_processes(run, state@.processes()),
        !run.contains(p as int),
        ints(old(work)@) == state@.free_after(run),
    ensures
        final(work).len() == old(work).len(),
        ints(final(work)@) == state@.free_after(run.push(p as int)),
{
    assert(work@.len() == ints(work@).len());
    let row = &state.allocated[p];
    let ghost before = work@;
    let ghost longer = run.push(p as int);
    let ghost all = every_process(state@.processes());
    assert forall|k: int| 0 <= k < longer.len() implies all.contains(#[trigger] longer[k]) by {
        assert(all[longer[k]] == longer[k]);
    }
    let mut r: usize = 0;
    while r < work.len()
        invariant
            r <= work.len(),
            state.wf(),
            p < state@.processes(),
            ints(row@) == state@.allocated[p as int],
            row.len() == work.len(),
            work.len() == state@.resources(),
            before.len() == work.len(),
            ints(before) == state@.free_after(run),
            longer == run.push(p as int),
            longer.no_duplicates(),
            names_processes(longer, state@.processes()),
            all == every_process(state@.processes()),
            forall|k: int| 0 <= k < longer.len() ==> all.contains(#[trigger] longer[k]),
            forall|i: int| 0 <= i < r ==> #[trigger] work@[i] == state@.free_after(longer)[i],
            forall|i: int| r <= i < work.len() ==> #[trigger] work@[i] == before[i],
        decreases work.len() - r,
    {
        proof {
            let i = r as int;
            assert(ints(before)[i] == state@.free_after(run)[i]);
            lemma_held_push(state@.allocated, run, p as int, i);
            lemma_held_monotone(state@.allocated, state@.processes(), longer, all, i);
            assert(state@.total(i) <= i32::MAX);
        }
        work[r] += row[r];
        r += 1;
    }
}

/// Looks for an order in which every unfinished process can run to
/// completion. Processes are tried in passes; each pass finishes the
/// lowest-numbered process that can get all it still needs from what is free
/// by then, and frees what that process holds. The search halts when a pass
/// finds no such process.
///
/// Returns that order if it finishes every unfinished process; there is only
/// one such order. Returns `None` if the ledger is unsafe: then no order at
/// all finishes them.
pub fn find_completion_order(state: &SystemState) -> (found: Option<Vec<usize>>)
    requires
        state.wf(),
    ensures
        found is Some <==> state@.is_safe(),
        found matches Some(order) ==> {
            &&& state@.is_completion_order(process_numbers(order@))
            &&& state@.is_lowest_first(process_numbers(order@))
        },
{
    let process_count = state.max.len();
    let mut work = state.available.clone();
    let mut finished = state.completed_process.clone();
    let mut order: Vec<usize> = Vec::new();
    let mut pass: usize = 0;
    while pass < process_count
        invariant
            state.wf(),
            process_count == state@.processes(),
            pass <= process_count,
            order.len() == pass,
            finished.len() == process_count,
            work.len() == state@.resources(),
            state@.is_run(process_numbers(order@)),
            state@.is_lowest_first(process_numbers(order@)),
            ints(work@) == state@.free_after(process_numbers(order@)),
            forall|p: int|
                0 <= p < process_count ==> (#[trigger] finished[p] <==> state@.completed[p]
                    || process_numbers(order@).contains(p)),
        ensures
            pass == process_count || state@.is_stuck_after(process_numbers(order@)),
        decreases process_count - pass,
    {
        let ghost run = process_numbers(order@);
        match first_eligible(state, &work, &finished) {
            None => {
                assert(state@.is_stuck_after(run));
                break ;
            },
            Some(p) => {
                reclaim(state, p, &mut work, Ghost(run));
                finished.set(p, true);
                order.push(p);
                pass += 1;
                proof {
                    let longer = process_numbers(order@);
                    assert(longer =~= run.push(p as int));
                    assert forall|k: int| 0 <= k < longer.len() implies state@.can_finish_with(
                        #[trigger] longer[k],
                        state@.free_after(longer.take(k)),
                    ) by {
                        if k < run.len() {
                            assert(longer.take(k) =~= run.take(k));
                        } else {
                            assert(longer.take(k) =~= run);
                        }
                    }
                    assert forall|k: int, q: int|
                        0 <= k < longer.len() && 0 <= q < longer[k] && !state@.completed[q]
                            && !longer.take(k).contains(
                            q,
                        ) implies !#[trigger] state@.can_finish_with(
                        q,
                        state@.free_after(longer.take(k)),
                    ) by {
                        if k < run.len() {
                            assert(longer.take(k) =~= run.take(k));
                        } else {
                            assert(longer.take(k) =~= run);
                        }
                    }
                    assert forall|q: int| 0 <= q < process_count implies (#[trigger] finished[q]
                        <==> state@.completed[q] || longer.contains(q)) by {
                        if q == p {
                            assert(longer[run.len() as int] == q);
                        } else if run.contains(q) {
                            let k = choose|k: int| 0 <= k < run.len() && run[k] == q;
                            assert(longer[k] == q);
                        } else if longer.contains(q) {
                            let k = choose|k: int| 0 <= k < longer.len() && longer[k] == q;
                            assert(run[k] == q);
                        }
                    }
                }
            },
        }
    }
    let ghost run = process_numbers(order@);
    proof {
        if pass == process_count {
            lemma_full_list_names_all(run, state@.processes());
        } else {
            lemma_halted_run_decides(state@, run);
        }
    }
    if all_finished(&finished) {
        assert(state@.covers_unfinished(run)) by {
            assert forall|p: int|
                0 <= p < state@.processes() && !state@.completed[p] implies #[trigger] run.contains(
                p,
            ) by {
                assert(finished[p]);
            }
        }
        assert(state@.is_completion_order(run));
        Some(order)
    } else {
        proof {
            let p = choose|p: int| 0 <= p < finished.len() && !finished[p];
            assert(!state@.completed[p] && !run.contains(p));
        }
        None
    }
}

/// Whether every flag is set.
fn all_finished(finished: &Vec<bool>) -> (all: bool)
    ensures
        all <==> forall|p: int| 0 <= p < finished.len() ==> finished[p],
{
    let mut p: usize = 0;
    while p < finished.len()
        invariant
            p <= finished.len(),
            forall|q: int| 0 <= q < p ==> finished[q],
        decreases finished.len() - p,
    {
        if !finished[p] {
            return false;
        }
        p += 1;
    }
    true
}

/// Decides whether the ledger is safe: whether some order runs every
/// unfinished process to completion. The ledger is only read, so asking
/// again gives the same answer.
pub fn safe_check(state: &SystemState) -> (safe: bool)
    requires
        state.wf(),
    ensures
        safe == state@.is_safe(),
{
    find_completion_order(state).is_some()
}

} // verus!
