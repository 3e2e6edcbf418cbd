//! Why running processes greedily decides safety.
//!
//! Finishing a process only ever frees resources, so a process that can run
//! now can still run later. A greedy run that has come to a halt has therefore
//! finished every process that any order could finish.

use crate::accounting::{
    lemma_held_agrees, lemma_held_monotone, lemma_held_remove, names_processes,
};
use crate::model::LedgerView;
use vstd::prelude::*;
use vstd::set_lib::{lemma_int_range, lemma_subset_equality, set_int_range};

verus! {

/// The first entry of `order`, at or before position `n`, that `run` does not name.
proof fn lemma_first_outside(order: Seq<int>, run: Seq<int>, n: int) -> (k: int)
    requires
        0 <= n < order.len(),
        !run.contains(order[n]),
    ensures
        0 <= k <= n,
        !run.contains(order[k]),
        forall|i: int| 0 <= i < k ==> run.contains(#[trigger] order[i]),
    decreases n,
{
    if exists|i: int| 0 <= i < n && !run.contains(#[trigger] order[i]) {
        let i = choose|i: int| 0 <= i < n && !run.contains(#[trigger] order[i]);
        lemma_first_outside(order, run, i)
    } else {
        n
    }
}

/// What is free after a run is at least what is free after any part of it.
pub proof fn lemma_free_after_monotone(v: LedgerView, part: Seq<int>, run: Seq<int>, p: int)
    requires
        v.wf(),
        part.no_duplicates(),
        forall|k: int| 0 <= k < part.len() ==> run.contains(#[trigger] part[k]),
        names_processes(run, v.processes()),
        v.can_finish_with(p, v.free_after(part)),
    ensures
        v.can_finish_with(p, v.free_after(run)),
{
    assert forall|r: int| 0 <= r < v.resources() implies v.need[p][r] <= #[trigger] v.free_after(
        run,
    )[r] by {
        lemma_held_monotone(v.allocated, v.processes(), part, run, r);
        assert(v.need[p][r] <= v.free_after(part)[r]);
    }
}

/// A run that has come to a halt decides safety: the ledger is safe exactly
/// when the run has finished every unfinished process.
pub proof fn lemma_halted_run_decides(v: LedgerView, run: Seq<int>)
    requires
        v.wf(),
        v.is_run(run),
        v.is_stuck_after(run),
    ensures
        v.is_safe() <==> v.covers_unfinished(run),
{
    if v.covers_unfinished(run) {
        assert(v.is_completion_order(run));
    }
    if v.is_safe() && !v.covers_unfinished(run) {
        let order = choose|order: Seq<int>| v.is_completion_order(order);
        let q = choose|q: int| 0 <= q < v.processes() && !v.completed[q] && !run.contains(q);
        assert(order.contains(q));
        let n = choose|n: int| 0 <= n < order.len() && order[n] == q;
        let k = lemma_first_outside(order, run, n);
        // The run has finished all that runs before `order[k]`, so it has
        // freed no less: `order[k]` could run next, yet the run has halted.
        assert(v.can_finish_with(order[k], v.free_after(order.take(k))));
        lemma_free_after_monotone(v, order.take(k), run, order[k]);
        assert(v.can_finish_with(order[k], v.free_after(run)));
    }
}

/// A list of `count` process numbers below `count`, none twice, names them all.
pub proof fn lemma_full_list_names_all(order: Seq<int>, count: nat)
    requires
        order.no_duplicates(),
        names_processes(order, count),
        order.len() == count,
    ensures
        forall|p: int| 0 <= p < count ==> #[trigger] order.contains(p),
{
    let named = order.to_set();
    let all = set_int_range(0, count as int);
    order.unique_seq_to_set();
    lemma_int_range(0, count as int);
    assert(named.subset_of(all));
    lemma_subset_equality(named, all);
    assert forall|p: int| 0 <= p < count implies #[trigger] order.contains(p) by {
        assert(all.contains(p));
    }
}

/// The entries of a list without repetitions, with the one at `j` struck, are
/// the other entries of the list.
proof fn lemma_remove_keeps_others(order: Seq<int>, j: int)
    requires
        order.no_duplicates(),
        0 <= j < order.len(),
    ensures
        order.remove(j).no_duplicates(),
        !order.remove(j).contains(order[j]),
        forall|x: int|
            x != order[j] && order.contains(x) ==> #[trigger] order.remove(j).contains(x),
        forall|k: int|
            0 <= k < order.remove(j).len() ==> #[trigger] order.remove(j)[k] == order[if k < j {
                k
            } else {
                k + 1
            }],
{
    let rest = order.remove(j);
    assert forall|x: int| x != order[j] && order.contains(x) implies #[trigger] rest.contains(
        x,
    ) by {
        let m = choose|m: int| 0 <= m < order.len() && order[m] == x;
        if m < j {
            assert(rest[m] == x);
        } else {
            assert(rest[m - 1] == x);
        }
    }
}

/// What is free after the processes of a list does not shrink when
/// `process` hands back what it holds and is struck from the list: `rest` is
/// `order` without `process`.
proof fn lemma_release_frees_no_less(
    v: LedgerView,
    process: int,
    order: Seq<int>,
    rest: Seq<int>,
    r: int,
)
    requires
        v.wf(),
        0 <= process < v.processes(),
        0 <= r < v.resources(),
        names_processes(order, v.processes()),
        !rest.contains(process),
        rest == order || exists|j: int|
            0 <= j < order.len() && order[j] == process && rest == order.remove(j),
    ensures
        v.free_after(order)[r] <= v.release(process).free_after(rest)[r],
{
    let w = v.release(process);
    // Nobody in `rest` has released, and `process` held nothing negative.
    lemma_held_agrees(v.allocated, w.allocated, rest, r);
    if rest != order {
        let j = choose|j: int|
            0 <= j < order.len() && order[j] == process && rest == order.remove(j);
        lemma_held_remove(v.allocated, order, j, r);
    }
}

/// A release never makes a safe ledger unsafe: the processes that are left
/// can finish in the order in which they could before. The release by a
/// process that has finished already changes nothing.
pub proof fn lemma_release_keeps_safe(v: LedgerView, process: int)
    requires
        v.wf(),
        0 <= process < v.processes(),
        v.is_safe(),
    ensures
        v.release(process).is_safe(),
{
    let w = v.release(process);
    let order = choose|order: Seq<int>| v.is_completion_order(order);
    if !v.completed[process] {
        assert(order.contains(process));
        let j = choose|j: int| 0 <= j < order.len() && order[j] == process;
        let rest = order.remove(j);
        lemma_remove_keeps_others(order, j);
        assert forall|k: int| 0 <= k < rest.len() implies w.can_finish_with(
            #[trigger] rest[k],
            w.free_after(rest.take(k)),
        ) by {
            let m = if k < j {
                k
            } else {
                k + 1
            };
            assert(rest[k] == order[m]);
            if k < j {
                assert(rest.take(k) =~= order.take(m));
            } else {
                assert(rest.take(k) =~= order.take(m).remove(j));
            }
            assert forall|r: int| 0 <= r < w.resources() implies w.need[rest[k]][r]
                <= #[trigger] w.free_after(rest.take(k))[r] by {
                lemma_release_frees_no_less(v, process, order.take(m), rest.take(k), r);
            }
        }
        assert(w.is_completion_order(rest));
    } else {
        assert(w.available =~= v.available);
        assert(w.allocated[process] =~= v.allocated[process]);
        assert(w.allocated =~= v.allocated);
        assert(w.need[process] =~= v.need[process]);
        assert(w.need =~= v.need);
        assert(w.completed =~= v.completed);
        assert(w == v);
    }
}

/// Two orders that both finish every unfinished process, each taking the
/// lowest-numbered process that can run at every turn, are the same order.
pub proof fn lemma_lowest_first_is_unique(v: LedgerView, a: Seq<int>, b: Seq<int>)
    requires
        v.is_completion_order(a),
        v.is_lowest_first(a),
        v.is_completion_order(b),
        v.is_lowest_first(b),
    ensures
        a == b,
{
    // Both name the unfinished processes, each once, so they are equally long.
    assert(a.to_set() =~= b.to_set());
    a.unique_seq_to_set();
    b.unique_seq_to_set();
    lemma_lowest_first_agree(v, a, b, a.len() as int);
    assert(a.take(a.len() as int) =~= a);
    assert(b.take(b.len() as int) =~= b);
}

/// Two such orders agree on their first `k` turns.
proof fn lemma_lowest_first_agree(v: LedgerView, a: Seq<int>, b: Seq<int>, k: int)
    requires
        v.is_run(a),
        v.is_lowest_first(a),
        v.is_run(b),
        v.is_lowest_first(b),
        0 <= k <= a.len(),
        a.len() == b.len(),
    ensures
        a.take(k) == b.take(k),
    decreases k,
{
    if k > 0 {
        let n = k - 1;
        lemma_lowest_first_agree(v, a, b, n);
        // After the same processes both `a[n]` and `b[n]` can run, and each
        // is the lowest-numbered process that can.
        assert(v.can_finish_with(a[n], v.free_after(a.take(n))));
        assert(v.can_finish_with(b[n], v.free_after(b.take(n))));
        assert(a[n] == b[n]);
        assert(a.take(k) =~= a.take(n).push(a[n]));
        assert(b.take(k) =~= b.take(n).push(b[n]));
    } else {
        assert(a.take(0) =~= b.take(0));
    }
}

} // verus!
