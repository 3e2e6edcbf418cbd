//! Facts about the units that a list of processes holds together.

use crate::model::{every_process, held};
use vstd::prelude::*;

verus! {

/// Whether every entry of the first `rows` rows of `allocated`, in column `r`, is non-negative.
pub open spec fn column_nonnegative(allocated: Seq<Seq<int>>, rows: nat, r: int) -> bool {
    forall|p: int| 0 <= p < rows ==> 0 <= #[trigger] allocated[p][r]
}

/// Whether every entry of `order` names one of the first `rows` processes.
pub open spec fn names_processes(order: Seq<int>, rows: nat) -> bool {
    forall|k: int| 0 <= k < order.len() ==> 0 <= #[trigger] order[k] < rows
}

/// Listing one more process adds what that process holds.
pub proof fn lemma_held_push(allocated: Seq<Seq<int>>, order: Seq<int>, p: int, r: int)
    ensures
        held(allocated, order.push(p), r) == held(allocated, order, r) + allocated[p][r],
{
    assert(order.push(p).drop_last() =~= order);
}

/// Processes that hold non-negative amounts hold a non-negative amount together.
pub proof fn lemma_held_nonnegative(allocated: Seq<Seq<int>>, rows: nat, order: Seq<int>, r: int)
    requires
        names_processes(order, rows),
        column_nonnegative(allocated, rows, r),
    ensures
        0 <= held(allocated, order, r),
    decreases order.len(),
{
    if order.len() > 0 {
        lemma_held_nonnegative(allocated, rows, order.drop_last(), r);
    }
}

/// Striking one entry from the list takes away what that process holds.
pub proof fn lemma_held_remove(allocated: Seq<Seq<int>>, order: Seq<int>, j: int, r: int)
    requires
        0 <= j < order.len(),
    ensures
        held(allocated, order, r) == held(allocated, order.remove(j), r) + allocated[order[j]][r],
    decreases order.len(),
{
    if j == order.len() - 1 {
        assert(order.remove(j) =~= order.drop_last());
    } else {
        lemma_held_remove(allocated, order.drop_last(), j, r);
        assert(order.remove(j).drop_last() =~= order.drop_last().remove(j));
    }
}

/// A list without repetitions holds no more than any list that names all of
/// its processes, as long as nobody holds a negative amount.
pub proof fn lemma_held_monotone(
    allocated: Seq<Seq<int>>,
    rows: nat,
    part: Seq<int>,
    whole: Seq<int>,
    r: int,
)
    requires
        part.no_duplicates(),
        forall|k: int| 0 <= k < part.len() ==> whole.contains(#[trigger] part[k]),
        names_processes(whole, rows),
        column_nonnegative(allocated, rows, r),
    ensures
        held(allocated, part, r) <= held(allocated, whole, r),
    decreases part.len(),
{
    if part.len() == 0 {
        lemma_held_nonnegative(allocated, rows, whole, r);
    } else {
        let x = part.last();
        let rest = part.drop_last();
        let j = choose|j: int| 0 <= j < whole.len() && whole[j] == x;
        let others = whole.remove(j);
        // `part` names `x` once, so the rest of `part` is found in `whole` elsewhere.
        assert forall|k: int| 0 <= k < rest.len() implies others.contains(#[trigger] rest[k]) by {
            let m = choose|m: int| 0 <= m < whole.len() && whole[m] == part[k];
            assert(m != j);
            if m < j {
                assert(others[m] == rest[k]);
            } else {
                assert(others[m - 1] == rest[k]);
            }
        }
        lemma_held_monotone(allocated, rows, rest, others, r);
        lemma_held_remove(allocated, whole, j, r);
    }
}

/// Where two allocations agree on every listed process, the list holds the same under both.
pub proof fn lemma_held_agrees(
    before: Seq<Seq<int>>,
    after: Seq<Seq<int>>,
    order: Seq<int>,
    r: int,
)
    requires
        forall|k: int|
            0 <= k < order.len() ==> before[#[trigger] order[k]][r] == after[order[k]][r],
    ensures
        held(after, order, r) == held(before, order, r),
    decreases order.len(),
{
    if order.len() > 0 {
        lemma_held_agrees(before, after, order.drop_last(), r);
    }
}

/// Changing what one process holds by `delta` changes what all processes hold
/// together by `delta`.
pub proof fn lemma_held_shift(
    before: Seq<Seq<int>>,
    after: Seq<Seq<int>>,
    rows: nat,
    process: int,
    r: int,
    delta: int,
)
    requires
        0 <= process < rows,
        after[process][r] == before[process][r] + delta,
        forall|p: int| 0 <= p < rows && p != process ==> #[trigger] after[p][r] == before[p][r],
    ensures
        held(after, every_process(rows), r) == held(before, every_process(rows), r) + delta,
{
    let all = every_process(rows);
    let others = all.remove(process);
    lemma_held_remove(before, all, process, r);
    lemma_held_remove(after, all, process, r);
    lemma_held_agrees(before, after, others, r);
}

} // verus!
