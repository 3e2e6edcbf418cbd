//! The resource ledger: what is free, and what each process holds, may hold
//! and still needs.

use crate::accounting::{column_nonnegative, lemma_held_monotone, lemma_held_push};
use crate::model::{every_process, held, initial_ledger, is_valid_description, LedgerView};
use crate::transitions::lemma_description_gives_ledger;
use vstd::prelude::*;

verus! {

/// The entries of `row` as mathematical integers.
pub open spec fn ints(row: Seq<i32>) -> Seq<int> {
    Seq::new(row.len(), |r: int| row[r] as int)
}

/// The rows of `table` as sequences of mathematical integers.
pub open spec fn int_rows(table: Seq<Vec<i32>>) -> Seq<Seq<int>> {
    Seq::new(table.len(), |p: int| ints(table[p]@))
}

/// A description that gives no ledger.
#[derive(Clone, Copy, Debug, PartialEq, Eq, Structural)]
pub struct MalformedInput;

/// The ledger that all processes share. It is changed in place by every
/// request and release; whoever changes it holds it exclusively.
#[derive(Clone, Debug)]
pub struct SystemState {
    pub(crate) available: Vec<i32>,
    pub(crate) max: Vec<Vec<i32>>,
    pub(crate) allocated: Vec<Vec<i32>>,
    pub(crate) need: Vec<Vec<i32>>,
    pub(crate) completed_process: Vec<bool>,
}

impl View for SystemState {
    type V = LedgerView;

    open(crate) spec fn view(&self) -> LedgerView {
        LedgerView {
            available: ints(self.available@),
            max: int_rows(self.max@),
            allocated: int_rows(self.allocated@),
            need: int_rows(self.need@),
            completed: self.completed_process@,
        }
    }
}

impl SystemState {
    /// The invariant that every operation keeps: the ledger's own, and that
    /// the units of each resource type can be counted in an `i32`.
    pub open spec fn wf(&self) -> bool {
        self@.wf() && self@.totals_within(i32::MAX as int)
    }

    /// Makes the ledger that a description gives: `available` is what is
    /// free, and row `p` of `max` and of `allocated` are the maximum of process
    /// `p` and what it holds already. Each need is the maximum less the
    /// holdings, and no process has finished.
    ///
    /// The description is malformed, and no ledger is made, unless there is at
    /// least one resource type and one process, every vector has one entry per
    /// resource type, nothing is negative, nobody holds more than its maximum,
    /// and the units of each resource type can be counted in an `i32`.
    pub fn new(available: Vec<i32>, max: Vec<Vec<i32>>, allocated: Vec<Vec<i32>>) -> (made: Result<
        SystemState,
        MalformedInput,
    >)
        ensures
            made is Ok <==> is_valid_description(
                ints(available@),
                int_rows(max@),
                int_rows(allocated@),
            ),
            made matches Ok(state) ==> state.wf() && state@ == initial_ledger(
                ints(available@),
                int_rows(max@),
                int_rows(allocated@),
            ),
    {
        let ghost free = ints(available@);
        let ghost most = int_rows(max@);
        let ghost held_now = int_rows(allocated@);
        let resource_count = available.len();
        let process_count = max.len();
        if resource_count == 0 || process_count == 0 || allocated.len() != process_count {
            return Err(MalformedInput);
        }
        if !all_nonnegative(&available) {
            proof {
                let r = choose|r: int| 0 <= r < available.len() && available[r] < 0;
                assert(free[r] < 0);
            }
            return Err(MalformedInput);
        }
        let mut need: Vec<Vec<i32>> = Vec::new();
        let mut completed_process: Vec<bool> = Vec::new();
        let mut p: usize = 0;
        while p < process_count
            invariant
                p <= process_count,
                process_count == max.len(),
                process_count == allocated.len(),
                resource_count == available.len(),
                free == ints(available@),
                most == int_rows(max@),
                held_now == int_rows(allocated@),
                need.len() == p,
                completed_process.len() == p,
                forall|q: int| 0 <= q < p ==> !#[trigger] completed_process[q],
                forall|q: int|
                    0 <= q < p ==> {
                        &&& (#[trigger] need[q]).len() == resource_count
                        &&& max[q].len() == resource_count
                        &&& allocated[q].len() == resource_count
                    },
                forall|q: int, r: int|
                    0 <= q < p && 0 <= r < resource_count ==> {
                        &&& #[trigger] need[q][r] == max[q][r] - allocated[q][r]
                        &&& 0 <= allocated[q][r] <= max[q][r]
                    },
            decreases process_count - p,
        {
            if max[p].len() != resource_count {
                assert(most[p as int].len() != free.len());
                return Err(MalformedInput);
            }
            match remaining_need(&max[p], &allocated[p]) {
                None => {
                    proof {
                        if allocated[p as int].len() != max[p as int].len() {
                            assert(held_now[p as int].len() != free.len());
                        } else {
                            let r = choose|r: int|
                                0 <= r < max[p as int].len() && !(0 <= (
                                #[trigger] allocated[p as int][r]) <= max[p as int][r]);
                            assert(held_now[p as int][r] == allocated[p as int][r]);
                        }
                    }
                    return Err(MalformedInput);
                },
                Some(row) => {
                    need.push(row);
                    completed_process.push(false);
                },
            }
            p += 1;
        }
        let state = SystemState { available, max, allocated, need, completed_process };
        let ghost v = initial_ledger(free, most, held_now);
        let ghost valid = is_valid_description(free, most, held_now);
        proof {
            assert(state@.completed =~= v.completed);
            assert forall|q: int| 0 <= q < process_count implies #[trigger] state@.need[q]
                =~= v.need[q] by {
                assert(state.need[q].len() == resource_count);
            }
            assert(state@.need =~= v.need);
            assert(state@ == v);
            assert forall|q: int| 0 <= q < process_count implies (#[trigger] most[q]).len()
                == resource_count by {
                assert(state.need[q].len() == resource_count);
            }
            assert forall|q: int| 0 <= q < process_count implies (#[trigger] held_now[q]).len()
                == resource_count by {
                assert(state.need[q].len() == resource_count);
            }
            assert forall|q: int, r: int|
                0 <= q < process_count && 0 <= r < resource_count implies 0
                <= #[trigger] held_now[q][r] <= most[q][r] by {
                assert(state.need[q][r] == state.max[q][r] - state.allocated[q][r]);
            }
            assert(valid <==> v.totals_within(i32::MAX as int)) by {
                if valid {
                    lemma_description_gives_ledger(free, most, held_now);
                }
                if v.totals_within(i32::MAX as int) {
                    assert forall|r: int| 0 <= r < free.len() implies #[trigger] free[r] + held(
                        held_now,
                        every_process(most.len()),
                        r,
                    ) <= i32::MAX by {
                        assert(v.total(r) <= i32::MAX);
                    }
                }
            }
        }
        let mut r: usize = 0;
        while r < resource_count
            invariant
                r <= resource_count,
                resource_count == state.available.len(),
                state@ == v,
                v.wf(),
                v.resources() == resource_count,
                valid == is_valid_description(
                    ints(available@),
                    int_rows(max@),
                    int_rows(allocated@),
                ),
                valid <==> v.totals_within(i32::MAX as int),
                forall|i: int| 0 <= i < r ==> #[trigger] v.total(i) <= i32::MAX,
            decreases resource_count - r,
        {
            if !column_fits(&state, r) {
                return Err(MalformedInput);
            }
            r += 1;
        }
        Ok(state)
    }

    /// The number of resource types.
    pub fn resource_count(&self) -> (count: usize)
        ensures
            count == self@.resources(),
    {
        self.available.len()
    }

    /// The number of processes.
    pub fn process_count(&self) -> (count: usize)
        ensures
            count == self@.processes(),
    {
        self.max.len()
    }

    /// The units of each resource type that nobody holds.
    pub fn available(&self) -> (free: &Vec<i32>)
        ensures
            ints(free@) == self@.available,
    {
        &self.available
    }

    /// The most each process may ever hold, one row per process.
    pub fn max(&self) -> (table: &Vec<Vec<i32>>)
        ensures
            int_rows(table@) == self@.max,
    {
        &self.max
    }

    /// What each process holds now, one row per process.
    pub fn allocated(&self) -> (table: &Vec<Vec<i32>>)
        ensures
            int_rows(table@) == self@.allocated,
    {
        &self.allocated
    }

    /// What each process may still ask for, one row per process.
    pub fn need(&self) -> (table: &Vec<Vec<i32>>)
        ensures
            int_rows(table@) == self@.need,
    {
        &self.need
    }

    /// For each process, whether it has finished.
    pub fn completed_process(&self) -> (flags: &Vec<bool>)
        ensures
            flags@ == self@.completed,
    {
        &self.completed_process
    }
}

/// Whether no entry of `row` is negative.
fn all_nonnegative(row: &Vec<i32>) -> (ok: bool)
    ensures
        ok <==> forall|r: int| 0 <= r < row.len() ==> 0 <= #[trigger] row[r],
{
    let mut r: usize = 0;
    while r < row.len()
        invariant
            r <= row.len(),
            forall|i: int| 0 <= i < r ==> 0 <= #[trigger] row[i],
        decreases row.len() - r,
    {
        if row[r] < 0 {
            return false;
        }
        r += 1;
    }
    true
}

/// What a process may still ask for: its maximum less what it holds. There is
/// no such vector where the two differ in length, or where the process holds
/// a negative amount or more than its maximum.
fn remaining_need(most: &Vec<i32>, held_now: &Vec<i32>) -> (need: Option<Vec<i32>>)
    ensures
        need is Some <==> {
            &&& held_now.len() == most.len()
            &&& forall|r: int| 0 <= r < most.len() ==> 0 <= (#[trigger] held_now[r]) <= most[r]
        },
        need matches Some(row) ==> {
            &&& row.len() == most.len()
            &&& forall|r: int| 0 <= r < most.len() ==> #[trigger] row[r] == most[r] - held_now[r]
        },
{
    if held_now.len() != most.len() {
        return None;
    }
    let mut row: Vec<i32> = Vec::new();
    let mut r: usize = 0;
    while r < most.len()
        invariant
            r <= most.len(),
            held_now.len() == most.len(),
            row.len() == r,
            forall|i: int| 0 <= i < r ==> 0 <= (#[trigger] held_now[i]) <= most[i],
            forall|i: int| 0 <= i < r ==> #[trigger] row[i] == most[i] - held_now[i],
        decreases most.len() - r,
    {
        if held_now[r] < 0 || held_now[r] > most[r] {
            return None;
        }
        row.push(most[r] - held_now[r]);
        r += 1;
    }
    Some(row)
}

/// Whether the units of resource type `r`, free or held, can be counted in an `i32`.
fn column_fits(state: &SystemState, r: usize) -> (fits: bool)
    requires
        state@.wf(),
        r < state@.resources(),
    ensures
        fits <==> state@.total(r as int) <= i32::MAX,
{
    let ghost v = state@;
    let ghost all = every_process(v.processes());
    let process_count = state.allocated.len();
    let mut sum: i32 = state.available[r];
    let mut p: usize = 0;
    assert(0 <= v.available[r as int]);
    while p < process_count
        invariant
            p <= process_count,
            process_count == v.processes(),
            v == state@,
            v.wf(),
            r < v.resources(),
            all == every_process(v.processes()),
            column_nonnegative(v.allocated, v.processes(), r as int),
            0 <= sum,
            sum == v.available[r as int] + held(v.allocated, every_process(p as nat), r as int),
        decreases process_count - p,
    {
        let ghost sooner = every_process(p as nat);
        let ghost later = every_process((p + 1) as nat);
        proof {
            assert(later =~= sooner.push(p as int));
            lemma_held_push(v.allocated, sooner, p as int, r as int);
        }
        let amount = state.allocated[p][r];
        if amount > i32::MAX - sum {
            proof {
                assert forall|k: int| 0 <= k < later.len() implies all.contains(
                    #[trigger] later[k],
                ) by {
                    assert(all[later[k]] == later[k]);
                }
                lemma_held_monotone(v.allocated, v.processes(), later, all, r as int);
            }
            return false;
        }
        sum += amount;
        p += 1;
    }
    true
}

} // verus!
