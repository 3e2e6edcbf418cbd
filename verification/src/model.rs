//! The mathematical model of a resource ledger.

use vstd::prelude::*;

verus! {

/// A ledger as plain mathematics: `R` resource types, `P` processes.
pub struct LedgerView {
    /// Units of each resource type that nobody holds.
    pub available: Seq<int>,
    /// The most a process may ever hold, by process and resource type.
    pub max: Seq<Seq<int>>,
    /// What each process holds now.
    pub allocated: Seq<Seq<int>>,
    /// What each process may still ask for.
    pub need: Seq<Seq<int>>,
    /// Whether a process has finished and left.
    pub completed: Seq<bool>,
}

/// The units of resource type `r` that the processes listed in `order` hold
/// together under the allocation `allocated`; a process listed twice counts twice.
pub open spec fn held(allocated: Seq<Seq<int>>, order: Seq<int>, r: int) -> int
    decreases order.len(),
{
    if order.len() == 0 {
        0
    } else {
        held(allocated, order.drop_last(), r) + allocated[order.last()][r]
    }
}

/// The processes `0, 1, .., count - 1`, each once.
pub open spec fn every_process(count: nat) -> Seq<int> {
    Seq::new(count, |p: int| p)
}

/// Whether `matrix` has `rows` rows of `columns` entries each.
pub open spec fn has_shape(matrix: Seq<Seq<int>>, rows: nat, columns: nat) -> bool {
    &&& matrix.len() == rows
    &&& forall|p: int| 0 <= p < rows ==> (#[trigger] matrix[p]).len() == columns
}

impl LedgerView {
    /// The number of resource types.
    pub open spec fn resources(self) -> nat {
        self.available.len()
    }

    /// The number of processes.
    pub open spec fn processes(self) -> nat {
        self.max.len()
    }

    /// Every vector has one entry per resource type and every table one row per process.
    pub open spec fn shaped(self) -> bool {
        &&& has_shape(self.max, self.processes(), self.resources())
        &&& has_shape(self.allocated, self.processes(), self.resources())
        &&& has_shape(self.need, self.processes(), self.resources())
        &&& self.completed.len() == self.processes()
    }

    /// The invariant of a ledger between operations: nothing is negative, an
    /// unfinished process needs exactly what separates its holdings from its
    /// maximum, and a finished process holds nothing and has its need reset
    /// to its maximum.
    pub open spec fn wf(self) -> bool {
        &&& self.shaped()
        &&& forall|r: int| 0 <= r < self.resources() ==> 0 <= #[trigger] self.available[r]
        &&& forall|p: int, r: int|
            0 <= p < self.processes() && 0 <= r < self.resources() ==> 0
                <= #[trigger] self.allocated[p][r]
        &&& forall|p: int, r: int|
            0 <= p < self.processes() && 0 <= r < self.resources() ==> 0
                <= #[trigger] self.need[p][r]
        &&& forall|p: int, r: int|
            0 <= p < self.processes() && 0 <= r < self.resources() && !self.completed[p]
                ==> #[trigger] self.need[p][r] == self.max[p][r] - self.allocated[p][r]
        &&& forall|p: int, r: int|
            0 <= p < self.processes() && 0 <= r < self.resources() && self.completed[p]
                ==> #[trigger] self.allocated[p][r] == 0
        &&& forall|p: int, r: int|
            0 <= p < self.processes() && 0 <= r < self.resources() && self.completed[p]
                ==> #[trigger] self.need[p][r] == self.max[p][r]
    }

    /// All units of resource type `r` in the system: the free ones and those
    /// that the processes hold.
    pub open spec fn total(self, r: int) -> int {
        self.available[r] + held(self.allocated, every_process(self.processes()), r)
    }

    /// Whether the system holds as many units of every resource type as it
    /// did in `before`: no unit has appeared or been lost.
    pub open spec fn conserves(self, before: LedgerView) -> bool {
        forall|r: int| 0 <= r < before.resources() ==> #[trigger] self.total(r) == before.total(r)
    }

    /// Whether no resource type has more than `limit` units in the system.
    pub open spec fn totals_within(self, limit: int) -> bool {
        forall|r: int| 0 <= r < self.resources() ==> #[trigger] self.total(r) <= limit
    }

    /// What is free once the processes listed in `order` have finished and
    /// handed back what they hold.
    pub open spec fn free_after(self, order: Seq<int>) -> Seq<int> {
        Seq::new(self.resources(), |r: int| self.available[r] + held(self.allocated, order, r))
    }

    /// Whether process `p` can get all it still needs out of `work`.
    pub open spec fn can_finish_with(self, p: int, work: Seq<int>) -> bool {
        forall|r: int| 0 <= r < self.resources() ==> self.need[p][r] <= #[trigger] work[r]
    }

    /// Whether `order` lists unfinished processes, none twice, so that each
    /// can finish with what is free once those before it have finished.
    pub open spec fn is_run(self, order: Seq<int>) -> bool {
        &&& order.no_duplicates()
        &&& forall|k: int|
            0 <= k < order.len() ==> 0 <= #[trigger] order[k] < self.processes()
                && !self.completed[order[k]]
        &&& forall|k: int|
            0 <= k < order.len() ==> self.can_finish_with(
                #[trigger] order[k],
                self.free_after(order.take(k)),
            )
    }

    /// Whether `order` names every unfinished process.
    pub open spec fn covers_unfinished(self, order: Seq<int>) -> bool {
        forall|p: int|
            0 <= p < self.processes() && !self.completed[p] ==> #[trigger] order.contains(p)
    }

    /// Whether running the processes in `order` brings every unfinished
    /// process to completion without ever asking for more than is free.
    pub open spec fn is_completion_order(self, order: Seq<int>) -> bool {
        self.is_run(order) && self.covers_unfinished(order)
    }

    /// A ledger is safe when some order runs all unfinished processes to completion.
    pub open spec fn is_safe(self) -> bool {
        exists|order: Seq<int>| self.is_completion_order(order)
    }

    /// Whether no unfinished process outside `order` can finish with what is
    /// free after `order`.
    pub open spec fn is_stuck_after(self, order: Seq<int>) -> bool {
        forall|q: int|
            0 <= q < self.processes() && !self.completed[q] && !order.contains(q)
                ==> !#[trigger] self.can_finish_with(q, self.free_after(order))
    }

    /// Whether each process of `order` is the lowest-numbered one that could
    /// run at its turn.
    pub open spec fn is_lowest_first(self, order: Seq<int>) -> bool {
        forall|k: int, q: int|
            0 <= k < order.len() && 0 <= q < order[k] && !self.completed[q] && !order.take(
                k,
            ).contains(q) ==> !#[trigger] self.can_finish_with(q, self.free_after(order.take(k)))
    }

    /// Whether `request` asks for a non-negative amount of each resource type.
    pub open spec fn is_request(self, request: Seq<int>) -> bool {
        &&& request.len() == self.resources()
        &&& forall|r: int| 0 <= r < self.resources() ==> 0 <= #[trigger] request[r]
    }

    /// Whether `process` needs no more of any resource type than it did in `before`.
    pub open spec fn needs_no_more_than(self, before: LedgerView, process: int) -> bool {
        forall|r: int|
            0 <= r < before.resources() ==> #[trigger] self.need[process][r]
                <= before.need[process][r]
    }

    /// Whether `process` needs less of some resource type than it did in `before`.
    pub open spec fn needs_less_than(self, before: LedgerView, process: int) -> bool {
        exists|r: int|
            0 <= r < before.resources() && #[trigger] self.need[process][r]
                < before.need[process][r]
    }

    /// Whether `request` asks for more of some resource type than `process` still needs.
    pub open spec fn exceeds_need(self, process: int, request: Seq<int>) -> bool {
        exists|r: int| 0 <= r < self.resources() && #[trigger] request[r] > self.need[process][r]
    }

    /// Whether `request` asks for more of some resource type than is free.
    pub open spec fn exceeds_available(self, request: Seq<int>) -> bool {
        exists|r: int| 0 <= r < self.resources() && #[trigger] request[r] > self.available[r]
    }

    /// The ledger with `request` handed to `process`.
    pub open spec fn grant(self, process: int, request: Seq<int>) -> LedgerView {
        LedgerView {
            available: Seq::new(self.resources(), |r: int| self.available[r] - request[r]),
            max: self.max,
            allocated: self.allocated.update(
                process,
                Seq::new(self.resources(), |r: int| self.allocated[process][r] + request[r]),
            ),
            need: self.need.update(
                process,
                Seq::new(self.resources(), |r: int| self.need[process][r] - request[r]),
            ),
            completed: self.completed,
        }
    }

    /// The ledger with `request` taken back from `process`: what undoes a grant.
    pub open spec fn revoke(self, process: int, request: Seq<int>) -> LedgerView {
        LedgerView {
            available: Seq::new(self.resources(), |r: int| self.available[r] + request[r]),
            max: self.max,
            allocated: self.allocated.update(
                process,
                Seq::new(self.resources(), |r: int| self.allocated[process][r] - request[r]),
            ),
            need: self.need.update(
                process,
                Seq::new(self.resources(), |r: int| self.need[process][r] + request[r]),
            ),
            completed: self.completed,
        }
    }

    /// Why `request` is turned down for `process`, or `None` where it is granted.
    /// The need is looked at first, then what is free, then safety.
    pub open spec fn rejection(self, process: int, request: Seq<int>) -> Option<Rejection> {
        if self.exceeds_need(process, request) {
            Some(Rejection::ExceedsNeed)
        } else if self.exceeds_available(request) {
            Some(Rejection::ExceedsAvailable)
        } else if !self.grant(process, request).is_safe() {
            Some(Rejection::Unsafe)
        } else {
            None
        }
    }

    /// The ledger after `process` has asked for `request`: granted, or as it was.
    pub open spec fn after_request(self, process: int, request: Seq<int>) -> LedgerView {
        if self.rejection(process, request) is None {
            self.grant(process, request)
        } else {
            self
        }
    }

    /// Whether `process` still needs nothing.
    pub open spec fn is_satisfied(self, process: int) -> bool {
        forall|r: int| 0 <= r < self.resources() ==> #[trigger] self.need[process][r] == 0
    }

    /// The ledger after `process` has handed back all it holds and left.
    pub open spec fn release(self, process: int) -> LedgerView {
        LedgerView {
            available: Seq::new(
                self.resources(),
                |r: int| self.available[r] + self.allocated[process][r],
            ),
            max: self.max,
            allocated: self.allocated.update(process, Seq::new(self.resources(), |r: int| 0int)),
            need: self.need.update(process, self.max[process]),
            completed: self.completed.update(process, true),
        }
    }
}

/// Whether `request` asks for anything at all.
pub open spec fn asks_for_something(request: Seq<int>) -> bool {
    exists|r: int| 0 <= r < request.len() && #[trigger] request[r] > 0
}

/// The ledger that a description gives: what is free, and for each process
/// its maximum and what it holds already. Each need is the maximum less the
/// holdings, and no process has finished.
pub open spec fn initial_ledger(
    available: Seq<int>,
    max: Seq<Seq<int>>,
    allocated: Seq<Seq<int>>,
) -> LedgerView {
    LedgerView {
        available,
        max,
        allocated,
        need: Seq::new(
            max.len(),
            |p: int| Seq::new(available.len(), |r: int| max[p][r] - allocated[p][r]),
        ),
        completed: Seq::new(max.len(), |p: int| false),
    }
}

/// Whether a description gives a ledger: there is at least one resource type
/// and one process, every vector has one entry per resource type, nothing is
/// negative, nobody holds more than its maximum, and the units of each
/// resource type can be counted in an `i32`.
pub open spec fn is_valid_description(
    available: Seq<int>,
    max: Seq<Seq<int>>,
    allocated: Seq<Seq<int>>,
) -> bool {
    &&& available.len() > 0
    &&& max.len() > 0
    &&& has_shape(max, max.len(), available.len())
    &&& has_shape(allocated, max.len(), available.len())
    &&& forall|r: int| 0 <= r < available.len() ==> 0 <= #[trigger] available[r]
    &&& forall|p: int, r: int|
        0 <= p < max.len() && 0 <= r < available.len() ==> 0 <= #[trigger] allocated[p][r]
            <= max[p][r]
    &&& forall|r: int|
        0 <= r < available.len() ==> #[trigger] available[r] + held(
            allocated,
            every_process(max.len()),
            r,
        ) <= i32::MAX
}

/// Why a request is turned down.
#[derive(Clone, Copy, Debug, PartialEq, Eq, Structural)]
pub enum Rejection {
    /// Some component is more than the process still needs.
    ExceedsNeed,
    /// Some component is more than is free.
    ExceedsAvailable,
    /// Granting it would leave the ledger unsafe.
    Unsafe,
}

} // verus!
