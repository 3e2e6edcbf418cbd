//! What granting, revoking and releasing do to a ledger.

use crate::accounting::{lemma_held_monotone, lemma_held_shift};
use crate::model::{
    asks_for_something, every_process, held, initial_ledger, is_valid_description, LedgerView,
};
use vstd::prelude::*;

verus! {

/// A valid description gives a ledger that meets the invariant and whose
/// totals can be counted in an `i32`.
pub proof fn lemma_description_gives_ledger(
    available: Seq<int>,
    max: Seq<Seq<int>>,
    allocated: Seq<Seq<int>>,
)
    requires
        is_valid_description(available, max, allocated),
    ensures
        initial_ledger(available, max, allocated).wf(),
        initial_ledger(available, max, allocated).totals_within(i32::MAX as int),
{
}

/// What is free of a resource type and what one process holds of it are
/// together no more than all there is.
pub proof fn lemma_holding_within_total(v: LedgerView, process: int, r: int)
    requires
        v.wf(),
        0 <= process < v.processes(),
        0 <= r < v.resources(),
    ensures
        v.available[r] + v.allocated[process][r] <= v.total(r),
{
    let one = seq![process];
    let all = every_process(v.processes());
    assert(all[process] == process);
    lemma_held_monotone(v.allocated, v.processes(), one, all, r);
    assert(held(v.allocated, one, r) == held(v.allocated, one.drop_last(), r)
        + v.allocated[process][r]);
}

/// Conservation under a grant: the request moves from what is free to what
/// the process holds, so no unit appears or is lost.
pub proof fn lemma_grant_conserves(v: LedgerView, process: int, request: Seq<int>)
    requires
        v.shaped(),
        0 <= process < v.processes(),
        request.len() == v.resources(),
    ensures
        v.grant(process, request).conserves(v),
{
    let g = v.grant(process, request);
    assert forall|r: int| 0 <= r < v.resources() implies #[trigger] g.total(r) == v.total(r) by {
        lemma_held_shift(v.allocated, g.allocated, v.processes(), process, r, request[r]);
    }
}

/// A grant that exceeds neither the need nor what is free keeps the ledger's invariant.
pub proof fn lemma_grant_keeps_invariant(v: LedgerView, process: int, request: Seq<int>)
    requires
        v.wf(),
        0 <= process < v.processes(),
        !v.completed[process],
        v.is_request(request),
        !v.exceeds_need(process, request),
        !v.exceeds_available(request),
    ensures
        v.grant(process, request).wf(),
        v.grant(process, request).resources() == v.resources(),
        v.grant(process, request).processes() == v.processes(),
{
}

/// A request for nothing changes nothing, so it is granted exactly when the
/// ledger is safe as it stands.
pub proof fn lemma_empty_request(v: LedgerView, process: int, request: Seq<int>)
    requires
        v.wf(),
        0 <= process < v.processes(),
        request.len() == v.resources(),
        forall|r: int| 0 <= r < v.resources() ==> #[trigger] request[r] == 0,
    ensures
        v.grant(process, request) == v,
        v.rejection(process, request) is None <==> v.is_safe(),
{
    let g = v.grant(process, request);
    assert(g.available =~= v.available);
    assert(g.allocated[process] =~= v.allocated[process]);
    assert(g.allocated =~= v.allocated);
    assert(g.need[process] =~= v.need[process]);
    assert(g.need =~= v.need);
}

/// Rollback is exact: revoking a grant gives back the ledger as it was.
pub proof fn lemma_revoke_undoes_grant(v: LedgerView, process: int, request: Seq<int>)
    requires
        v.shaped(),
        0 <= process < v.processes(),
        request.len() == v.resources(),
    ensures
        v.grant(process, request).revoke(process, request) == v,
{
    let back = v.grant(process, request).revoke(process, request);
    assert(back.available =~= v.available);
    assert(back.allocated[process] =~= v.allocated[process]);
    assert(back.allocated =~= v.allocated);
    assert(back.need[process] =~= v.need[process]);
    assert(back.need =~= v.need);
}

/// A grant never raises the need of the process, and a grant of anything at
/// all lowers it for some resource type.
pub proof fn lemma_grant_lowers_need(v: LedgerView, process: int, request: Seq<int>)
    requires
        v.shaped(),
        0 <= process < v.processes(),
        v.is_request(request),
    ensures
        v.grant(process, request).needs_no_more_than(v, process),
        asks_for_something(request) ==> v.grant(process, request).needs_less_than(v, process),
{
    let g = v.grant(process, request);
    if asks_for_something(request) {
        let r = choose|r: int| 0 <= r < request.len() && #[trigger] request[r] > 0;
        assert(g.need[process][r] < v.need[process][r]);
    }
}

/// Conservation under a release: what the process held is free afterwards.
pub proof fn lemma_release_conserves(v: LedgerView, process: int)
    requires
        v.shaped(),
        0 <= process < v.processes(),
    ensures
        v.release(process).conserves(v),
{
    let g = v.release(process);
    assert forall|r: int| 0 <= r < v.resources() implies #[trigger] g.total(r) == v.total(r) by {
        lemma_held_shift(
            v.allocated,
            g.allocated,
            v.processes(),
            process,
            r,
            -v.allocated[process][r],
        );
    }
}

/// A release keeps the ledger's invariant and marks the process as finished.
pub proof fn lemma_release_keeps_invariant(v: LedgerView, process: int)
    requires
        v.wf(),
        0 <= process < v.processes(),
    ensures
        v.release(process).wf(),
        v.release(process).resources() == v.resources(),
        v.release(process).processes() == v.processes(),
        v.release(process).completed[process],
{
    let g = v.release(process);
    // A maximum is a need plus holdings, so it is not negative either.
    assert forall|p: int, r: int| 0 <= p < g.processes() && 0 <= r < g.resources() implies 0
        <= #[trigger] g.need[p][r] by {
        assert(0 <= v.need[p][r]);
    }
}

} // verus!
