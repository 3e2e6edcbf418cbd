//! The allocation arbiter: grants a request only where the ledger stays
//! safe, and takes back what a finished process holds.

use crate::ledger::{ints, SystemState};
use crate::model::{asks_for_something, Rejection};
use crate::oracle::safe_check;
use crate::safety::lemma_release_keeps_safe;
use crate::transitions::{
    lemma_grant_conserves, lemma_grant_keeps_invariant, lemma_grant_lowers_need,
    lemma_holding_within_total, lemma_release_conserves, lemma_release_keeps_invariant,
    lemma_revoke_undoes_grant,
};
use vstd::prelude::*;

verus! {

/// Whether some component of `request` is more than that of `limit`.
fn exceeds(request: &[i32], limit: &Vec<i32>) -> (over: bool)
    requires
        request.len() == limit.len(),
    ensures
        over <==> exists|r: int| 0 <= r < request.len() && #[trigger] request[r] > limit[r],
{
    let mut r: usize = 0;
    while r < request.len()
        invariant
            r <= request.len(),
            request.len() == limit.len(),
            forall|i: int| 0 <= i < r ==> !(#[trigger] request[i] > limit[i]),
        decreases request.len() - r,
    {
        if request[r] > limit[r] {
            return true;
        }
        r += 1;
    }
    false
}

/// Whether `now` is `start` but for what is free and for what process `p`
/// holds and needs, with every length kept.
spec fn kept_but_for(now: SystemState, start: SystemState, p: int) -> bool {
    &&& now.max == start.max
    &&& now.completed_process == start.completed_process
    &&& now.available.len() == start.available.len()
    &&& now.allocated.len() == start.allocated.len()
    &&& now.need.len() == start.need.len()
    &&& now.allocated[p].len() == start.allocated[p].len()
    &&& now.need[p].len() == start.need[p].len()
    &&& forall|q: int|
        0 <= q < start.allocated.len() && q != p ==> #[trigger] now.allocated[q]
            == start.allocated[q]
    &&& forall|q: int|
        0 <= q < start.need.len() && q != p ==> #[trigger] now.need[q] == start.need[q]
}

/// Moves `request` from what is free to what `process_id` holds.
fn grant_tentatively(state: &mut SystemState, process_id: usize, request: &[i32])
    requires
        old(state).wf(),
        process_id < old(state)@.processes(),
        !old(state)@.completed[process_id as int],
        old(state)@.is_request(ints(request@)),
        !old(state)@.exceeds_need(process_id as int, ints(request@)),
        !old(state)@.exceeds_available(ints(request@)),
    ensures
        final(state)@ == old(state)@.grant(process_id as int, ints(request@)),
{
    let ghost start = *state;
    let ghost v = state@;
    let ghost asked = ints(request@);
    let ghost p = process_id as int;
    assert(v.allocated[p].len() == v.resources());
    assert(v.need[p].len() == v.resources());
    let mut i: usize = 0;
    while i < request.len()
        invariant
            i <= request.len(),
            start.wf(),
            v == start@,
            asked == ints(request@),
            p == process_id,
            0 <= p < v.processes(),
            v.is_request(asked),
            !v.exceeds_need(p, asked),
            !v.exceeds_available(asked),
            kept_but_for(*state, start, p),
            request.len() == v.resources(),
            start.allocated[p].len() == v.resources(),
            start.need[p].len() == v.resources(),
            start.available.len() == v.resources(),
            forall|r: int|
                0 <= r < i ==> #[trigger] state.available[r] == start.available[r] - request[r],
            forall|r: int|
                i <= r < request.len() ==> #[trigger] state.available[r] == start.available[r],
            forall|r: int|
                0 <= r < i ==> #[trigger] state.allocated[p][r] == start.allocated[p][r]
                    + request[r],
            forall|r: int|
                i <= r < request.len() ==> #[trigger] state.allocated[p][r]
                    == start.allocated[p][r],
            forall|r: int|
                0 <= r < i ==> #[trigger] state.need[p][r] == start.need[p][r] - request[r],
            forall|r: int|
                i <= r < request.len() ==> #[trigger] state.need[p][r] == start.need[p][r],
        decreases request.len() - i,
    {
        proof {
            let r = i as int;
            lemma_holding_within_total(v, p, r);
            assert(asked[r] == request[r]);
        }
        state.available[i] -= request[i];
        state.allocated[process_id][i] += request[i];
        state.need[process_id][i] -= request[i];
        i += 1;
    }
    proof {
        let g = v.grant(p, asked);
        assert(state@.available =~= g.available);
        assert(state@.allocated[p] =~= g.allocated[p]);
        assert(state@.allocated =~= g.allocated);
        assert(state@.need[p] =~= g.need[p]);
        assert(state@.need =~= g.need);
    }
}

/// Moves `request` back from what `process_id` holds to what is free.
fn roll_back(state: &mut SystemState, process_id: usize, request: &[i32])
    requires
        old(state).wf(),
        process_id < old(state)@.processes(),
        !old(state)@.completed[process_id as int],
        old(state)@.is_request(ints(request@)),
        forall|r: int|
            0 <= r < request.len() ==> #[trigger] request[r]
                <= old(state)@.allocated[process_id as int][r],
    ensures
        final(state)@ == old(state)@.revoke(process_id as int, ints(request@)),
{
    let ghost start = *state;
    let ghost v = state@;
    let ghost asked = ints(request@);
    let ghost p = process_id as int;
    assert(v.allocated[p].len() == v.resources());
    assert(v.need[p].len() == v.resources());
    assert(v.max[p].len() == v.resources());
    let mut i: usize = 0;
    while i < request.len()
        invariant
            i <= request.len(),
            start.wf(),
            v == start@,
            asked == ints(request@),
            p == process_id,
            0 <= p < v.processes(),
            !v.completed[p],
            v.is_request(asked),
            forall|r: int| 0 <= r < request.len() ==> #[trigger] request[r] <= v.allocated[p][r],
            kept_but_for(*state, start, p),
            request.len() == v.resources(),
            start.allocated[p].len() == v.resources(),
            start.need[p].len() == v.resources(),
            start.max[p].len() == v.resources(),
            start.available.len() == v.resources(),
            forall|r: int|
                0 <= r < i ==> #[trigger] state.available[r] == start.available[r] + request[r],
            forall|r: int|
                i <= r < request.len() ==> #[trigger] state.available[r] == start.available[r],
            forall|r: int|
                0 <= r < i ==> #[trigger] state.allocated[p][r] == start.allocated[p][r]
                    - request[r],
            forall|r: int|
                i <= r < request.len() ==> #[trigger] state.allocated[p][r]
                    == start.allocated[p][r],
            forall|r: int|
                0 <= r < i ==> #[trigger] state.need[p][r] == start.need[p][r] + request[r],
            forall|r: int|
                i <= r < request.len() ==> #[trigger] state.need[p][r] == start.need[p][r],
        decreases request.len() - i,
    {
        proof {
            let r = i as int;
            lemma_holding_within_total(v, p, r);
            assert(asked[r] == request[r]);
            assert(v.need[p][r] == start.need[p][r]);
        }
        state.available[i] += request[i];
        state.allocated[process_id][i] -= request[i];
        state.need[process_id][i] += request[i];
        i += 1;
    }
    proof {
        let g = v.revoke(p, asked);
        assert(state@.available =~= g.available);
        assert(state@.allocated[p] =~= g.allocated[p]);
        assert(state@.allocated =~= g.allocated);
        assert(state@.need[p] =~= g.need[p]);
        assert(state@.need =~= g.need);
    }
}

/// Process `process_id` asks for `request`. The request is granted, and the
/// ledger changed accordingly, if it is no more than the process still needs,
/// no more than is free, and leaves the ledger safe. Otherwise the ledger is
/// left as it was and the reason is returned; the need is looked at first,
/// then what is free, then safety.
pub fn try_request(state: &mut SystemState, process_id: usize, request: &[i32]) -> (outcome: Result<
    (),
    Rejection,
>)
    requires
        old(state).wf(),
        process_id < old(state)@.processes(),
        !old(state)@.completed[process_id as int],
        old(state)@.is_request(ints(request@)),
    ensures
        final(state).wf(),
        outcome == match old(state)@.rejection(process_id as int, ints(request@)) {
            None => Ok::<(), Rejection>(()),
            Some(why) => Err(why),
        },
        final(state)@ == old(state)@.after_request(process_id as int, ints(request@)),
        outcome is Ok ==> final(state)@ == old(state)@.grant(process_id as int, ints(request@)),
        outcome is Ok ==> final(state)@.is_safe(),
        outcome is Err ==> final(state)@ == old(state)@,
        final(state)@.conserves(old(state)@),
        outcome is Ok ==> final(state)@.needs_no_more_than(old(state)@, process_id as int),
        outcome is Ok && asks_for_something(ints(request@)) ==> final(state)@.needs_less_than(
            old(state)@,
            process_id as int,
        ),
{
    let ghost v = state@;
    let ghost asked = ints(request@);
    let ghost p = process_id as int;
    let over_need = exceeds(request, &state.need[process_id]);
    proof {
        if v.exceeds_need(p, asked) {
            let r = choose|r: int| 0 <= r < v.resources() && #[trigger] asked[r] > v.need[p][r];
            assert(request[r] > state.need[p][r]);
        }
        if over_need {
            let r = choose|r: int|
                0 <= r < request.len() && #[trigger] request[r] > state.need[p][r];
            assert(asked[r] > v.need[p][r]);
        }
    }
    if over_need {
        return Err(Rejection::ExceedsNeed);
    }
    if exceeds(request, &state.available) {
        proof {
            let r = choose|r: int|
                0 <= r < request.len() && #[trigger] request[r] > state.available[r];
            assert(asked[r] > v.available[r]);
        }
        return Err(Rejection::ExceedsAvailable);
    }
    proof {
        if v.exceeds_available(asked) {
            let r = choose|r: int| 0 <= r < v.resources() && #[trigger] asked[r] > v.available[r];
            assert(request[r] > state.available[r]);
        }
        lemma_grant_keeps_invariant(v, p, asked);
        lemma_grant_lowers_need(v, p, asked);
        lemma_grant_conserves(v, p, asked);
    }
    grant_tentatively(state, process_id, request);
    if safe_check(state) {
        Ok(())
    } else {
        proof {
            lemma_revoke_undoes_grant(v, p, asked);
        }
        roll_back(state, process_id, request);
        Err(Rejection::Unsafe)
    }
}

/// Process `process_id` asks for `request`; returns whether it was granted.
/// A request that is turned down leaves the ledger exactly as it was.
pub fn request_resource(state: &mut SystemState, process_id: usize, request: &[i32]) -> (granted:
    bool)
    requires
        old(state).wf(),
        process_id < old(state)@.processes(),
        !old(state)@.completed[process_id as int],
        old(state)@.is_request(ints(request@)),
    ensures
        final(state).wf(),
        granted == (old(state)@.rejection(process_id as int, ints(request@)) is None),
        final(state)@ == old(state)@.after_request(process_id as int, ints(request@)),
        granted ==> final(state)@ == old(state)@.grant(process_id as int, ints(request@)),
        granted ==> final(state)@.is_safe(),
        !granted ==> final(state)@ == old(state)@,
        final(state)@.conserves(old(state)@),
        granted ==> final(state)@.needs_no_more_than(old(state)@, process_id as int),
        granted && asks_for_something(ints(request@)) ==> final(state)@.needs_less_than(
            old(state)@,
            process_id as int,
        ),
{
    try_request(state, process_id, request).is_ok()
}

/// Process `process_id` hands back all it holds and leaves: what it held is
/// free again, it holds nothing, its need is reset to its maximum, and it is
/// marked as finished. A safe ledger stays safe.
///
/// A process is meant to leave once it needs nothing more; the ledger's
/// invariant, the totals and safety are kept whenever it leaves.
pub fn release_resource(state: &mut SystemState, process_id: usize)
    requires
        old(state).wf(),
        process_id < old(state)@.processes(),
    ensures
        final(state).wf(),
        final(state)@ == old(state)@.release(process_id as int),
        final(state)@.completed[process_id as int],
        final(state)@.conserves(old(state)@),
        old(state)@.is_safe() ==> final(state)@.is_safe(),
{
    let ghost start = *state;
    let ghost v = state@;
    let ghost p = process_id as int;
    assert(v.allocated[p].len() == v.resources());
    assert(v.need[p].len() == v.resources());
    assert(v.max[p].len() == v.resources());
    let mut i: usize = 0;
    while i < state.available.len()
        invariant
            i <= state.available.len(),
            start.wf(),
            v == start@,
            p == process_id,
            0 <= p < v.processes(),
            kept_but_for(*state, start, p),
            start.allocated[p].len() == v.resources(),
            start.need[p].len() == v.resources(),
            start.max[p].len() == v.resources(),
            start.available.len() == v.resources(),
            forall|r: int|
                0 <= r < i ==> #[trigger] state.available[r] == start.available[r]
                    + start.allocated[p][r],
            forall|r: int|
                i <= r < start.available.len() ==> #[trigger] state.available[r]
                    == start.available[r],
            forall|r: int| 0 <= r < i ==> #[trigger] state.allocated[p][r] == 0,
            forall|r: int|
                i <= r < start.available.len() ==> #[trigger] state.allocated[p][r]
                    == start.allocated[p][r],
            forall|r: int| 0 <= r < i ==> #[trigger] state.need[p][r] == start.max[p][r],
            forall|r: int|
                i <= r < start.available.len() ==> #[trigger] state.need[p][r] == start.need[p][r],
        decreases state.available.len() - i,
    {
        proof {
            let r = i as int;
            lemma_holding_within_total(v, p, r);
        }
        state.available[i] += state.allocated[process_id][i];
        state.allocated[process_id][i] = 0;
        state.need[process_id][i] = state.max[process_id][i];
        i += 1;
    }
    state.completed_process[process_id] = true;
    proof {
        let g = v.release(p);
        assert(state@.available =~= g.available);
        assert(state@.allocated[p] =~= g.allocated[p]);
        assert(state@.allocated =~= g.allocated);
        assert(state@.need[p] =~= g.need[p]);
        assert(state@.need =~= g.need);
        lemma_release_keeps_invariant(v, p);
        lemma_release_conserves(v, p);
        if v.is_safe() {
            lemma_release_keeps_safe(v, p);
        }
    }
}

} // verus!
