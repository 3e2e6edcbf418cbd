//! One turn of a simulated process: it asks for a random part of what it
//! still needs and, once it needs nothing more, hands everything back.

use crate::arbiter::{release_resource, try_request};
use crate::ledger::{ints, SystemState};
use crate::model::{LedgerView, Rejection};
use rand::rngs::StdRng;
use rand::Rng;
use vstd::prelude::*;

verus! {

/// Trusted: the generator `StdRng` of the rand crate. Nothing is known of
/// what it holds; it is only handed on to the call that draws from it.
#[verifier::external_type_specification]
#[verifier::external_body]
pub struct ExStdRng(rand::rngs::StdRng);

/// How a turn of a process ended.
#[derive(Clone, Copy, Debug, PartialEq, Eq, Structural)]
pub enum Turn {
    /// The request was turned down; nothing changed.
    Denied(Rejection),
    /// The request was granted and the process still needs more.
    Granted,
    /// The request was granted, the process needed nothing more, handed back
    /// all it held and has finished.
    Completed,
}

/// How the turn of `process` with `request` ends.
pub open spec fn turn_outcome(v: LedgerView, process: int, request: Seq<int>) -> Turn {
    match v.rejection(process, request) {
        Some(why) => Turn::Denied(why),
        None => if v.grant(process, request).is_satisfied(process) {
            Turn::Completed
        } else {
            Turn::Granted
        },
    }
}

/// The ledger after the turn of `process` with `request`: as it was where
/// the request is turned down; else with the request granted and, where the
/// process then needs nothing more, with all it holds handed back.
pub open spec fn after_turn(v: LedgerView, process: int, request: Seq<int>) -> LedgerView {
    match turn_outcome(v, process, request) {
        Turn::Denied(_) => v,
        Turn::Granted => v.grant(process, request),
        Turn::Completed => v.grant(process, request).release(process),
    }
}

/// Draws an amount between zero and `bound`, both included.
///
/// Trusted: this calls `Rng::gen_range` of the rand crate on the range
/// `0..=bound`. The contract claims only that the amount lies in that range,
/// whatever the generator gives; the call panics on an empty range, so a
/// negative `bound` is left out.
#[verifier::external_body]
fn sample_up_to(rng: &mut StdRng, bound: i32) -> (amount: i32)
    requires
        0 <= bound,
    ensures
        0 <= amount <= bound,
{
    rng.gen_range(0..=bound)
}

/// Draws a request for process `process_id`: for each resource type an amount
/// between zero and what the process still needs of it.
pub fn draw_request(state: &SystemState, process_id: usize, rng: &mut StdRng) -> (request: Vec<i32>)
    requires
        state.wf(),
        process_id < state@.processes(),
    ensures
        request.len() == state@.resources(),
        forall|r: int|
            0 <= r < state@.resources() ==> 0 <= #[trigger] request[r]
                <= state@.need[process_id as int][r],
        state@.is_request(ints(request@)),
        !state@.exceeds_need(process_id as int, ints(request@)),
{
    assert(state@.need[process_id as int].len() == state@.resources());
    let need = &state.need[process_id];
    let mut request: Vec<i32> = Vec::new();
    let mut r: usize = 0;
    while r < need.len()
        invariant
            r <= need.len(),
            state.wf(),
            process_id < state@.processes(),
            need.len() == state@.resources(),
            ints(need@) == state@.need[process_id as int],
            request.len() == r,
            forall|i: int|
                0 <= i < r ==> 0 <= #[trigger] request[i] <= state@.need[process_id as int][i],
        decreases need.len() - r,
    {
        proof {
            assert(ints(need@)[r as int] == need[r as int]);
        }
        let amount = sample_up_to(rng, need[r]);
        request.push(amount);
        r += 1;
    }
    request
}

/// Whether process `process_id` still needs nothing.
pub fn is_satisfied(state: &SystemState, process_id: usize) -> (satisfied: bool)
    requires
        state@.shaped(),
        process_id < state@.processes(),
    ensures
        satisfied == state@.is_satisfied(process_id as int),
{
    assert(state@.need[process_id as int].len() == state@.resources());
    let need = &state.need[process_id];
    let mut r: usize = 0;
    while r < need.len()
        invariant
            r <= need.len(),
            need.len() == state@.resources(),
            ints(need@) == state@.need[process_id as int],
            forall|i: int| 0 <= i < r ==> #[trigger] state@.need[process_id as int][i] == 0,
        decreases need.len() - r,
    {
        assert(ints(need@)[r as int] == need[r as int]);
        if need[r] != 0 {
            return false;
        }
        r += 1;
    }
    true
}

/// One turn of process `process_id` with the request it has drawn. The
/// request goes to the arbiter; if it is granted and the process then needs
/// nothing more, the process hands back all it holds and has finished. A
/// request that is turned down changes nothing.
pub fn take_turn(state: &mut SystemState, process_id: usize, request: &[i32]) -> (turn: Turn)
    requires
        old(state).wf(),
        process_id < old(state)@.processes(),
        !old(state)@.completed[process_id as int],
        old(state)@.is_request(ints(request@)),
    ensures
        final(state).wf(),
        turn == turn_outcome(old(state)@, process_id as int, ints(request@)),
        final(state)@ == after_turn(old(state)@, process_id as int, ints(request@)),
        final(state)@.completed[process_id as int] <==> turn == Turn::Completed,
        final(state)@.conserves(old(state)@),
        turn is Denied || final(state)@.is_safe(),
        old(state)@.is_safe() ==> final(state)@.is_safe(),
{
    match try_request(state, process_id, request) {
        Err(why) => Turn::Denied(why),
        Ok(()) => {
            if is_satisfied(state, process_id) {
                release_resource(state, process_id);
                Turn::Completed
            } else {
                Turn::Granted
            }
        },
    }
}

/// One turn of process `process_id` from start to end: it draws a request
/// within what it still needs and takes its turn with it. Returns the request
/// and how the turn ended.
pub fn simulate_turn(state: &mut SystemState, process_id: usize, rng: &mut StdRng) -> (done: (
    Vec<i32>,
    Turn,
))
    requires
        old(state).wf(),
        process_id < old(state)@.processes(),
        !old(state)@.completed[process_id as int],
    ensures
        final(state).wf(),
        old(state)@.is_request(ints(done.0@)),
        !old(state)@.exceeds_need(process_id as int, ints(done.0@)),
        done.1 == turn_outcome(old(state)@, process_id as int, ints(done.0@)),
        final(state)@ == after_turn(old(state)@, process_id as int, ints(done.0@)),
        final(state)@.completed[process_id as int] <==> done.1 == Turn::Completed,
        final(state)@.conserves(old(state)@),
        done.1 is Denied || final(state)@.is_safe(),
        old(state)@.is_safe() ==> final(state)@.is_safe(),
{
    let request = draw_request(state, process_id, rng);
    let turn = take_turn(state, process_id, request.as_slice());
    (request, turn)
}

} // verus!
