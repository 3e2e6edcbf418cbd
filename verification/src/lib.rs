//! Deadlock avoidance by the Banker's Algorithm.
//!
//! A fixed set of processes shares a pool of resource types. A ledger records
//! what is free, what each process holds and what it may still ask for; the
//! arbiter grants a request only if the ledger stays safe, that is, if every
//! unfinished process can still be run to completion in some order.
//!
//! - [`model`] states what a ledger is and what safety, a grant and a
//!   release mean, over sequences of mathematical integers.
//! - [`ledger`] holds the ledger itself, [`oracle`] decides safety,
//!   [`arbiter`] grants and releases, and [`simulator`] plays the turn of a
//!   process that asks for a random part of what it still needs.
//! - [`description`] and [`reading`] give the textual form of a ledger and
//!   read it.
//! - [`accounting`], [`safety`] and [`transitions`] prove what the others
//!   rest on: that units are conserved, that a greedy run decides safety, and
//!   that grants and releases keep the ledger's invariant.

pub mod accounting;
pub mod arbiter;
pub mod description;
pub mod ledger;
pub mod model;
pub mod oracle;
pub mod reading;
pub mod safety;
pub mod simulator;
pub mod transitions;

pub use crate::arbiter::{release_resource, request_resource, try_request};
pub use crate::ledger::{MalformedInput, SystemState};
pub use crate::model::{LedgerView, Rejection};
pub use crate::oracle::{find_completion_order, safe_check};
pub use crate::reading::read_description;
pub use crate::simulator::{draw_request, is_satisfied, simulate_turn, take_turn, Turn};
