//! Deterministic, advisory-only refund reconciliation over immutable snapshots.

pub mod canonical;
pub mod entitlement;
pub mod gather;
pub mod intake;
pub mod laws;
pub mod model;
pub mod order;
pub mod owned;
pub mod payments;
pub mod publication;
pub mod reconcile;
pub mod recount;
pub mod reference;
pub mod reviews;
pub mod runs;
pub mod settle;
pub mod tally;
pub mod totals;
pub mod validate;
pub mod verify;
pub mod workload;
