//! A toy payments ledger: applies a stream of deposit, withdrawal, dispute,
//! resolve and chargeback events to per-client accounts and reports a final
//! balance summary per client.
//!
//! Amounts are exact fixed-point values carried as integer units; the ledger
//! only adds, subtracts and compares them, so the arithmetic is exact at any
//! fixed scale the caller chooses.

pub mod event;
pub mod laws;
pub mod ledger;
pub mod model;
