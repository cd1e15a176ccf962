//! Core engine for a fixed-capacity event-ticket shop: an inventory ledger,
//! the order lifecycle state machine, a bank-report parser, a payment
//! reconciler, and a once-only ticket redemption gate.

pub mod auth;
pub mod error;
pub mod order;
pub mod store;
pub mod swish;
pub mod laws;
