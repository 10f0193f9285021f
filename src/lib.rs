//! Ledger-state core of a blockchain node: account balances kept in an
//! ordered key-value store, blocks applied as atomic transitions, and a
//! pending-transaction pool with idempotent admission.
pub mod primitives;
pub mod encoding;
pub mod store;
pub mod ledger;
pub mod chain;
pub mod mempool;
pub mod laws;
