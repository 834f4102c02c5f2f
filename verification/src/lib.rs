//! A verified transaction-stream ledger: credits, debits and the
//! dispute/resolve/chargeback state machine over per-account balances.

pub mod ledger;
pub mod processor;
pub mod laws;
pub mod parse;
pub mod render;
