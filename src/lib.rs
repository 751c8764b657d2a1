//! Finds new transactions of an address on a ledger and the balance changes
//! they make: a bounded cache of seen signatures, the decisions of each
//! polling cycle, and the extraction of one trade from a transaction.

pub mod cache;
pub mod extract;
pub mod poller;
