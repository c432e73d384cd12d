//! A ledger that replays client transactions (deposits, withdrawals,
//! disputes, resolutions and chargebacks) and summarises each account.

pub mod amount;
pub mod laws;
pub mod state;
pub mod transaction;
