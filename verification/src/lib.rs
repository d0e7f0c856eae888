use vstd::prelude::*;

pub mod assoc;
pub mod balance;
pub mod book;
pub mod dashboard;
pub mod bytes;
pub mod execute;
pub mod fees;
pub mod funds;
pub mod guard;
pub mod identity;
pub mod history;
pub mod ids;
pub mod keys;
pub mod ledger;
pub mod log_query;
pub mod logging;
pub mod match_settlement;
pub mod metrics;
pub mod order;
pub mod order_history;
pub mod plan;
pub mod quantity;
pub mod records;
pub mod refusals;
pub mod requests;
pub mod queue;
pub mod scheduler;
pub mod settlement;
pub mod text;
pub mod trade_history;
pub mod withdrawal;

verus! {

} // verus!
