//! Accounting queries over a ledger of financial entries: balances, stock
//! holdings, adjusted cost base, distributions and contributions.
//!
//! The database access lives outside this crate; every function here takes
//! the rows that a query returned and computes the report from them.

pub mod account_kind;
pub mod date;
pub mod decimal;
pub mod distribution;
pub mod trade;
pub mod text;
pub mod balance;
pub mod typed_balance;
pub mod stock_unit;
pub mod ledger_view;
pub mod contributions;
pub mod expense;
pub mod inactivity;
pub mod lookup;
pub mod upsert;
