//! Expense-splitting core: net-balance computation, settle-up planning, and
//! division validation for a shared-expense service.
//!
//! Monetary amounts are fixed-point integers in micro-units (one millionth of
//! a currency unit), so every comparison in the core is exact; floats live
//! only at the service boundary. The balance engine reduces participation
//! records to one signed net amount per user and derives a deterministic
//! settle-up plan; the division validator decides whether a proposed split of
//! an expense may be persisted.

pub mod balance;
pub mod division;
pub mod ledger;
pub mod requests;
pub mod settlement;
