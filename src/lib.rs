//! Poll service and reward-token ledger as verified state machines.
//!
//! The poll service keeps a registry of polls and a registry of votes keyed by
//! `(poll id, voter)`. The ledger keeps balances and allowances of the reward
//! token. The host runtime supplies the caller identity and the clock; both
//! enter every operation as plain arguments.
pub mod principal;
pub mod ledger;
pub mod index;
pub mod polls;
pub mod backend;
