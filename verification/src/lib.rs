//! A single-user account ledger: named accounts with non-negative integer
//! balances, opened, deposited to, withdrawn from, listed and closed, with
//! the whole index serialized to a line-oriented text format after every
//! mutation and parsed back on start-up.

pub mod account;
pub mod bank;
pub mod menu;
pub mod text;
