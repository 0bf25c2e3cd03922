//! Kelly-criterion bet sizing over fixed-point arithmetic.
//!
//! Every probability, bankroll fraction, stake cap and decimal-odds value is
//! carried as an integer in micro-units (`n` stands for `n / 1_000_000`), so
//! all computations are exact integer arithmetic with verified bounds.
//! Odds-notation parsing and formatting work on exact rationals.
use vstd::prelude::*;

pub mod exact;
pub mod fixed;
pub mod growth;
pub mod independent;
pub mod numerals;
pub mod odds;
pub mod single;
pub mod sums;
