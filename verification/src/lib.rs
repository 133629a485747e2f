//! Verified core of the Solana validator snapshot keeper: configuration
//! model and validation, size parsing and formatting, interval scheduling
//! and lock-file decisions.

pub mod cli;
pub mod config;
pub mod keeper;
pub mod manager;
pub mod time;
pub mod text;

use vstd::prelude::*;

verus! {
} // verus!
