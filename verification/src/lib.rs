//! Tick-driven trading simulation engine.
//!
//! The broker core matches pending orders against price ticks, keeps the
//! cash / open-trade / closed-trade ledger, and tracks equity and margin
//! usage per tick.  All money amounts, prices and position sizes are fixed
//! point integers so that the accounting invariants are exact.

pub mod engine;
pub mod fixed;
pub mod laws;
pub mod position;
pub mod stats;
pub mod strategies;
