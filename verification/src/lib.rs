//! Core of a two-column ledger: entries carry a free-text amount in one of two
//! currency columns; a state machine applies user messages, and pure
//! derivations compute per-column sums and cross-currency totals under a
//! configurable exchange rate.
//!
//! Amounts and the rate are decimal text parsed into exact integer
//! micro-units (10^-6); derived values are exact rationals.

pub mod amount;
pub mod derived;
pub mod laws;
pub mod model;
pub mod rational;
