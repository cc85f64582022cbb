//! A Monte Carlo price-path simulation engine with a verified core.
//!
//! The engine produces price paths for a financial instrument under a
//! Geometric Brownian Motion model (optionally with antithetic variates)
//! or by bootstrap resampling of historical log-returns, and summarizes
//! terminal prices into risk statistics (percentiles, Value-at-Risk).
//!
//! Every binary64 value is carried as its raw bit pattern (`u64`), and all
//! decisions the engine makes about such values — validation, ordering,
//! percentile selection, sign mirroring — are exact integer logic on those
//! patterns, specified and proved.  Transcendental arithmetic (the `exp`
//! of the stochastic recurrences, mean and standard deviation) is left to
//! the unverified caller, which hands the resulting patterns back.

pub mod fbits;
pub mod path;
pub mod rng;
pub mod round;
pub mod sim;
pub mod stats;
