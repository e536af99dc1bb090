//! A verified core for exploring numerical-calibration run logs.
//!
//! The library parses a comma-separated iteration log into typed records,
//! classifies the run's columns into an Error/Value variable taxonomy,
//! tracks per-variable selection and filtering, computes summary series
//! (final-error ranking, total-error trend), and renders export data.
//! Field values are modeled as exact fixed-point decimals with nine
//! fractional digits.

pub mod export;
pub mod num;
pub mod records;
pub mod schema;
pub mod select;
pub mod session;
pub mod summary;
pub mod scalar;
pub mod table;
pub mod text;
