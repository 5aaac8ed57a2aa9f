//! Calibration of sequencing-read coverage over named genomic regions.
//!
//! The crate models aligned reads as plain values, computes per-base depth and
//! summary statistics for regions, derives per-region keep-probabilities, and
//! applies a deterministic, seed-reproducible selection over read pairs.

pub mod calibration;
pub mod coverage;
pub mod depth;
pub mod errors;
pub mod names;
pub mod numfmt;
pub mod records;
pub mod region;
pub mod rng;
pub mod stats;
pub mod strs;
pub mod wide;
