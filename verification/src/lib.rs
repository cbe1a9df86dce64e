//! A small benchmarking library for competitive-programming workflows.
//!
//! A fixed set of labeled test cases (an input file paired with its expected
//! output) is run against a set of candidate executables. Each candidate's
//! output is compared to the expected text, its latency is measured, and the
//! candidates are ranked by mean latency. This crate holds the verified
//! logic: case loading and ordering, verdicts, latency averaging, ranking,
//! and report rendering. Directory scanning, process spawning and timing are
//! left to the (unverified) binary around it, which hands plain values in.

pub mod cases;
pub mod measure;
pub mod rank;
pub mod report;
pub mod summary;
pub mod text;
