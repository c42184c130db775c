//! Verified core of a macro-benchmark runner.
//!
//! The engine expands a mapping of named benchmark cases into repeated
//! trials, accounts exactly for the reports the trials produce, reduces the
//! recorded durations to summary statistics, and compares two result sets
//! within a tolerance band.  Durations are integer nanosecond counts, so
//! averages and deviations are exact rationals; result files and the YAML
//! configuration are read and written through a small trusted bridge to the
//! yaml-rust crate, with everything around it verified.
//!
//! Spawning processes, the worker pool, files and the terminal belong to
//! the surrounding program, which hands the engine plain values and takes
//! plain values back.

pub mod benchmarking;
pub mod config;
pub mod name_map;
pub mod num_text;
pub mod persist;
pub mod report;
pub mod run_config;
pub mod statistics;
pub mod strkey;
pub mod wrappers;
pub mod yaml;
