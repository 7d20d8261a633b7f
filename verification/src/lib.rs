//! A verified core for a `head`-style utility: it prints a bounded prefix of
//! one or more input sources, selected either by a count of complete lines or
//! by a count of raw bytes.
//!
//! The crate holds the limit parsing, the configuration rules, and the bounded
//! reading engine. Opening files, standard input, and the process exit status
//! are left to the thin binary around it.

pub mod config;
pub mod engine;
pub mod limit;

pub use config::{Config, ConfigError, Limit};
pub use engine::{
    bounded_prefix, error_line, header_line, run_batch, source_output, take_bytes, take_lines,
    ReadOutcome,
};
pub use limit::parse_positive_int;
