//! A verified filter for the console output of `mix test` (ExUnit).
//!
//! The filter reads the text that `mix test` prints, keeps the failure
//! reports with their stacktraces compacted, and ends with a one-line
//! summary of the run.
pub mod text;
pub mod digits;
pub mod ansi;
pub mod patterns;
pub mod duration;
pub mod report;
pub mod filter;
pub mod facts;
pub mod laws;
