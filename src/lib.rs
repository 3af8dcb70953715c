//! A fixed-capacity, line-granular circular text buffer, and the bounded
//! in-memory mirror of an append-only click log that is built on it.
pub mod lines;
pub mod circular_string;
pub mod click_log;
pub mod config;
