//! External sort-merge deduplication of line-oriented text.
//!
//! The verified core: line framing, byte-order comparison of lines, the
//! chunk builder, the bounded multiway merge with its fan-in rounds, the
//! scratch-space fallback decision, configuration and input selection.
//! Reading and writing files is left to the caller, which hands the core
//! plain values and performs the actions it asks for.

pub mod order;
pub mod lines;
pub mod chunker;
pub mod merger;
pub mod temp;
pub mod config;
pub mod cli;
pub mod scanner;
pub mod laws;
pub mod progress;
