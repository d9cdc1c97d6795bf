//! Coverage of changed lines.
//!
//! Given the text of a unified diff and one or more XML coverage reports
//! (Cobertura-style or Clover-style), this library determines, for every line
//! the diff adds or modifies, whether that line is exercised by tests, and
//! aggregates the result into per-file uncovered-line lists and global totals.
//!
//! The crate is organised leaf-first:
//! - [`diff`] parses unified-diff text into per-file changed-line lists;
//! - [`store`] accumulates per-line hit counts and resolves path lookups;
//! - [`parsers`] ingests Cobertura and Clover XML into the store;
//! - [`analyze`] joins changed lines against the store into a report;
//! - [`cli`], [`plan`] and [`ranges`] hold the option and rendering logic
//!   that does not touch the terminal or the file system.
//!
//! Reading input files, writing reports out, and everything else that touches
//! the process environment lives outside this crate.

pub mod analyze;
pub mod cli;
pub mod diff;
pub mod parsers;
pub mod paths;
pub mod plan;
pub mod ranges;
pub mod store;
pub mod text;
pub mod xml;
