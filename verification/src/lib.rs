//! Per-entry elapsed times from the log of a recursive transfer.
//!
//! A transfer log lists one timestamped line per directory or file, in the
//! order of a preorder walk: a directory's line comes before the lines of
//! everything below it, and nesting shows only in the paths. This crate reads
//! such a log and yields, for every entry, the time between its own line and
//! the first later line that lies outside it.
//!
//! [`analyzer::RsyncLogAnalyzer`] walks a log that is held in memory.
//! [`stack::AncestorStack`] does the same work one line at a time, for a
//! caller that reads the log itself. What they yield is stated in [`model`],
//! and [`theorems`] proves what follows from it.

/// Timestamps, read with chrono.
pub mod timestamp;

/// The parser of a single line.
pub mod line;

/// The lines and entries of a whole log.
pub mod logfile;

/// The analysis as a walk with a stack.
pub mod model;

/// The analysis without the stack: closing entries and places of pairs.
pub mod closing;

/// The open entries, moved on line by line.
pub mod stack;

/// The iterator over entries and durations.
pub mod analyzer;

/// What holds of the durations of every log.
pub mod theorems;
