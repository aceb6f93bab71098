//! Reports, for each immediate child of a target directory, the most recent
//! modification time found within it, sorted newest-first.
//!
//! The crate holds the logic of that report: the timestamp model and its
//! sentinel, the subtree scan that keeps a running best-so-far, the
//! per-child aggregation, the descending sort, and the validation of the
//! target. Reading the filesystem and the clock, and printing, are left to
//! the surrounding program, which hands plain values in and out.

pub mod report;
pub mod scan;
pub mod timestamp;
