//! Line-length statistics of the files of a directory tree.
//!
//! The crate holds the part that computes: from the bytes of a file to its
//! lines and their lengths (`lines`), from there to the statistics of the
//! file (`analyzer`, `stats`, `sorting`), from the results of many files to
//! one mapping (`collector`), and from that mapping to the statistics of the
//! whole tree. Walking the tree and reading the files is left to the caller.
//!
//! Every figure is an integer. Mean, median and standard deviation are held
//! exactly, as the total, the doubled median and the variance multiplied by
//! the square of the number of lines. `measures` defines the figures;
//! `laws`, `sums` and `variance` prove what holds of them, and `aggregation`
//! what holds of the collected results.

pub mod aggregation;
pub mod analyzer;
pub mod collector;
pub mod laws;
pub mod lines;
pub mod measures;
pub mod sorting;
pub mod stats;
pub mod sums;
pub mod variance;

pub use analyzer::{
    analyze_bytes, analyze_entry, AnalysisFailure, CandidateEntry, EntryKind, ResultRecord,
    MIN_LINES,
};
pub use collector::{Collector, FileEntry};
pub use lines::line_lengths;
pub use stats::Stats;
