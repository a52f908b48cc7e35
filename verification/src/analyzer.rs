//! Analysing one candidate entry: from the bytes of a file to its
//! statistics, or to the reason why it has none.
//!
//! Reading is left to the caller. It hands over what it found: the kind of
//! the entry, and the bytes of the file, or `None` where the file could not
//! be read.

use vstd::prelude::*;

use crate::lines::{line_lengths, line_lengths_of, lines_in};
use crate::stats::Stats;

verus! {

/// What a path found in the tree is.
#[derive(Debug, Clone, Copy, PartialEq, Eq, Structural)]
pub enum EntryKind {
    /// A regular file.
    File,
    /// A directory.
    Directory,
    /// Anything else.
    Other,
}

/// A path found in the tree, before it is known whether it can be analysed.
#[derive(Debug)]
pub struct CandidateEntry {
    /// The path.
    pub path: String,
    /// What the path is.
    pub kind: EntryKind,
}

/// Why an entry has no statistics.
#[derive(Debug, Clone, Copy, PartialEq, Eq, Structural)]
pub enum AnalysisFailure {
    /// The entry is not a regular file.
    NotAFile,
    /// The file could not be opened or read.
    IOError,
    /// The file has fewer than two lines that are not empty.
    InsufficientLines,
}

impl AnalysisFailure {
    /// The words that say what went wrong.
    pub open spec fn message_of(self) -> Seq<char> {
        match self {
            AnalysisFailure::NotAFile => "not a file"@,
            AnalysisFailure::IOError => "cannot be read"@,
            AnalysisFailure::InsufficientLines => "not enough lines to be significant"@,
        }
    }

    /// Says in words what went wrong.
    pub fn message(&self) -> (text: &'static str)
        ensures
            text@ == self.message_of(),
    {
        match self {
            AnalysisFailure::NotAFile => "not a file",
            AnalysisFailure::IOError => "cannot be read",
            AnalysisFailure::InsufficientLines => "not enough lines to be significant",
        }
    }
}

/// What the analysis of one entry gave: the unit that goes from the workers
/// to the collector.
#[derive(Debug)]
pub struct ResultRecord {
    /// The path of the entry.
    pub path: String,
    /// Its statistics, or why it has none.
    pub outcome: Result<Stats, AnalysisFailure>,
}

/// The least number of non-empty lines that a file needs to have
/// statistics.
pub const MIN_LINES: usize = 2;

/// The line lengths of a file with the lines `lines`, or
/// `InsufficientLines` where fewer than `MIN_LINES` of them are not empty.
pub open spec fn lines_analysis_of(lines: Seq<Seq<char>>) -> Result<Seq<usize>, AnalysisFailure> {
    if line_lengths_of(lines).len() < MIN_LINES {
        Err(AnalysisFailure::InsufficientLines)
    } else {
        Ok(line_lengths_of(lines))
    }
}

/// The line lengths that the analysis of an entry yields, or the failure
/// that it ends in. The kind is looked at first, then whether the file could
/// be read, then the number of lines that are not empty.
pub open spec fn analysis_of(kind: EntryKind, content: Option<Vec<u8>>) -> Result<
    Seq<usize>,
    AnalysisFailure,
> {
    if kind != EntryKind::File {
        Err(AnalysisFailure::NotAFile)
    } else {
        match content {
            None => Err(AnalysisFailure::IOError),
            Some(bytes) => lines_analysis_of(lines_in(bytes@)),
        }
    }
}

/// `outcome` is what `expected` says: the same failure, or the statistics of
/// the same line lengths.
pub open spec fn outcome_is(
    outcome: Result<Stats, AnalysisFailure>,
    expected: Result<Seq<usize>, AnalysisFailure>,
) -> bool {
    match expected {
        Ok(lengths) => outcome is Ok && outcome->Ok_0.lines@ == lengths && outcome->Ok_0.wf(),
        Err(failure) => outcome == Err::<Stats, AnalysisFailure>(failure),
    }
}

/// The statistics of a file that holds `bytes`, or `InsufficientLines`
/// where fewer than two of its lines are valid UTF-8 and not empty.
pub fn analyze_bytes(bytes: &[u8]) -> (outcome: Result<Stats, AnalysisFailure>)
    ensures
        outcome_is(outcome, lines_analysis_of(lines_in(bytes@))),
{
    let lengths = line_lengths(bytes);
    if lengths.len() < MIN_LINES {
        Err(AnalysisFailure::InsufficientLines)
    } else {
        Ok(Stats::from(lengths))
    }
}

/// Analyses one entry. `content` holds the bytes of the file, `None` where
/// it could not be read. An entry that is not a regular file fails with
/// `NotAFile` whatever `content` is, a file that could not be read with
/// `IOError`, and one with fewer than two non-empty lines with
/// `InsufficientLines`; any other file has its statistics computed.
pub fn analyze_entry(entry: CandidateEntry, content: Option<Vec<u8>>) -> (record: ResultRecord)
    ensures
        record.path == entry.path,
        outcome_is(record.outcome, analysis_of(entry.kind, content)),
{
    let outcome = match entry.kind {
        EntryKind::File => match &content {
            None => Err(AnalysisFailure::IOError),
            Some(bytes) => analyze_bytes(bytes.as_slice()),
        },
        _ => Err(AnalysisFailure::NotAFile),
    };
    ResultRecord { path: entry.path, outcome }
}

/// Statistics that an analysis gave are those of two lines or more.
pub proof fn lemma_analysed_files_have_two_lines(
    outcome: Result<Stats, AnalysisFailure>,
    kind: EntryKind,
    content: Option<Vec<u8>>,
)
    requires
        outcome_is(outcome, analysis_of(kind, content)),
        outcome is Ok,
    ensures
        outcome->Ok_0.lines@.len() >= MIN_LINES,
        outcome->Ok_0.wf(),
        kind == EntryKind::File,
        content is Some,
{
}

} // verus!
