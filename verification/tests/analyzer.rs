use line_stats::{
    analyze_bytes, analyze_entry, AnalysisFailure, CandidateEntry, EntryKind, MIN_LINES,
};

fn bytes(text: &str) -> Option<Vec<u8>> {
    Some(text.as_bytes().to_vec())
}

fn file(path: &str) -> CandidateEntry {
    CandidateEntry { path: path.to_string(), kind: EntryKind::File }
}

#[test]
fn a_file_with_lines_has_statistics() {
    let record = analyze_entry(file("a.txt"), bytes("abc\n\nhello\n1234567\n"));
    assert_eq!(record.path, "a.txt");
    let stats = record.outcome.unwrap();
    assert_eq!(stats.lines, vec![3, 5, 7]);
    assert_eq!(stats.max, 7);
    assert_eq!(stats.min, 3);
    assert_eq!(stats.total, 15);
    assert_eq!(stats.median_twice, 10);
    assert_eq!(stats.scaled_variance, Some(24));
}

#[test]
fn a_file_with_one_line_has_no_statistics() {
    let record = analyze_entry(file("one.txt"), bytes("only line\n"));
    assert_eq!(record.path, "one.txt");
    assert_eq!(record.outcome.unwrap_err(), AnalysisFailure::InsufficientLines);
    let record = analyze_entry(file("one.txt"), bytes("\nonly line\n\n\n"));
    assert_eq!(record.outcome.unwrap_err(), AnalysisFailure::InsufficientLines);
}

#[test]
fn an_empty_file_has_no_statistics() {
    let record = analyze_entry(file("empty.txt"), Some(Vec::new()));
    assert_eq!(record.outcome.unwrap_err(), AnalysisFailure::InsufficientLines);
    let record = analyze_entry(file("blank.txt"), bytes("\n\r\n\n"));
    assert_eq!(record.outcome.unwrap_err(), AnalysisFailure::InsufficientLines);
    assert_eq!(analyze_bytes(b"\n\n").unwrap_err(), AnalysisFailure::InsufficientLines);
}

#[test]
fn two_lines_are_enough() {
    assert_eq!(MIN_LINES, 2);
    let stats = analyze_bytes(b"a\nb\n").unwrap();
    assert_eq!(stats.lines, vec![1, 1]);
    assert_eq!(stats.min, 0);
    assert_eq!(stats.max, 1);
}

#[test]
fn a_file_that_cannot_be_read_fails_with_io_error() {
    let record = analyze_entry(file("locked.txt"), None);
    assert_eq!(record.path, "locked.txt");
    assert_eq!(record.outcome.unwrap_err(), AnalysisFailure::IOError);
}

#[test]
fn a_directory_is_not_a_file() {
    let entry = CandidateEntry { path: "src".to_string(), kind: EntryKind::Directory };
    let record = analyze_entry(entry, None);
    assert_eq!(record.path, "src");
    assert_eq!(record.outcome.unwrap_err(), AnalysisFailure::NotAFile);
}

#[test]
fn the_kind_is_looked_at_before_the_content() {
    let entry = CandidateEntry { path: "pipe".to_string(), kind: EntryKind::Other };
    let record = analyze_entry(entry, bytes("abc\ndef\n"));
    assert_eq!(record.outcome.unwrap_err(), AnalysisFailure::NotAFile);
    let entry = CandidateEntry { path: "dir".to_string(), kind: EntryKind::Directory };
    let record = analyze_entry(entry, bytes("abc\ndef\n"));
    assert_eq!(record.outcome.unwrap_err(), AnalysisFailure::NotAFile);
}

#[test]
fn each_failure_says_what_went_wrong() {
    assert_eq!(AnalysisFailure::NotAFile.message(), "not a file");
    assert_eq!(AnalysisFailure::IOError.message(), "cannot be read");
    assert_eq!(
        AnalysisFailure::InsufficientLines.message(),
        "not enough lines to be significant"
    );
}

#[test]
fn bytes_are_analysed_line_by_line() {
    let stats = analyze_bytes(b"abc\nhello\n1234567").unwrap();
    assert_eq!(stats.lines, vec![3, 5, 7]);
    assert_eq!((stats.max, stats.min, stats.total, stats.median_twice), (7, 3, 15, 10));
    assert_eq!(analyze_bytes(b"alone").unwrap_err(), AnalysisFailure::InsufficientLines);
    assert_eq!(analyze_bytes(b"").unwrap_err(), AnalysisFailure::InsufficientLines);
    assert_eq!(analyze_bytes(b"a\nb").unwrap().lines, vec![1, 1]);
}

#[test]
fn a_file_of_undecodable_lines_has_no_statistics() {
    let record = analyze_entry(file("blob.bin"), Some(vec![0xff, 0xfe, b'\n', 0xc3, b'\n', b'a', b'\n']));
    assert_eq!(record.outcome.unwrap_err(), AnalysisFailure::InsufficientLines);
}
