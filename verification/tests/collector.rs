use line_stats::{
    analyze_entry, AnalysisFailure, CandidateEntry, Collector, EntryKind, ResultRecord, Stats,
};

fn success(path: &str, lines: Vec<usize>) -> ResultRecord {
    ResultRecord { path: path.to_string(), outcome: Ok(Stats::from(lines)) }
}

fn failure(path: &str, kind: AnalysisFailure) -> ResultRecord {
    ResultRecord { path: path.to_string(), outcome: Err(kind) }
}

fn text_file(path: &str, text: &[&str]) -> ResultRecord {
    let entry = CandidateEntry { path: path.to_string(), kind: EntryKind::File };
    analyze_entry(entry, Some(text.join("\n").into_bytes()))
}

fn paths(collector: &Collector) -> Vec<String> {
    collector.entries().iter().map(|entry| entry.path.clone()).collect()
}

#[test]
fn a_new_collector_is_empty() {
    let collector = Collector::new();
    assert!(collector.is_empty());
    assert_eq!(collector.len(), 0);
    assert!(collector.entries().is_empty());
    assert!(collector.get(&"a.txt".to_string()).is_none());
    assert!(collector.all_line_lengths().is_empty());
}

#[test]
fn the_statistics_of_an_empty_tree_are_zero() {
    let stats = Collector::new().aggregate();
    assert!(stats.lines.is_empty());
    assert_eq!(stats.max, 0);
    assert_eq!(stats.min, 0);
    assert_eq!(stats.total, 0);
    assert_eq!(stats.median_twice, 0);
    assert_eq!(stats.scaled_variance, Some(0));
}

#[test]
fn two_files_are_taken_together() {
    let mut collector = Collector::new();
    collector.record(success("a.txt", vec![3, 5, 7]));
    collector.record(success("b.txt", vec![10, 2]));
    assert_eq!(collector.len(), 2);
    assert!(!collector.is_empty());

    let a = collector.get(&"a.txt".to_string()).unwrap();
    assert_eq!((a.max, a.min, a.total, a.median_twice), (7, 3, 15, 10));
    let b = collector.get(&"b.txt".to_string()).unwrap();
    assert_eq!((b.max, b.min, b.total, b.median_twice), (10, 2, 12, 12));

    let all = collector.aggregate();
    assert_eq!(all.lines, vec![3, 5, 7, 10, 2]);
    assert_eq!(all.max, 10);
    assert_eq!(all.min, 2);
    assert_eq!(all.total, 27);
    assert_eq!(all.median_twice, 10);
    assert_eq!(all.scaled_variance, Some(206));
    let count = all.lines.len() as f64;
    assert_eq!(all.total as f64 / count, 5.4);
    assert_eq!(all.median_twice as f64 / 2.0, 5.0);
    let deviation = (all.scaled_variance.unwrap() as f64).sqrt() / count;
    assert!((deviation - 2.87).abs() < 0.005);
}

#[test]
fn the_whole_tree_is_not_a_mean_of_means() {
    let mut collector = Collector::new();
    collector.record(success("long.txt", vec![10, 10, 10, 10]));
    collector.record(success("short.txt", vec![2, 4]));
    let all = collector.aggregate();
    assert_eq!(all.total, 46);
    assert_eq!(all.lines.len(), 6);
    assert_ne!(all.total as f64 / 6.0, (10.0 + 3.0) / 2.0);
    assert_eq!(all.median_twice, 20);
    assert_eq!(all.scaled_variance, Some(6 * 420 - 46 * 46));
}

#[test]
fn the_order_of_the_files_does_not_change_the_figures() {
    let files: Vec<(&str, Vec<usize>)> = vec![
        ("a.txt", vec![3, 5, 7]),
        ("b.txt", vec![10, 2]),
        ("c.txt", vec![1, 1]),
        ("d.txt", vec![80, 12, 12, 40]),
    ];
    let orders: Vec<Vec<usize>> =
        vec![vec![0, 1, 2, 3], vec![3, 2, 1, 0], vec![2, 0, 3, 1], vec![1, 3, 0, 2]];
    let mut seen: Vec<(usize, usize, u128, u128, Option<u128>, usize)> = Vec::new();
    for order in orders {
        let mut collector = Collector::new();
        for i in order {
            collector.record(success(files[i].0, files[i].1.clone()));
        }
        let all = collector.aggregate();
        seen.push((
            all.max,
            all.min,
            all.total,
            all.median_twice,
            all.scaled_variance,
            all.lines.len(),
        ));
    }
    assert_eq!(seen[0], (80, 2, 173, 14, Some(11 * 8477 - 173 * 173), 11));
    assert_eq!(seen[1], seen[0]);
    assert_eq!(seen[2], seen[0]);
    assert_eq!(seen[3], seen[0]);
}

#[test]
fn failures_are_dropped() {
    let mut collector = Collector::new();
    collector.record(success("a.txt", vec![3, 5, 7]));
    collector.record(failure("dir", AnalysisFailure::NotAFile));
    collector.record(failure("locked.txt", AnalysisFailure::IOError));
    collector.record(failure("one.txt", AnalysisFailure::InsufficientLines));
    assert_eq!(collector.len(), 1);
    assert_eq!(paths(&collector), vec!["a.txt".to_string()]);
    assert!(collector.get(&"dir".to_string()).is_none());
    assert!(collector.get(&"locked.txt".to_string()).is_none());
    assert!(collector.get(&"one.txt".to_string()).is_none());
    assert_eq!(collector.aggregate().lines, vec![3, 5, 7]);
}

#[test]
fn a_failure_for_a_known_path_keeps_its_statistics() {
    let mut collector = Collector::new();
    collector.record(success("a.txt", vec![3, 5, 7]));
    collector.record(failure("a.txt", AnalysisFailure::IOError));
    assert_eq!(collector.get(&"a.txt".to_string()).unwrap().lines, vec![3, 5, 7]);
}

#[test]
fn a_file_with_one_line_is_in_neither_result() {
    let mut collector = Collector::new();
    collector.record(text_file("a.txt", &["abc", "hello", "1234567"]));
    collector.record(text_file("one.txt", &["", "a single line of some length", ""]));
    collector.record(text_file("b.txt", &["0123456789", "ab"]));
    assert_eq!(collector.len(), 2);
    assert_eq!(paths(&collector), vec!["a.txt".to_string(), "b.txt".to_string()]);
    assert!(collector.get(&"one.txt".to_string()).is_none());
    let all = collector.aggregate();
    assert_eq!(all.lines, vec![3, 5, 7, 10, 2]);
    assert_eq!(all.max, 10);
    assert_eq!(all.total, 27);
}

#[test]
fn the_last_result_for_a_path_wins() {
    let mut collector = Collector::new();
    collector.record(success("a.txt", vec![3, 5, 7]));
    collector.record(success("b.txt", vec![10, 2]));
    collector.record(success("a.txt", vec![4, 4]));
    assert_eq!(collector.len(), 2);
    assert_eq!(paths(&collector), vec!["a.txt".to_string(), "b.txt".to_string()]);
    assert_eq!(collector.get(&"a.txt".to_string()).unwrap().lines, vec![4, 4]);
    assert_eq!(collector.get(&"b.txt".to_string()).unwrap().lines, vec![10, 2]);
    assert_eq!(collector.all_line_lengths(), vec![4, 4, 10, 2]);
    assert_eq!(collector.aggregate().total, 20);
}

#[test]
fn entries_stand_in_the_order_of_arrival() {
    let mut collector = Collector::new();
    collector.record(success("z.txt", vec![1, 2]));
    collector.record(success("a.txt", vec![3, 4]));
    collector.record(success("m.txt", vec![5, 6]));
    assert_eq!(
        paths(&collector),
        vec!["z.txt".to_string(), "a.txt".to_string(), "m.txt".to_string()]
    );
    assert_eq!(collector.entries()[1].stats.lines, vec![3, 4]);
    assert_eq!(collector.all_line_lengths(), vec![1, 2, 3, 4, 5, 6]);
}

#[test]
fn collect_takes_the_records_one_after_the_other() {
    let records = vec![
        success("a.txt", vec![3, 5, 7]),
        failure("dir", AnalysisFailure::NotAFile),
        success("b.txt", vec![10, 2]),
        success("a.txt", vec![9, 9, 9]),
    ];
    let collector = Collector::collect(records);
    assert_eq!(collector.len(), 2);
    assert_eq!(paths(&collector), vec!["a.txt".to_string(), "b.txt".to_string()]);
    assert_eq!(collector.all_line_lengths(), vec![9, 9, 9, 10, 2]);
    assert!(Collector::collect(Vec::new()).is_empty());
}

#[test]
fn a_file_of_lines_of_one_character_counts_towards_the_whole() {
    let mut collector = Collector::new();
    collector.record(text_file("ones.txt", &["a", "b"]));
    let ones = collector.get(&"ones.txt".to_string()).unwrap();
    assert_eq!(ones.lines, vec![1, 1]);
    assert_eq!(ones.min, 0);
    let all = collector.aggregate();
    assert_eq!(all.lines, vec![1, 1]);
    assert_eq!(all.min, 0);
    assert_eq!(all.max, 1);
}

#[test]
fn many_files_are_collected() {
    let mut collector = Collector::new();
    for i in 0..50_000 {
        collector.record(success(&format!("src/dir{}/file{}.rs", i % 97, i), vec![i % 120 + 2, 40]));
    }
    for i in 0..50_000 {
        if i % 2 == 0 {
            collector.record(success(&format!("src/dir{}/file{}.rs", i % 97, i), vec![80, 80, 80]));
        }
    }
    assert_eq!(collector.len(), 50_000);
    assert_eq!(collector.get(&"src/dir0/file0.rs".to_string()).unwrap().lines, vec![80, 80, 80]);
    assert_eq!(collector.get(&"src/dir1/file1.rs".to_string()).unwrap().lines, vec![3, 40]);
    assert_eq!(collector.entries()[49_999].path, "src/dir44/file49999.rs");
    let all = collector.aggregate();
    assert_eq!(all.lines.len(), 25_000 * 3 + 25_000 * 2);
    assert_eq!(all.max, 121);
    assert_eq!(all.min, 3);
}
