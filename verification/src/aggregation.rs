//! What holds of the collected results and of the statistics of the whole
//! tree.

use vstd::prelude::*;
use vstd::seq_lib::{
    lemma_flatten_concat, lemma_multiset_commutative, to_multiset_contains, to_multiset_len,
    to_multiset_remove,
};

use crate::analyzer::{lines_analysis_of, outcome_is, AnalysisFailure, ResultRecord};
use crate::lines::is_nonempty;
use crate::collector::{
    all_lines, as_map, distinct_paths, has_path, index_of_path, inserted, lemma_inserted,
    line_sequences, recorded, recorded_all, FileEntry,
};
use crate::laws::{lemma_figures_ignore_order, lemma_stats_ignore_order};
use crate::measures::figures_of;
use crate::stats::Stats;

verus! {

/// A record that holds statistics.
pub open spec fn is_success() -> spec_fn(ResultRecord) -> bool {
    |record: ResultRecord| record.outcome is Ok
}

/// The entry that a record with statistics stands for.
pub open spec fn entry_of(record: ResultRecord) -> FileEntry {
    FileEntry { path: record.path, stats: record.outcome->Ok_0 }
}

/// The entries that the records with statistics stand for, in their order.
pub open spec fn successes(records: Seq<ResultRecord>) -> Seq<FileEntry> {
    records.filter(is_success()).map_values(|record: ResultRecord| entry_of(record))
}

/// No two records with statistics have the same path: every file was
/// analysed once.
pub open spec fn distinct_success_paths(records: Seq<ResultRecord>) -> bool {
    forall|i: int, j: int|
        0 <= i < j < records.len() && records[i].outcome is Ok && records[j].outcome is Ok
            ==> records[i].path@ != records[j].path@
}

/// `entry` is what some record of `records` with statistics stands for.
pub open spec fn comes_from(records: Seq<ResultRecord>, entry: FileEntry) -> bool {
    exists|i: int|
        0 <= i < records.len() && records[i].outcome is Ok && #[trigger] entry_of(records[i])
            == entry
}

/// Taking one file out takes its lines out of the lines of all files.
proof fn lemma_all_lines_remove(files: Seq<FileEntry>, i: int)
    requires
        0 <= i < files.len(),
    ensures
        all_lines(files).to_multiset() == all_lines(files.remove(i)).to_multiset().add(
            files[i].stats.lines@.to_multiset(),
        ),
{
    let lines = files[i].stats.lines@;
    let head = line_sequences(files.take(i));
    let tail = line_sequences(files.skip(i + 1));
    assert(line_sequences(files) == head.push(lines) + tail);
    assert(line_sequences(files.remove(i)) == head + tail);
    lemma_flatten_concat(head.push(lines), tail);
    lemma_flatten_concat(head, tail);
    head.lemma_flatten_push(lines);
    lemma_multiset_commutative(head.flatten() + lines, tail.flatten());
    lemma_multiset_commutative(head.flatten(), lines);
    lemma_multiset_commutative(head.flatten(), tail.flatten());
    assert(all_lines(files).to_multiset() =~= all_lines(files.remove(i)).to_multiset().add(
        lines.to_multiset(),
    ));
}

/// The lines of all files are the same lines, each as often, in whatever
/// order the files stand.
pub proof fn lemma_all_lines_ignore_order(a: Seq<FileEntry>, b: Seq<FileEntry>)
    requires
        a.to_multiset() == b.to_multiset(),
    ensures
        all_lines(a).to_multiset() == all_lines(b).to_multiset(),
    decreases a.len(),
{
    to_multiset_len(a);
    to_multiset_len(b);
    if a.len() == 0 {
        assert(a == b);
    } else {
        let last = a.len() - 1;
        let entry = a[last];
        assert(a.contains(entry));
        to_multiset_contains(a, entry);
        to_multiset_contains(b, entry);
        let j = choose|j: int| 0 <= j < b.len() && b[j] == entry;
        to_multiset_remove(a, last);
        to_multiset_remove(b, j);
        lemma_all_lines_ignore_order(a.remove(last), b.remove(j));
        lemma_all_lines_remove(a, last);
        lemma_all_lines_remove(b, j);
    }
}

/// The statistics of the whole tree do not depend on the order in which the
/// files were found or analysed: two sequences of entries that hold the same
/// entries give the same figures.
pub proof fn lemma_aggregate_ignores_order(a: Seq<FileEntry>, b: Seq<FileEntry>)
    requires
        a.to_multiset() == b.to_multiset(),
    ensures
        figures_of(all_lines(a)) == figures_of(all_lines(b)),
{
    lemma_all_lines_ignore_order(a, b);
    lemma_figures_ignore_order(all_lines(a), all_lines(b));
}

/// Taking one file out of entries with distinct paths takes its path out of
/// the mapping, and leaves the paths distinct.
proof fn lemma_as_map_remove(files: Seq<FileEntry>, i: int)
    requires
        distinct_paths(files),
        0 <= i < files.len(),
    ensures
        distinct_paths(files.remove(i)),
        as_map(files.remove(i)) == as_map(files).remove(files[i].path@),
        as_map(files).contains_key(files[i].path@),
        as_map(files)[files[i].path@] == files[i].stats,
{
    let rest = files.remove(i);
    let gone = files[i].path@;
    let at = |k: int| if k < i { k } else { k + 1 };
    assert forall|k: int| 0 <= k < rest.len() implies rest[k] == files[at(k)] by {}
    assert(has_path(files, gone));
    assert(index_of_path(files, gone) == i);
    assert forall|path: Seq<char>| has_path(rest, path) <==> (has_path(files, path) && path
        != gone) by {
        if has_path(rest, path) {
            let k = index_of_path(rest, path);
            assert(files[at(k)].path@ == path);
        }
        if has_path(files, path) && path != gone {
            let k = index_of_path(files, path);
            let back = if k < i { k } else { k - 1 };
            assert(rest[back].path@ == path);
        }
    }
    assert forall|path: Seq<char>| has_path(rest, path) implies #[trigger] as_map(rest)[path]
        == as_map(files)[path] by {
        let k = index_of_path(rest, path);
        let k0 = index_of_path(files, path);
        assert(files[at(k)].path@ == path);
        assert(at(k) == k0);
    }
    assert(as_map(rest) =~= as_map(files).remove(gone));
}

/// The statistics of the whole tree depend on the mapping from path to
/// statistics alone: entries that stand for the same mapping give the same
/// figures, in whatever order they came in.
pub proof fn lemma_aggregate_depends_on_mapping_alone(a: Seq<FileEntry>, b: Seq<FileEntry>)
    requires
        distinct_paths(a),
        distinct_paths(b),
        as_map(a) == as_map(b),
    ensures
        figures_of(all_lines(a)) == figures_of(all_lines(b)),
{
    lemma_same_mapping_same_lines(a, b);
    lemma_figures_ignore_order(all_lines(a), all_lines(b));
}

/// Statistics of the whole tree, taken of entries that stand for the same
/// mapping, have the same figures.
pub proof fn lemma_same_mapping_same_statistics(
    a: Seq<FileEntry>,
    b: Seq<FileEntry>,
    of_a: Stats,
    of_b: Stats,
)
    requires
        distinct_paths(a),
        distinct_paths(b),
        as_map(a) == as_map(b),
        of_a.wf(),
        of_b.wf(),
        of_a.lines@ == all_lines(a),
        of_b.lines@ == all_lines(b),
    ensures
        of_a.same_figures(&of_b),
{
    lemma_same_mapping_same_lines(a, b);
    lemma_stats_ignore_order(of_a, of_b);
}

/// Entries that stand for the same mapping hold the same lines, each as
/// often.
proof fn lemma_same_mapping_same_lines(a: Seq<FileEntry>, b: Seq<FileEntry>)
    requires
        distinct_paths(a),
        distinct_paths(b),
        as_map(a) == as_map(b),
    ensures
        all_lines(a).to_multiset() == all_lines(b).to_multiset(),
    decreases a.len(),
{
    if a.len() == 0 {
        if b.len() > 0 {
            assert(has_path(b, b[0].path@));
            assert(as_map(b).contains_key(b[0].path@));
            assert(has_path(a, b[0].path@));
        }
        assert(a == b);
    } else {
        let last = a.len() - 1;
        let path = a[last].path@;
        lemma_as_map_remove(a, last);
        assert(as_map(b).contains_key(path));
        assert(has_path(b, path));
        let j = index_of_path(b, path);
        lemma_as_map_remove(b, j);
        lemma_same_mapping_same_lines(a.remove(last), b.remove(j));
        lemma_all_lines_remove(a, last);
        lemma_all_lines_remove(b, j);
    }
}

/// A file with a single non-empty line, or with none, is left out: its
/// analysis ends in `InsufficientLines`, and its record changes neither the
/// collected entries nor the lines that the statistics of the whole tree
/// are taken of.
pub proof fn lemma_single_line_file_is_left_out(
    files: Seq<FileEntry>,
    lines: Seq<Seq<char>>,
    record: ResultRecord,
)
    requires
        lines.filter(is_nonempty()).len() <= 1,
        outcome_is(record.outcome, lines_analysis_of(lines)),
    ensures
        lines_analysis_of(lines) == Err::<Seq<usize>, AnalysisFailure>(
            AnalysisFailure::InsufficientLines,
        ),
        recorded(files, record) == files,
        all_lines(recorded(files, record)) == all_lines(files),
{
}

/// Failures are absorbed: a stream of records leaves the collector as the
/// same stream without its failures does.
pub proof fn lemma_failures_are_absorbed(files: Seq<FileEntry>, records: Seq<ResultRecord>)
    ensures
        recorded_all(files, records) == recorded_all(files, records.filter(is_success())),
    decreases records.len(),
{
    reveal(Seq::filter);
    if records.len() > 0 {
        let init = records.drop_last();
        let last = records.last();
        lemma_failures_are_absorbed(files, init);
        if is_success()(last) {
            let kept = init.filter(is_success());
            assert(kept.push(last).drop_last() == kept);
        }
    }
}

/// The collector makes nothing up: every entry that it holds after a
/// stream of records was held before or stands for one of the records.
pub proof fn lemma_entries_are_recorded(files: Seq<FileEntry>, records: Seq<ResultRecord>)
    ensures
        forall|k: int|
            0 <= k < recorded_all(files, records).len() ==> {
                let entry = #[trigger] recorded_all(files, records)[k];
                files.contains(entry) || comes_from(records, entry)
            },
    decreases records.len(),
{
    if records.len() > 0 {
        let init = records.drop_last();
        let last = records.last();
        let before = recorded_all(files, init);
        let after = recorded_all(files, records);
        lemma_entries_are_recorded(files, init);
        assert(records[records.len() - 1] == last);
        assert forall|k: int| 0 <= k < after.len() implies {
            let entry = #[trigger] after[k];
            files.contains(entry) || comes_from(records, entry)
        } by {
            let entry = after[k];
            if last.outcome is Ok && entry == entry_of(last) {
                assert(entry_of(records[records.len() - 1]) == entry);
            } else {
                assert(k < before.len() && before[k] == entry);
                if comes_from(init, entry) {
                    let i = choose|i: int|
                        0 <= i < init.len() && init[i].outcome is Ok && #[trigger] entry_of(
                            init[i],
                        ) == entry;
                    assert(entry_of(records[i]) == entry);
                }
            }
        }
    }
}

/// Records leave the paths of the collector distinct.
pub proof fn lemma_recorded_paths_are_distinct(files: Seq<FileEntry>, records: Seq<ResultRecord>)
    requires
        distinct_paths(files),
    ensures
        distinct_paths(recorded_all(files, records)),
    decreases records.len(),
{
    if records.len() > 0 {
        lemma_recorded_paths_are_distinct(files, records.drop_last());
        if records.last().outcome is Ok {
            lemma_inserted(recorded_all(files, records.drop_last()), entry_of(records.last()));
        }
    }
}

/// The last result for a path wins, whatever else comes in: after a stream
/// of records the collector holds, under the path of a record with
/// statistics that no later such record shares, the statistics of that
/// record. Failures and the results of other files change nothing in it.
pub proof fn lemma_last_result_wins(files: Seq<FileEntry>, records: Seq<ResultRecord>, k: int)
    requires
        distinct_paths(files),
        0 <= k < records.len(),
        records[k].outcome is Ok,
        forall|j: int|
            k < j < records.len() && records[j].outcome is Ok ==> records[j].path@
                != records[k].path@,
    ensures
        as_map(recorded_all(files, records)).contains_key(records[k].path@),
        as_map(recorded_all(files, records))[records[k].path@] == records[k].outcome->Ok_0,
    decreases records.len(),
{
    let init = records.drop_last();
    let last = records.last();
    let before = recorded_all(files, init);
    lemma_recorded_paths_are_distinct(files, init);
    assert(records[records.len() - 1] == last);
    if last.outcome is Ok {
        lemma_inserted(before, entry_of(last));
    }
    if k < records.len() - 1 {
        assert(init[k] == records[k]);
        assert forall|j: int| k < j < init.len() && init[j].outcome is Ok implies init[j].path@
            != init[k].path@ by {
            assert(init[j] == records[j]);
        }
        lemma_last_result_wins(files, init, k);
    }
}

/// Where every file was analysed once, the collector holds the entries of
/// the records with statistics, in the order of the records.
pub proof fn lemma_collected_once(records: Seq<ResultRecord>)
    requires
        distinct_success_paths(records),
    ensures
        recorded_all(Seq::<FileEntry>::empty(), records) == successes(records),
        distinct_paths(successes(records)),
        forall|k: int|
            0 <= k < successes(records).len() ==> comes_from(
                records,
                #[trigger] successes(records)[k],
            ),
    decreases records.len(),
{
    reveal(Seq::filter);
    let none = Seq::<FileEntry>::empty();
    if records.len() > 0 {
        let init = records.drop_last();
        let last = records.last();
        assert forall|i: int| 0 <= i < init.len() implies init[i] == records[i] by {}
        assert(records[records.len() - 1] == last);
        lemma_collected_once(init);
        let before = successes(init);
        assert forall|k: int| 0 <= k < before.len() implies comes_from(
            records,
            #[trigger] before[k],
        ) by {
            assert(comes_from(init, before[k]));
            let i = choose|i: int|
                0 <= i < init.len() && init[i].outcome is Ok && #[trigger] entry_of(init[i])
                    == before[k];
            assert(entry_of(records[i]) == before[k]);
        }
        if last.outcome is Ok {
            let entry = entry_of(last);
            let kept = init.filter(is_success());
            kept.lemma_push_map_commute(|record: ResultRecord| entry_of(record), last);
            assert(successes(records) == before.push(entry));
            assert(!has_path(before, entry.path@)) by {
                if has_path(before, entry.path@) {
                    let k = index_of_path(before, entry.path@);
                    assert(comes_from(init, before[k]));
                    let i = choose|i: int|
                        0 <= i < init.len() && init[i].outcome is Ok && #[trigger] entry_of(
                            init[i],
                        ) == before[k];
                    assert(records[i].path@ == records[records.len() - 1].path@);
                }
            }
            assert(inserted(before, entry) == before.push(entry));
            assert(recorded(before, last) == before.push(entry));
            assert forall|k: int| 0 <= k < successes(records).len() implies comes_from(
                records,
                #[trigger] successes(records)[k],
            ) by {
                if k == before.len() {
                    assert(entry_of(records[records.len() - 1]) == successes(records)[k]);
                } else {
                    assert(successes(records)[k] == before[k]);
                }
            }
            assert forall|i: int, j: int| 0 <= i < j < successes(records).len() implies successes(
                records,
            )[i].path@ != successes(records)[j].path@ by {
                if j == before.len() {
                    assert(has_path(before, before[i].path@));
                }
            }
        } else {
            assert(successes(records) == before);
        }
    } else {
        assert(successes(records) == none);
    }
}

/// Taking one record out takes its entry out of the entries, if it has one.
proof fn lemma_successes_remove(records: Seq<ResultRecord>, i: int)
    requires
        0 <= i < records.len(),
    ensures
        successes(records).to_multiset() == if records[i].outcome is Ok {
            successes(records.remove(i)).to_multiset().insert(entry_of(records[i]))
        } else {
            successes(records.remove(i)).to_multiset()
        },
{
    let keep = is_success();
    let to_entry = |record: ResultRecord| entry_of(record);
    let head = records.take(i);
    let tail = records.skip(i + 1);
    let one = records[i];
    assert(records == head.push(one) + tail);
    assert(records.remove(i) == head + tail);
    Seq::filter_distributes_over_add(head.push(one), tail, keep);
    Seq::filter_distributes_over_add(head, tail, keep);
    head.lemma_filter_push(one, keep);
    let h = head.filter(keep).map_values(to_entry);
    let t = tail.filter(keep).map_values(to_entry);
    assert(successes(records.remove(i)) == h + t);
    lemma_multiset_commutative(h, t);
    if one.outcome is Ok {
        head.filter(keep).lemma_push_map_commute(to_entry, one);
        assert(successes(records) == h.push(entry_of(one)) + t);
        lemma_multiset_commutative(h.push(entry_of(one)), t);
        vstd::seq_lib::to_multiset_build(h, entry_of(one));
        assert(successes(records).to_multiset() =~= successes(records.remove(i)).to_multiset()
            .insert(entry_of(one)));
    } else {
        assert(successes(records) == h + t);
    }
}

/// Records that are the same but for their order stand for the same
/// entries but for their order.
proof fn lemma_successes_ignore_order(a: Seq<ResultRecord>, b: Seq<ResultRecord>)
    requires
        a.to_multiset() == b.to_multiset(),
    ensures
        successes(a).to_multiset() == successes(b).to_multiset(),
    decreases a.len(),
{
    to_multiset_len(a);
    to_multiset_len(b);
    if a.len() == 0 {
        assert(a == b);
    } else {
        let last = a.len() - 1;
        let record = a[last];
        assert(a.contains(record));
        to_multiset_contains(a, record);
        to_multiset_contains(b, record);
        let j = choose|j: int| 0 <= j < b.len() && b[j] == record;
        to_multiset_remove(a, last);
        to_multiset_remove(b, j);
        lemma_successes_ignore_order(a.remove(last), b.remove(j));
        lemma_successes_remove(a, last);
        lemma_successes_remove(b, j);
    }
}

/// The statistics of the whole tree do not depend on the order in which
/// the results come in: where every file was analysed once, two streams of
/// the same records leave collectors that give the same figures.
pub proof fn lemma_collecting_ignores_order(a: Seq<ResultRecord>, b: Seq<ResultRecord>)
    requires
        a.to_multiset() == b.to_multiset(),
        distinct_success_paths(a),
        distinct_success_paths(b),
    ensures
        figures_of(all_lines(recorded_all(Seq::<FileEntry>::empty(), a))) == figures_of(
            all_lines(recorded_all(Seq::<FileEntry>::empty(), b)),
        ),
{
    lemma_collected_once(a);
    lemma_collected_once(b);
    lemma_successes_ignore_order(a, b);
    lemma_aggregate_ignores_order(successes(a), successes(b));
}

} // verus!
