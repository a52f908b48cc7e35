//! Collecting the results of the analyses, and the statistics of the whole
//! tree.
//!
//! The collector keeps one entry for each path, in the order in which the
//! paths first came. A failure leaves it as it is; a second result for a
//! path takes the place of the first.

use vstd::hash_map::StringHashMap;
use vstd::prelude::*;

use crate::analyzer::ResultRecord;
use crate::stats::Stats;

verus! {

/// The statistics of one file, with its path.
#[derive(Debug)]
pub struct FileEntry {
    /// The path of the file.
    pub path: String,
    /// Its statistics.
    pub stats: Stats,
}

/// The results collected so far: one entry for each path that had statistics.
pub struct Collector {
    /// The entries, in the order in which their paths first came.
    files: Vec<FileEntry>,
    /// Where in `files` the entry of each path stands.
    index: StringHashMap<usize>,
}

/// `index` tells of each path of `files`, and of nothing else, where its
/// entry stands.
spec fn is_index_of(index: Map<Seq<char>, usize>, files: Seq<FileEntry>) -> bool {
    &&& forall|i: int|
        0 <= i < files.len() ==> index.contains_key(#[trigger] files[i].path@)
            && index[files[i].path@] == i
    &&& forall|path: Seq<char>| #[trigger]
        index.contains_key(path) ==> index[path] < files.len() && files[index[path] as int].path@
            == path
}

/// Entries with an index have distinct paths.
proof fn lemma_indexed_paths_are_distinct(index: Map<Seq<char>, usize>, files: Seq<FileEntry>)
    requires
        is_index_of(index, files),
    ensures
        distinct_paths(files),
        forall|path: Seq<char>| index.contains_key(path) <==> has_path(files, path),
        forall|path: Seq<char>|
            index.contains_key(path) ==> index[path] == #[trigger] index_of_path(files, path),
{
    assert forall|i: int, j: int| 0 <= i < j < files.len() implies files[i].path@
        != files[j].path@ by {
        assert(index[files[i].path@] == i);
        assert(index[files[j].path@] == j);
    }
    assert forall|path: Seq<char>| index.contains_key(path) <==> has_path(files, path) by {
        if index.contains_key(path) {
            assert(files[index[path] as int].path@ == path);
        }
        if has_path(files, path) {
            let i = index_of_path(files, path);
            assert(index.contains_key(files[i].path@));
        }
    }
    assert forall|path: Seq<char>| index.contains_key(path) implies index[path]
        == #[trigger] index_of_path(files, path) by {
        assert(files[index[path] as int].path@ == path);
        let i = index_of_path(files, path);
        assert(index[files[i].path@] == i);
    }
}

/// No two entries of `files` have the same path.
pub open spec fn distinct_paths(files: Seq<FileEntry>) -> bool {
    forall|i: int, j: int| 0 <= i < j < files.len() ==> files[i].path@ != files[j].path@
}

/// Some entry of `files` has the path `path`.
pub open spec fn has_path(files: Seq<FileEntry>, path: Seq<char>) -> bool {
    exists|i: int| 0 <= i < files.len() && files[i].path@ == path
}

/// Where an entry of `files` with the path `path` stands.
pub open spec fn index_of_path(files: Seq<FileEntry>, path: Seq<char>) -> int {
    choose|i: int| 0 <= i < files.len() && files[i].path@ == path
}

/// `files` after `entry` came in: in the place of the entry with the same
/// path where there is one, at the end where there is none.
pub open spec fn inserted(files: Seq<FileEntry>, entry: FileEntry) -> Seq<FileEntry> {
    if has_path(files, entry.path@) {
        files.update(index_of_path(files, entry.path@), entry)
    } else {
        files.push(entry)
    }
}

/// `files` after `record` came in: a failure changes nothing.
pub open spec fn recorded(files: Seq<FileEntry>, record: ResultRecord) -> Seq<FileEntry> {
    match record.outcome {
        Ok(stats) => inserted(files, FileEntry { path: record.path, stats }),
        Err(_) => files,
    }
}

/// `files` after each of `records` came in, in their order.
pub open spec fn recorded_all(files: Seq<FileEntry>, records: Seq<ResultRecord>) -> Seq<FileEntry>
    decreases records.len(),
{
    if records.len() == 0 {
        files
    } else {
        recorded(recorded_all(files, records.drop_last()), records.last())
    }
}

/// The line lengths of an entry.
pub open spec fn lines_of() -> spec_fn(FileEntry) -> Seq<usize> {
    |entry: FileEntry| entry.stats.lines@
}

/// The line lengths of each entry of `files`.
pub open spec fn line_sequences(files: Seq<FileEntry>) -> Seq<Seq<usize>> {
    files.map_values(lines_of())
}

/// The line lengths of all entries of `files`, one file after the other.
pub open spec fn all_lines(files: Seq<FileEntry>) -> Seq<usize> {
    line_sequences(files).flatten()
}

/// The mapping from path to statistics that `files` stands for.
pub open spec fn as_map(files: Seq<FileEntry>) -> Map<Seq<char>, Stats> {
    Map::new(
        |path: Seq<char>| has_path(files, path),
        |path: Seq<char>| files[index_of_path(files, path)].stats,
    )
}

/// Putting an entry in keeps the paths distinct, and is an insertion into
/// the mapping.
pub proof fn lemma_inserted(files: Seq<FileEntry>, entry: FileEntry)
    requires
        distinct_paths(files),
    ensures
        distinct_paths(inserted(files, entry)),
        as_map(inserted(files, entry)) == as_map(files).insert(entry.path@, entry.stats),
{
    let after = inserted(files, entry);
    let at = if has_path(files, entry.path@) {
        index_of_path(files, entry.path@)
    } else {
        files.len() as int
    };
    assert(after.len() > at >= 0 && after[at] == entry);
    assert forall|k: int| 0 <= k < after.len() && k != at implies after[k] == files[k]
        && after[k].path@ != entry.path@ by {}
    assert forall|k: int| 0 <= k < files.len() && k != at implies after[k] == files[k] by {}
    assert forall|path: Seq<char>|
        has_path(after, path) <==> (path == entry.path@ || has_path(files, path)) by {
        if has_path(after, path) {
            let k = index_of_path(after, path);
            if k != at {
                assert(files[k].path@ == path);
            }
        }
        if has_path(files, path) && path != entry.path@ {
            let k = index_of_path(files, path);
            assert(after[k].path@ == path);
        }
        if path == entry.path@ {
            assert(after[at].path@ == path);
        }
    }
    assert forall|path: Seq<char>| has_path(after, path) implies #[trigger] as_map(after)[path]
        == as_map(files).insert(entry.path@, entry.stats)[path] by {
        let k = index_of_path(after, path);
        if path == entry.path@ {
            assert(k == at);
        } else {
            let k0 = index_of_path(files, path);
            assert(after[k0].path@ == path);
            assert(k == k0);
        }
    }
    assert(as_map(after) =~= as_map(files).insert(entry.path@, entry.stats));
}

impl View for Collector {
    type V = Seq<FileEntry>;

    /// The entries, in the order in which their paths first came.
    closed spec fn view(&self) -> Seq<FileEntry> {
        self.files@
    }
}

impl Collector {
    #[verifier::type_invariant]
    spec fn index_is_exact(self) -> bool {
        is_index_of(self.index@, self.files@)
    }

    /// A collector that holds nothing.
    pub fn new() -> (collector: Collector)
        ensures
            collector@ == Seq::<FileEntry>::empty(),
    {
        Collector { files: Vec::new(), index: StringHashMap::new() }
    }

    /// Takes one result in. A failure is dropped; statistics are kept under
    /// their path, in the place of earlier ones for the same path.
    pub fn record(&mut self, record: ResultRecord)
        ensures
            final(self)@ == recorded(old(self)@, record),
            distinct_paths(final(self)@),
            as_map(final(self)@) == match record.outcome {
                Ok(stats) => as_map(old(self)@).insert(record.path@, stats),
                Err(_) => as_map(old(self)@),
            },
    {
        proof {
            use_type_invariant(&*self);
            lemma_indexed_paths_are_distinct(self.index@, self.files@);
        }
        match record.outcome {
            Err(_) => {},
            Ok(stats) => {
                let entry = FileEntry { path: record.path, stats };
                proof {
                    lemma_inserted(self.files@, entry);
                }
                let found = self.position(&entry.path);
                let mut taken = Collector::new();
                std::mem::swap(self, &mut taken);
                let Collector { mut files, mut index } = taken;
                match found {
                    Some(i) => {
                        files.set(i, entry);
                    },
                    None => {
                        index.insert(entry.path.clone(), files.len());
                        files.push(entry);
                    },
                }
                *self = Collector { files, index };
            },
        }
    }

    /// Where the entry with the path `path` stands, if there is one.
    fn position(&self, path: &String) -> (found: Option<usize>)
        ensures
            match found {
                Some(i) => has_path(self.files@, path@) && i == index_of_path(self.files@, path@)
                    && i < self.files@.len(),
                None => !has_path(self.files@, path@),
            },
    {
        proof {
            use_type_invariant(self);
            lemma_indexed_paths_are_distinct(self.index@, self.files@);
        }
        match self.index.get(path.as_str()) {
            Some(i) => Some(*i),
            None => None,
        }
    }

    /// How many files have statistics.
    pub fn len(&self) -> (n: usize)
        ensures
            n == self@.len(),
    {
        self.files.len()
    }

    /// Whether no file has statistics.
    pub fn is_empty(&self) -> (empty: bool)
        ensures
            empty == (self@.len() == 0),
    {
        self.files.len() == 0
    }

    /// The entries, in the order in which their paths first came.
    pub fn entries(&self) -> (files: &Vec<FileEntry>)
        ensures
            files@ == self@,
            distinct_paths(files@),
    {
        proof {
            use_type_invariant(self);
            lemma_indexed_paths_are_distinct(self.index@, self.files@);
        }
        &self.files
    }

    /// The statistics kept under `path`, if there are any.
    pub fn get(&self, path: &String) -> (found: Option<&Stats>)
        ensures
            match found {
                Some(stats) => as_map(self@).contains_key(path@) && *stats == as_map(self@)[path@],
                None => !as_map(self@).contains_key(path@),
            },
    {
        proof {
            use_type_invariant(self);
            lemma_indexed_paths_are_distinct(self.index@, self.files@);
        }
        match self.position(path) {
            Some(i) => Some(&self.files[i].stats),
            None => None,
        }
    }

    /// The line lengths of all files, one file after the other.
    pub fn all_line_lengths(&self) -> (lines: Vec<usize>)
        ensures
            lines@ == all_lines(self@),
    {
        let mut lines: Vec<usize> = Vec::new();
        let mut i: usize = 0;
        proof {
            assert(self.files@.take(0) == Seq::<FileEntry>::empty());
        }
        while i < self.files.len()
            invariant
                i <= self.files.len(),
                lines@ == all_lines(self.files@.take(i as int)),
            decreases self.files.len() - i,
        {
            let source = &self.files[i].stats.lines;
            let ghost before = lines@;
            let mut j: usize = 0;
            while j < source.len()
                invariant
                    j <= source.len(),
                    lines@ == before + source@.take(j as int),
                decreases source.len() - j,
            {
                lines.push(source[j]);
                proof {
                    assert(source@.take(j + 1) == source@.take(j as int).push(source[j as int]));
                }
                j += 1;
            }
            proof {
                assert(source@.take(j as int) == source@);
                let head = self.files@.take(i as int);
                let entry = self.files@[i as int];
                assert(self.files@.take(i + 1) == head.push(entry));
                head.lemma_push_map_commute(lines_of(), entry);
                line_sequences(head).lemma_flatten_push(source@);
            }
            i += 1;
        }
        proof {
            assert(self.files@.take(i as int) == self.files@);
        }
        lines
    }

    /// The statistics of the whole tree: those of the line lengths of all
    /// files taken together, not a combination of the files' own figures.
    pub fn aggregate(&self) -> (stats: Stats)
        ensures
            stats.lines@ == all_lines(self@),
            stats.wf(),
    {
        Stats::from(self.all_line_lengths())
    }

    /// Collects `records`, one after the other, into a new collector.
    pub fn collect(records: Vec<ResultRecord>) -> (collector: Collector)
        ensures
            collector@ == recorded_all(Seq::<FileEntry>::empty(), records@),
            distinct_paths(collector@),
    {
        let mut collector = Collector::new();
        let ghost all = records@;
        for record in it: records
            invariant
                it.seq() == all,
                collector@ == recorded_all(Seq::<FileEntry>::empty(), all.take(it.index() as int)),
                distinct_paths(collector@),
        {
            proof {
                assert(all.take(it.index() + 1).drop_last() == all.take(it.index() as int));
            }
            collector.record(record);
        }
        proof {
            assert(all.take(all.len() as int) == all);
        }
        collector
    }
}

} // verus!
