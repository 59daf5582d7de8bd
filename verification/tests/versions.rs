use tonbo::inmem::immutable::Immutable;
use tonbo::ondisk::SsTable;
use tonbo::record::{ProjectionMask, Value};
use tonbo::stream::{Entry, KeyBound};
use tonbo::timestamp::Timestamped;
use tonbo::version::cleaner::Cleaner;
use tonbo::version::edit::VersionEdit;
use tonbo::version::set::VersionSet;
use tonbo::version::{Version, VersionError, MAX_LEVEL};

fn key(s: &str) -> Vec<u8> {
    s.as_bytes().to_vec()
}

fn put(k: &str, ts: u32, v: u32) -> Entry {
    Entry::new(Timestamped::new(key(k), ts), Some(vec![Some(Value::U32(v))]))
}

fn table(gen: u64, entries: Vec<Entry>) -> SsTable {
    SsTable::new(gen, Immutable::from_entries(entries, 1))
}

fn span(gen: u64, min: &str, max: &str) -> SsTable {
    table(gen, vec![put(min, 1, 0), put(max, 1, 0)])
}

fn gens(version: &Version, level: usize) -> Vec<u64> {
    (0..version.level_len(level)).map(|i| version.table(level, i).gen()).collect()
}

#[test]
fn a_new_version_is_empty() {
    let version = Version::new(1);
    assert_eq!(version.columns(), 1);
    for level in 0..MAX_LEVEL {
        assert_eq!(version.level_len(level), 0);
    }
    let mut streams = Vec::new();
    version.streams(
        &mut streams,
        &KeyBound::Unbounded,
        &KeyBound::Unbounded,
        u32::MAX,
        &ProjectionMask::all(),
    );
    assert!(streams.iter().all(|run: &Vec<Entry>| run.is_empty()));
}

#[test]
fn level_zero_keeps_the_newest_table_first() {
    let mut version = Version::new(1);
    version.apply(VersionEdit::Add { level: 0, table: span(1, "a", "m") }).unwrap();
    version.apply(VersionEdit::Add { level: 0, table: span(2, "c", "z") }).unwrap();
    version.apply(VersionEdit::Add { level: 0, table: span(3, "a", "b") }).unwrap();
    assert_eq!(gens(&version, 0), vec![3, 2, 1]);
}

#[test]
fn deeper_levels_are_kept_in_key_order() {
    let mut version = Version::new(1);
    version.apply(VersionEdit::Add { level: 1, table: span(1, "m", "p") }).unwrap();
    version.apply(VersionEdit::Add { level: 1, table: span(2, "a", "c") }).unwrap();
    version.apply(VersionEdit::Add { level: 1, table: span(3, "x", "z") }).unwrap();
    version.apply(VersionEdit::Add { level: 1, table: span(4, "d", "l") }).unwrap();
    assert_eq!(gens(&version, 1), vec![2, 4, 1, 3]);
    version.apply(VersionEdit::Remove { level: 1, gen: 4 }).unwrap();
    assert_eq!(gens(&version, 1), vec![2, 1, 3]);
    version.apply(VersionEdit::Remove { level: 1, gen: 2 }).unwrap();
    version.apply(VersionEdit::Remove { level: 1, gen: 3 }).unwrap();
    assert_eq!(gens(&version, 1), vec![1]);
}

#[test]
fn edits_that_cannot_be_applied() {
    let mut version = Version::new(1);
    version.apply(VersionEdit::Add { level: 1, table: span(1, "d", "h") }).unwrap();
    assert_eq!(
        version.apply(VersionEdit::Add { level: MAX_LEVEL, table: span(2, "x", "z") }),
        Err(VersionError::InvalidLevel(MAX_LEVEL))
    );
    assert_eq!(
        version.apply(VersionEdit::Remove { level: 9, gen: 1 }),
        Err(VersionError::InvalidLevel(9))
    );
    assert_eq!(
        version.apply(VersionEdit::Remove { level: 0, gen: 1 }),
        Err(VersionError::FileNotFound(1))
    );
    assert_eq!(
        version.apply(VersionEdit::Remove { level: 1, gen: 5 }),
        Err(VersionError::FileNotFound(5))
    );
    // Sharing one key is an overlap.
    assert_eq!(
        version.apply(VersionEdit::Add { level: 1, table: span(3, "h", "k") }),
        Err(VersionError::Overlap(3))
    );
    assert_eq!(
        version.apply(VersionEdit::Add { level: 1, table: span(4, "a", "z") }),
        Err(VersionError::Overlap(4))
    );
    assert_eq!(
        version.apply(VersionEdit::Add { level: 1, table: span(5, "e", "f") }),
        Err(VersionError::Overlap(5))
    );
    assert_eq!(gens(&version, 1), vec![1]);
    // Level 0 takes overlapping tables.
    version.apply(VersionEdit::Add { level: 0, table: span(6, "a", "z") }).unwrap();
    version.apply(VersionEdit::Add { level: 0, table: span(7, "a", "z") }).unwrap();
    assert_eq!(gens(&version, 0), vec![7, 6]);
}

#[test]
fn streams_of_a_version_read_newest_first() {
    let mut version = Version::new(1);
    version
        .apply(VersionEdit::Add { level: 1, table: table(1, vec![put("a", 1, 1), put("b", 1, 1)]) })
        .unwrap();
    version
        .apply(VersionEdit::Add { level: 1, table: table(2, vec![put("c", 1, 1), put("d", 1, 1)]) })
        .unwrap();
    version
        .apply(VersionEdit::Add { level: 0, table: table(3, vec![put("a", 2, 2), put("c", 1, 2)]) })
        .unwrap();
    version.apply(VersionEdit::Add { level: 0, table: table(4, vec![put("a", 2, 3)]) }).unwrap();
    let mut streams = Vec::new();
    version.streams(
        &mut streams,
        &KeyBound::Unbounded,
        &KeyBound::Included(key("c")),
        u32::MAX,
        &ProjectionMask::all(),
    );
    let merged = tonbo::stream::merge::merge_runs(&streams);
    assert_eq!(merged, vec![put("a", 2, 3), put("a", 1, 1), put("b", 1, 1), put("c", 1, 2)]);
}

#[test]
fn a_version_set_counts_its_versions_and_files() {
    let mut set = VersionSet::new(1);
    assert_eq!(set.version_number(), 0);
    assert!(set.can_edit());
    assert_eq!(set.next_file_id(), Some(0));
    assert_eq!(set.next_file_id(), Some(1));
    assert_eq!(set.next_file_id(), Some(2));
    let removed = set
        .apply_edits(vec![
            VersionEdit::Add { level: 0, table: span(0, "a", "c") },
            VersionEdit::Add { level: 0, table: span(1, "b", "d") },
        ])
        .unwrap();
    assert!(removed.is_empty());
    assert_eq!(set.version_number(), 1);
    assert_eq!(gens(set.current(), 0), vec![1, 0]);
    let removed = set
        .apply_edits(vec![
            VersionEdit::Remove { level: 0, gen: 0 },
            VersionEdit::Remove { level: 0, gen: 1 },
            VersionEdit::Add { level: 1, table: span(2, "a", "d") },
        ])
        .unwrap();
    assert_eq!(removed, vec![0, 1]);
    assert_eq!(set.version_number(), 2);
    assert_eq!(gens(set.current(), 0), Vec::<u64>::new());
    assert_eq!(gens(set.current(), 1), vec![2]);
    // No edits: a new version all the same.
    assert_eq!(set.apply_edits(Vec::new()), Ok(Vec::new()));
    assert_eq!(set.version_number(), 3);
}

#[test]
fn edits_are_applied_all_or_none() {
    let mut set = VersionSet::new(1);
    for _ in 0..4 {
        set.next_file_id();
    }
    set.apply_edits(vec![
        VersionEdit::Add { level: 0, table: span(3, "a", "z") },
        VersionEdit::Add { level: 1, table: span(0, "a", "c") },
    ])
    .unwrap();
    assert_eq!(set.version_number(), 1);
    let result = set.apply_edits(vec![
        VersionEdit::Remove { level: 0, gen: 3 },
        VersionEdit::Add { level: 1, table: span(2, "x", "z") },
        VersionEdit::Add { level: 1, table: span(1, "c", "d") },
    ]);
    assert_eq!(result, Err(VersionError::Overlap(1)));
    // Nothing of the failed edits is in force, and no version was published.
    assert_eq!(gens(set.current(), 0), vec![3]);
    assert_eq!(gens(set.current(), 1), vec![0]);
    assert_eq!(set.current().table(1, 0).len(), 2);
    assert_eq!(set.version_number(), 1);
    assert_eq!(
        set.apply_edits(vec![
            VersionEdit::Remove { level: 1, gen: 0 },
            VersionEdit::Remove { level: 2, gen: 0 },
        ]),
        Err(VersionError::FileNotFound(0))
    );
    assert_eq!(gens(set.current(), 1), vec![0]);
    assert_eq!(set.version_number(), 1);
}

#[test]
fn the_cleaner_tries_each_file_a_set_number_of_times() {
    let mut cleaner = Cleaner::new(2);
    assert_eq!(cleaner.turn(), 0);
    assert_eq!(cleaner.next(), None);
    cleaner.resolve(true);
    assert_eq!(cleaner.next(), None);
    cleaner.enqueue(4);
    cleaner.enqueue(9);
    cleaner.enqueue(6);
    assert_eq!(cleaner.turn(), 3);
    assert_eq!(cleaner.next(), Some(4));
    cleaner.resolve(true);
    assert_eq!(cleaner.next(), Some(9));
    // A file that could not be deleted goes to the back.
    cleaner.resolve(false);
    assert_eq!(cleaner.next(), Some(6));
    cleaner.resolve(true);
    assert_eq!(cleaner.turn(), 1);
    assert_eq!(cleaner.next(), Some(9));
    // After the second failure it is given up.
    cleaner.resolve(false);
    assert_eq!(cleaner.turn(), 0);
    assert_eq!(cleaner.next(), None);
}

#[test]
fn a_copy_of_a_version_holds_the_same_tables() {
    let mut version = Version::new(1);
    version.apply(VersionEdit::Add { level: 1, table: span(1, "m", "p") }).unwrap();
    version.apply(VersionEdit::Add { level: 1, table: span(2, "a", "c") }).unwrap();
    version.apply(VersionEdit::Add { level: 0, table: table(3, vec![put("k", 2, 7)]) }).unwrap();
    let copy = version.duplicate();
    assert_eq!(copy.columns(), 1);
    for level in 0..MAX_LEVEL {
        assert_eq!(gens(&copy, level), gens(&version, level));
        for i in 0..version.level_len(level) {
            assert_eq!(copy.table(level, i).entries(), version.table(level, i).entries());
            assert_eq!(copy.table(level, i).scope(), version.table(level, i).scope());
        }
    }
    // The copy is a version of its own.
    version.apply(VersionEdit::Remove { level: 0, gen: 3 }).unwrap();
    assert_eq!(gens(&copy, 0), vec![3]);
    assert_eq!(gens(&version, 0), Vec::<u64>::new());
    let one = table(9, vec![put("a", 1, 1), put("b", 1, 2)]);
    let other = one.duplicate(1);
    assert_eq!(other.gen(), 9);
    assert_eq!(other.entries(), one.entries());
}
