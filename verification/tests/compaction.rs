use tonbo::compaction::major::major_step;
use tonbo::compaction::{gc, is_overfull, level_threshold, split, Compactor};
use tonbo::inmem::immutable::Immutable;
use tonbo::ondisk::SsTable;
use tonbo::record::Value;
use tonbo::stream::Entry;
use tonbo::timestamp::Timestamped;
use tonbo::version::edit::VersionEdit;
use tonbo::version::set::VersionSet;
use tonbo::version::Version;

fn key(s: &str) -> Vec<u8> {
    s.as_bytes().to_vec()
}

fn put(k: &str, ts: u32, v: u32) -> Entry {
    Entry::new(
        Timestamped::new(key(k), ts),
        Some(vec![Some(Value::Bytes(key(k))), Some(Value::U32(v))]),
    )
}

fn del(k: &str, ts: u32) -> Entry {
    Entry::new(Timestamped::new(key(k), ts), None)
}

fn gens(version: &Version, level: usize) -> Vec<u64> {
    (0..version.level_len(level)).map(|i| version.table(level, i).gen()).collect()
}

fn rows(version: &Version, level: usize) -> Vec<Vec<Entry>> {
    (0..version.level_len(level)).map(|i| version.table(level, i).entries()).collect()
}

fn add(set: &mut VersionSet, level: usize, entries: Vec<Entry>) -> u64 {
    let gen = set.next_file_id().unwrap();
    let table = SsTable::new(gen, Immutable::from_entries(entries, 2));
    set.apply_edits(vec![VersionEdit::Add { level, table }]).unwrap();
    gen
}

#[test]
fn a_merge_drops_what_no_reader_at_the_horizon_sees() {
    let run = vec![put("a", 5, 0), put("a", 3, 0), put("a", 1, 0), del("b", 2), put("b", 1, 0)];
    // Nothing is before the horizon.
    assert_eq!(gc(&run, 0), run);
    assert_eq!(gc(&run, 1), run);
    // Of the versions before the horizon the newest of each key stays.
    assert_eq!(gc(&run, 2), vec![put("a", 5, 0), put("a", 3, 0), put("a", 1, 0), del("b", 2)]);
    assert_eq!(gc(&run, 3), vec![put("a", 5, 0), put("a", 3, 0), del("b", 2)]);
    assert_eq!(gc(&run, 4), vec![put("a", 5, 0), put("a", 3, 0), del("b", 2)]);
    assert_eq!(gc(&run, 5), vec![put("a", 5, 0), del("b", 2)]);
    assert_eq!(gc(&run, u32::MAX), vec![put("a", 5, 0), del("b", 2)]);
    assert_eq!(gc(&Vec::new(), 3), Vec::<Entry>::new());
}

#[test]
fn a_run_is_cut_where_the_key_changes() {
    // Each entry takes 37 bytes.
    let run = vec![put("a", 2, 0), put("a", 1, 0), put("b", 1, 0), put("c", 1, 0), put("d", 1, 0)];
    assert_eq!(
        split(run.clone(), 80),
        vec![
            vec![put("a", 2, 0), put("a", 1, 0)],
            vec![put("b", 1, 0), put("c", 1, 0)],
            vec![put("d", 1, 0)],
        ]
    );
    assert_eq!(
        split(run.clone(), 111),
        vec![vec![put("a", 2, 0), put("a", 1, 0), put("b", 1, 0)], vec![put("c", 1, 0), put("d", 1, 0)]]
    );
    assert_eq!(
        split(run.clone(), 110),
        vec![
            vec![put("a", 2, 0), put("a", 1, 0)],
            vec![put("b", 1, 0), put("c", 1, 0)],
            vec![put("d", 1, 0)],
        ]
    );
    // The versions of one key stay together, however small the pieces are to be.
    assert_eq!(
        split(run.clone(), 0),
        vec![
            vec![put("a", 2, 0), put("a", 1, 0)],
            vec![put("b", 1, 0)],
            vec![put("c", 1, 0)],
            vec![put("d", 1, 0)],
        ]
    );
    assert_eq!(split(run.clone(), usize::MAX), vec![run]);
    assert_eq!(split(Vec::new(), 10), Vec::<Vec<Entry>>::new());
}

#[test]
fn thresholds_grow_by_the_magnification() {
    assert_eq!(level_threshold(10, 10, 0), Some(10));
    assert_eq!(level_threshold(10, 10, 1), Some(100));
    assert_eq!(level_threshold(10, 10, 3), Some(10_000));
    assert_eq!(level_threshold(4, 1, 6), Some(4));
    assert_eq!(level_threshold(0, 10, 2), Some(0));
    assert_eq!(level_threshold(3, 0, 0), Some(3));
    assert_eq!(level_threshold(3, 0, 2), Some(0));
    assert_eq!(level_threshold(usize::MAX, 2, 0), Some(usize::MAX));
    assert_eq!(level_threshold(usize::MAX, 2, 1), None);
    assert_eq!(level_threshold(usize::MAX, 1, 5), Some(usize::MAX));
}

#[test]
fn a_level_is_overfull_at_its_threshold() {
    assert!(!is_overfull(9, 10, 10, 0));
    assert!(is_overfull(10, 10, 10, 0));
    assert!(is_overfull(11, 10, 10, 0));
    assert!(!is_overfull(99, 10, 10, 1));
    assert!(is_overfull(100, 10, 10, 1));
    // An empty level is never overfull.
    assert!(!is_overfull(0, 0, 10, 0));
    assert!(is_overfull(1, 0, 10, 0));
    assert!(!is_overfull(usize::MAX, usize::MAX, 2, 1));
}

#[test]
fn a_step_merges_the_oldest_table_into_the_next_level() {
    let mut set = VersionSet::new(2);
    let low_a = add(&mut set, 1, vec![put("a", 1, 1), put("b", 1, 1)]);
    let low_c = add(&mut set, 1, vec![put("c", 1, 1), put("d", 1, 1)]);
    let low_x = add(&mut set, 1, vec![put("x", 1, 1)]);
    let old = add(&mut set, 0, vec![put("b", 2, 2), del("c", 2)]);
    let new = add(&mut set, 0, vec![put("a", 3, 3)]);
    assert_eq!(gens(set.current(), 0), vec![new, old]);
    assert_eq!(gens(set.current(), 1), vec![low_a, low_c, low_x]);
    let number = set.version_number();

    let mut removed = major_step(&mut set, 0, usize::MAX, 0).unwrap();
    removed.sort();
    assert_eq!(removed, vec![low_a, low_c, old]);
    assert_eq!(set.version_number(), number + 1);
    assert_eq!(gens(set.current(), 0), vec![new]);
    assert_eq!(gens(set.current(), 1), vec![5, low_x]);
    assert_eq!(
        rows(set.current(), 1),
        vec![
            vec![
                put("a", 1, 1),
                put("b", 2, 2),
                put("b", 1, 1),
                del("c", 2),
                put("c", 1, 1),
                put("d", 1, 1),
            ],
            vec![put("x", 1, 1)],
        ]
    );
}

#[test]
fn a_step_cuts_its_output_and_drops_old_versions() {
    let mut set = VersionSet::new(2);
    add(&mut set, 1, vec![put("a", 1, 1), put("b", 1, 1), put("c", 1, 1)]);
    add(&mut set, 0, vec![put("a", 2, 2), del("b", 2)]);
    let removed = major_step(&mut set, 0, 40, 2).unwrap();
    assert_eq!(removed.len(), 2);
    assert_eq!(gens(set.current(), 0), Vec::<u64>::new());
    assert_eq!(gens(set.current(), 1), vec![2, 3, 4]);
    assert_eq!(
        rows(set.current(), 1),
        vec![vec![put("a", 2, 2)], vec![del("b", 2)], vec![put("c", 1, 1)]]
    );
}

#[test]
fn major_compaction_settles_the_levels() {
    let mut set = VersionSet::new(2);
    for (i, k) in ["a", "b", "c", "d", "e"].iter().enumerate() {
        add(&mut set, 0, vec![put(k, i as u32 + 1, 0)]);
    }
    assert_eq!(set.current().level_len(0), 5);
    let done = Compactor::major_compaction(&mut set, 2, 2, usize::MAX, 0);
    assert_eq!(done.stopped, None);
    let mut removed = done.removed.clone();
    removed.sort();
    removed.dedup();
    assert_eq!(removed.len(), done.removed.len());
    // Level 0 holds fewer than 2 tables, level 1 fewer than 4.
    assert!(set.current().level_len(0) < 2);
    assert!(set.current().level_len(1) < 4);
    let mut keys = Vec::new();
    for level in 0..7 {
        for run in rows(set.current(), level) {
            for entry in run {
                keys.push(entry.key.value);
            }
        }
    }
    keys.sort();
    assert_eq!(keys, vec![key("a"), key("b"), key("c"), key("d"), key("e")]);
    for file in &done.removed {
        for level in 0..7 {
            assert!(!gens(set.current(), level).contains(file));
        }
    }
}

#[test]
fn a_settled_layout_is_left_alone() {
    let mut set = VersionSet::new(2);
    add(&mut set, 0, vec![put("a", 1, 0)]);
    let done = Compactor::major_compaction(&mut set, 5, 2, usize::MAX, 0);
    assert_eq!(done.stopped, None);
    assert!(done.removed.is_empty());
    assert_eq!(set.current().level_len(0), 1);
}
