use std::collections::BTreeSet;
use tonbo::compaction::CompactTask;
use tonbo::option::DbOption;
use tonbo::record::{Record, RecordSchema, Value};
use tonbo::stream::{Entry, KeyBound};
use tonbo::transaction::CommitError;
use tonbo::version::MAX_LEVEL;
use tonbo::wal::log::LogType;
use tonbo::{Projection, DB};

fn schema() -> RecordSchema {
    RecordSchema { columns: 3, primary_key_index: 0 }
}

fn test_record(vstring: &str, vu32: u32, vbool: Option<bool>) -> Record {
    Record::new(
        vstring.as_bytes().to_vec(),
        vec![
            Some(Value::Bytes(vstring.as_bytes().to_vec())),
            Some(Value::U32(vu32)),
            vbool.map(Value::Bool),
        ],
    )
}

fn test_items() -> Vec<Record> {
    (0..40u32).map(|i| test_record(&i.to_string(), i % 10, Some(true))).collect()
}

fn small_option() -> DbOption {
    let mut option = DbOption::new("db".to_string());
    option.max_mem_table_size = 5;
    option.immutable_chunk_num = 1;
    option.major_threshold_with_sst_size = 5;
    option.level_sst_magnification = 10;
    option.max_sst_file_size = 2 * 1024 * 1024;
    option
}

fn drain(db: &mut DB, rx: &flume::Receiver<CompactTask>) {
    while let Ok(task) = rx.try_recv() {
        db.handle(task).unwrap();
    }
}

fn all_keys(db: &DB) -> Vec<Vec<u8>> {
    let version = db.version();
    let mut keys = Vec::new();
    for level in 0..MAX_LEVEL {
        for i in 0..version.level_len(level) {
            for entry in version.table(level, i).entries() {
                keys.push(entry.key.value);
            }
        }
    }
    keys.sort();
    keys
}

fn all_files(db: &DB) -> Vec<u64> {
    let version = db.version();
    let mut files = Vec::new();
    for level in 0..MAX_LEVEL {
        for i in 0..version.level_len(level) {
            files.push(version.table(level, i).gen());
        }
    }
    files
}

fn vstring(entry: &Entry) -> Vec<u8> {
    entry.key.value.clone()
}

#[test]
fn read_from_disk() {
    let (mut db, rx) = DB::new(small_option(), schema());

    for item in test_items() {
        db.write(item, 0);
        drain(&mut db, &rx);
    }

    let tx = db.transaction(0);
    let key = 20.to_string().into_bytes();
    let option1 = tx.get(&db, &key, Projection::All).unwrap();

    assert_eq!(
        option1.get().map(|row| row[0].clone()),
        Some(Some(Value::Bytes(b"20".to_vec())))
    );
    assert_eq!(option1.get().map(|row| row[1].clone()), Some(Some(Value::U32(0))));
    assert_eq!(option1.get().map(|row| row[2].clone()), Some(Some(Value::Bool(true))));
}

#[test]
fn spill_and_compact_keeps_every_key() {
    let (mut db, rx) = DB::new(small_option(), schema());
    for item in test_items() {
        db.write(item, 0);
        drain(&mut db, &rx);
    }
    assert!(db.version().level_len(0) <= 4);
    let mut expected: Vec<Vec<u8>> = (0..40u32).map(|i| i.to_string().into_bytes()).collect();
    expected.sort();
    assert_eq!(all_keys(&db), expected);
    for l in 1..MAX_LEVEL {
        let version = db.version();
        for i in 1..version.level_len(l) {
            assert!(version.table(l, i - 1).scope().max < version.table(l, i).scope().min);
        }
    }
}

#[test]
fn single_writer_read_through() {
    let (mut db, _rx) = DB::new(DbOption::new("db".to_string()), schema());
    db.write(test_record("hello", 12, Some(true)), 1);
    db.write(test_record("world", 12, None), 1);
    db.check_then_compaction().unwrap();
    assert_eq!(db.read().immutable_count(), 1);
    assert!(db.read().mutable_is_empty());

    let found = db.scan(KeyBound::Unbounded, KeyBound::Unbounded, 1, Vec::new()).take();
    assert_eq!(found.len(), 2);
    assert_eq!(found[0].key.value, b"hello".to_vec());
    assert_eq!(found[0].key.ts, 1);
    assert_eq!(
        found[0].value,
        Some(vec![Some(Value::Bytes(b"hello".to_vec())), Some(Value::U32(12)), Some(Value::Bool(true))])
    );
    assert_eq!(found[1].key.value, b"world".to_vec());
    assert_eq!(found[1].key.ts, 1);
    assert_eq!(
        found[1].value,
        Some(vec![Some(Value::Bytes(b"world".to_vec())), Some(Value::U32(12)), None])
    );
}

#[test]
fn mvcc_visibility() {
    let (mut db, _rx) = DB::new(DbOption::new("db".to_string()), schema());
    db.write(test_record("k", 1, Some(true)), 1);
    db.write(test_record("k", 2, Some(false)), 3);
    let key = b"k".to_vec();
    let at2 = db.get(&key, 2, Projection::All).unwrap();
    assert_eq!(at2.key.ts, 1);
    assert_eq!(at2.value.unwrap()[1], Some(Value::U32(1)));
    let at3 = db.get(&key, 3, Projection::All).unwrap();
    assert_eq!(at3.key.ts, 3);
    assert_eq!(at3.value.unwrap()[1], Some(Value::U32(2)));
    assert!(db.get(&key, 0, Projection::All).is_none());
}

#[test]
fn tombstone_shadowing() {
    let (mut db, _rx) = DB::new(DbOption::new("db".to_string()), schema());
    let mut first = db.transaction(0);
    first.set(test_record("k", 1, Some(true)));
    first.commit(&mut db, 1).unwrap();
    let mut second = db.transaction(1);
    second.remove(b"k".to_vec());
    second.commit(&mut db, 2).unwrap();

    let key = b"k".to_vec();
    let at2 = db.transaction(2);
    assert!(at2.get(&db, &key, Projection::All).is_none());
    let shown = db.get(&key, 2, Projection::All).unwrap();
    assert_eq!(shown.key.ts, 2);
    assert!(shown.is_tombstone());
    let at1 = db.transaction(1);
    let found = at1.get(&db, &key, Projection::All).unwrap();
    assert_eq!(found.key.ts, 1);
    assert_eq!(found.value.unwrap()[1], Some(Value::U32(1)));
}

#[test]
fn tombstone_shadows_after_freeze() {
    let (mut db, _rx) = DB::new(DbOption::new("db".to_string()), schema());
    db.write(test_record("k", 1, Some(true)), 1);
    db.check_then_compaction().unwrap();
    let mut txn = db.transaction(1);
    txn.remove(b"k".to_vec());
    txn.commit(&mut db, 2).unwrap();
    let key = b"k".to_vec();
    assert!(db.get(&key, 5, Projection::All).unwrap().is_tombstone());
    assert!(!db.get(&key, 1, Projection::All).unwrap().is_tombstone());
}

#[test]
fn write_conflict() {
    let (mut db, _rx) = DB::new(DbOption::new("db".to_string()), schema());
    let mut first = db.transaction(10);
    let mut second = db.transaction(10);
    first.set(test_record("k", 1, None));
    second.set(test_record("k", 2, None));
    assert_eq!(first.commit(&mut db, 11), Ok(()));
    assert_eq!(second.commit(&mut db, 12), Err(CommitError::WriteConflict(b"k".to_vec())));
    let found = db.get(&b"k".to_vec(), 12, Projection::All).unwrap();
    assert_eq!(found.key.ts, 11);
    assert_eq!(found.value.unwrap()[1], Some(Value::U32(1)));
    assert_eq!(db.open_transactions(), 0);
}

#[test]
fn conflict_names_the_first_key_in_order() {
    let (mut db, _rx) = DB::new(DbOption::new("db".to_string()), schema());
    db.write(test_record("b", 0, None), 5);
    db.write(test_record("c", 0, None), 5);
    let mut txn = db.transaction(4);
    txn.set(test_record("c", 1, None));
    txn.set(test_record("a", 1, None));
    txn.set(test_record("b", 1, None));
    assert_eq!(txn.keys(), vec![b"a".to_vec(), b"b".to_vec(), b"c".to_vec()]);
    assert_eq!(txn.commit(&mut db, 6), Err(CommitError::WriteConflict(b"b".to_vec())));
    assert!(db.get(&b"a".to_vec(), 10, Projection::All).is_none());
}

#[test]
fn a_write_at_the_snapshot_is_no_conflict() {
    let (mut db, _rx) = DB::new(DbOption::new("db".to_string()), schema());
    db.write(test_record("k", 0, None), 10);
    assert!(!db.check_conflict(&b"k".to_vec(), 10));
    assert!(db.check_conflict(&b"k".to_vec(), 9));
    let mut txn = db.transaction(10);
    txn.set(test_record("k", 1, None));
    assert_eq!(txn.commit(&mut db, 11), Ok(()));
}

#[test]
fn freeze_signal_coalesces() {
    let mut option = DbOption::new("db".to_string());
    option.max_mem_table_size = 5;
    let (mut db, rx) = DB::new(option, schema());
    assert_eq!(rx.capacity(), Some(1));
    assert!(db.write(test_record("a", 0, None), 0));
    assert!(db.write(test_record("b", 0, None), 0));
    assert_eq!(rx.try_recv(), Ok(CompactTask::Freeze));
    assert!(rx.try_recv().is_err());
}

#[test]
fn no_signal_below_the_threshold() {
    let (mut db, rx) = DB::new(DbOption::new("db".to_string()), schema());
    assert!(!db.write(test_record("a", 0, None), 0));
    assert!(rx.try_recv().is_err());
    assert!(!db.write_batch(Vec::new(), 0));
}

#[test]
fn freeze_waits_for_open_transactions() {
    let (mut db, _rx) = DB::new(DbOption::new("db".to_string()), schema());
    db.write(test_record("a", 0, None), 1);
    let txn = db.transaction(1);
    db.check_then_compaction().unwrap();
    assert!(!db.read().mutable_is_empty());
    assert_eq!(db.read().immutable_count(), 0);
    txn.abort(&mut db);
    db.check_then_compaction().unwrap();
    assert!(db.read().mutable_is_empty());
    assert_eq!(db.read().immutable_count(), 1);
}

#[test]
fn write_batch_frames_the_log() {
    let (mut db, _rx) = DB::new(DbOption::new("db".to_string()), schema());
    db.write_batch(vec![test_record("a", 0, None)], 1);
    db.write_batch(
        vec![
            test_record("b", 0, None),
            test_record("c", 0, None),
            test_record("d", 0, None),
            test_record("e", 0, None),
        ],
        2,
    );
    db.write_batch(vec![test_record("f", 0, None), test_record("g", 0, None)], 3);
    let log = db.take_log();
    let tags: Vec<LogType> = log.iter().map(|l| l.log_type).collect();
    assert_eq!(
        tags,
        vec![
            LogType::Full,
            LogType::First,
            LogType::Middle,
            LogType::Middle,
            LogType::Last,
            LogType::First,
            LogType::Last,
        ]
    );
    assert_eq!(log[3].key.value, b"d".to_vec());
    assert_eq!(log[3].key.ts, 2);
    assert!(db.take_log().is_empty());
}

#[test]
fn commit_logs_removals_as_tombstones() {
    let (mut db, _rx) = DB::new(DbOption::new("db".to_string()), schema());
    let mut txn = db.transaction(0);
    txn.set(test_record("b", 0, None));
    txn.remove(b"a".to_vec());
    txn.commit(&mut db, 4).unwrap();
    let log = db.take_log();
    assert_eq!(log.len(), 2);
    assert_eq!((log[0].log_type, log[0].key.value.clone(), log[0].value.is_none()), (LogType::First, b"a".to_vec(), true));
    assert_eq!((log[1].log_type, log[1].key.value.clone(), log[1].value.is_some()), (LogType::Last, b"b".to_vec(), true));
}

#[test]
fn size_estimate_counts_the_bytes_of_the_log_form() {
    let (mut db, _rx) = DB::new(DbOption::new("db".to_string()), schema());
    // key: 8 + 1 + 4; value: 1 + 8 + (9 + 1) + 5 + 1
    db.write(test_record("k", 1, None), 1);
    assert_eq!(db.read().options().max_mem_table_size, 8388608);
    let log = db.take_log();
    let (_, entry) = log.into_iter().next().unwrap().into_entry();
    assert_eq!(entry.size(), 38);
    assert_eq!(entry.encode().len(), 38);
}

#[test]
fn scan_merges_memory_and_segments() {
    let (mut db, rx) = DB::new(small_option(), schema());
    for item in test_items() {
        db.write(item, 1);
        drain(&mut db, &rx);
    }
    db.write(test_record("20", 99, None), 2);
    db.write(test_record("zz", 1, None), 3);
    let found = db
        .scan(
            KeyBound::Included(b"2".to_vec()),
            KeyBound::Excluded(b"21".to_vec()),
            2,
            Vec::new(),
        )
        .take();
    let keys: Vec<(Vec<u8>, u32)> = found.iter().map(|e| (e.key.value.clone(), e.key.ts)).collect();
    assert_eq!(
        keys,
        vec![(b"2".to_vec(), 1), (b"20".to_vec(), 2), (b"20".to_vec(), 1)]
    );
}

#[test]
fn empty_range_yields_nothing() {
    let (mut db, _rx) = DB::new(DbOption::new("db".to_string()), schema());
    db.write(test_record("a", 0, None), 0);
    db.write(test_record("m", 0, None), 0);
    db.write(test_record("z", 0, None), 0);
    let found = db
        .scan(KeyBound::Included(b"z".to_vec()), KeyBound::Included(b"a".to_vec()), 9, Vec::new())
        .take();
    assert!(found.is_empty());
    let found = db
        .scan(KeyBound::Excluded(b"m".to_vec()), KeyBound::Included(b"m".to_vec()), 9, Vec::new())
        .take();
    assert!(found.is_empty());
}

#[test]
fn limit_counts_keys_not_versions() {
    let (mut db, _rx) = DB::new(DbOption::new("db".to_string()), schema());
    db.write(test_record("a", 1, None), 1);
    db.write(test_record("a", 2, None), 2);
    db.write(test_record("b", 1, None), 1);
    db.write(test_record("c", 1, None), 1);
    let scan = |limit| {
        db.scan(KeyBound::Unbounded, KeyBound::Unbounded, 9, Vec::new()).limit(limit).take()
    };
    assert_eq!(scan(Some(0)).len(), 0);
    assert_eq!(scan(Some(1)).len(), 2);
    assert_eq!(scan(Some(2)).len(), 3);
    assert_eq!(scan(Some(7)).len(), 4);
    assert_eq!(scan(None).len(), 4);
}

#[test]
fn projection_blanks_left_out_columns() {
    let (mut db, rx) = DB::new(small_option(), schema());
    db.write(test_record("a", 7, Some(true)), 1);
    drain(&mut db, &rx);
    db.write(test_record("b", 8, Some(false)), 1);
    let found = db
        .scan(KeyBound::Unbounded, KeyBound::Unbounded, 1, Vec::new())
        .projection(vec![2])
        .take();
    assert_eq!(found.len(), 2);
    assert_eq!(found[0].key.value, b"a".to_vec());
    assert_eq!(found[0].key.ts, 1);
    assert_eq!(
        found[0].value,
        Some(vec![Some(Value::Bytes(b"a".to_vec())), None, Some(Value::Bool(true))])
    );
    assert_eq!(
        found[1].value,
        Some(vec![Some(Value::Bytes(b"b".to_vec())), None, Some(Value::Bool(false))])
    );
    let got = db.get(&b"b".to_vec(), 1, Projection::Parts(vec![1, 17])).unwrap();
    assert_eq!(got.value, Some(vec![Some(Value::Bytes(b"b".to_vec())), Some(Value::U32(8)), None]));
}

#[test]
fn transaction_reads_its_own_writes() {
    let (mut db, _rx) = DB::new(DbOption::new("db".to_string()), schema());
    db.write(test_record("a", 1, None), 1);
    db.write(test_record("b", 1, None), 1);
    let mut txn = db.transaction(1);
    txn.set(test_record("a", 2, None));
    txn.remove(b"b".to_vec());
    txn.set(test_record("c", 3, None));
    assert_eq!(txn.get(&db, &b"a".to_vec(), Projection::All).unwrap().value.unwrap()[1], Some(Value::U32(2)));
    assert!(txn.get(&db, &b"b".to_vec(), Projection::All).is_none());
    assert_eq!(txn.get(&db, &b"c".to_vec(), Projection::Parts(vec![])).unwrap().value.unwrap()[1], None);
    let seen = txn.scan(&db, KeyBound::Unbounded, KeyBound::Unbounded).take();
    let shape: Vec<(Vec<u8>, bool)> = seen.iter().map(|e| (e.key.value.clone(), e.value.is_some())).collect();
    assert_eq!(
        shape,
        vec![(b"a".to_vec(), true), (b"b".to_vec(), false), (b"c".to_vec(), true)]
    );
    // Nothing is written before the commit.
    assert_eq!(db.get(&b"a".to_vec(), 9, Projection::All).unwrap().value.unwrap()[1], Some(Value::U32(1)));
    txn.commit(&mut db, 2).unwrap();
    assert_eq!(db.get(&b"a".to_vec(), 9, Projection::All).unwrap().value.unwrap()[1], Some(Value::U32(2)));
    assert!(db.get(&b"b".to_vec(), 9, Projection::All).unwrap().is_tombstone());
}

#[test]
fn compaction_keeps_what_readers_at_the_horizon_see() {
    let mut option = small_option();
    option.major_threshold_with_sst_size = 2;
    let (mut db, rx) = DB::new(option, schema());
    for round in 1..=6u32 {
        for key in ["a", "b", "c"] {
            db.write(test_record(key, round, None), round);
            drain(&mut db, &rx);
        }
    }
    db.write(test_record("b", 0, None), 7);
    let reader = db.transaction(4);
    let before: Vec<Option<Entry>> = ["a", "b", "c", "d"]
        .iter()
        .flat_map(|k| (4..=8).map(|ts| db.get(&k.as_bytes().to_vec(), ts, Projection::All)).collect::<Vec<_>>())
        .collect();
    db.check_then_compaction().unwrap();
    let after: Vec<Option<Entry>> = ["a", "b", "c", "d"]
        .iter()
        .flat_map(|k| (4..=8).map(|ts| db.get(&k.as_bytes().to_vec(), ts, Projection::All)).collect::<Vec<_>>())
        .collect();
    assert_eq!(before, after);
    reader.abort(&mut db);
}

#[test]
fn major_compaction_drops_superseded_versions() {
    let mut option = small_option();
    option.major_threshold_with_sst_size = 2;
    let (mut db, rx) = DB::new(option, schema());
    for round in 1..=8u32 {
        db.write(test_record("a", round, None), round);
        drain(&mut db, &rx);
    }
    // No transaction is open: only the newest version of the key is of use.
    let versions = all_keys(&db).len();
    assert!(versions < 8);
    assert_eq!(db.get(&b"a".to_vec(), 8, Projection::All).unwrap().value.unwrap()[1], Some(Value::U32(8)));
}

#[test]
fn cleaner_correctness() {
    let mut option = small_option();
    option.major_threshold_with_sst_size = 2;
    let (mut db, rx) = DB::new(option, schema());
    let mut provider: BTreeSet<u64> = BTreeSet::new();
    let mut deleted: BTreeSet<u64> = BTreeSet::new();
    let mut majors = 0;
    let layout = |db: &DB| -> BTreeSet<u64> {
        let version = db.version();
        let mut files = BTreeSet::new();
        for level in 0..MAX_LEVEL {
            for i in 0..version.level_len(level) {
                files.insert(version.table(level, i).gen());
            }
        }
        files
    };
    for item in test_items() {
        db.write(item, 0);
        while let Ok(task) = rx.try_recv() {
            let before = layout(&db);
            db.handle(task).unwrap();
            let after = layout(&db);
            provider.extend(after.iter().copied());
            let gone: Vec<u64> = before.difference(&after).copied().collect();
            if !gone.is_empty() {
                majors += 1;
            }
            for _ in 0..db.deletions_due() {
                let file = db.next_to_delete().unwrap();
                assert!(!after.contains(&file));
                assert!(provider.remove(&file));
                deleted.insert(file);
                db.resolve_delete(true);
            }
            assert!(gone.iter().all(|f| deleted.contains(f)));
            assert_eq!(provider, after);
        }
    }
    assert!(majors >= 2);
    assert_eq!(db.next_to_delete(), None);
}

#[test]
fn a_file_that_cannot_be_deleted_is_given_up() {
    let mut option = small_option();
    option.major_threshold_with_sst_size = 1;
    let (mut db, rx) = DB::new(option, schema());
    db.write(test_record("a", 0, None), 0);
    drain(&mut db, &rx);
    let file = db.next_to_delete().unwrap();
    assert_eq!(db.deletions_due(), 1);
    db.resolve_delete(false);
    assert_eq!(db.next_to_delete(), Some(file));
    db.resolve_delete(false);
    assert_eq!(db.next_to_delete(), Some(file));
    db.resolve_delete(false);
    assert_eq!(db.next_to_delete(), None);
    assert_eq!(db.deletions_due(), 0);
    db.resolve_delete(false);
    assert_eq!(db.next_to_delete(), None);
}

#[test]
fn horizon_is_the_oldest_open_snapshot() {
    let (mut db, _rx) = DB::new(DbOption::new("db".to_string()), schema());
    assert_eq!(db.gc_horizon(), 0);
    db.write(test_record("a", 0, None), 7);
    db.write(test_record("a", 0, None), 3);
    assert_eq!(db.gc_horizon(), 7);
    let first = db.transaction(5);
    let second = db.transaction(2);
    let third = db.transaction(9);
    assert_eq!(db.gc_horizon(), 2);
    second.abort(&mut db);
    assert_eq!(db.gc_horizon(), 5);
    first.abort(&mut db);
    third.abort(&mut db);
    assert_eq!(db.gc_horizon(), 7);
}

#[test]
fn files_wait_for_the_transactions_that_may_read_them() {
    let mut option = small_option();
    option.major_threshold_with_sst_size = 2;
    let (mut db, _rx) = DB::new(option, schema());
    db.write(test_record("a", 0, None), 1);
    db.minor_compaction().unwrap();
    db.write(test_record("b", 0, None), 2);
    db.minor_compaction().unwrap();
    db.write(test_record("c", 0, None), 3);
    db.minor_compaction().unwrap();
    assert_eq!(db.version().level_len(0), 3);
    assert_eq!(db.version().level_len(1), 0);
    assert_eq!(db.deletions_due(), 0);

    let reader = db.transaction(3);
    db.major_compaction().unwrap();
    assert!(db.version().level_len(0) < 3);
    assert!(db.version().level_len(1) > 0);
    // The merged files wait for the transaction that may still read them.
    assert_eq!(db.deletions_due(), 0);
    assert_eq!(db.next_to_delete(), None);
    let found = reader.get(&db, &b"a".to_vec(), Projection::All).unwrap();
    assert_eq!(vstring(&found), b"a".to_vec());

    reader.abort(&mut db);
    assert!(db.deletions_due() > 0);
    let first = db.next_to_delete().unwrap();
    assert!(all_files(&db).iter().all(|gen| *gen != first));
}

#[test]
fn minor_compaction_leaves_the_levels_unmerged() {
    let mut option = small_option();
    option.major_threshold_with_sst_size = 1;
    let (mut db, _rx) = DB::new(option, schema());
    for (i, key) in ["a", "b", "c", "d"].iter().enumerate() {
        db.write(test_record(key, 0, None), i as u32 + 1);
        db.minor_compaction().unwrap();
    }
    assert_eq!(db.version().level_len(0), 4);
    assert_eq!(db.deletions_due(), 0);
    db.major_compaction().unwrap();
    assert!(db.version().level_len(0) < 4);
    assert!(db.deletions_due() > 0);
    let keys: Vec<Vec<u8>> = all_keys(&db);
    assert_eq!(keys, vec![b"a".to_vec(), b"b".to_vec(), b"c".to_vec(), b"d".to_vec()]);
}

#[test]
fn minor_compaction_waits_for_open_transactions() {
    let (mut db, _rx) = DB::new(small_option(), schema());
    db.write(test_record("a", 0, None), 1);
    let reader = db.transaction(1);
    db.minor_compaction().unwrap();
    assert_eq!(db.version().level_len(0), 0);
    reader.abort(&mut db);
    db.minor_compaction().unwrap();
    assert_eq!(db.version().level_len(0), 1);
}

#[test]
fn deeper_levels_hold_disjoint_key_ranges() {
    let mut option = small_option();
    option.major_threshold_with_sst_size = 2;
    option.level_sst_magnification = 2;
    option.max_sst_file_size = 100;
    let (mut db, rx) = DB::new(option, schema());
    for (i, item) in test_items().into_iter().enumerate() {
        db.write(item, i as u32);
        drain(&mut db, &rx);
    }
    let version = db.version();
    let mut deep = 0;
    for level in 1..MAX_LEVEL {
        let n = version.level_len(level);
        deep += n;
        for i in 0..n {
            let scope = version.table(level, i).scope();
            assert!(scope.min <= scope.max);
            for j in 0..n {
                if i != j {
                    assert!(!scope.overlaps(version.table(level, j).scope()));
                }
            }
            if i + 1 < n {
                assert!(scope.max < version.table(level, i + 1).scope().min);
            }
        }
    }
    assert!(deep > 2);
    let keys: BTreeSet<Vec<u8>> = all_keys(&db).into_iter().collect();
    assert_eq!(keys.len(), 40);
    // Every file of the layout has a name of its own.
    let files = all_files(&db);
    let names: BTreeSet<u64> = files.iter().copied().collect();
    assert_eq!(names.len(), files.len());
}
