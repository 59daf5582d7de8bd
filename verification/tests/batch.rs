use tonbo::option::DbOption;
use tonbo::record::{Record, RecordSchema, Value};
use tonbo::stream::{Entry, KeyBound};
use tonbo::timestamp::Timestamped;
use tonbo::version::MAX_LEVEL;
use tonbo::wal::log::{Log, LogType};
use tonbo::{batch_frames, record_frames, Projection, DB};

fn key(s: &str) -> Vec<u8> {
    s.as_bytes().to_vec()
}

fn shape() -> RecordSchema {
    RecordSchema { columns: 2, primary_key_index: 0 }
}

fn record(k: &str, v: u32) -> Record {
    Record::new(key(k), vec![Some(Value::Bytes(key(k))), Some(Value::U32(v))])
}

fn put(k: &str, ts: u32, v: u32) -> Entry {
    Entry::new(
        Timestamped::new(key(k), ts),
        Some(vec![Some(Value::Bytes(key(k))), Some(Value::U32(v))]),
    )
}

fn del(k: &str, ts: u32) -> Entry {
    Entry::new(Timestamped::new(key(k), ts), None)
}

fn open(max: usize) -> (DB, flume::Receiver<tonbo::compaction::CompactTask>) {
    let mut option = DbOption::new("db".to_string());
    option.max_mem_table_size = max;
    DB::new(option, shape())
}

fn in_memory(db: &DB) -> Vec<Entry> {
    db.scan(KeyBound::Unbounded, KeyBound::Unbounded, u32::MAX, Vec::new()).take()
}

#[test]
fn an_empty_batch_changes_nothing() {
    let (mut db, rx) = open(0);
    assert!(!db.write_batch(Vec::new(), 5));
    assert!(db.read().mutable_is_empty());
    assert_eq!(db.read().immutable_count(), 0);
    assert!(db.take_log().is_empty());
    assert!(rx.try_recv().is_err());
    assert!(in_memory(&db).is_empty());

    db.write(record("a", 1), 1);
    assert!(rx.try_recv().is_ok());
    drop(db.take_log());
    assert!(!db.write_batch(Vec::new(), 9));
    assert!(!db.commit_batch(Vec::new(), 9));
    assert_eq!(in_memory(&db), vec![put("a", 1, 1)]);
    assert!(db.take_log().is_empty());
    assert!(rx.try_recv().is_err());
    assert_eq!(db.gc_horizon(), 1);
}

#[test]
fn every_record_of_a_batch_is_stored() {
    let (mut db, _rx) = open(1 << 20);
    let records = vec![record("c", 3), record("a", 1), record("b", 2)];
    let frames = record_frames(&records, 7);
    db.write_batch(records, 7);
    assert!(!db.read().mutable_is_empty());
    assert_eq!(db.read().immutable_count(), 0);
    for level in 0..MAX_LEVEL {
        assert_eq!(db.version().level_len(level), 0);
    }
    assert_eq!(in_memory(&db), vec![put("a", 7, 1), put("b", 7, 2), put("c", 7, 3)]);
    for (k, v) in [("a", 1), ("b", 2), ("c", 3)] {
        assert_eq!(db.get(&key(k), 7, Projection::All), Some(put(k, 7, v)));
        assert_eq!(db.get(&key(k), 6, Projection::All), None);
    }
    // The log holds each record once, in the order of the batch.
    let log = db.take_log();
    assert_eq!(log, frames);
    let order: Vec<(Vec<u8>, u32, LogType)> =
        log.iter().map(|l| (l.key.value.clone(), l.key.ts, l.log_type)).collect();
    assert_eq!(
        order,
        vec![
            (key("c"), 7, LogType::First),
            (key("a"), 7, LogType::Middle),
            (key("b"), 7, LogType::Last),
        ]
    );
}

#[test]
fn the_later_write_of_a_key_in_a_batch_stands() {
    let (mut db, _rx) = open(1 << 20);
    db.write_batch(vec![record("a", 1), record("a", 2)], 3);
    assert_eq!(in_memory(&db), vec![put("a", 3, 2)]);
    assert_eq!(db.take_log().len(), 2);
}

#[test]
fn frames_of_a_batch() {
    assert_eq!(record_frames(&Vec::new(), 1), Vec::<Log>::new());
    assert_eq!(batch_frames(&Vec::new(), 1), Vec::<Log>::new());
    assert_eq!(
        record_frames(&vec![record("a", 1)], 4),
        vec![Log {
            key: Timestamped::new(key("a"), 4),
            value: Some(vec![Some(Value::Bytes(key("a"))), Some(Value::U32(1))]),
            log_type: LogType::Full,
        }]
    );
    // The entries of a batch are logged at the timestamp of the batch.
    let frames = batch_frames(&vec![put("a", 0, 1), del("b", 0), put("c", 0, 3)], 9);
    assert_eq!(
        frames,
        vec![
            Log {
                key: Timestamped::new(key("a"), 9),
                value: Some(vec![Some(Value::Bytes(key("a"))), Some(Value::U32(1))]),
                log_type: LogType::First,
            },
            Log { key: Timestamped::new(key("b"), 9), value: None, log_type: LogType::Middle },
            Log {
                key: Timestamped::new(key("c"), 9),
                value: Some(vec![Some(Value::Bytes(key("c"))), Some(Value::U32(3))]),
                log_type: LogType::Last,
            },
        ]
    );
}

#[test]
fn a_commit_appends_what_its_frames_say() {
    let (mut db, _rx) = open(1 << 20);
    let mut txn = db.transaction(4);
    txn.set(record("b", 2));
    txn.remove(key("a"));
    assert_eq!(txn.conflict(&db), None);
    let frames = txn.frames(5);
    assert_eq!(frames.len(), 2);
    assert_eq!(frames[0].key, Timestamped::new(key("a"), 5));
    assert_eq!(frames[0].value, None);
    assert_eq!(frames[0].log_type, LogType::First);
    assert_eq!(frames[1].key, Timestamped::new(key("b"), 5));
    assert_eq!(frames[1].log_type, LogType::Last);
    // Nothing was written yet.
    assert!(db.take_log().is_empty());
    assert!(in_memory(&db).is_empty());
    txn.commit(&mut db, 5).unwrap();
    assert_eq!(db.take_log(), frames);
    assert_eq!(in_memory(&db), vec![del("a", 5), put("b", 5, 2)]);
}

#[test]
fn a_conflict_is_found_before_the_commit() {
    let (mut db, _rx) = open(1 << 20);
    let mut txn = db.transaction(4);
    txn.set(record("c", 1));
    txn.set(record("a", 1));
    txn.set(record("b", 1));
    assert_eq!(txn.conflict(&db), None);
    db.write(record("c", 9), 5);
    assert_eq!(txn.conflict(&db), Some(key("c")));
    db.write(record("b", 9), 6);
    // The first key in key order.
    assert_eq!(txn.conflict(&db), Some(key("b")));
    // A write at the snapshot is none.
    db.write(record("a", 9), 4);
    assert_eq!(txn.conflict(&db), Some(key("b")));
    drop(db.take_log());
    assert_eq!(
        txn.commit(&mut db, 7),
        Err(tonbo::transaction::CommitError::WriteConflict(key("b")))
    );
    assert!(db.take_log().is_empty());
    assert_eq!(db.open_transactions(), 0);
}

#[test]
fn a_turn_on_a_fresh_database_succeeds() {
    let (mut db, _rx) = open(0);
    db.write(record("a", 1), 1);
    assert_eq!(db.minor_compaction(), Ok(()));
    assert_eq!(db.major_compaction(), Ok(()));
    assert_eq!(db.check_then_compaction(), Ok(()));
}
