use tonbo::compaction::CompactTask;
use tonbo::option::DbOption;
use tonbo::record::{Record, RecordSchema, Value};
use tonbo::stream::{Entry, KeyBound};
use tonbo::timestamp::Timestamped;
use tonbo::version::Version;
use tonbo::wal::log::LogType;
use tonbo::{Projection, Scan, Schema};

fn key(s: &str) -> Vec<u8> {
    s.as_bytes().to_vec()
}

fn record(k: &str, v: u32) -> Record {
    Record::new(key(k), vec![Some(Value::Bytes(key(k))), Some(Value::U32(v))])
}

fn put(k: &str, ts: u32, v: u32) -> Entry {
    Entry::new(
        Timestamped::new(key(k), ts),
        Some(vec![Some(Value::Bytes(key(k))), Some(Value::U32(v))]),
    )
}

fn del(k: &str, ts: u32) -> Entry {
    Entry::new(Timestamped::new(key(k), ts), None)
}

fn shape() -> RecordSchema {
    RecordSchema { columns: 2, primary_key_index: 0 }
}

fn open(max: usize) -> (Schema, flume::Receiver<CompactTask>) {
    let mut option = DbOption::new("db".to_string());
    option.max_mem_table_size = max;
    let (tx, rx) = flume::bounded(1);
    (Schema::new(option, shape(), tx), rx)
}

#[test]
fn a_schema_tells_when_the_table_is_too_large() {
    // Each record takes 37 bytes, a removal 14.
    let (mut schema, _rx) = open(80);
    assert!(schema.mutable_is_empty());
    assert!(!schema.write(LogType::Full, record("a", 1), 1));
    assert!(!schema.write(LogType::Full, record("b", 1), 1));
    assert!(!schema.mutable_is_empty());
    // 88 bytes
    assert!(schema.remove(LogType::Full, key("a"), 2));
    assert!(schema.write(LogType::Full, record("c", 1), 2));
    assert_eq!(schema.options().max_mem_table_size, 80);
    assert_eq!(schema.shape(), shape());
}

#[test]
fn the_threshold_itself_is_not_too_large() {
    let (mut schema, _rx) = open(37);
    assert!(!schema.write(LogType::Full, record("a", 1), 1));
    assert!(schema.remove(LogType::Full, key("a"), 2));
}

#[test]
fn a_schema_reads_memory_over_the_segments() {
    let (mut schema, _rx) = open(1 << 20);
    let version = Version::new(2);
    schema.write(LogType::Full, record("a", 1), 1);
    schema.freeze(0);
    assert_eq!(schema.immutable_count(), 1);
    assert!(schema.mutable_is_empty());
    schema.write(LogType::Full, record("a", 3), 3);
    schema.remove(LogType::Full, key("b"), 2);
    schema.freeze(1);
    schema.write(LogType::Full, record("b", 4), 4);
    assert_eq!(schema.immutable_count(), 2);

    assert_eq!(schema.get(&version, &key("a"), 0, Projection::All), None);
    assert_eq!(schema.get(&version, &key("a"), 1, Projection::All), Some(put("a", 1, 1)));
    assert_eq!(schema.get(&version, &key("a"), 2, Projection::All), Some(put("a", 1, 1)));
    assert_eq!(schema.get(&version, &key("a"), 9, Projection::All), Some(put("a", 3, 3)));
    // A point read shows a tombstone as it is.
    assert_eq!(schema.get(&version, &key("b"), 3, Projection::All), Some(del("b", 2)));
    assert_eq!(schema.get(&version, &key("b"), 4, Projection::All), Some(put("b", 4, 4)));
    // The read is of the key itself, not of the key that follows.
    assert_eq!(schema.get(&version, &key("aa"), 9, Projection::All), None);
    assert_eq!(schema.get(&version, &key(""), 9, Projection::All), None);
    assert_eq!(
        schema.get(&version, &key("a"), 9, Projection::Parts(vec![1])),
        Some(put("a", 3, 3))
    );
    assert_eq!(
        schema.get(&version, &key("a"), 9, Projection::Parts(vec![])),
        Some(Entry::new(Timestamped::new(key("a"), 3), Some(vec![Some(Value::Bytes(key("a"))), None])))
    );

    // Conflicts are looked for in memory, frozen or not.
    assert!(schema.check_conflict(&key("a"), 0));
    assert!(schema.check_conflict(&key("a"), 2));
    assert!(!schema.check_conflict(&key("a"), 3));
    assert!(schema.check_conflict(&key("b"), 3));
    assert!(!schema.check_conflict(&key("b"), 4));
    assert!(!schema.check_conflict(&key("c"), 0));

    let all = Scan::new(
        &schema,
        (KeyBound::Unbounded, KeyBound::Unbounded),
        u32::MAX,
        &version,
        Vec::new(),
    )
    .take();
    assert_eq!(all, vec![put("a", 3, 3), put("a", 1, 1), put("b", 4, 4), del("b", 2)]);
    let one = Scan::new(
        &schema,
        (KeyBound::Unbounded, KeyBound::Unbounded),
        u32::MAX,
        &version,
        Vec::new(),
    )
    .limit(Some(1))
    .projection(vec![1])
    .take();
    assert_eq!(one, vec![put("a", 3, 3), put("a", 1, 1)]);
    let extra = Scan::new(
        &schema,
        (KeyBound::Included(key("b")), KeyBound::Unbounded),
        3,
        &version,
        vec![vec![put("b", 3, 9), put("c", 1, 9)]],
    )
    .take();
    assert_eq!(extra, vec![put("b", 3, 9), del("b", 2), put("c", 1, 9)]);

    // The oldest segment leaves first.
    let (gen, oldest) = schema.pop_oldest();
    assert_eq!(gen, 0);
    assert_eq!(oldest.entries(), vec![put("a", 1, 1)]);
    let (gen, newer) = schema.pop_oldest();
    assert_eq!(gen, 1);
    assert_eq!(newer.entries(), vec![put("a", 3, 3), del("b", 2)]);
    assert_eq!(schema.immutable_count(), 0);
}

#[test]
fn the_log_waits_until_it_is_taken() {
    let (mut schema, _rx) = open(1 << 20);
    schema.write(LogType::First, record("a", 1), 5);
    schema.remove(LogType::Last, key("b"), 5);
    schema.freeze(0);
    let log = schema.take_log();
    assert_eq!(log.len(), 2);
    assert_eq!(log[0].log_type, LogType::First);
    assert_eq!(log[0].key, Timestamped::new(key("a"), 5));
    assert_eq!(log[1].log_type, LogType::Last);
    assert_eq!(log[1].value, None);
    assert!(schema.take_log().is_empty());
}

#[test]
fn the_channel_holds_one_task() {
    let (schema, rx) = open(1 << 20);
    assert!(schema.signal(CompactTask::Freeze));
    assert!(!schema.signal(CompactTask::Freeze));
    assert_eq!(rx.try_recv(), Ok(CompactTask::Freeze));
    assert!(rx.try_recv().is_err());
    assert!(schema.signal(CompactTask::Freeze));
    drop(rx);
    assert!(!schema.signal(CompactTask::Freeze));
}
