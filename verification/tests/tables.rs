use tonbo::inmem::immutable::Immutable;
use tonbo::inmem::mutable::{upsert, Mutable};
use tonbo::ondisk::SsTable;
use tonbo::record::{ProjectionMask, Record, Value};
use tonbo::stream::merge::{merge_runs, merge_two, MergeStream};
use tonbo::stream::{limit_run, lower_bound, scan_run, Entry, KeyBound};
use tonbo::timestamp::Timestamped;
use tonbo::wal::log::LogType;

fn key(s: &str) -> Vec<u8> {
    s.as_bytes().to_vec()
}

fn put(k: &str, ts: u32, v: u32) -> Entry {
    Entry::new(
        Timestamped::new(key(k), ts),
        Some(vec![Some(Value::Bytes(key(k))), Some(Value::U32(v))]),
    )
}

fn del(k: &str, ts: u32) -> Entry {
    Entry::new(Timestamped::new(key(k), ts), None)
}

fn record(k: &str, v: u32) -> Record {
    Record::new(key(k), vec![Some(Value::Bytes(key(k))), Some(Value::U32(v))])
}

fn stamps(run: &[Entry]) -> Vec<(Vec<u8>, u32)> {
    run.iter().map(|e| (e.key.value.clone(), e.key.ts)).collect()
}

fn sample() -> Vec<Entry> {
    vec![put("a", 3, 30), put("a", 1, 10), del("b", 2), put("b", 1, 11), put("c", 5, 50)]
}

#[test]
fn scan_of_a_run_keeps_what_is_visible() {
    let all = ProjectionMask::all();
    let out = scan_run(&sample(), &KeyBound::Unbounded, &KeyBound::Unbounded, 2, &all);
    assert_eq!(out, vec![put("a", 1, 10), del("b", 2), put("b", 1, 11)]);
    let out =
        scan_run(&sample(), &KeyBound::Included(key("b")), &KeyBound::Excluded(key("c")), 9, &all);
    assert_eq!(out, vec![del("b", 2), put("b", 1, 11)]);
    let out =
        scan_run(&sample(), &KeyBound::Excluded(key("a")), &KeyBound::Included(key("c")), 9, &all);
    assert_eq!(stamps(&out), vec![(key("b"), 2), (key("b"), 1), (key("c"), 5)]);
    let out = scan_run(&sample(), &KeyBound::Unbounded, &KeyBound::Unbounded, 0, &all);
    assert!(out.is_empty());
    // Lower above upper: nothing.
    let out =
        scan_run(&sample(), &KeyBound::Included(key("c")), &KeyBound::Included(key("a")), 9, &all);
    assert!(out.is_empty());
    let only_key = ProjectionMask::leaves(4, &vec![2]);
    let out = scan_run(&sample(), &KeyBound::Unbounded, &KeyBound::Unbounded, 1, &only_key);
    assert_eq!(
        out,
        vec![
            Entry::new(Timestamped::new(key("a"), 1), Some(vec![Some(Value::Bytes(key("a"))), None])),
            Entry::new(Timestamped::new(key("b"), 1), Some(vec![Some(Value::Bytes(key("b"))), None])),
        ]
    );
}

#[test]
fn lower_bound_finds_the_first_version_at_or_after() {
    let run = sample();
    assert_eq!(lower_bound(&run, &key("a"), u32::MAX), 0);
    assert_eq!(lower_bound(&run, &key("a"), 3), 0);
    assert_eq!(lower_bound(&run, &key("a"), 2), 1);
    assert_eq!(lower_bound(&run, &key("a"), 0), 2);
    assert_eq!(lower_bound(&run, &key("b"), 1), 3);
    assert_eq!(lower_bound(&run, &key("bb"), 9), 4);
    assert_eq!(lower_bound(&run, &key("c"), 4), 5);
    assert_eq!(lower_bound(&run, &key(""), 0), 0);
    assert_eq!(lower_bound(&Vec::new(), &key("a"), 0), 0);
}

#[test]
fn a_limit_counts_keys() {
    assert_eq!(limit_run(sample(), None), sample());
    assert_eq!(limit_run(sample(), Some(0)), Vec::<Entry>::new());
    assert_eq!(limit_run(sample(), Some(1)), vec![put("a", 3, 30), put("a", 1, 10)]);
    assert_eq!(stamps(&limit_run(sample(), Some(2))).len(), 4);
    assert_eq!(limit_run(sample(), Some(3)), sample());
    assert_eq!(limit_run(sample(), Some(usize::MAX)), sample());
}

#[test]
fn merging_two_runs_prefers_the_first() {
    let hi = vec![put("a", 2, 1), put("b", 1, 1)];
    let lo = vec![put("a", 3, 2), put("a", 2, 2), put("b", 1, 2), put("c", 1, 2)];
    let out = merge_two(&hi, &lo);
    assert_eq!(out, vec![put("a", 3, 2), put("a", 2, 1), put("b", 1, 1), put("c", 1, 2)]);
    assert_eq!(merge_two(&hi, &Vec::new()), hi);
    assert_eq!(merge_two(&Vec::new(), &lo), lo);
}

#[test]
fn merging_runs_yields_each_version_once_in_order() {
    let runs = vec![
        vec![put("b", 4, 0), del("c", 4)],
        Vec::new(),
        vec![put("a", 1, 1), put("b", 4, 1)],
        vec![put("a", 1, 2), del("c", 4), put("d", 1, 2)],
    ];
    let out = merge_runs(&runs);
    assert_eq!(out, vec![put("a", 1, 1), put("b", 4, 0), del("c", 4), put("d", 1, 2)]);
    assert_eq!(merge_runs(&Vec::new()), Vec::<Entry>::new());
    assert_eq!(merge_runs(&vec![Vec::new(), Vec::new()]), Vec::<Entry>::new());

    let mut stream = MergeStream::from_vec(runs.clone());
    assert_eq!(stream.next(), Some(put("a", 1, 1)));
    assert_eq!(stream.next(), Some(put("b", 4, 0)));
    assert_eq!(stream.collect(), vec![del("c", 4), put("d", 1, 2)]);
    let mut empty = MergeStream::from_vec(Vec::new());
    assert_eq!(empty.next(), None);
    assert_eq!(empty.next(), None);
    assert_eq!(MergeStream::from_vec(runs).collect(), out);
}

#[test]
fn upsert_keeps_the_run_sorted() {
    let mut run = Vec::new();
    for entry in [put("b", 1, 0), put("a", 1, 0), put("b", 3, 0), put("c", 2, 0), put("a", 2, 0)] {
        upsert(&mut run, entry);
    }
    assert_eq!(
        stamps(&run),
        vec![(key("a"), 2), (key("a"), 1), (key("b"), 3), (key("b"), 1), (key("c"), 2)]
    );
    // The same key and timestamp again: the later write stands.
    upsert(&mut run, put("b", 3, 9));
    assert_eq!(run.len(), 5);
    assert_eq!(run[2], put("b", 3, 9));
}

#[test]
fn mutable_table_reads() {
    let mut table = Mutable::new();
    assert!(table.is_empty());
    assert_eq!(table.estimated_size(), 0);
    // key 8 + 1 + 4, row 1 + 8, cells (9 + 1) + 5
    assert_eq!(table.insert(LogType::Full, record("a", 10), 1), 37);
    assert_eq!(table.insert(LogType::Full, record("a", 30), 3), 74);
    // key 8 + 1 + 4, tombstone 1
    assert_eq!(table.remove(LogType::Full, key("b"), 2), 88);
    assert_eq!(table.estimated_size(), 88);
    assert_eq!(table.len(), 3);
    assert!(!table.is_empty());

    assert_eq!(table.get(&key("a"), 0), None);
    assert_eq!(table.get(&key("a"), 1), Some(&put("a", 1, 10)));
    assert_eq!(table.get(&key("a"), 2), Some(&put("a", 1, 10)));
    assert_eq!(table.get(&key("a"), 3), Some(&put("a", 3, 30)));
    assert_eq!(table.get(&key("a"), u32::MAX), Some(&put("a", 3, 30)));
    assert_eq!(table.get(&key("b"), 9), None);
    assert_eq!(table.get(&key("c"), 9), None);

    assert!(table.check_conflict(&key("a"), 2));
    assert!(!table.check_conflict(&key("a"), 3));
    assert!(table.check_conflict(&key("b"), 1));
    assert!(!table.check_conflict(&key("c"), 0));

    let out = table.scan(&KeyBound::Unbounded, &KeyBound::Unbounded, 2);
    assert_eq!(out, vec![put("a", 1, 10), del("b", 2)]);
    let out = table.scan(&KeyBound::Excluded(key("a")), &KeyBound::Unbounded, 9);
    assert_eq!(out, vec![del("b", 2)]);

    let log = table.take_log();
    assert_eq!(log.len(), 3);
    assert_eq!(log[2].key, Timestamped::new(key("b"), 2));
    assert_eq!(log[2].value, None);
    assert_eq!(log[1].value, Some(vec![Some(Value::Bytes(key("a"))), Some(Value::U32(30))]));
    assert!(table.take_log().is_empty());
    assert_eq!(table.len(), 3);

    let entries = table.drain();
    assert_eq!(entries, vec![put("a", 3, 30), put("a", 1, 10), del("b", 2)]);
    assert!(table.is_empty());
    assert_eq!(table.estimated_size(), 0);
}

#[test]
fn a_write_at_the_same_key_and_timestamp_replaces() {
    let mut table = Mutable::new();
    table.insert(LogType::Full, record("a", 1), 5);
    table.insert(LogType::Full, record("a", 2), 5);
    assert_eq!(table.len(), 1);
    assert_eq!(table.get(&key("a"), 5), Some(&put("a", 5, 2)));
    table.remove(LogType::Full, key("a"), 5);
    assert_eq!(table.get(&key("a"), 5), None);
    assert_eq!(table.into_entries(), vec![del("a", 5)]);
}

#[test]
fn freezing_keeps_every_entry() {
    let mut table = Mutable::new();
    table.insert(LogType::Full, record("b", 11), 1);
    table.insert(LogType::Full, record("a", 10), 1);
    table.remove(LogType::Full, key("b"), 2);
    table.insert(LogType::Full, record("c", 50), 5);
    table.insert(LogType::Full, record("a", 30), 3);
    let all = ProjectionMask::all();
    let before = table.scan(&KeyBound::Unbounded, &KeyBound::Unbounded, u32::MAX);
    assert_eq!(before, sample());
    let segment = Immutable::from_mutable(table, 2);
    assert_eq!(segment.len(), 5);
    assert_eq!(segment.entries(), sample());
    assert_eq!(segment.scan(&KeyBound::Unbounded, &KeyBound::Unbounded, u32::MAX, &all), before);
    assert_eq!(segment.key_range(), Some((&key("a"), &key("c"))));
    for ts in 0..7 {
        assert_eq!(
            segment.scan(&KeyBound::Included(key("a")), &KeyBound::Included(key("b")), ts, &all),
            scan_run(&sample(), &KeyBound::Included(key("a")), &KeyBound::Included(key("b")), ts, &all)
        );
    }
    assert!(segment.check_conflict(&key("a"), 2));
    assert!(!segment.check_conflict(&key("a"), 3));
    assert!(segment.check_conflict(&key("c"), 4));
    assert!(!segment.check_conflict(&key("d"), 0));
}

#[test]
fn an_empty_segment() {
    let segment = Immutable::from_entries(Vec::new(), 2);
    assert_eq!(segment.len(), 0);
    assert_eq!(segment.key_range(), None);
    assert!(segment.entries().is_empty());
    assert!(!segment.check_conflict(&key("a"), 0));
}

#[test]
fn a_segment_scan_projects() {
    let segment = Immutable::from_entries(sample(), 2);
    let mask = ProjectionMask::leaves(4, &vec![3]);
    let out = segment.scan(&KeyBound::Included(key("b")), &KeyBound::Unbounded, 4, &mask);
    assert_eq!(
        out,
        vec![
            del("b", 2),
            Entry::new(Timestamped::new(key("b"), 1), Some(vec![None, Some(Value::U32(11))])),
        ]
    );
}

#[test]
fn a_table_on_disk() {
    let table = SsTable::new(7, Immutable::from_entries(sample(), 2));
    assert_eq!(table.gen(), 7);
    assert_eq!(table.len(), 5);
    assert_eq!(table.scope().min, key("a"));
    assert_eq!(table.scope().max, key("c"));
    assert_eq!(table.scope().gen, 7);
    assert_eq!(table.entries(), sample());
    let all = ProjectionMask::all();
    assert_eq!(
        table.scan(&KeyBound::Included(key("b")), &KeyBound::Included(key("b")), 1, &all),
        vec![put("b", 1, 11)]
    );
    // A range that misses the file.
    assert!(table
        .scan(&KeyBound::Excluded(key("c")), &KeyBound::Unbounded, u32::MAX, &all)
        .is_empty());
    assert!(table.check_conflict(&key("b"), 1));
    assert!(!table.check_conflict(&key("b"), 2));
}
