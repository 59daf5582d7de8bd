//! The mutable table: the live writes, sorted by key ascending and timestamp
//! descending, with the log records that are yet to reach the write-ahead log.

use vstd::prelude::*;
use crate::record::{clone_bytes, clone_value, saturate, Record, Row, RowView};
use crate::stream::{entry_size, entry_views, holds, lemma_newest_ts_is, lemma_newest_ts_none,
    lemma_sorted_unique, lemma_versions_at, lookup, lower_bound, newest_ts, position, read,
    size_of_entry, sorted, stamp, versions, within, Entry, EntryView, KeyBound, is_above_lower,
    is_below_upper, visible};
use crate::timestamp::{key_lt, lemma_key_lt_asymmetric, lemma_key_lt_total,
    lemma_precedes_asymmetric, lemma_precedes_total, lemma_precedes_transitive, precedes, KeyOrder,
    Timestamp, Timestamped, TimestampedView};
use crate::wal::log::{log_views, Log, LogType, LogView};

verus! {

/// The entry that a key, a timestamp and a value make.
pub open spec fn entry_of(key: Seq<u8>, ts: Timestamp, value: Option<RowView>) -> EntryView {
    EntryView { key: stamp(key, ts), value }
}

/// The log record that a key, a timestamp, a value and a frame tag make.
pub open spec fn log_of(key: Seq<u8>, ts: Timestamp, value: Option<RowView>, log_type: LogType)
    -> LogView {
    LogView { key: stamp(key, ts), value, log_type }
}

/// Whether the map holds a version of `key` that is newer than `ts`.
pub open spec fn conflicts(m: Map<TimestampedView, Option<RowView>>, key: Seq<u8>, ts: Timestamp)
    -> bool {
    exists|t: Timestamp| t > ts && m.dom().contains(#[trigger] stamp(key, t))
}

/// Putting an entry where it belongs keeps a run sorted and adds its version.
pub proof fn lemma_sorted_insert(s: Seq<EntryView>, at: int, e: EntryView)
    requires
        sorted(s),
        0 <= at <= s.len(),
        forall|i: int| 0 <= i < at ==> precedes((#[trigger] s[i]).key, e.key),
        forall|i: int| at <= i < s.len() ==> precedes(e.key, (#[trigger] s[i]).key),
    ensures
        sorted(s.insert(at, e)),
        versions(s.insert(at, e)) == versions(s).insert(e.key, e.value),
{
    let t = s.insert(at, e);
    assert forall|i: int, j: int| 0 <= i < j < t.len() implies precedes(
        #[trigger] t[i].key,
        #[trigger] t[j].key,
    ) by {
        if j < at {
            assert(t[i] == s[i] && t[j] == s[j]);
        } else if j == at {
            assert(t[i] == s[i]);
        } else if i < at {
            assert(t[i] == s[i] && t[j] == s[j - 1]);
            if j - 1 == i {
                lemma_precedes_transitive(s[i].key, e.key, s[j - 1].key);
            }
        } else if i == at {
            assert(t[j] == s[j - 1]);
        } else {
            assert(t[i] == s[i - 1] && t[j] == s[j - 1]);
        }
    }
    assert forall|k: TimestampedView| holds(t, k) <==> (k == e.key || holds(s, k)) by {
        if holds(t, k) {
            let i = position(t, k);
            if i < at {
                assert(s[i] == t[i]);
            } else if i > at {
                assert(s[i - 1] == t[i]);
            }
        }
        if holds(s, k) {
            let i = position(s, k);
            if i < at {
                assert(t[i] == s[i]);
            } else {
                assert(t[i + 1] == s[i]);
            }
        }
        if k == e.key {
            assert(t[at] == e);
        }
    }
    assert forall|k: TimestampedView| holds(t, k) implies versions(t)[k] == versions(s).insert(
        e.key,
        e.value,
    )[k] by {
        let i = position(t, k);
        if k == e.key {
            assert(t[at] == e);
            lemma_sorted_unique(t, i, at);
        } else {
            let q = if i < at {
                i
            } else {
                i - 1
            };
            assert(s[q] == t[i]);
            lemma_sorted_unique(s, q, position(s, k));
        }
    }
    assert(versions(t) =~= versions(s).insert(e.key, e.value));
}

/// Writing a new value over the entry of the same timestamped key keeps a run
/// sorted and replaces that version.
pub proof fn lemma_sorted_update(s: Seq<EntryView>, at: int, e: EntryView)
    requires
        sorted(s),
        0 <= at < s.len(),
        s[at].key == e.key,
    ensures
        sorted(s.update(at, e)),
        versions(s.update(at, e)) == versions(s).insert(e.key, e.value),
{
    let t = s.update(at, e);
    assert forall|i: int, j: int| 0 <= i < j < t.len() implies precedes(
        #[trigger] t[i].key,
        #[trigger] t[j].key,
    ) by {
        assert(t[i].key == s[i].key && t[j].key == s[j].key);
    }
    assert forall|k: TimestampedView| holds(t, k) <==> (k == e.key || holds(s, k)) by {
        if holds(t, k) {
            let i = position(t, k);
            assert(s[i].key == t[i].key);
        }
        if holds(s, k) {
            let i = position(s, k);
            assert(t[i].key == s[i].key);
        }
        if k == e.key {
            assert(t[at] == e);
        }
    }
    assert forall|k: TimestampedView| holds(t, k) implies versions(t)[k] == versions(s).insert(
        e.key,
        e.value,
    )[k] by {
        let i = position(t, k);
        assert(t[i].key == s[i].key);
        if k == e.key {
            lemma_sorted_unique(t, i, at);
        } else {
            assert(i != at);
            assert(t[i] == s[i]);
            lemma_sorted_unique(s, i, position(s, k));
        }
    }
    assert(versions(t) =~= versions(s).insert(e.key, e.value));
}

/// What the place found by a seek to `(key, ts)` tells of the run: if the entry
/// there has the key, it is the newest version at or before `ts`; if not, the run
/// holds no version of the key at or before `ts`.
pub proof fn lemma_seek(s: Seq<EntryView>, at: int, key: Seq<u8>, ts: Timestamp)
    requires
        sorted(s),
        0 <= at <= s.len(),
        forall|i: int| 0 <= i < at ==> precedes((#[trigger] s[i]).key, stamp(key, ts)),
        forall|i: int| at <= i < s.len() ==> !precedes((#[trigger] s[i]).key, stamp(key, ts)),
    ensures
        at < s.len() && s[at].key.value == key ==> newest_ts(versions(s), key, ts) == Some(
            s[at].key.ts,
        ) && lookup(versions(s), key, ts) == Some(s[at].value),
        !(at < s.len() && s[at].key.value == key) ==> newest_ts(versions(s), key, ts) is None,
{
    let m = versions(s);
    let target = stamp(key, ts);
    if at < s.len() && s[at].key.value == key {
        let t = s[at].key.ts;
        crate::timestamp::lemma_key_lt_irreflexive(key);
        assert(t <= ts);
        lemma_versions_at(s, at);
        assert(s[at].key == stamp(key, t));
        assert forall|t2: Timestamp| t < t2 <= ts implies !m.dom().contains(
            #[trigger] stamp(key, t2),
        ) by {
            if holds(s, stamp(key, t2)) {
                let q = position(s, stamp(key, t2));
                if q < at {
                    assert(precedes(s[q].key, target));
                } else if q > at {
                    assert(precedes(s[at].key, s[q].key));
                }
            }
        }
        lemma_newest_ts_is(m, key, ts, t);
    } else {
        assert forall|t2: Timestamp| t2 <= ts implies !m.dom().contains(
            #[trigger] stamp(key, t2),
        ) by {
            crate::timestamp::lemma_key_lt_irreflexive(key);
            if holds(s, stamp(key, t2)) {
                let q = position(s, stamp(key, t2));
                if q < at {
                    assert(precedes(s[q].key, target));
                } else {
                    assert(!precedes(s[at].key, target));
                    lemma_key_lt_total(s[at].key.value, key);
                    assert(key_lt(key, s[at].key.value));
                    if q > at {
                        assert(precedes(s[at].key, s[q].key));
                        if key_lt(s[at].key.value, key) {
                            lemma_key_lt_asymmetric(s[at].key.value, key);
                        }
                    }
                }
            }
        }
        lemma_newest_ts_none(m, key, ts);
    }
}

/// Stores an entry in a sorted run: in the place of the entry with the same key
/// and timestamp if there is one, else where the order puts it.
pub fn upsert(run: &mut Vec<Entry>, entry: Entry)
    requires
        sorted(entry_views(old(run)@)),
    ensures
        sorted(entry_views(final(run)@)),
        versions(entry_views(final(run)@)) == versions(entry_views(old(run)@)).insert(
            entry@.key,
            entry@.value,
        ),
{
    let ghost s = entry_views(run@);
    let ghost e = entry@;
    let ghost target = e.key;
    assert(target == stamp(entry.key.value@, entry.key.ts));
    let at = lower_bound(run, &entry.key.value, entry.key.ts);
    let found = at < run.len() && matches!(
        crate::timestamp::compare_versions(
            &run[at].key.value,
            run[at].key.ts,
            &entry.key.value,
            entry.key.ts,
        ),
        KeyOrder::Equal
    );
    if found {
        proof {
            assert(s[at as int].key == target);
            lemma_sorted_update(s, at as int, e);
        }
        run.set(at, entry);
        proof {
            assert(entry_views(run@) =~= s.update(at as int, e));
        }
    } else {
        proof {
            assert forall|i: int| at <= i < s.len() implies precedes(
                target,
                (#[trigger] s[i]).key,
            ) by {
                lemma_precedes_total(s[i].key, target);
                if s[i].key == target {
                    assert(i > at);
                    assert(precedes(s[at as int].key, s[i].key));
                }
            }
            lemma_sorted_insert(s, at as int, e);
        }
        run.insert(at, entry);
        proof {
            assert(entry_views(run@) =~= s.insert(at as int, e));
        }
    }
}

/// The in-memory table that takes the writes.
pub struct Mutable {
    data: Vec<Entry>,
    size: usize,
    log: Vec<Log>,
}

impl View for Mutable {
    type V = Seq<EntryView>;

    /// The entries of the table in order.
    closed spec fn view(&self) -> Seq<EntryView> {
        entry_views(self.data@)
    }
}

impl Mutable {
    /// The log records that wait to be appended to the write-ahead log, oldest
    /// first.
    pub closed spec fn log(&self) -> Seq<LogView> {
        log_views(self.log@)
    }

    /// The estimate of the bytes that the writes so far take.
    pub closed spec fn size(&self) -> usize {
        self.size
    }

    /// The entries are in order, with no `(key, timestamp)` twice.
    pub open spec fn wf(&self) -> bool {
        sorted(self@)
    }

    /// An empty table.
    pub fn new() -> (table: Self)
        ensures
            table.wf(),
            table@ == Seq::<EntryView>::empty(),
            table.log() == Seq::<LogView>::empty(),
            table.size() == 0,
    {
        let table = Mutable { data: Vec::new(), size: 0, log: Vec::new() };
        assert(table@ =~= Seq::<EntryView>::empty());
        assert(table.log() =~= Seq::<LogView>::empty());
        table
    }

    /// Logs and stores one version of a key.
    fn put(&mut self, log_ty: LogType, key: Vec<u8>, ts: Timestamp, value: Option<Row>) -> (size:
        usize)
        requires
            old(self).wf(),
        ensures
            final(self).wf(),
            versions(final(self)@) == versions(old(self)@).insert(
                stamp(key@, ts),
                crate::record::value_view(value),
            ),
            final(self).log() == old(self).log().push(
                log_of(key@, ts, crate::record::value_view(value), log_ty),
            ),
            size == final(self).size(),
            final(self).size() == saturate(
                old(self).size() + entry_size(
                    entry_of(key@, ts, crate::record::value_view(value)),
                ),
            ),
    {
        let log_key = Timestamped { ts, value: clone_bytes(&key) };
        let log_value = clone_value(&value);
        let entry_key = Timestamped { ts, value: key };
        self.size = self.size.saturating_add(size_of_entry(&entry_key, &value));
        let entry = Entry { key: entry_key, value };
        let ghost e = entry@;
        self.log.push(Log { key: log_key, value: log_value, log_type: log_ty });
        proof {
            assert(self.log() =~= old(self).log().push(log_of(e.key.value, ts, e.value, log_ty)));
        }
        upsert(&mut self.data, entry);
        self.size
    }

    /// Appends the record to the log under the given frame tag and stores it as
    /// the version of its key at `ts`, over any version already stored for that
    /// key and timestamp. Returns the new size estimate.
    pub fn insert(&mut self, log_ty: LogType, record: Record, ts: Timestamp) -> (size: usize)
        requires
            old(self).wf(),
        ensures
            final(self).wf(),
            versions(final(self)@) == versions(old(self)@).insert(
                stamp(record@.key, ts),
                Some(record@.columns),
            ),
            final(self).log() == old(self).log().push(
                log_of(record@.key, ts, Some(record@.columns), log_ty),
            ),
            size == final(self).size(),
            final(self).size() == saturate(
                old(self).size() + entry_size(entry_of(record@.key, ts, Some(record@.columns))),
            ),
    {
        let Record { key, columns } = record;
        self.put(log_ty, key, ts, Some(columns))
    }

    /// Appends a removal to the log under the given frame tag and stores a
    /// tombstone as the version of `key` at `ts`. Returns the new size estimate.
    pub fn remove(&mut self, log_ty: LogType, key: Vec<u8>, ts: Timestamp) -> (size: usize)
        requires
            old(self).wf(),
        ensures
            final(self).wf(),
            versions(final(self)@) == versions(old(self)@).insert(stamp(key@, ts), None),
            final(self).log() == old(self).log().push(log_of(key@, ts, None, log_ty)),
            size == final(self).size(),
            final(self).size() == saturate(
                old(self).size() + entry_size(entry_of(key@, ts, None)),
            ),
    {
        self.put(log_ty, key, ts, None)
    }

    /// The newest version of `key` at or before `ts`, unless there is none or it
    /// is a tombstone.
    pub fn get(&self, key: &Vec<u8>, ts: Timestamp) -> (entry: Option<&Entry>)
        requires
            self.wf(),
        ensures
            entry is Some <==> read(versions(self@), key@, ts) is Some,
            entry matches Some(e) ==> e@.key.value == key@ && Some(e@.key.ts) == newest_ts(
                versions(self@),
                key@,
                ts,
            ) && e@.value == read(versions(self@), key@, ts),
    {
        let at = lower_bound(&self.data, key, ts);
        proof {
            lemma_seek(self@, at as int, key@, ts);
        }
        if at < self.data.len() {
            let e = &self.data[at];
            if matches!(crate::timestamp::compare_keys(&e.key.value, key), KeyOrder::Equal)
                && e.value.is_some() {
                return Some(e);
            }
        }
        None
    }

    /// Whether the table holds a version of `key` that is newer than `ts`.
    pub fn check_conflict(&self, key: &Vec<u8>, ts: Timestamp) -> (conflict: bool)
        requires
            self.wf(),
        ensures
            conflict == conflicts(versions(self@), key@, ts),
    {
        let at = lower_bound(&self.data, key, Timestamp::MAX);
        proof {
            let s = self@;
            let m = versions(s);
            lemma_seek(s, at as int, key@, Timestamp::MAX);
            crate::stream::lemma_newest_ts(m, key@, Timestamp::MAX);
            if at < s.len() && s[at as int].key.value == key@ {
                let t = s[at as int].key.ts;
                assert(s[at as int].key == stamp(key@, t));
                if t > ts {
                    assert(m.dom().contains(stamp(key@, t)));
                } else {
                    assert forall|t2: Timestamp| t2 > ts implies !m.dom().contains(
                        #[trigger] stamp(key@, t2),
                    ) by {}
                }
            } else {
                assert forall|t2: Timestamp| t2 > ts implies !m.dom().contains(
                    #[trigger] stamp(key@, t2),
                ) by {}
            }
        }
        if at < self.data.len() {
            let e = &self.data[at];
            matches!(crate::timestamp::compare_keys(&e.key.value, key), KeyOrder::Equal) && e.key.ts
                > ts
        } else {
            false
        }
    }

    /// The entries with a key in `[lower, upper]` and a timestamp at or before
    /// `ts`, in order. Tombstones are among them.
    pub fn scan(&self, lower: &KeyBound, upper: &KeyBound, ts: Timestamp) -> (out: Vec<Entry>)
        requires
            self.wf(),
        ensures
            entry_views(out@) == within(self@, lower@, upper@, ts),
    {
        let ghost s = self@;
        let ghost pred = |e: EntryView| visible(e.key, lower@, upper@, ts);
        let mut out: Vec<Entry> = Vec::new();
        let mut i: usize = 0;
        proof {
            reveal(Seq::filter);
            assert(s.take(0).filter(pred) =~= Seq::<EntryView>::empty());
            assert(entry_views(out@) =~= Seq::<EntryView>::empty());
        }
        while i < self.data.len()
            invariant
                i <= self.data.len(),
                s == self@,
                pred == (|e: EntryView| visible(e.key, lower@, upper@, ts)),
                entry_views(out@) == s.take(i as int).filter(pred),
            decreases self.data.len() - i,
        {
            let e = &self.data[i];
            proof {
                reveal(Seq::filter);
                assert(s.take(i + 1).drop_last() =~= s.take(i as int));
                assert(s.take(i + 1).last() == e@);
            }
            if e.key.ts <= ts && is_above_lower(lower, &e.key.value) && is_below_upper(
                upper,
                &e.key.value,
            ) {
                let ghost before = entry_views(out@);
                out.push(e.clone());
                proof {
                    assert(entry_views(out@) =~= before.push(e@));
                }
            }
            i += 1;
        }
        proof {
            assert(s.take(i as int) =~= s);
        }
        out
    }

    /// Number of entries.
    pub fn len(&self) -> (n: usize)
        ensures
            n == self@.len(),
    {
        self.data.len()
    }

    pub fn is_empty(&self) -> (empty: bool)
        ensures
            empty == (self@.len() == 0),
    {
        self.data.len() == 0
    }

    /// The current size estimate.
    pub fn estimated_size(&self) -> (size: usize)
        ensures
            size == self.size(),
    {
        self.size
    }

    /// Hands out the log records that wait for the write-ahead log, oldest first,
    /// and leaves none waiting.
    pub fn take_log(&mut self) -> (log: Vec<Log>)
        ensures
            log_views(log@) == old(self).log(),
            final(self).log() == Seq::<LogView>::empty(),
            final(self)@ == old(self)@,
            final(self).size() == old(self).size(),
    {
        let mut log: Vec<Log> = Vec::new();
        core::mem::swap(&mut log, &mut self.log);
        proof {
            assert(final(self).log() =~= Seq::<LogView>::empty());
        }
        log
    }

    /// Empties the table and hands out its entries, in order. The log records
    /// that wait stay in wait; the size estimate starts again at nothing.
    pub fn drain(&mut self) -> (entries: Vec<Entry>)
        ensures
            entry_views(entries@) == old(self)@,
            final(self)@ == Seq::<EntryView>::empty(),
            final(self).log() == old(self).log(),
            final(self).size() == 0,
    {
        let mut entries: Vec<Entry> = Vec::new();
        core::mem::swap(&mut entries, &mut self.data);
        self.size = 0;
        proof {
            assert(final(self)@ =~= Seq::<EntryView>::empty());
        }
        entries
    }

    /// Gives up the table for its entries, in order.
    pub fn into_entries(self) -> (entries: Vec<Entry>)
        ensures
            entry_views(entries@) == self@,
    {
        self.data
    }
}

} // verus!
