//! Transactions: a snapshot of the database to read from, a buffer of writes of
//! its own, and a commit that goes through only if no one else has written the
//! same keys since the snapshot.

use vstd::prelude::*;
use crate::inmem::immutable::conforms;
use crate::inmem::mutable::{conflicts, lemma_seek, upsert};
use crate::record::{clone_bytes, projected_value, ProjectionMask, Record, RecordSchema, Row,
    RowView, ENGINE_COLUMNS};
use crate::stream::merge::scan_map;
use crate::stream::{entry_views, holds, lemma_newest_ts, lemma_versions_at, lookup, lower_bound,
    newest_ts, position, sorted, stamp, versions, visible, Entry, EntryView, KeyBound,
    KeyBoundView};
use crate::timestamp::{key_lt, lemma_key_lt_asymmetric, lemma_precedes_asymmetric, precedes,
    KeyOrder, Timestamp, Timestamped, TimestampedView};
use crate::{leaf_shown, mask_of, parts_mask, Projection, ProjectionView, Reader, Scan, DB};

verus! {

/// Whether a reader with the given projection is shown user column `column`.
pub open spec fn column_shown(schema: RecordSchema, projection: ProjectionView, column: int)
    -> bool {
    match projection {
        ProjectionView::All => true,
        ProjectionView::Parts(parts) => leaf_shown(schema, parts, column + ENGINE_COLUMNS),
    }
}

/// A value as a reader with the given projection is shown it: the columns that
/// the projection leaves out read as null.
pub open spec fn shown_value(value: Option<RowView>, schema: RecordSchema, projection: ProjectionView)
    -> Option<RowView> {
    match value {
        None => None,
        Some(row) => Some(
            Seq::new(
                row.len(),
                |j: int|
                    if column_shown(schema, projection, j) {
                        row[j]
                    } else {
                        None
                    },
            ),
        ),
    }
}

/// The mask of a projection shows a value as the projection asks.
pub proof fn lemma_shown_value(
    value: Option<RowView>,
    mask: ProjectionMask,
    schema: RecordSchema,
    projection: ProjectionView,
)
    requires
        mask_of(mask, schema, projection),
    ensures
        projected_value(value, mask) == shown_value(value, schema, projection),
{
    match value {
        Some(row) => {
            assert(crate::record::projected_row(row, mask) =~= shown_value(
                value,
                schema,
                projection,
            )->Some_0);
        },
        None => {},
    }
}

/// Whether `entry` is what a point read of `key` at snapshot `ts` is to yield of
/// the versions `m`: nothing where no version of the key was written at or
/// before `ts`; else the newest such version, with its timestamp, as the
/// projection shows it.
pub open spec fn shows(
    entry: Option<Entry>,
    m: Map<TimestampedView, Option<RowView>>,
    key: Seq<u8>,
    ts: Timestamp,
    schema: RecordSchema,
    projection: ProjectionView,
) -> bool {
    match newest_ts(m, key, ts) {
        None => entry is None,
        Some(t) => entry matches Some(e) && e@.key == stamp(key, t) && e@.value == shown_value(
            m[stamp(key, t)],
            schema,
            projection,
        ),
    }
}

/// What a scan of the single key `key` at snapshot `ts` yields first is the
/// newest version of the key at or before `ts`; it yields nothing exactly if
/// there is none.
pub proof fn lemma_point_scan(
    full: Seq<EntryView>,
    m: Map<TimestampedView, Option<RowView>>,
    key: Seq<u8>,
    ts: Timestamp,
    mask: ProjectionMask,
)
    requires
        sorted(full),
        versions(full) == scan_map(
            m,
            KeyBoundView::Included(key),
            KeyBoundView::Included(key),
            ts,
            mask,
        ),
    ensures
        match newest_ts(m, key, ts) {
            None => full.len() == 0,
            Some(t) => full.len() > 0 && full[0].key == stamp(key, t) && full[0].value
                == projected_value(m[stamp(key, t)], mask),
        },
{
    let lower = KeyBoundView::Included(key);
    let upper = KeyBoundView::Included(key);
    lemma_newest_ts(m, key, ts);
    assert forall|i: int| 0 <= i < full.len() implies (#[trigger] full[i]).key.value == key
        && full[i].key.ts <= ts && m.dom().contains(full[i].key) by {
        lemma_versions_at(full, i);
        let k = full[i].key;
        assert(visible(k, lower, upper, ts));
        if key_lt(key, k.value) {
            lemma_key_lt_asymmetric(key, k.value);
        }
    }
    match newest_ts(m, key, ts) {
        None => {
            if full.len() > 0 {
                assert(full[0].key == stamp(key, full[0].key.ts));
            }
        },
        Some(t) => {
            let k = stamp(key, t);
            assert(visible(k, lower, upper, ts));
            assert(versions(full).dom().contains(k));
            let p = position(full, k);
            if p > 0 {
                assert(precedes(full[0].key, full[p].key));
                crate::timestamp::lemma_key_lt_irreflexive(key);
                assert(full[0].key == stamp(key, full[0].key.ts));
            }
            lemma_versions_at(full, 0);
        },
    }
}

/// Why a transaction could not be committed.
#[derive(Debug, PartialEq, Eq)]
pub enum CommitError {
    /// Someone else has written this key since the snapshot of the transaction.
    WriteConflict(Vec<u8>),
}

/// A transaction in progress.
pub struct Transaction {
    ts: Timestamp,
    version: u64,
    local: Vec<Entry>,
}

impl Transaction {
    /// The snapshot that the transaction reads at.
    pub closed spec fn snapshot(&self) -> Timestamp {
        self.ts
    }

    /// The transaction as the database keeps track of it: its snapshot, and the
    /// number of the version that was current when it was opened.
    pub closed spec fn reader(&self) -> Reader {
        Reader { snapshot: self.ts, version: self.version }
    }

    /// The writes that the transaction has buffered, by key ascending: for each
    /// key an entry at the snapshot of the transaction with the columns to
    /// store, or a tombstone to remove the key.
    pub closed spec fn buffer(&self) -> Seq<EntryView> {
        entry_views(self.local@)
    }

    /// The buffered writes are in key order, one for each key, and carry the
    /// snapshot of the transaction as their timestamp.
    pub open spec fn wf(&self) -> bool {
        &&& sorted(self.buffer())
        &&& forall|i: int|
            0 <= i < self.buffer().len() ==> (#[trigger] self.buffer()[i]).key.ts
                == self.snapshot()
    }

    /// The transaction of a reader, which has written nothing yet.
    pub fn new(reader: Reader) -> (txn: Self)
        ensures
            txn.wf(),
            txn.snapshot() == reader.snapshot,
            txn.reader() == reader,
            txn.buffer() == Seq::<EntryView>::empty(),
    {
        let txn = Transaction { ts: reader.snapshot, version: reader.version, local: Vec::new() };
        proof {
            assert(txn.buffer() =~= Seq::<EntryView>::empty());
        }
        txn
    }
}

/// Whether `entry` is what a reader at snapshot `ts` is to find under `key` in
/// the versions `m`: nothing where the key was never written at or before `ts`
/// or was last removed; else the newest version at or before `ts`, with its
/// timestamp, as the projection shows it.
pub open spec fn finds(
    entry: Option<Entry>,
    m: Map<TimestampedView, Option<RowView>>,
    key: Seq<u8>,
    ts: Timestamp,
    schema: RecordSchema,
    projection: ProjectionView,
) -> bool {
    match newest_ts(m, key, ts) {
        Some(t) if m[stamp(key, t)] is Some => entry matches Some(e) && e@.key == stamp(key, t)
            && e@.value == shown_value(m[stamp(key, t)], schema, projection),
        _ => entry is None,
    }
}

/// Maps that hold the same versions of a key up to `ts` have the same newest
/// one.
pub proof fn lemma_newest_ts_agree(
    a: Map<TimestampedView, Option<RowView>>,
    b: Map<TimestampedView, Option<RowView>>,
    key: Seq<u8>,
    ts: Timestamp,
)
    requires
        forall|t: Timestamp|
            t <= ts ==> (a.dom().contains(#[trigger] stamp(key, t)) == b.dom().contains(
                stamp(key, t),
            )),
    ensures
        newest_ts(a, key, ts) == newest_ts(b, key, ts),
    decreases ts,
{
    if !a.dom().contains(stamp(key, ts)) && ts > 0 {
        lemma_newest_ts_agree(a, b, key, (ts - 1) as Timestamp);
    }
}

/// A version of a key that was written at `ts` is what a reader at any later
/// snapshot finds, unless a newer version shadows it: a reader never finds an
/// older one.
pub proof fn lemma_newest_at_least(
    m: Map<TimestampedView, Option<RowView>>,
    key: Seq<u8>,
    ts: Timestamp,
    snapshot: Timestamp,
)
    requires
        m.dom().contains(stamp(key, ts)),
        ts <= snapshot,
    ensures
        newest_ts(m, key, snapshot) matches Some(t) && ts <= t <= snapshot,
        newest_ts(m, key, snapshot) == Some(ts) ==> crate::stream::read(m, key, snapshot) == m[stamp(
            key,
            ts,
        )],
{
    lemma_newest_ts(m, key, snapshot);
}

/// What was written at `ts` is what every reader at `ts` or later finds under
/// the key, unless a newer version of the key shadows it; a reader never finds a
/// version older than it.
pub proof fn lemma_write_then_read(
    m: Map<TimestampedView, Option<RowView>>,
    key: Seq<u8>,
    ts: Timestamp,
    row: RowView,
    snapshot: Timestamp,
)
    requires
        ts <= snapshot,
    ensures
        newest_ts(m.insert(stamp(key, ts), Some(row)), key, snapshot) matches Some(t) && ts <= t
            <= snapshot,
        newest_ts(m.insert(stamp(key, ts), Some(row)), key, snapshot) == Some(ts)
            ==> crate::stream::read(m.insert(stamp(key, ts), Some(row)), key, snapshot) == Some(
            row,
        ),
{
    lemma_newest_at_least(m.insert(stamp(key, ts), Some(row)), key, ts, snapshot);
}

/// A tombstone at `ts` shadows every earlier version of its key for every
/// snapshot from `ts` on: a reader finds the tombstone, and so nothing, or a
/// version newer than the tombstone.
pub proof fn lemma_tombstone_shadows(
    m: Map<TimestampedView, Option<RowView>>,
    key: Seq<u8>,
    ts: Timestamp,
    snapshot: Timestamp,
)
    requires
        m.dom().contains(stamp(key, ts)),
        m[stamp(key, ts)] is None,
        ts <= snapshot,
    ensures
        newest_ts(m, key, snapshot) matches Some(t) && ts <= t <= snapshot,
        newest_ts(m, key, snapshot) == Some(ts) ==> crate::stream::read(m, key, snapshot) is None,
{
    lemma_newest_at_least(m, key, ts, snapshot);
}

/// The writes of a batch are among the versions after the batch.
pub proof fn lemma_batch_versions(
    m: Map<TimestampedView, Option<RowView>>,
    writes: Seq<EntryView>,
    ts: Timestamp,
    i: int,
)
    requires
        0 <= i < writes.len(),
    ensures
        crate::batch_versions(m, writes, ts).dom().contains(stamp(writes[i].key.value, ts)),
        forall|k: TimestampedView|
            m.dom().contains(k) ==> crate::batch_versions(m, writes, ts).dom().contains(k),
    decreases writes.len(),
{
    let init = writes.drop_last();
    if i < writes.len() - 1 {
        assert(init[i] == writes[i]);
        lemma_batch_versions(m, init, ts, i);
    } else if init.len() > 0 {
        lemma_batch_versions(m, init, ts, 0);
    }
}

/// Once a transaction has committed a key at `commit_ts`, the key conflicts for
/// every transaction whose snapshot lies before `commit_ts`: of two transactions
/// that write one key from one snapshot, the one that commits second fails.
pub proof fn lemma_commit_serializes(
    before: Map<TimestampedView, Option<RowView>>,
    writes: Seq<EntryView>,
    commit_ts: Timestamp,
    i: int,
    snapshot: Timestamp,
)
    requires
        0 <= i < writes.len(),
        snapshot < commit_ts,
    ensures
        conflicts(crate::batch_versions(before, writes, commit_ts), writes[i].key.value, snapshot),
{
    lemma_batch_versions(before, writes, commit_ts, i);
}

/// A conflict stays a conflict as long as nothing is taken out of memory.
pub proof fn lemma_conflict_stays(
    before: Map<TimestampedView, Option<RowView>>,
    after: Map<TimestampedView, Option<RowView>>,
    key: Seq<u8>,
    snapshot: Timestamp,
)
    requires
        conflicts(before, key, snapshot),
        forall|k: TimestampedView| before.dom().contains(k) ==> after.dom().contains(k),
    ensures
        conflicts(after, key, snapshot),
{
    let t = choose|t: Timestamp| t > snapshot && before.dom().contains(#[trigger] stamp(key, t));
    assert(after.dom().contains(stamp(key, t)));
}

impl Transaction {
    /// Buffers a record to be stored at commit, over what the transaction has
    /// buffered for its key.
    pub fn set(&mut self, record: Record)
        requires
            old(self).wf(),
        ensures
            final(self).wf(),
            final(self).snapshot() == old(self).snapshot(),
            final(self).reader() == old(self).reader(),
            versions(final(self).buffer()) == versions(old(self).buffer()).insert(
                stamp(record@.key, old(self).snapshot()),
                Some(record@.columns),
            ),
    {
        let Record { key, columns } = record;
        self.put(key, Some(columns));
    }

    /// Buffers the removal of `key` at commit, over what the transaction has
    /// buffered for the key.
    pub fn remove(&mut self, key: Vec<u8>)
        requires
            old(self).wf(),
        ensures
            final(self).wf(),
            final(self).snapshot() == old(self).snapshot(),
            final(self).reader() == old(self).reader(),
            versions(final(self).buffer()) == versions(old(self).buffer()).insert(
                stamp(key@, old(self).snapshot()),
                None,
            ),
    {
        self.put(key, None);
    }

    fn put(&mut self, key: Vec<u8>, value: Option<Row>)
        requires
            old(self).wf(),
        ensures
            final(self).wf(),
            final(self).snapshot() == old(self).snapshot(),
            final(self).reader() == old(self).reader(),
            versions(final(self).buffer()) == versions(old(self).buffer()).insert(
                stamp(key@, old(self).snapshot()),
                crate::record::value_view(value),
            ),
    {
        let ghost before = self.buffer();
        let entry = Entry { key: Timestamped { ts: self.ts, value: key }, value };
        upsert(&mut self.local, entry);
        proof {
            let after = self.buffer();
            assert forall|i: int| 0 <= i < after.len() implies (#[trigger] after[i]).key.ts
                == self.snapshot() by {
                lemma_versions_at(after, i);
                if after[i].key != stamp(key@, self.ts) {
                    assert(versions(before).dom().contains(after[i].key));
                    let p = position(before, after[i].key);
                    assert(before[p].key.ts == self.ts);
                }
            }
        }
    }

    /// The log records that a commit at `commit_ts` appends, in order. Nothing is
    /// written: whoever keeps the write-ahead log can append them before the
    /// commit stores anything.
    pub fn frames(&self, commit_ts: Timestamp) -> (log: Vec<crate::wal::log::Log>)
        ensures
            crate::wal::log::log_views(log@) == crate::batch_log(self.buffer(), commit_ts),
    {
        crate::batch_frames(&self.local, commit_ts)
    }

    /// The first key, in key order, that the transaction has written and that
    /// a commit would fail on: a table in memory holds a version of it that is
    /// newer than the snapshot. `None` if a commit would succeed.
    pub fn conflict(&self, db: &DB) -> (key: Option<Vec<u8>>)
        requires
            self.wf(),
            db.wf(),
        ensures
            match key {
                Some(k) => exists|i: int|
                    0 <= i < self.buffer().len() && (#[trigger] self.buffer()[i]).key.value == k@
                        && conflicts(db.memory_versions(), k@, self.snapshot()) && forall|j: int|
                        0 <= j < i ==> !conflicts(
                            db.memory_versions(),
                            (#[trigger] self.buffer()[j]).key.value,
                            self.snapshot(),
                        ),
                None => forall|i: int|
                    0 <= i < self.buffer().len() ==> !conflicts(
                        db.memory_versions(),
                        (#[trigger] self.buffer()[i]).key.value,
                        self.snapshot(),
                    ),
            },
    {
        let ghost buffer = self.buffer();
        let mut i: usize = 0;
        while i < self.local.len()
            invariant
                i <= self.local.len(),
                db.wf(),
                buffer == self.buffer(),
                forall|j: int|
                    0 <= j < i ==> !conflicts(
                        db.memory_versions(),
                        (#[trigger] buffer[j]).key.value,
                        self.snapshot(),
                    ),
            decreases self.local.len() - i,
        {
            assert(buffer[i as int] == self.local[i as int]@);
            if db.check_conflict(&self.local[i].key.value, self.ts) {
                let key = clone_bytes(&self.local[i].key.value);
                return Some(key);
            }
            i += 1;
        }
        None
    }

    /// The keys that the transaction has written, ascending: the order in which
    /// to take their locks.
    pub fn keys(&self) -> (keys: Vec<Vec<u8>>)
        requires
            self.wf(),
        ensures
            keys.len() == self.buffer().len(),
            forall|i: int| 0 <= i < keys.len() ==> (#[trigger] keys[i])@ == self.buffer()[i].key.value,
            forall|i: int, j: int|
                0 <= i < j < keys.len() ==> key_lt((#[trigger] keys[i])@, (#[trigger] keys[j])@),
    {
        let mut keys: Vec<Vec<u8>> = Vec::new();
        let mut i: usize = 0;
        while i < self.local.len()
            invariant
                i <= self.local.len(),
                keys.len() == i,
                forall|k: int| 0 <= k < i ==> (#[trigger] keys[k])@ == self.buffer()[k].key.value,
            decreases self.local.len() - i,
        {
            keys.push(clone_bytes(&self.local[i].key.value));
            i += 1;
        }
        proof {
            assert forall|i: int, j: int| 0 <= i < j < keys.len() implies key_lt(
                (#[trigger] keys[i])@,
                (#[trigger] keys[j])@,
            ) by {
                assert(precedes(self.buffer()[i].key, self.buffer()[j].key));
            }
        }
        keys
    }

    /// What the transaction finds under `key`: what it has buffered for the key
    /// itself, else what the database held at the snapshot; as `projection`
    /// shows it. Nothing where the key was removed or never written.
    pub fn get(&self, db: &DB, key: &Vec<u8>, projection: Projection) -> (entry: Option<Entry>)
        requires
            self.wf(),
            db.wf(),
        ensures
            finds(
                entry,
                db.versions().union_prefer_right(versions(self.buffer())),
                key@,
                self.snapshot(),
                db.record_schema(),
                projection@,
            ),
    {
        let ghost local = versions(self.buffer());
        let ghost m = db.versions().union_prefer_right(local);
        let ghost pv = projection@;
        let at = lower_bound(&self.local, key, self.ts);
        proof {
            lemma_seek(self.buffer(), at as int, key@, self.ts);
            lemma_newest_ts(local, key@, self.ts);
            db.lemma_wf();
        }
        if at < self.local.len() && matches!(
            crate::timestamp::compare_keys(&self.local[at].key.value, key),
            KeyOrder::Equal
        ) {
            let found = &self.local[at];
            proof {
                assert(found@ == self.buffer()[at as int]);
                assert(found@.key == stamp(key@, self.ts));
                lemma_versions_at(self.buffer(), at as int);
                assert(m.dom().contains(stamp(key@, self.ts)));
                assert(m[stamp(key@, self.ts)] == found@.value);
                assert(newest_ts(m, key@, self.ts) == Some(self.ts));
            }
            if found.value.is_none() {
                return None;
            }
            let mask = match projection {
                Projection::All => ProjectionMask::all(),
                Projection::Parts(parts) => parts_mask(db.read().shape(), &parts),
            };
            proof {
                assert(mask_of(mask, db.record_schema(), pv));
                lemma_shown_value(found@.value, mask, db.record_schema(), pv);
            }
            Some(found.project(&mask))
        } else {
            proof {
                assert forall|t: Timestamp| t <= self.ts implies (m.dom().contains(
                    #[trigger] stamp(key@, t),
                ) == db.versions().dom().contains(stamp(key@, t))) by {
                    assert(!local.dom().contains(stamp(key@, t)));
                }
                lemma_newest_ts_agree(m, db.versions(), key@, self.ts);
                lemma_newest_ts(m, key@, self.ts);
                match newest_ts(m, key@, self.ts) {
                    Some(t) => {
                        assert(!local.dom().contains(stamp(key@, t)));
                        assert(m[stamp(key@, t)] == db.versions()[stamp(key@, t)]);
                    },
                    None => {},
                }
            }
            match db.get(key, self.ts, projection) {
                Some(e) => if e.value.is_some() {
                    Some(e)
                } else {
                    None
                },
                None => None,
            }
        }
    }

    /// Prepares a scan of the keys in `[lower, upper]` as the transaction sees
    /// them: what it has buffered, over what the database held at the snapshot.
    pub fn scan<'a>(&self, db: &'a DB, lower: KeyBound, upper: KeyBound) -> (scan: Scan<'a>)
        requires
            self.wf(),
            db.wf(),
        ensures
            scan.wf(),
            scan.mutable() == db.mutable(),
            scan.immutables() == db.immutables(),
            scan.levels() == db.levels(),
            scan.streams() == seq![self.buffer()],
            scan.lower() == lower@,
            scan.upper() == upper@,
            scan.ts() == self.snapshot(),
            scan.limit_of() == None::<usize>,
            scan.record_schema() == db.record_schema(),
            forall|leaf: int| scan.mask().includes(leaf),
    {
        let mut local: Vec<Entry> = Vec::new();
        let mut i: usize = 0;
        while i < self.local.len()
            invariant
                i <= self.local.len(),
                local.len() == i,
                forall|k: int| 0 <= k < i ==> (#[trigger] local[k])@ == self.local[k]@,
            decreases self.local.len() - i,
        {
            local.push(self.local[i].clone());
            i += 1;
        }
        let mut streams: Vec<Vec<Entry>> = Vec::new();
        proof {
            assert(entry_views(local@) =~= self.buffer());
        }
        streams.push(local);
        proof {
            assert(crate::stream::merge::run_views(streams@) =~= seq![self.buffer()]);
        }
        db.scan(lower, upper, self.ts, streams)
    }

    /// Commits the transaction at `commit_ts`. If a table in memory holds, for
    /// one of the keys that the transaction has written, a version that is newer
    /// than the snapshot, the commit fails with the first such key and writes
    /// nothing. Otherwise everything that the transaction has buffered is
    /// written at `commit_ts` as one batch. Either way the transaction is over.
    pub fn commit(self, db: &mut DB, commit_ts: Timestamp) -> (result: Result<(), CommitError>)
        requires
            self.wf(),
            old(db).wf(),
            conforms(self.buffer(), old(db).record_schema().columns as nat),
        ensures
            final(db).wf(),
            final(db).same_settings(old(db)),
            final(db).readers() == crate::without(old(db).readers(), self.reader()),
            final(db).retired() == crate::still_held(old(db).retired(), final(db).readers()),
            final(db).cleaning() == old(db).cleaning() + crate::released(
                old(db).retired(),
                final(db).readers(),
            ),
            final(db).leaked() == old(db).leaked(),
            final(db).immutables() == old(db).immutables(),
            final(db).immutable_files() == old(db).immutable_files(),
            final(db).levels() == old(db).levels(),
            final(db).next_file() == old(db).next_file(),
            final(db).version_number() == old(db).version_number(),
            match result {
                Ok(()) => {
                    &&& forall|i: int|
                        0 <= i < self.buffer().len() ==> !conflicts(
                            old(db).memory_versions(),
                            (#[trigger] self.buffer()[i]).key.value,
                            self.snapshot(),
                        )
                    &&& final(db).versions() == crate::batch_versions(
                        old(db).versions(),
                        self.buffer(),
                        commit_ts,
                    )
                    &&& final(db).memory_versions() == crate::batch_versions(
                        old(db).memory_versions(),
                        self.buffer(),
                        commit_ts,
                    )
                    &&& versions(final(db).mutable()) == crate::batch_versions(
                        versions(old(db).mutable()),
                        self.buffer(),
                        commit_ts,
                    )
                    &&& self.buffer().len() == 0 ==> final(db).mutable() == old(db).mutable()
                    &&& final(db).log() == old(db).log() + crate::batch_log(
                        self.buffer(),
                        commit_ts,
                    )
                    &&& final(db).size() == crate::batch_size(
                        old(db).size(),
                        self.buffer(),
                        commit_ts,
                    )
                },
                Err(CommitError::WriteConflict(key)) => {
                    &&& exists|i: int|
                        0 <= i < self.buffer().len() && (#[trigger] self.buffer()[i]).key.value
                            == key@ && conflicts(
                            old(db).memory_versions(),
                            key@,
                            self.snapshot(),
                        ) && forall|j: int|
                            0 <= j < i ==> !conflicts(
                                old(db).memory_versions(),
                                (#[trigger] self.buffer()[j]).key.value,
                                self.snapshot(),
                            )
                    &&& final(db).mutable() == old(db).mutable()
                    &&& final(db).log() == old(db).log()
                    &&& final(db).size() == old(db).size()
                    &&& final(db).latest() == old(db).latest()
                },
            },
    {
        let found = self.conflict(db);
        db.release(Reader { snapshot: self.ts, version: self.version });
        match found {
            Some(key) => Err(CommitError::WriteConflict(key)),
            None => {
                let _ = db.commit_batch(self.local, commit_ts);
                Ok(())
            },
        }
    }

    /// Gives the transaction up without writing anything.
    pub fn abort(self, db: &mut DB)
        requires
            old(db).wf(),
        ensures
            final(db).wf(),
            final(db).same_settings(old(db)),
            final(db).versions() == old(db).versions(),
            final(db).mutable() == old(db).mutable(),
            final(db).immutables() == old(db).immutables(),
            final(db).levels() == old(db).levels(),
            final(db).log() == old(db).log(),
            final(db).readers() == crate::without(old(db).readers(), self.reader()),
            final(db).retired() == crate::still_held(old(db).retired(), final(db).readers()),
            final(db).cleaning() == old(db).cleaning() + crate::released(
                old(db).retired(),
                final(db).readers(),
            ),
            final(db).leaked() == old(db).leaked(),
    {
        db.release(Reader { snapshot: self.ts, version: self.version });
    }
}

} // verus!
