//! The core of an embedded log-structured merge-tree storage engine: a mutable
//! table that takes timestamped writes, immutable segments that full tables are
//! frozen into, a leveled layout of on-disk segments that compactions keep in
//! order, scans that merge all of them under multi-version visibility, and
//! transactions with snapshot isolation.
//!
//! The engine is a deterministic state machine over values in memory. Whoever
//! embeds it moves bytes: it appends the log records that wait in the mutable
//! table, writes and deletes the segment files that a compaction names, and runs
//! the compactor when a task arrives on the channel.

pub mod compaction;
pub mod channel;
pub mod fs;
pub mod inmem;
pub mod ondisk;
pub mod option;
pub mod record;
pub mod scope;
pub mod stream;
pub mod timestamp;
pub mod transaction;
pub mod version;
pub mod wal;

use std::collections::VecDeque;
use vstd::prelude::*;
use crate::compaction::major::{names, same_reads};
use crate::compaction::{all_versions, compaction_of, flush_fails, settled, stores_of, storage_ok,
    Compactor, Stores};
use crate::channel::{bounded_tasks, task_capacity, try_send_task};
use crate::compaction::CompactTask;
use crate::version::cleaner::Cleaner;
use crate::fs::FileId;
use crate::inmem::immutable::{conforms, Immutable};
use crate::inmem::mutable::{conflicts, entry_of, log_of, Mutable};
use crate::option::DbOption;
use crate::record::{saturate, ProjectionMask, Record, RecordSchema, RowView, ENGINE_COLUMNS};
use crate::stream::merge::{all_sorted, lemma_merged_append, lemma_merged_one,
    lemma_merged_scanned, lemma_scan_map_union, lemma_scanned_map, merge_runs, merged_versions,
    run_views, scan_map, scanned_runs};
use crate::stream::{above_lower, below_upper, entry_size, entry_views, lemma_run_of, limit_run,
    limited, projected, run_of, scanned, sorted, stamp, versions, within, Entry, EntryView,
    KeyBound, KeyBoundView};
use crate::ondisk::TableView;
use crate::timestamp::{Timestamp, Timestamped, TimestampedView};
use crate::transaction::Transaction;
use crate::version::set::VersionSet;
use crate::version::{lemma_version_streams, levels_versions, version_streams, Version,
    VersionError};
use crate::wal::log::{batch_tag, log_views, tag_in_batch, Log, LogType, LogView};

verus! {

/// Why a write, a read or a compaction failed.
#[derive(Clone, Copy, Debug, PartialEq, Eq, Structural)]
pub enum WriteError {
    /// The file provider failed.
    Io,
    /// The layout of the segments is inconsistent.
    Version(VersionError),
    /// A columnar batch could not be written or read.
    Parquet,
}

/// What a reader asks to see of each record.
#[derive(Debug, PartialEq, Eq)]
pub enum Projection {
    /// Every column.
    All,
    /// The user columns at the listed positions, besides the key.
    Parts(Vec<usize>),
}

/// Mathematical form of a [`Projection`].
pub enum ProjectionView {
    All,
    Parts(Seq<usize>),
}

impl View for Projection {
    type V = ProjectionView;

    open spec fn view(&self) -> ProjectionView {
        match self {
            Projection::All => ProjectionView::All,
            Projection::Parts(parts) => ProjectionView::Parts(parts@),
        }
    }
}

/// Whether a reader who lists `parts` is shown leaf column `leaf` of a table of
/// the given shape: the tombstone flag, the timestamp and the key column always,
/// and each listed user column that the table has.
pub open spec fn leaf_shown(schema: RecordSchema, parts: Seq<usize>, leaf: int) -> bool {
    &&& 0 <= leaf < schema.columns + ENGINE_COLUMNS
    &&& (leaf == 0 || leaf == 1 || leaf == schema.primary_key_index + ENGINE_COLUMNS
        || exists|i: int| 0 <= i < parts.len() && #[trigger] parts[i] + ENGINE_COLUMNS == leaf)
}

/// Whether `leaf` is among the listed indices.
pub open spec fn lists(indices: Seq<usize>, leaf: int) -> bool {
    exists|k: int| 0 <= k < indices.len() && #[trigger] indices[k] == leaf
}

/// Whether `leaf` is the leaf column of one of the first `upto` listed user
/// columns.
pub open spec fn lists_part(parts: Seq<usize>, upto: int, leaf: int) -> bool {
    exists|k: int| 0 <= k < upto && #[trigger] parts[k] + ENGINE_COLUMNS == leaf
}

/// Whether the mask is the one that a projection asks for.
pub open spec fn mask_of(mask: ProjectionMask, schema: RecordSchema, projection: ProjectionView)
    -> bool {
    match projection {
        ProjectionView::All => forall|leaf: int| mask.includes(leaf),
        ProjectionView::Parts(parts) => forall|leaf: int|
            mask.includes(leaf) == leaf_shown(schema, parts, leaf),
    }
}

/// The views of the immutable segments of a queue.
pub open spec fn immutable_views(queue: Seq<(FileId, Immutable)>) -> Seq<Seq<EntryView>> {
    Seq::new(queue.len(), |i: int| queue[i].1@)
}

/// The file names of the immutable segments of a queue.
pub open spec fn immutable_files(queue: Seq<(FileId, Immutable)>) -> Seq<FileId> {
    Seq::new(queue.len(), |i: int| queue[i].0)
}

/// No key lies in the range.
pub open spec fn range_empty(lower: KeyBoundView, upper: KeyBoundView) -> bool {
    forall|key: Seq<u8>| !(above_lower(lower, key) && below_upper(upper, key))
}

/// What is in memory: the mutable table, and the immutable segments that wait to
/// be written out, newest first.
pub struct Schema {
    mutable: Mutable,
    immutables: VecDeque<(FileId, Immutable)>,
    compaction_tx: flume::Sender<CompactTask>,
    option: DbOption,
    record_schema: RecordSchema,
}

impl Schema {
    /// The entries of the mutable table in order.
    pub closed spec fn mutable(&self) -> Seq<EntryView> {
        self.mutable@
    }

    /// The rows of the immutable segments, newest segment first.
    pub closed spec fn immutables(&self) -> Seq<Seq<EntryView>> {
        immutable_views(self.immutables@)
    }

    /// The files that the immutable segments are to be written to, newest
    /// segment first.
    pub closed spec fn immutable_files(&self) -> Seq<FileId> {
        immutable_files(self.immutables@)
    }

    /// The log records that wait to be appended to the write-ahead log.
    pub closed spec fn log(&self) -> Seq<LogView> {
        self.mutable.log()
    }

    /// The size estimate of the mutable table.
    pub closed spec fn size(&self) -> usize {
        self.mutable.size()
    }

    /// The size above which the mutable table is to be frozen.
    pub closed spec fn max_size(&self) -> usize {
        self.option.max_mem_table_size
    }

    /// The options that the database was opened with.
    pub closed spec fn option(&self) -> DbOption {
        self.option
    }

    /// The shape of the records.
    pub closed spec fn record_schema(&self) -> RecordSchema {
        self.record_schema
    }

    /// The capacity of the channel that carries the tasks for the compactor.
    pub closed spec fn signal_capacity(&self) -> Option<usize> {
        task_capacity(self.compaction_tx)
    }

    /// The immutable segments are well formed and as wide as the table.
    pub closed spec fn segments_wf(&self) -> bool {
        forall|i: int|
            0 <= i < self.immutables@.len() ==> (#[trigger] self.immutables@[i]).1.wf()
                && self.immutables@[i].1.width() == self.record_schema.columns
                && self.immutables@[i].1@.len() > 0
    }

    /// The shape allows for the two engine columns, and the key column is one of
    /// the user columns.
    pub open spec fn shape_wf(schema: RecordSchema) -> bool {
        schema.columns + ENGINE_COLUMNS <= usize::MAX && schema.primary_key_index < schema.columns
    }

    /// Everything in memory is in order and of the shape of the table.
    pub open spec fn wf(&self) -> bool {
        &&& Self::shape_wf(self.record_schema())
        &&& sorted(self.mutable())
        &&& conforms(self.mutable(), self.record_schema().columns as nat)
        &&& self.segments_wf()
        &&& forall|i: int|
            0 <= i < self.immutables().len() ==> sorted(#[trigger] self.immutables()[i])
                && conforms(self.immutables()[i], self.record_schema().columns as nat)
                && self.immutables()[i].len() > 0
    }

    /// The versions that the tables in memory hold together. The mutable table
    /// takes precedence over the immutable segments, and a newer segment over an
    /// older one.
    pub open spec fn versions(&self) -> Map<TimestampedView, Option<RowView>> {
        merged_versions(self.immutables()).union_prefer_right(versions(self.mutable()))
    }

    /// An empty table of the given shape that sends its compaction tasks through
    /// `compaction_tx`.
    pub fn new(
        option: DbOption,
        record_schema: RecordSchema,
        compaction_tx: flume::Sender<CompactTask>,
    ) -> (schema: Self)
        requires
            Self::shape_wf(record_schema),
        ensures
            schema.wf(),
            schema.mutable() == Seq::<EntryView>::empty(),
            schema.immutables() == Seq::<Seq<EntryView>>::empty(),
            schema.log() == Seq::<LogView>::empty(),
            schema.size() == 0,
            schema.option() == option,
            schema.record_schema() == record_schema,
            schema.signal_capacity() == task_capacity(compaction_tx),
    {
        let schema = Schema {
            mutable: Mutable::new(),
            immutables: VecDeque::new(),
            compaction_tx,
            option,
            record_schema,
        };
        proof {
            assert(schema.immutables() =~= Seq::<Seq<EntryView>>::empty());
        }
        schema
    }

    /// Logs and stores a record as the version of its key at `ts`. Tells whether
    /// the mutable table has outgrown the size at which it is to be frozen.
    pub fn write(&mut self, log_ty: LogType, record: Record, ts: Timestamp) -> (excess: bool)
        requires
            old(self).wf(),
            record@.columns.len() == old(self).record_schema().columns,
        ensures
            final(self).wf(),
            versions(final(self).mutable()) == versions(old(self).mutable()).insert(
                stamp(record@.key, ts),
                Some(record@.columns),
            ),
            final(self).versions() == old(self).versions().insert(
                stamp(record@.key, ts),
                Some(record@.columns),
            ),
            final(self).immutables() == old(self).immutables(),
            final(self).immutable_files() == old(self).immutable_files(),
            final(self).log() == old(self).log().push(
                log_of(record@.key, ts, Some(record@.columns), log_ty),
            ),
            final(self).size() == saturate(
                old(self).size() + entry_size(entry_of(record@.key, ts, Some(record@.columns))),
            ),
            final(self).option() == old(self).option(),
            final(self).record_schema() == old(self).record_schema(),
            final(self).signal_capacity() == old(self).signal_capacity(),
            excess == (final(self).size() > final(self).max_size()),
    {
        let ghost k = stamp(record@.key, ts);
        let ghost v = Some(record@.columns);
        let ghost before = self.mutable@;
        let size = self.mutable.insert(log_ty, record, ts);
        proof {
            lemma_conforms_insert(before, self.mutable@, k, v, self.record_schema.columns as nat);
            assert(final(self).versions() =~= old(self).versions().insert(k, v));
        }
        size > self.option.max_mem_table_size
    }

    /// Logs and stores the removal of `key` at `ts`. Tells whether the mutable
    /// table has outgrown the size at which it is to be frozen.
    pub fn remove(&mut self, log_ty: LogType, key: Vec<u8>, ts: Timestamp) -> (excess: bool)
        requires
            old(self).wf(),
        ensures
            final(self).wf(),
            versions(final(self).mutable()) == versions(old(self).mutable()).insert(
                stamp(key@, ts),
                None,
            ),
            final(self).versions() == old(self).versions().insert(stamp(key@, ts), None),
            final(self).immutables() == old(self).immutables(),
            final(self).immutable_files() == old(self).immutable_files(),
            final(self).log() == old(self).log().push(log_of(key@, ts, None, log_ty)),
            final(self).size() == saturate(
                old(self).size() + entry_size(entry_of(key@, ts, None)),
            ),
            final(self).option() == old(self).option(),
            final(self).record_schema() == old(self).record_schema(),
            final(self).signal_capacity() == old(self).signal_capacity(),
            excess == (final(self).size() > final(self).max_size()),
    {
        let ghost k = stamp(key@, ts);
        let ghost before = self.mutable@;
        let size = self.mutable.remove(log_ty, key, ts);
        proof {
            lemma_conforms_insert(before, self.mutable@, k, None, self.record_schema.columns as nat);
            assert(final(self).versions() =~= old(self).versions().insert(k, None));
        }
        size > self.option.max_mem_table_size
    }

    /// Whether a table in memory holds a version of `key` that is newer than
    /// `ts`.
    pub fn check_conflict(&self, key: &Vec<u8>, ts: Timestamp) -> (conflict: bool)
        requires
            self.wf(),
        ensures
            conflict == conflicts(self.versions(), key@, ts),
    {
        let ghost runs = self.immutables();
        if self.mutable.check_conflict(key, ts) {
            proof {
                let t = choose|t: Timestamp|
                    t > ts && versions(self.mutable()).dom().contains(#[trigger] stamp(key@, t));
                assert(self.versions().dom().contains(stamp(key@, t)));
            }
            return true;
        }
        let mut i: usize = 0;
        let mut found = false;
        proof {
            assert(runs.take(0) =~= Seq::<Seq<EntryView>>::empty());
        }
        while i < self.immutables.len() && !found
            invariant
                self.wf(),
                runs == self.immutables(),
                i <= self.immutables.len(),
                found ==> conflicts(merged_versions(runs), key@, ts),
                !found ==> !conflicts(merged_versions(runs.take(i as int)), key@, ts),
            decreases self.immutables.len() - i + if found { 0int } else { 1int },
        {
            let ghost head = runs.take(i as int);
            proof {
                assert(runs.take(i + 1) =~= head + seq![runs[i as int]]);
                lemma_merged_append(head, seq![runs[i as int]]);
                lemma_merged_one(runs[i as int]);
                assert(runs =~= runs.take(i + 1) + runs.skip(i + 1));
                lemma_merged_append(runs.take(i + 1), runs.skip(i + 1));
            }
            if self.immutables[i].1.check_conflict(key, ts) {
                proof {
                    let t = choose|t: Timestamp|
                        t > ts && versions(runs[i as int]).dom().contains(
                            #[trigger] stamp(key@, t),
                        );
                    assert(merged_versions(runs.take(i + 1)).dom().contains(stamp(key@, t)));
                    assert(merged_versions(runs).dom().contains(stamp(key@, t)));
                }
                found = true;
            } else {
                proof {
                    assert forall|t: Timestamp| t > ts implies !merged_versions(
                        runs.take(i + 1),
                    ).dom().contains(#[trigger] stamp(key@, t)) by {}
                }
                i += 1;
            }
        }
        proof {
            if found {
                let t = choose|t: Timestamp|
                    t > ts && merged_versions(runs).dom().contains(#[trigger] stamp(key@, t));
                assert(self.versions().dom().contains(stamp(key@, t)));
            } else {
                assert(runs.take(i as int) =~= runs);
                assert forall|t: Timestamp| t > ts implies !self.versions().dom().contains(
                    #[trigger] stamp(key@, t),
                ) by {}
            }
        }
        found
    }

    /// The newest version of `key` at or before `ts` that the tables in memory
    /// and the segments of `version` hold, as `projection` shows it; a tombstone
    /// where the key was last removed, `None` where it was never written.
    pub fn get(&self, version: &Version, key: &Vec<u8>, ts: Timestamp, projection: Projection) -> (
        entry: Option<Entry>
    )
        requires
            self.wf(),
            version.wf(),
            version.width() == self.record_schema().columns,
        ensures
            crate::transaction::shows(
                entry,
                version.versions().union_prefer_right(self.versions()),
                key@,
                ts,
                self.record_schema(),
                projection@,
            ),
    {
        let ghost pv = projection@;
        let scan = Scan::new(
            self,
            (KeyBound::Included(crate::record::clone_bytes(key)), KeyBound::Included(
                crate::record::clone_bytes(key),
            )),
            ts,
            version,
            Vec::new(),
        );
        let scan = match projection {
            Projection::Parts(parts) => scan.projection(parts),
            Projection::All => scan,
        };
        let ghost mask = scan.mask();
        let ghost m = version.versions().union_prefer_right(self.versions());
        let ghost sources = scan.sources();
        let mut found = scan.take();
        proof {
            let full = run_of(merged_versions(sources));
            assert(merged_versions(Seq::<Seq<EntryView>>::empty()) =~= Map::<
                TimestampedView,
                Option<RowView>,
            >::empty());
            assert(m =~= levels_versions(version@, 0).union_prefer_right(
                merged_versions(self.immutables()),
            ).union_prefer_right(versions(self.mutable())).union_prefer_right(
                merged_versions(Seq::<Seq<EntryView>>::empty()),
            ));
            assert(versions(full) =~= scan_map(
                m,
                KeyBoundView::Included(key@),
                KeyBoundView::Included(key@),
                ts,
                mask,
            ));
            crate::transaction::lemma_point_scan(full, m, key@, ts, mask);
            match crate::stream::newest_ts(m, key@, ts) {
                Some(t) => {
                    crate::transaction::lemma_shown_value(
                        m[stamp(key@, t)],
                        mask,
                        self.record_schema(),
                        pv,
                    );
                },
                None => {},
            }
        }
        if found.len() == 0 {
            None
        } else {
            Some(found.swap_remove(0))
        }
    }

    /// Number of immutable segments that wait to be written out.
    pub fn immutable_count(&self) -> (n: usize)
        ensures
            n == self.immutables().len(),
    {
        self.immutables.len()
    }

    /// Whether the mutable table holds nothing.
    pub fn mutable_is_empty(&self) -> (empty: bool)
        ensures
            empty == (self.mutable().len() == 0),
    {
        self.mutable.is_empty()
    }

    /// Hands out the log records that wait for the write-ahead log, oldest first,
    /// and leaves none waiting.
    pub fn take_log(&mut self) -> (log: Vec<Log>)
        requires
            old(self).wf(),
        ensures
            final(self).wf(),
            crate::wal::log::log_views(log@) == old(self).log(),
            final(self).log() == Seq::<LogView>::empty(),
            final(self).mutable() == old(self).mutable(),
            final(self).immutables() == old(self).immutables(),
            final(self).immutable_files() == old(self).immutable_files(),
            final(self).size() == old(self).size(),
            final(self).option() == old(self).option(),
            final(self).record_schema() == old(self).record_schema(),
            final(self).signal_capacity() == old(self).signal_capacity(),
    {
        let log = self.mutable.take_log();
        proof {
            assert(self.immutables@ == old(self).immutables@);
        }
        log
    }

    /// Freezes the mutable table: its entries become the newest immutable
    /// segment, to be written to file `gen`, and an empty mutable table takes its
    /// place. The log records that wait stay in wait.
    pub fn freeze(&mut self, gen: FileId)
        requires
            old(self).wf(),
            old(self).mutable().len() > 0,
        ensures
            final(self).wf(),
            final(self).mutable() == Seq::<EntryView>::empty(),
            final(self).immutables() == seq![old(self).mutable()] + old(self).immutables(),
            final(self).immutable_files() == seq![gen] + old(self).immutable_files(),
            final(self).versions() == old(self).versions(),
            final(self).log() == old(self).log(),
            final(self).size() == 0,
            final(self).option() == old(self).option(),
            final(self).record_schema() == old(self).record_schema(),
            final(self).signal_capacity() == old(self).signal_capacity(),
    {
        let ghost frozen = self.mutable();
        let ghost older = self.immutables();
        let entries = self.mutable.drain();
        let segment = Immutable::from_entries(entries, self.record_schema.columns);
        self.immutables.push_front((gen, segment));
        proof {
            assert(self.immutables() =~= seq![frozen] + older);
            assert(self.immutable_files() =~= seq![gen] + old(self).immutable_files());
            assert forall|i: int| 0 <= i < self.immutables().len() implies sorted(
                #[trigger] self.immutables()[i],
            ) && conforms(self.immutables()[i], self.record_schema().columns as nat)
                && self.immutables()[i].len() > 0 by {
                if i > 0 {
                    assert(self.immutables()[i] == older[i - 1]);
                }
            }
            assert forall|i: int| 0 <= i < self.immutables@.len() implies (
            #[trigger] self.immutables@[i]).1.wf() && self.immutables@[i].1.width()
                == self.record_schema.columns && self.immutables@[i].1@.len() > 0 by {
                if i > 0 {
                    assert(self.immutables@[i] == old(self).immutables@[i - 1]);
                }
            }
            crate::stream::lemma_versions_empty();
            lemma_merged_append(seq![frozen], older);
            lemma_merged_one(frozen);
            assert(final(self).versions() =~= old(self).versions());
        }
    }

    /// Takes the oldest immutable segment out of the queue, with the file it is
    /// to be written to.
    pub fn pop_oldest(&mut self) -> (oldest: (FileId, Immutable))
        requires
            old(self).wf(),
            old(self).immutables().len() > 0,
        ensures
            final(self).wf(),
            final(self).mutable() == old(self).mutable(),
            final(self).immutables() == old(self).immutables().drop_last(),
            final(self).immutable_files() == old(self).immutable_files().drop_last(),
            oldest.0 == old(self).immutable_files().last(),
            oldest.1@ == old(self).immutables().last(),
            oldest.1.wf(),
            oldest.1.width() == old(self).record_schema().columns,
            oldest.1@.len() > 0,
            final(self).log() == old(self).log(),
            final(self).size() == old(self).size(),
            final(self).option() == old(self).option(),
            final(self).record_schema() == old(self).record_schema(),
            final(self).signal_capacity() == old(self).signal_capacity(),
    {
        let ghost n = self.immutables@.len();
        assert(self.immutables@[n - 1].1.wf());
        let oldest = self.immutables.pop_back().unwrap();
        proof {
            assert(self.immutables() =~= old(self).immutables().drop_last());
            assert(self.immutable_files() =~= old(self).immutable_files().drop_last());
            assert forall|i: int| 0 <= i < self.immutables().len() implies sorted(
                #[trigger] self.immutables()[i],
            ) && conforms(self.immutables()[i], self.record_schema().columns as nat)
                && self.immutables()[i].len() > 0 by {
                assert(self.immutables()[i] == old(self).immutables()[i]);
            }
            assert forall|i: int| 0 <= i < self.immutables@.len() implies (
            #[trigger] self.immutables@[i]).1.wf() && self.immutables@[i].1.width()
                == self.record_schema.columns && self.immutables@[i].1@.len() > 0 by {
                assert(self.immutables@[i] == old(self).immutables@[i]);
            }
        }
        oldest
    }

    /// The options that the database was opened with.
    pub fn options(&self) -> (option: &DbOption)
        ensures
            *option == self.option(),
    {
        &self.option
    }

    /// The shape of the records.
    pub fn shape(&self) -> (schema: RecordSchema)
        ensures
            schema == self.record_schema(),
    {
        self.record_schema
    }

    /// Offers a task to the compactor without waiting, and tells whether the
    /// channel took it. The channel holds one task, so a task that is offered
    /// while another waits is dropped: one compaction turn answers both.
    pub fn signal(&self, task: CompactTask) -> (sent: bool) {
        try_send_task(&self.compaction_tx, task)
    }
}

/// Storing a version that conforms in a table that conforms leaves a table that
/// conforms.
pub proof fn lemma_conforms_insert(
    before: Seq<EntryView>,
    after: Seq<EntryView>,
    k: TimestampedView,
    v: Option<RowView>,
    width: nat,
)
    requires
        sorted(before),
        sorted(after),
        conforms(before, width),
        versions(after) == versions(before).insert(k, v),
        v matches Some(row) ==> row.len() == width,
    ensures
        conforms(after, width),
{
    assert forall|i: int| 0 <= i < after.len() implies ((#[trigger] after[i]).value matches Some(
        row,
    ) ==> row.len() == width) by {
        crate::stream::lemma_versions_at(after, i);
        if after[i].key != k {
            assert(versions(before).dom().contains(after[i].key));
            let p = crate::stream::position(before, after[i].key);
            crate::stream::lemma_versions_at(before, p);
        }
    }
}

/// The writes of a batch of records at `ts`, as entries.
pub open spec fn record_writes(records: Seq<Record>, ts: Timestamp) -> Seq<EntryView> {
    Seq::new(records.len(), |i: int| entry_of(records[i]@.key, ts, Some(records[i]@.columns)))
}

/// The versions after the writes of a batch have been stored at `ts`, in order.
pub open spec fn batch_versions(
    m: Map<TimestampedView, Option<RowView>>,
    writes: Seq<EntryView>,
    ts: Timestamp,
) -> Map<TimestampedView, Option<RowView>>
    decreases writes.len(),
{
    if writes.len() == 0 {
        m
    } else {
        batch_versions(m, writes.drop_last(), ts).insert(
            stamp(writes.last().key.value, ts),
            writes.last().value,
        )
    }
}

/// The log records of a batch written at `ts`: a single record is tagged `Full`;
/// of several the first is tagged `First`, the last `Last`, the others `Middle`.
pub open spec fn batch_log(writes: Seq<EntryView>, ts: Timestamp) -> Seq<LogView> {
    Seq::new(
        writes.len(),
        |i: int| log_of(writes[i].key.value, ts, writes[i].value, batch_tag(i, writes.len() as int)),
    )
}

/// The log records that [`DB::commit_batch`] appends for a batch written at
/// `ts`, in order. Nothing is written: whoever keeps the write-ahead log can
/// append them before the batch is stored.
pub fn batch_frames(batch: &Vec<Entry>, ts: Timestamp) -> (log: Vec<Log>)
    ensures
        log_views(log@) == batch_log(entry_views(batch@), ts),
{
    let ghost ws = entry_views(batch@);
    let n = batch.len();
    let mut log: Vec<Log> = Vec::new();
    let mut i: usize = 0;
    while i < n
        invariant
            i <= n,
            n == batch.len(),
            ws == entry_views(batch@),
            log.len() == i,
            forall|k: int| 0 <= k < i ==> (#[trigger] log[k])@ == batch_log(ws, ts)[k],
        decreases n - i,
    {
        let entry = &batch[i];
        assert(entry@ == ws[i as int]);
        log.push(
            Log {
                key: Timestamped::new(crate::record::clone_bytes(&entry.key.value), ts),
                value: crate::record::clone_value(&entry.value),
                log_type: tag_in_batch(i, n),
            },
        );
        i += 1;
    }
    assert(log_views(log@) =~= batch_log(ws, ts));
    log
}

/// The log records that [`DB::write_batch`] appends for records written at
/// `ts`, in order. Nothing is written.
pub fn record_frames(records: &Vec<Record>, ts: Timestamp) -> (log: Vec<Log>)
    ensures
        log_views(log@) == batch_log(record_writes(records@, ts), ts),
{
    let ghost ws = record_writes(records@, ts);
    let n = records.len();
    let mut log: Vec<Log> = Vec::new();
    let mut i: usize = 0;
    while i < n
        invariant
            i <= n,
            n == records.len(),
            ws == record_writes(records@, ts),
            log.len() == i,
            forall|k: int| 0 <= k < i ==> (#[trigger] log[k])@ == batch_log(ws, ts)[k],
        decreases n - i,
    {
        let record = &records[i];
        log.push(
            Log {
                key: Timestamped::new(crate::record::clone_bytes(&record.key), ts),
                value: Some(crate::record::clone_row(&record.columns)),
                log_type: tag_in_batch(i, n),
            },
        );
        i += 1;
    }
    assert(log_views(log@) =~= batch_log(ws, ts));
    log
}

/// The size estimate after the writes of a batch have been stored at `ts`.
pub open spec fn batch_size(size: usize, writes: Seq<EntryView>, ts: Timestamp) -> usize
    decreases writes.len(),
{
    if writes.len() == 0 {
        size
    } else {
        saturate(
            batch_size(size, writes.drop_last(), ts) + entry_size(
                entry_of(writes.last().key.value, ts, writes.last().value),
            ),
        )
    }
}

/// The later of two timestamps.
pub open spec fn later(a: Timestamp, b: Timestamp) -> Timestamp {
    if a >= b {
        a
    } else {
        b
    }
}

/// An open transaction as the database keeps track of it.
#[derive(Clone, Copy, Debug, PartialEq, Eq, Structural)]
pub struct Reader {
    /// The snapshot that the transaction reads at.
    pub snapshot: Timestamp,
    /// The number of the version that was current when the transaction was
    /// opened.
    pub version: u64,
}

/// The earliest snapshot of some readers; the greatest timestamp if there are
/// none.
pub open spec fn earliest(readers: Seq<Reader>) -> Timestamp
    decreases readers.len(),
{
    if readers.len() == 0 {
        Timestamp::MAX
    } else if readers.last().snapshot <= earliest(readers.drop_last()) {
        readers.last().snapshot
    } else {
        earliest(readers.drop_last())
    }
}

/// The readers without the first one that equals `reader`.
pub open spec fn without(readers: Seq<Reader>, reader: Reader) -> Seq<Reader>
    decreases readers.len(),
{
    if readers.len() == 0 {
        readers
    } else if readers[0] == reader {
        readers.drop_first()
    } else {
        seq![readers[0]] + without(readers.drop_first(), reader)
    }
}

/// The files, each with the number of the version that named it last.
pub open spec fn tagged(files: Seq<FileId>, last: u64) -> Seq<(FileId, u64)> {
    Seq::new(files.len(), |x: int| (files[x], last))
}

/// Whether a reader still holds a file that the layout named last in version
/// `last`: a transaction is open that was opened at that version or before.
pub open spec fn held(readers: Seq<Reader>, last: u64) -> bool {
    exists|i: int| 0 <= i < readers.len() && (#[trigger] readers[i]).version <= last
}

/// The files among `retired` that a reader still holds, in order.
pub open spec fn still_held(retired: Seq<(FileId, u64)>, readers: Seq<Reader>) -> Seq<(FileId, u64)> {
    retired.filter(|r: (FileId, u64)| held(readers, r.1))
}

/// The files among `retired` that no reader holds any more, in order, as the
/// cleaner takes them in.
pub open spec fn released(retired: Seq<(FileId, u64)>, readers: Seq<Reader>) -> Seq<(FileId, usize)> {
    retired.filter(|r: (FileId, u64)| !held(readers, r.1)).map_values(
        |r: (FileId, u64)| (r.0, 0usize),
    )
}

/// Reverses a vector.
pub fn reversed<T>(v: Vec<T>) -> (out: Vec<T>)
    ensures
        out.len() == v.len(),
        forall|i: int| 0 <= i < v.len() ==> out[i] == v[v.len() - 1 - i],
{
    let ghost all = v@;
    let mut v = v;
    let mut out: Vec<T> = Vec::new();
    while v.len() > 0
        invariant
            v.len() + out.len() == all.len(),
            forall|i: int| 0 <= i < v.len() ==> v[i] == all[i],
            forall|i: int| 0 <= i < out.len() ==> out[i] == all[all.len() - 1 - i],
        decreases v.len(),
    {
        let x = v.pop().unwrap();
        out.push(x);
    }
    out
}

/// An embedded database of timestamped records.
pub struct DB {
    schema: Schema,
    version_set: VersionSet,
    cleaner: Cleaner,
    retired: Vec<(FileId, u64)>,
    readers: Vec<Reader>,
    latest: Timestamp,
}

/// Number of failed attempts after which the cleaner gives a file up.
pub const MAX_DELETE_ATTEMPTS: usize = 3;

impl DB {
    /// The entries of the mutable table in order.
    pub closed spec fn mutable(&self) -> Seq<EntryView> {
        self.schema.mutable()
    }

    /// The rows of the immutable segments, newest first.
    pub closed spec fn immutables(&self) -> Seq<Seq<EntryView>> {
        self.schema.immutables()
    }

    /// The files that the immutable segments are to be written to.
    pub closed spec fn immutable_files(&self) -> Seq<FileId> {
        self.schema.immutable_files()
    }

    /// The segments of the current version, level by level.
    pub closed spec fn levels(&self) -> Seq<Seq<TableView>> {
        self.version_set.levels()
    }

    /// The log records that wait to be appended to the write-ahead log.
    pub closed spec fn log(&self) -> Seq<LogView> {
        self.schema.log()
    }

    /// The size estimate of the mutable table.
    pub closed spec fn size(&self) -> usize {
        self.schema.size()
    }

    /// The options that the database was opened with.
    pub closed spec fn option(&self) -> DbOption {
        self.schema.option()
    }

    /// The shape of the records.
    pub closed spec fn record_schema(&self) -> RecordSchema {
        self.schema.record_schema()
    }

    /// The capacity of the channel that carries the tasks for the compactor.
    pub closed spec fn signal_capacity(&self) -> Option<usize> {
        self.schema.signal_capacity()
    }

    /// The transactions that are open, in the order in which they were opened.
    pub closed spec fn readers(&self) -> Seq<Reader> {
        self.readers@
    }

    /// The files that the layout names no longer but that an open transaction
    /// may still read, each with the number of the last version that named it.
    pub closed spec fn retired(&self) -> Seq<(FileId, u64)> {
        self.retired@
    }

    /// Whether the file is one of those that wait for the open transactions to
    /// end.
    pub open spec fn retires(&self, file: FileId) -> bool {
        exists|i: int| 0 <= i < self.retired().len() && (#[trigger] self.retired()[i]).0 == file
    }

    /// The latest timestamp that was written at; 0 before the first write.
    pub closed spec fn latest(&self) -> Timestamp {
        self.latest
    }

    /// The name that the next new file gets.
    pub closed spec fn next_file(&self) -> FileId {
        self.version_set.next_file()
    }

    /// The number of the current version.
    pub closed spec fn version_number(&self) -> u64 {
        self.version_set.number()
    }

    /// The files that wait to be deleted, each with the number of times that
    /// deleting it has failed; the next one to try first.
    pub closed spec fn cleaning(&self) -> Seq<(FileId, usize)> {
        self.cleaner.waiting()
    }

    /// The files that could not be deleted and were given up.
    pub closed spec fn leaked(&self) -> Seq<FileId> {
        self.cleaner.leaked()
    }

    /// Whether the file waits to be deleted or was given up.
    pub open spec fn discards(&self, file: FileId) -> bool {
        (exists|i: int| 0 <= i < self.cleaning().len() && (#[trigger] self.cleaning()[i]).0 == file)
            || self.leaked().contains(file)
    }

    /// The parts are well formed and of one shape, and the files are in order.
    pub closed spec fn wf(&self) -> bool {
        &&& self.schema.wf()
        &&& self.version_set.wf()
        &&& self.version_set.width() == self.schema.record_schema().columns
        &&& storage_ok(
            self.version_set.levels(),
            self.schema.immutable_files(),
            self.version_set.next_file(),
        )
        &&& self.cleaner.wf()
        &&& self.cleaner.limit() == MAX_DELETE_ATTEMPTS
        &&& forall|file: FileId| #[trigger]
            self.cleaner.holds(file) ==> file < self.version_set.next_file() && !names(
                self.version_set.levels(),
                file,
            ) && !self.schema.immutable_files().contains(file)
        &&& forall|i: int|
            0 <= i < self.retired@.len() ==> (#[trigger] self.retired@[i]).0
                < self.version_set.next_file() && !names(
                self.version_set.levels(),
                self.retired@[i].0,
            ) && !self.schema.immutable_files().contains(self.retired@[i].0) && held(
                self.readers@,
                self.retired@[i].1,
            )
        &&& forall|i: int|
            0 <= i < self.readers@.len() ==> (#[trigger] self.readers@[i]).version
                <= self.version_set.number()
    }

    /// A file is discarded exactly if the cleaner holds it.
    proof fn lemma_discards(&self, file: FileId)
        ensures
            self.discards(file) == self.cleaner.holds(file),
    {
        let w = self.cleaner.waiting();
        if self.cleaner.holds(file) && !self.cleaner.leaked().contains(file) {
            let x = choose|x: int| 0 <= x < w.len() && (#[trigger] w[x]).0 == file;
            assert(self.cleaning()[x].0 == file);
        }
        if self.discards(file) && !self.leaked().contains(file) {
            let x = choose|x: int|
                0 <= x < self.cleaning().len() && (#[trigger] self.cleaning()[x]).0 == file;
            assert(w[x].0 == file);
        }
    }

    /// What the database holds in memory and in its layout.
    pub open spec fn stores(&self) -> Stores {
        Stores {
            mutable: self.mutable(),
            immutables: self.immutables(),
            files: self.immutable_files(),
            size: self.size(),
            levels: self.levels(),
            next_file: self.next_file() as int,
            number: self.version_number() as int,
        }
    }

    /// Whether the files that wait are those of `before` and the files
    /// `removed`, which the layout of `before` was the last to name: those that
    /// an open transaction may still read stay retired, and the others have gone
    /// to the cleaner, in order.
    pub open spec fn retirement(&self, before: &DB, removed: Seq<FileId>) -> bool {
        let waiting = before.retired() + tagged(removed, before.version_number());
        &&& self.retired() == still_held(waiting, before.readers())
        &&& self.cleaning() == before.cleaning() + released(waiting, before.readers())
    }

    /// Whether the database is what a compaction makes of `before`, and
    /// `stopped` tells whether it stopped early: with `flush` the part on
    /// memory, which waits while a transaction is open, and with `merge` the
    /// major compaction, with the horizon of `before`; the files that leave the
    /// layout are retired.
    pub open spec fn compacted_from(&self, before: &DB, flush: bool, merge: bool, stopped: bool)
        -> bool {
        exists|removed: Seq<FileId>| #[trigger]
            self.retirement(before, removed) && compaction_of(
                before.stores(),
                self.stores(),
                removed,
                flush && before.readers().len() == 0,
                merge,
                stopped,
                before.option(),
                before.horizon(),
            )
    }

    /// Whether the file is an orphan: it lies in storage, and the layout names it
    /// no longer. Such a file waits to be deleted, for the cleaner or for the
    /// transactions that may still read it, or it was given up.
    pub open spec fn orphan(&self, file: FileId) -> bool {
        self.discards(file) || self.retires(file)
    }

    /// The layout names no orphan, so that no file of the layout is ever deleted.
    /// And once no transaction is open and the cleaner has tried every file that
    /// waited, the only orphans left are the files that could not be deleted.
    pub proof fn lemma_orphans(&self, file: FileId)
        requires
            self.wf(),
        ensures
            self.orphan(file) ==> !names(self.levels(), file) && !self.immutable_files().contains(
                file,
            ),
            self.readers().len() == 0 && self.cleaning().len() == 0 && self.orphan(file)
                ==> self.leaked().contains(file),
    {
        self.lemma_wf();
        if self.readers().len() == 0 && self.retires(file) {
            let i = choose|i: int|
                0 <= i < self.retired().len() && (#[trigger] self.retired()[i]).0 == file;
            assert(held(self.readers(), self.retired()[i].1));
        }
    }

    /// What holds of every well-formed database: the tables in memory are in
    /// order, every segment is in order, and in every level below level 0 the
    /// segments are in key order with disjoint key ranges.
    pub proof fn lemma_wf(&self)
        requires
            self.wf(),
        ensures
            Schema::shape_wf(self.record_schema()),
            sorted(self.mutable()),
            all_sorted(self.immutables()),
            crate::version::layout_wf(self.levels(), self.record_schema().columns as nat),
            forall|l: int|
                1 <= l < self.levels().len() ==> crate::version::ordered(#[trigger] self.levels()[l]),
            storage_ok(self.levels(), self.immutable_files(), self.next_file()),
            forall|file: FileId| #[trigger]
                self.discards(file) ==> file < self.next_file() && !names(self.levels(), file)
                    && !self.immutable_files().contains(file),
            forall|file: FileId| #[trigger]
                self.retires(file) ==> file < self.next_file() && !names(self.levels(), file)
                    && !self.immutable_files().contains(file),
            forall|i: int|
                0 <= i < self.retired().len() ==> held(
                    self.readers(),
                    (#[trigger] self.retired()[i]).1,
                ),
            forall|i: int|
                0 <= i < self.readers().len() ==> (#[trigger] self.readers()[i]).version
                    <= self.version_number(),
    {
        self.version_set.lemma_wf();
        assert forall|file: FileId| #[trigger] self.discards(file) implies file < self.next_file()
            && !names(self.levels(), file) && !self.immutable_files().contains(file) by {
            self.lemma_discards(file);
        }
        assert forall|file: FileId| #[trigger] self.retires(file) implies file < self.next_file()
            && !names(self.levels(), file) && !self.immutable_files().contains(file) by {
            let i = choose|i: int|
                0 <= i < self.retired().len() && (#[trigger] self.retired()[i]).0 == file;
            assert(self.retired@[i].0 == file);
        }
    }

    /// Every version of every key that the database holds. The tables in memory
    /// take precedence over the segments, a level over every deeper one.
    pub open spec fn versions(&self) -> Map<TimestampedView, Option<RowView>> {
        levels_versions(self.levels(), 0).union_prefer_right(
            merged_versions(self.immutables()),
        ).union_prefer_right(versions(self.mutable()))
    }

    /// The versions that the tables in memory hold.
    pub open spec fn memory_versions(&self) -> Map<TimestampedView, Option<RowView>> {
        merged_versions(self.immutables()).union_prefer_right(versions(self.mutable()))
    }

    /// The horizon of garbage collection: the snapshot of the oldest open
    /// transaction; the latest timestamp written at while no transaction is open.
    /// A version that a newer version of its key at or before the horizon
    /// supersedes is of no use to any reader from the horizon on.
    pub open spec fn horizon(&self) -> Timestamp {
        if self.readers().len() == 0 {
            self.latest()
        } else {
            earliest(self.readers())
        }
    }

    /// Whether two states of a database have the same settings.
    pub open spec fn same_settings(&self, other: &DB) -> bool {
        &&& self.option() == other.option()
        &&& self.record_schema() == other.record_schema()
        &&& self.signal_capacity() == other.signal_capacity()
    }

    /// Whether two states of a database hold the same tables and segments.
    pub open spec fn same_tables(&self, other: &DB) -> bool {
        &&& self.mutable() == other.mutable()
        &&& self.immutables() == other.immutables()
        &&& self.immutable_files() == other.immutable_files()
        &&& self.levels() == other.levels()
        &&& self.log() == other.log()
        &&& self.size() == other.size()
        &&& self.latest() == other.latest()
        &&& self.next_file() == other.next_file()
        &&& self.version_number() == other.version_number()
        &&& self.cleaning() == other.cleaning()
        &&& self.leaked() == other.leaked()
        &&& self.retired() == other.retired()
    }

    /// Opens an empty database, and hands back with it the receiving end of the
    /// channel through which it asks for compaction. The channel holds one task.
    pub fn new(option: DbOption, record_schema: RecordSchema) -> (opened: (
        Self,
        flume::Receiver<CompactTask>,
    ))
        requires
            Schema::shape_wf(record_schema),
        ensures
            opened.0.wf(),
            opened.0.versions() == Map::<TimestampedView, Option<RowView>>::empty(),
            opened.0.mutable() == Seq::<EntryView>::empty(),
            opened.0.immutables() == Seq::<Seq<EntryView>>::empty(),
            opened.0.log() == Seq::<LogView>::empty(),
            opened.0.readers() == Seq::<Reader>::empty(),
            opened.0.retired() == Seq::<(FileId, u64)>::empty(),
            opened.0.version_number() == 0,
            opened.0.next_file() == 0,
            forall|l: int|
                0 <= l < crate::version::MAX_LEVEL ==> (#[trigger] opened.0.levels()[l]).len() == 0,
            opened.0.cleaning() == Seq::<(FileId, usize)>::empty(),
            opened.0.leaked() == Seq::<FileId>::empty(),
            opened.0.size() == 0,
            opened.0.latest() == 0,
            opened.0.option() == option,
            opened.0.record_schema() == record_schema,
            opened.0.signal_capacity() == Some(1usize),
    {
        let (task_tx, task_rx) = bounded_tasks(1);
        let schema = Schema::new(option, record_schema, task_tx);
        let version_set = VersionSet::new(record_schema.columns);
        let db = DB {
            schema,
            version_set,
            cleaner: Cleaner::new(MAX_DELETE_ATTEMPTS),
            retired: Vec::new(),
            readers: Vec::new(),
            latest: 0,
        };
        proof {
            crate::stream::lemma_versions_empty();
            db.version_set.lemma_wf();
            assert(db.schema.immutable_files().len() == db.schema.immutables().len());
            assert forall|file: FileId| !names(db.version_set.levels(), file) by {}
            crate::version::lemma_levels_versions_empty(db.levels(), 0);
            assert(db.versions() =~= Map::<TimestampedView, Option<RowView>>::empty());
        }
        (db, task_rx)
    }

    /// What is in memory.
    pub fn read(&self) -> (schema: &Schema)
        requires
            self.wf(),
        ensures
            schema.wf(),
            schema.mutable() == self.mutable(),
            schema.immutables() == self.immutables(),
            schema.record_schema() == self.record_schema(),
    {
        &self.schema
    }

    /// The current version of the segments.
    pub fn version(&self) -> (version: &Version)
        requires
            self.wf(),
        ensures
            version.wf(),
            version@ == self.levels(),
            version.width() == self.record_schema().columns,
    {
        self.version_set.current()
    }

    /// Opens a transaction that reads the database as it was at `snapshot_ts`.
    /// While it is open, the mutable table is not frozen, no version that a
    /// reader at `snapshot_ts` or later sees is collected, and no file that the
    /// layout names now is deleted.
    pub fn transaction(&mut self, snapshot_ts: Timestamp) -> (txn: Transaction)
        requires
            old(self).wf(),
        ensures
            final(self).wf(),
            final(self).readers() == old(self).readers().push(txn.reader()),
            final(self).same_tables(old(self)),
            final(self).same_settings(old(self)),
            txn.wf(),
            txn.snapshot() == snapshot_ts,
            txn.reader().snapshot == snapshot_ts,
            txn.reader().version == old(self).version_number(),
            txn.buffer() == Seq::<EntryView>::empty(),
    {
        let reader = Reader { snapshot: snapshot_ts, version: self.version_set.version_number() };
        let ghost before = self.readers@;
        self.readers.push(reader);
        proof {
            assert forall|i: int| 0 <= i < self.retired@.len() implies held(
                self.readers@,
                (#[trigger] self.retired@[i]).1,
            ) by {
                let x = choose|x: int|
                    0 <= x < before.len() && (#[trigger] before[x]).version <= self.retired@[i].1;
                assert(self.readers@[x] == before[x]);
            }
            assert forall|i: int| 0 <= i < self.readers@.len() implies (
            #[trigger] self.readers@[i]).version <= self.version_set.number() by {
                if i < before.len() {
                    assert(self.readers@[i] == before[i]);
                }
            }
        }
        Transaction::new(reader)
    }

    /// Takes note that the transaction of `reader` is over, and hands the files
    /// that no open transaction holds any more to the cleaner.
    pub fn release(&mut self, reader: Reader)
        requires
            old(self).wf(),
        ensures
            final(self).wf(),
            final(self).readers() == without(old(self).readers(), reader),
            final(self).retired() == still_held(old(self).retired(), final(self).readers()),
            final(self).cleaning() == old(self).cleaning() + released(
                old(self).retired(),
                final(self).readers(),
            ),
            final(self).leaked() == old(self).leaked(),
            final(self).mutable() == old(self).mutable(),
            final(self).immutables() == old(self).immutables(),
            final(self).immutable_files() == old(self).immutable_files(),
            final(self).levels() == old(self).levels(),
            final(self).log() == old(self).log(),
            final(self).size() == old(self).size(),
            final(self).latest() == old(self).latest(),
            final(self).next_file() == old(self).next_file(),
            final(self).version_number() == old(self).version_number(),
            final(self).same_settings(old(self)),
    {
        let ghost all = self.readers@;
        let mut i: usize = 0;
        proof {
            assert(all.skip(0) =~= all);
        }
        while i < self.readers.len() && !(self.readers[i].snapshot == reader.snapshot
            && self.readers[i].version == reader.version)
            invariant
                i <= self.readers.len(),
                self.readers@ == all,
                without(all, reader) == all.take(i as int) + without(all.skip(i as int), reader),
            decreases self.readers.len() - i,
        {
            proof {
                let rest = all.skip(i as int);
                assert(rest[0] == all[i as int]);
                assert(rest.drop_first() =~= all.skip(i + 1));
                assert(all.take(i + 1) =~= all.take(i as int) + seq![all[i as int]]);
                assert(all.take(i as int) + (seq![all[i as int]] + without(
                    all.skip(i + 1),
                    reader,
                )) =~= all.take(i + 1) + without(all.skip(i + 1), reader));
            }
            i += 1;
        }
        if i < self.readers.len() {
            proof {
                let rest = all.skip(i as int);
                assert(rest[0] == all[i as int]);
                assert(rest.drop_first() =~= all.skip(i + 1));
                assert(all.remove(i as int) =~= all.take(i as int) + all.skip(i + 1));
            }
            self.readers.remove(i);
            proof {
                assert forall|k: int| 0 <= k < self.readers@.len() implies (
                #[trigger] self.readers@[k]).version <= self.version_set.number() by {
                    if k < i {
                        assert(self.readers@[k] == all[k]);
                    } else {
                        assert(self.readers@[k] == all[k + 1]);
                    }
                }
            }
        } else {
            proof {
                assert(all.skip(i as int) =~= Seq::<Reader>::empty());
                assert(all.take(i as int) =~= all);
                assert(all + Seq::<Reader>::empty() =~= all);
            }
        }
        self.forward();
    }

    /// Hands the retired files that no open transaction holds any more to the
    /// cleaner, in order; the others stay retired.
    fn forward(&mut self)
        requires
            old(self).schema.wf(),
            old(self).version_set.wf(),
            old(self).version_set.width() == old(self).schema.record_schema().columns,
            storage_ok(
                old(self).version_set.levels(),
                old(self).schema.immutable_files(),
                old(self).version_set.next_file(),
            ),
            old(self).cleaner.wf(),
            old(self).cleaner.limit() == MAX_DELETE_ATTEMPTS,
            forall|file: FileId| #[trigger]
                old(self).cleaner.holds(file) ==> file < old(self).version_set.next_file()
                    && !names(old(self).version_set.levels(), file) && !old(self).schema.immutable_files().contains(file),
            forall|i: int|
                0 <= i < old(self).retired@.len() ==> (#[trigger] old(self).retired@[i]).0 < old(self).version_set.next_file() && !names(
                    old(self).version_set.levels(),
                    old(self).retired@[i].0,
                ) && !old(self).schema.immutable_files().contains(old(self).retired@[i].0),
            forall|i: int|
                0 <= i < old(self).readers@.len() ==> (#[trigger] old(self).readers@[i]).version
                    <= old(self).version_set.number(),
        ensures
            final(self).wf(),
            final(self).schema == old(self).schema,
            final(self).version_set == old(self).version_set,
            final(self).readers@ == old(self).readers@,
            final(self).latest == old(self).latest,
            final(self).retired() == still_held(old(self).retired(), old(self).readers()),
            final(self).cleaning() == old(self).cleaning() + released(
                old(self).retired(),
                old(self).readers(),
            ),
            final(self).leaked() == old(self).leaked(),
    {
        let ghost all = self.retired@;
        let ghost readers = self.readers@;
        let ghost queue = self.cleaner.waiting();
        let ghost keep = |r: (FileId, u64)| held(readers, r.1);
        let ghost give = |r: (FileId, u64)| !held(readers, r.1);
        let ghost zero = |r: (FileId, u64)| (r.0, 0usize);
        // The oldest version that a transaction has pinned.
        let mut oldest: Option<u64> = None;
        let mut k: usize = 0;
        while k < self.readers.len()
            invariant
                k <= self.readers.len(),
                self.readers@ == readers,
                oldest is None ==> k == 0,
                oldest matches Some(v) ==> (forall|x: int|
                    0 <= x < k ==> v <= (#[trigger] readers[x]).version) && exists|x: int|
                    0 <= x < k && (#[trigger] readers[x]).version == v,
            decreases self.readers.len() - k,
        {
            let version = self.readers[k].version;
            oldest = match oldest {
                Some(v) => if version < v {
                    Some(version)
                } else {
                    Some(v)
                },
                None => Some(version),
            };
            k += 1;
        }
        let mut pending: Vec<(FileId, u64)> = Vec::new();
        core::mem::swap(&mut pending, &mut self.retired);
        let mut i: usize = 0;
        proof {
            reveal(Seq::filter);
            assert(all.take(0).filter(keep) =~= Seq::<(FileId, u64)>::empty());
            assert(all.take(0).filter(give).map_values(zero) =~= Seq::<(FileId, usize)>::empty());
            assert(queue + Seq::<(FileId, usize)>::empty() =~= queue);
        }
        while i < pending.len()
            invariant
                i <= pending.len(),
                pending@ == all,
                self.readers@ == readers,
                self.schema == old(self).schema,
                self.version_set == old(self).version_set,
                self.latest == old(self).latest,
                keep == (|r: (FileId, u64)| held(readers, r.1)),
                give == (|r: (FileId, u64)| !held(readers, r.1)),
                zero == (|r: (FileId, u64)| (r.0, 0usize)),
                oldest is None ==> readers.len() == 0,
                oldest matches Some(v) ==> (forall|x: int|
                    0 <= x < readers.len() ==> v <= (#[trigger] readers[x]).version) && exists|
                    x: int,
                | 0 <= x < readers.len() && (#[trigger] readers[x]).version == v,
                self.cleaner.wf(),
                self.cleaner.limit() == MAX_DELETE_ATTEMPTS,
                self.cleaner.leaked() == old(self).cleaner.leaked(),
                self.retired@ == all.take(i as int).filter(keep),
                self.cleaner.waiting() == queue + all.take(i as int).filter(give).map_values(zero),
            decreases pending.len() - i,
        {
            let (file, last) = pending[i];
            let pinned = match oldest {
                Some(v) => v <= last,
                None => false,
            };
            proof {
                reveal(Seq::filter);
                assert(all.take(i + 1).drop_last() =~= all.take(i as int));
                assert(all.take(i + 1).last() == all[i as int]);
                assert(pinned == held(readers, last)) by {
                    if held(readers, last) {
                        let x = choose|x: int|
                            0 <= x < readers.len() && (#[trigger] readers[x]).version <= last;
                    }
                }
            }
            if pinned {
                self.retired.push((file, last));
                proof {
                    assert(all.take(i + 1).filter(give) =~= all.take(i as int).filter(give));
                }
            } else {
                self.cleaner.enqueue(file);
                proof {
                    assert(all.take(i + 1).filter(keep) =~= all.take(i as int).filter(keep));
                    assert(all.take(i + 1).filter(give).map_values(zero) =~= all.take(
                        i as int,
                    ).filter(give).map_values(zero).push((file, 0usize)));
                    assert(self.cleaner.waiting() =~= queue + all.take(i + 1).filter(
                        give,
                    ).map_values(zero));
                }
            }
            i += 1;
        }
        proof {
            assert(all.take(i as int) =~= all);
            let kept = all.filter(keep);
            let given = all.filter(give);
            assert forall|x: int| 0 <= x < kept.len() implies (#[trigger] kept[x]).0
                < self.version_set.next_file() && !names(self.version_set.levels(), kept[x].0)
                && !self.schema.immutable_files().contains(kept[x].0) && held(
                readers,
                kept[x].1,
            ) by {
                all.lemma_filter_pred(keep, x);
                all.lemma_filter_contains_rev(keep, kept[x]);
                let y = choose|y: int| 0 <= y < all.len() && all[y] == kept[x];
                assert(all[y].0 < self.version_set.next_file());
            }
            assert forall|file: FileId| #[trigger] self.cleaner.holds(file) implies file
                < self.version_set.next_file() && !names(self.version_set.levels(), file)
                && !self.schema.immutable_files().contains(file) by {
                let w = self.cleaner.waiting();
                if !old(self).cleaner.holds(file) {
                    let x = choose|x: int| 0 <= x < w.len() && (#[trigger] w[x]).0 == file;
                    if x < queue.len() {
                        assert(queue[x].0 == file);
                    } else {
                        let g = given[x - queue.len()];
                        assert(w[x] == zero(g));
                        all.lemma_filter_contains_rev(give, g);
                        let y = choose|y: int| 0 <= y < all.len() && all[y] == g;
                        assert(all[y].0 == file);
                    }
                }
            }
        }
    }

    /// Number of transactions that are open.
    pub fn open_transactions(&self) -> (n: usize)
        ensures
            n == self.readers().len(),
    {
        self.readers.len()
    }

    /// Computes [`DB::horizon`].
    pub fn gc_horizon(&self) -> (horizon: Timestamp)
        ensures
            horizon == self.horizon(),
    {
        if self.readers.len() == 0 {
            return self.latest;
        }
        let ghost all = self.readers@;
        let mut oldest = Timestamp::MAX;
        let mut i: usize = 0;
        proof {
            assert(all.take(0) =~= Seq::<Reader>::empty());
        }
        while i < self.readers.len()
            invariant
                i <= self.readers.len(),
                all == self.readers@,
                oldest == earliest(all.take(i as int)),
            decreases self.readers.len() - i,
        {
            proof {
                assert(all.take(i + 1).drop_last() =~= all.take(i as int));
                assert(all.take(i + 1).last() == all[i as int]);
            }
            if self.readers[i].snapshot <= oldest {
                oldest = self.readers[i].snapshot;
            }
            i += 1;
        }
        proof {
            assert(all.take(i as int) =~= all);
        }
        oldest
    }

    /// Writes one record at `ts`, as a batch of its own. Where the mutable table
    /// then exceeds its size, a freeze is asked for. Tells whether it was.
    pub fn write(&mut self, record: Record, ts: Timestamp) -> (excess: bool)
        requires
            old(self).wf(),
            record@.columns.len() == old(self).record_schema().columns,
        ensures
            final(self).wf(),
            final(self).versions() == old(self).versions().insert(
                stamp(record@.key, ts),
                Some(record@.columns),
            ),
            final(self).memory_versions() == old(self).memory_versions().insert(
                stamp(record@.key, ts),
                Some(record@.columns),
            ),
            versions(final(self).mutable()) == versions(old(self).mutable()).insert(
                stamp(record@.key, ts),
                Some(record@.columns),
            ),
            final(self).immutables() == old(self).immutables(),
            final(self).immutable_files() == old(self).immutable_files(),
            final(self).levels() == old(self).levels(),
            final(self).readers() == old(self).readers(),
            final(self).next_file() == old(self).next_file(),
            final(self).version_number() == old(self).version_number(),
            final(self).cleaning() == old(self).cleaning(),
            final(self).leaked() == old(self).leaked(),
            final(self).retired() == old(self).retired(),
            final(self).log() == old(self).log().push(
                log_of(record@.key, ts, Some(record@.columns), LogType::Full),
            ),
            final(self).size() == saturate(
                old(self).size() + entry_size(entry_of(record@.key, ts, Some(record@.columns))),
            ),
            final(self).latest() == later(old(self).latest(), ts),
            final(self).same_settings(old(self)),
            excess == (final(self).size() > final(self).option().max_mem_table_size),
    {
        let excess = self.schema.write(LogType::Full, record, ts);
        if ts > self.latest {
            self.latest = ts;
        }
        if excess {
            let _ = self.schema.signal(CompactTask::Freeze);
        }
        proof {
            assert(final(self).versions() =~= old(self).versions().insert(
                stamp(record@.key, ts),
                Some(record@.columns),
            ));
        }
        excess
    }

    /// Writes the records at `ts`, in order, as one batch of the write-ahead log:
    /// a single record is tagged `Full`; of several the first is tagged `First`,
    /// the last `Last`, the others `Middle`. Where the mutable table exceeds its
    /// size after the last record, a freeze is asked for. Tells whether it was.
    pub fn write_batch(&mut self, records: Vec<Record>, ts: Timestamp) -> (excess: bool)
        requires
            old(self).wf(),
            forall|i: int|
                0 <= i < records.len() ==> (#[trigger] records[i])@.columns.len() == old(self).record_schema().columns,
        ensures
            final(self).wf(),
            final(self).versions() == batch_versions(
                old(self).versions(),
                record_writes(records@, ts),
                ts,
            ),
            final(self).memory_versions() == batch_versions(
                old(self).memory_versions(),
                record_writes(records@, ts),
                ts,
            ),
            versions(final(self).mutable()) == batch_versions(
                versions(old(self).mutable()),
                record_writes(records@, ts),
                ts,
            ),
            records.len() == 0 ==> final(self).mutable() == old(self).mutable(),
            final(self).immutables() == old(self).immutables(),
            final(self).immutable_files() == old(self).immutable_files(),
            final(self).levels() == old(self).levels(),
            final(self).readers() == old(self).readers(),
            final(self).next_file() == old(self).next_file(),
            final(self).version_number() == old(self).version_number(),
            final(self).cleaning() == old(self).cleaning(),
            final(self).leaked() == old(self).leaked(),
            final(self).retired() == old(self).retired(),
            final(self).log() == old(self).log() + batch_log(record_writes(records@, ts), ts),
            final(self).size() == batch_size(old(self).size(), record_writes(records@, ts), ts),
            final(self).latest() == if records.len() > 0 {
                later(old(self).latest(), ts)
            } else {
                old(self).latest()
            },
            final(self).same_settings(old(self)),
            excess == (records.len() > 0 && final(self).size() > final(self).option().max_mem_table_size),
    {
        let ghost ws = record_writes(records@, ts);
        let ghost all = records@;
        let n = records.len();
        let mut pending = reversed(records);
        let mut batch: Vec<Entry> = Vec::new();
        let mut i: usize = 0;
        while i < n
            invariant
                i <= n,
                n == all.len(),
                pending.len() == n - i,
                forall|k: int| 0 <= k < pending.len() ==> pending[k] == all[n - 1 - k],
                ws == record_writes(all, ts),
                batch.len() == i,
                forall|k: int| 0 <= k < i ==> (#[trigger] batch[k])@ == ws[k],
            decreases n - i,
        {
            let record = pending.pop().unwrap();
            assert(record == all[i as int]);
            let Record { key, columns } = record;
            batch.push(Entry { key: Timestamped::new(key, ts), value: Some(columns) });
            i += 1;
        }
        proof {
            assert(entry_views(batch@) =~= ws);
        }
        self.commit_batch(batch, ts)
    }

    /// Writes what a transaction has buffered at `ts`, in order, as one batch of
    /// the write-ahead log: each record as the version of its key at `ts`, each
    /// removal as a tombstone. Where the mutable table exceeds its size after the
    /// last write, a freeze is asked for. Tells whether it was.
    pub fn commit_batch(&mut self, batch: Vec<Entry>, ts: Timestamp) -> (excess: bool)
        requires
            old(self).wf(),
            conforms(entry_views(batch@), old(self).record_schema().columns as nat),
        ensures
            final(self).wf(),
            final(self).versions() == batch_versions(
                old(self).versions(),
                entry_views(batch@),
                ts,
            ),
            final(self).memory_versions() == batch_versions(
                old(self).memory_versions(),
                entry_views(batch@),
                ts,
            ),
            versions(final(self).mutable()) == batch_versions(
                versions(old(self).mutable()),
                entry_views(batch@),
                ts,
            ),
            batch.len() == 0 ==> final(self).mutable() == old(self).mutable(),
            final(self).immutables() == old(self).immutables(),
            final(self).immutable_files() == old(self).immutable_files(),
            final(self).levels() == old(self).levels(),
            final(self).readers() == old(self).readers(),
            final(self).next_file() == old(self).next_file(),
            final(self).version_number() == old(self).version_number(),
            final(self).cleaning() == old(self).cleaning(),
            final(self).leaked() == old(self).leaked(),
            final(self).retired() == old(self).retired(),
            final(self).log() == old(self).log() + batch_log(entry_views(batch@), ts),
            final(self).size() == batch_size(old(self).size(), entry_views(batch@), ts),
            final(self).latest() == if batch.len() > 0 {
                later(old(self).latest(), ts)
            } else {
                old(self).latest()
            },
            final(self).same_settings(old(self)),
            excess == (batch.len() > 0 && final(self).size() > final(self).option().max_mem_table_size),
    {
        let ghost ws = entry_views(batch@);
        let ghost all = batch@;
        let n = batch.len();
        let mut pending = reversed(batch);
        let mut excess = false;
        let mut i: usize = 0;
        proof {
            assert(ws.take(0) =~= Seq::<EntryView>::empty());
            assert(self.log() =~= old(self).log() + batch_log(ws, ts).take(0));
        }
        while i < n
            invariant
                i <= n,
                n == all.len(),
                pending.len() == n - i,
                forall|k: int| 0 <= k < pending.len() ==> pending[k] == all[n - 1 - k],
                ws == entry_views(all),
                conforms(ws, old(self).record_schema().columns as nat),
                self.wf(),
                self.same_settings(old(self)),
                self.levels() == old(self).levels(),
                self.immutables() == old(self).immutables(),
                self.immutable_files() == old(self).immutable_files(),
                self.readers() == old(self).readers(),
                self.next_file() == old(self).next_file(),
                self.version_number() == old(self).version_number(),
                self.cleaning() == old(self).cleaning(),
                self.leaked() == old(self).leaked(),
                self.retired() == old(self).retired(),
                self.versions() == batch_versions(old(self).versions(), ws.take(i as int), ts),
                versions(self.mutable()) == batch_versions(
                    versions(old(self).mutable()),
                    ws.take(i as int),
                    ts,
                ),
                i == 0 ==> self.mutable() == old(self).mutable(),
                self.memory_versions() == batch_versions(
                    old(self).memory_versions(),
                    ws.take(i as int),
                    ts,
                ),
                self.log() == old(self).log() + batch_log(ws, ts).take(i as int),
                self.size() == batch_size(old(self).size(), ws.take(i as int), ts),
                self.latest() == if i > 0 {
                    later(old(self).latest(), ts)
                } else {
                    old(self).latest()
                },
                excess == (i > 0 && self.size() > self.option().max_mem_table_size),
            decreases n - i,
        {
            let entry = pending.pop().unwrap();
            let ghost before = self.versions();
            let ghost before_memory = self.memory_versions();
            let ghost before_mutable = versions(self.mutable());
            proof {
                assert(entry == all[i as int]);
                assert(entry@ == ws[i as int]);
                assert(ws.take(i + 1).drop_last() =~= ws.take(i as int));
                assert(ws.take(i + 1).last() == ws[i as int]);
                assert(batch_log(ws, ts).take(i + 1) =~= batch_log(ws, ts).take(i as int).push(
                    log_of(ws[i as int].key.value, ts, ws[i as int].value, batch_tag(i as int, n as int)),
                ));
            }
            let Entry { key, value } = entry;
            excess = match value {
                Some(columns) => self.schema.write(
                    tag_in_batch(i, n),
                    Record { key: key.value, columns },
                    ts,
                ),
                None => self.schema.remove(tag_in_batch(i, n), key.value, ts),
            };
            if ts > self.latest {
                self.latest = ts;
            }
            proof {
                assert(self.versions() =~= before.insert(
                    stamp(ws[i as int].key.value, ts),
                    ws[i as int].value,
                ));
                assert(self.memory_versions() =~= before_memory.insert(
                    stamp(ws[i as int].key.value, ts),
                    ws[i as int].value,
                ));
                assert(versions(self.mutable()) =~= before_mutable.insert(
                    stamp(ws[i as int].key.value, ts),
                    ws[i as int].value,
                ));
            }
            i += 1;
        }
        proof {
            assert(ws.take(n as int) =~= ws);
            assert(batch_log(ws, ts).take(n as int) =~= batch_log(ws, ts));
        }
        if excess {
            let _ = self.schema.signal(CompactTask::Freeze);
        }
        excess
    }

    /// The newest version of `key` at or before `ts`, as `projection` shows it;
    /// a tombstone where the key was last removed, `None` where it was never
    /// written.
    pub fn get(&self, key: &Vec<u8>, ts: Timestamp, projection: Projection) -> (entry: Option<
        Entry,
    >)
        requires
            self.wf(),
        ensures
            crate::transaction::shows(
                entry,
                self.versions(),
                key@,
                ts,
                self.record_schema(),
                projection@,
            ),
    {
        let version = self.version_set.current();
        proof {
            assert(self.versions() =~= version.versions().union_prefer_right(
                self.schema.versions(),
            ));
        }
        self.schema.get(version, key, ts, projection)
    }

    /// Whether a table in memory holds a version of `key` that is newer than
    /// `ts`.
    pub fn check_conflict(&self, key: &Vec<u8>, ts: Timestamp) -> (conflict: bool)
        requires
            self.wf(),
        ensures
            conflict == conflicts(self.memory_versions(), key@, ts),
    {
        self.schema.check_conflict(key, ts)
    }

    /// Prepares a scan of the keys in `[lower, upper]` as of snapshot `ts`, with
    /// `streams` as further sources that take precedence over the database.
    pub fn scan(&self, lower: KeyBound, upper: KeyBound, ts: Timestamp, streams: Vec<Vec<Entry>>)
        -> (scan: Scan<'_>)
        requires
            self.wf(),
            all_sorted(run_views(streams@)),
        ensures
            scan.wf(),
            scan.mutable() == self.mutable(),
            scan.immutables() == self.immutables(),
            scan.levels() == self.levels(),
            scan.streams() == run_views(streams@),
            scan.lower() == lower@,
            scan.upper() == upper@,
            scan.ts() == ts,
            scan.limit_of() == None::<usize>,
            scan.record_schema() == self.record_schema(),
            forall|leaf: int| scan.mask().includes(leaf),
    {
        Scan::new(&self.schema, (lower, upper), ts, self.version_set.current(), streams)
    }

    /// Hands out the log records that wait for the write-ahead log, oldest first,
    /// and leaves none waiting.
    pub fn take_log(&mut self) -> (log: Vec<Log>)
        requires
            old(self).wf(),
        ensures
            final(self).wf(),
            crate::wal::log::log_views(log@) == old(self).log(),
            final(self).log() == Seq::<LogView>::empty(),
            final(self).versions() == old(self).versions(),
            final(self).mutable() == old(self).mutable(),
            final(self).immutables() == old(self).immutables(),
            final(self).immutable_files() == old(self).immutable_files(),
            final(self).levels() == old(self).levels(),
            final(self).readers() == old(self).readers(),
            final(self).size() == old(self).size(),
            final(self).latest() == old(self).latest(),
            final(self).next_file() == old(self).next_file(),
            final(self).version_number() == old(self).version_number(),
            final(self).cleaning() == old(self).cleaning(),
            final(self).leaked() == old(self).leaked(),
            final(self).retired() == old(self).retired(),
            final(self).same_settings(old(self)),
    {
        self.schema.take_log()
    }

    /// Answers a freeze that was asked for. Unless a transaction is open, the
    /// mutable table is frozen if it holds anything, and if then as many
    /// immutable segments wait as the options ask for, they are all written out
    /// to level 0. In any case the major compactions that are due are carried
    /// out, with the horizon of [`DB::horizon`]. The files that the layout then
    /// names no longer are retired: handed to the cleaner if no transaction is
    /// open, else kept until the transactions that were open have ended. No
    /// reader at or after the horizon sees any change. When the file names or
    /// the version numbers are used up, the work stops with what has been done
    /// and reports it.
    pub fn check_then_compaction(&mut self) -> (result: Result<(), WriteError>)
        requires
            old(self).wf(),
        ensures
            final(self).wf(),
            final(self).same_settings(old(self)),
            final(self).readers() == old(self).readers(),
            final(self).latest() == old(self).latest(),
            final(self).log() == old(self).log(),
            final(self).leaked() == old(self).leaked(),
            old(self).version_number() <= final(self).version_number(),
            same_reads(old(self).versions(), final(self).versions(), old(self).horizon()),
            old(self).readers().len() > 0 ==> final(self).mutable() == old(self).mutable()
                && final(self).immutables() == old(self).immutables() && final(self).immutable_files() == old(self).immutable_files() && final(self).size() == old(self).size(),
            result is Ok ==> settled(
                final(self).levels(),
                old(self).option().major_threshold_with_sst_size,
                old(self).option().level_sst_magnification,
            ),
            result is Ok && old(self).readers().len() == 0 ==> final(self).mutable().len() == 0
                && (final(self).immutables().len() == 0 || final(self).immutables().len() < old(self).option().immutable_chunk_num),
            final(self).compacted_from(old(self), true, true, result is Err),
            result is Err ==> (true && old(self).readers().len() == 0 && flush_fails(
                old(self).stores(),
                old(self).option().immutable_chunk_num,
            )) || !settled(
                final(self).levels(),
                old(self).option().major_threshold_with_sst_size,
                old(self).option().level_sst_magnification,
            ),
            result matches Err(e) ==> e == WriteError::Version(VersionError::Exhausted),
            result is Err ==> final(self).next_file() == FileId::MAX || final(self).version_number()
                == u64::MAX,
            old(self).readers().len() == 0 && flush_fails(
                old(self).stores(),
                old(self).option().immutable_chunk_num,
            ) ==> result is Err,
            forall|file: FileId|
                names(old(self).levels(), file) && !names(final(self).levels(), file)
                    ==> #[trigger] final(self).discards(file) || final(self).retires(file),
            forall|file: FileId| old(self).discards(file) ==> #[trigger] final(self).discards(file),
            forall|file: FileId|
                old(self).retires(file) ==> #[trigger] final(self).retires(file) || final(self).discards(file),
            old(self).readers().len() == 0 ==> final(self).retired().len() == 0,
    {
        self.compact(true, true)
    }

    /// The part of a compaction that works on memory. Unless a transaction is
    /// open, the mutable table is frozen if it holds anything, and if then as
    /// many immutable segments wait as the options ask for, they are all written
    /// out to level 0. No table is merged, and no reader sees any change. When
    /// the file names or the version numbers are used up, the work stops with
    /// what has been done and reports it.
    pub fn minor_compaction(&mut self) -> (result: Result<(), WriteError>)
        requires
            old(self).wf(),
        ensures
            final(self).wf(),
            final(self).same_settings(old(self)),
            final(self).readers() == old(self).readers(),
            final(self).latest() == old(self).latest(),
            final(self).log() == old(self).log(),
            final(self).leaked() == old(self).leaked(),
            old(self).version_number() <= final(self).version_number(),
            same_reads(old(self).versions(), final(self).versions(), old(self).horizon()),
            old(self).readers().len() > 0 ==> final(self).mutable() == old(self).mutable()
                && final(self).immutables() == old(self).immutables() && final(self).immutable_files() == old(self).immutable_files() && final(self).size() == old(self).size(),
            result is Ok && old(self).readers().len() == 0 ==> final(self).mutable().len() == 0
                && (final(self).immutables().len() == 0 || final(self).immutables().len() < old(self).option().immutable_chunk_num),
            final(self).compacted_from(old(self), true, false, result is Err),
            result is Err ==> (true && old(self).readers().len() == 0 && flush_fails(
                old(self).stores(),
                old(self).option().immutable_chunk_num,
            )) || !settled(
                final(self).levels(),
                old(self).option().major_threshold_with_sst_size,
                old(self).option().level_sst_magnification,
            ),
            result matches Err(e) ==> e == WriteError::Version(VersionError::Exhausted),
            result is Err ==> final(self).next_file() == FileId::MAX || final(self).version_number()
                == u64::MAX,
            result is Err <==> old(self).readers().len() == 0 && flush_fails(
                old(self).stores(),
                old(self).option().immutable_chunk_num,
            ),
            forall|file: FileId|
                names(old(self).levels(), file) && !names(final(self).levels(), file)
                    ==> #[trigger] final(self).discards(file) || final(self).retires(file),
            forall|file: FileId| old(self).discards(file) ==> #[trigger] final(self).discards(file),
            forall|file: FileId|
                old(self).retires(file) ==> #[trigger] final(self).retires(file) || final(self).discards(file),
            old(self).readers().len() == 0 ==> final(self).retired().len() == 0,
    {
        self.compact(true, false)
    }

    /// The part of a compaction that works on the levels: the major compactions
    /// that are due are carried out, with the horizon of [`DB::horizon`], whether
    /// or not a transaction is open. The files that the layout then names no
    /// longer are retired: handed to the cleaner if no transaction is open, else
    /// kept until the transactions that were open have ended. Memory stays as it
    /// is, and no reader at or after the horizon sees any change. When the file
    /// names or the version numbers are used up, the work stops with what has
    /// been done and reports it.
    pub fn major_compaction(&mut self) -> (result: Result<(), WriteError>)
        requires
            old(self).wf(),
        ensures
            final(self).wf(),
            final(self).same_settings(old(self)),
            final(self).readers() == old(self).readers(),
            final(self).latest() == old(self).latest(),
            final(self).log() == old(self).log(),
            final(self).leaked() == old(self).leaked(),
            old(self).version_number() <= final(self).version_number(),
            same_reads(old(self).versions(), final(self).versions(), old(self).horizon()),
            final(self).mutable() == old(self).mutable()
                && final(self).immutables() == old(self).immutables() && final(self).immutable_files() == old(self).immutable_files() && final(self).size() == old(self).size(),
            result is Ok ==> settled(
                final(self).levels(),
                old(self).option().major_threshold_with_sst_size,
                old(self).option().level_sst_magnification,
            ),
            final(self).compacted_from(old(self), false, true, result is Err),
            result is Err ==> (false && old(self).readers().len() == 0 && flush_fails(
                old(self).stores(),
                old(self).option().immutable_chunk_num,
            )) || !settled(
                final(self).levels(),
                old(self).option().major_threshold_with_sst_size,
                old(self).option().level_sst_magnification,
            ),
            result matches Err(e) ==> e == WriteError::Version(VersionError::Exhausted),
            result is Err ==> final(self).next_file() == FileId::MAX || final(self).version_number()
                == u64::MAX,
            forall|file: FileId|
                names(old(self).levels(), file) && !names(final(self).levels(), file)
                    ==> #[trigger] final(self).discards(file) || final(self).retires(file),
            forall|file: FileId| old(self).discards(file) ==> #[trigger] final(self).discards(file),
            forall|file: FileId|
                old(self).retires(file) ==> #[trigger] final(self).retires(file) || final(self).discards(file),
            old(self).readers().len() == 0 ==> final(self).retired().len() == 0,
    {
        self.compact(false, true)
    }

    /// The work of the compactor: with `flush` the part on memory, with `merge`
    /// the major compactions, and then the retiring of the files that the
    /// layout names no longer.
    fn compact(&mut self, flush: bool, merge: bool) -> (result: Result<(), WriteError>)
        requires
            old(self).wf(),
        ensures
            final(self).wf(),
            final(self).same_settings(old(self)),
            final(self).readers() == old(self).readers(),
            final(self).latest() == old(self).latest(),
            final(self).log() == old(self).log(),
            final(self).leaked() == old(self).leaked(),
            old(self).version_number() <= final(self).version_number(),
            same_reads(old(self).versions(), final(self).versions(), old(self).horizon()),
            old(self).readers().len() > 0 || !flush ==> final(self).mutable() == old(self).mutable()
                && final(self).immutables() == old(self).immutables() && final(self).immutable_files() == old(self).immutable_files() && final(self).size() == old(self).size(),
            result is Ok && merge ==> settled(
                final(self).levels(),
                old(self).option().major_threshold_with_sst_size,
                old(self).option().level_sst_magnification,
            ),
            result is Ok && flush && old(self).readers().len() == 0 ==> final(self).mutable().len() == 0
                && (final(self).immutables().len() == 0 || final(self).immutables().len() < old(self).option().immutable_chunk_num),
            final(self).compacted_from(old(self), flush, merge, result is Err),
            result is Err ==> (flush && old(self).readers().len() == 0 && flush_fails(
                old(self).stores(),
                old(self).option().immutable_chunk_num,
            )) || !settled(
                final(self).levels(),
                old(self).option().major_threshold_with_sst_size,
                old(self).option().level_sst_magnification,
            ),
            result matches Err(e) ==> e == WriteError::Version(VersionError::Exhausted),
            result is Err ==> final(self).next_file() == FileId::MAX || final(self).version_number()
                == u64::MAX,
            flush && old(self).readers().len() == 0 && flush_fails(
                old(self).stores(),
                old(self).option().immutable_chunk_num,
            ) ==> result is Err,
            !merge && result is Err ==> flush && old(self).readers().len() == 0 && flush_fails(
                old(self).stores(),
                old(self).option().immutable_chunk_num,
            ),
            forall|file: FileId|
                names(old(self).levels(), file) && !names(final(self).levels(), file)
                    ==> #[trigger] final(self).discards(file) || final(self).retires(file),
            forall|file: FileId| old(self).discards(file) ==> #[trigger] final(self).discards(file),
            forall|file: FileId|
                old(self).retires(file) ==> #[trigger] final(self).retires(file) || final(self).discards(file),
            old(self).readers().len() == 0 ==> final(self).retired().len() == 0,
    {
        let flush = flush && self.readers.len() == 0;
        let horizon = self.gc_horizon();
        let last = self.version_set.version_number();
        let ghost levels = self.version_set.levels();
        let ghost files = self.schema.immutable_files();
        let ghost next = self.version_set.next_file();
        let ghost waiting = self.retired@;
        let ghost held_before = self.cleaner;
        let done = Compactor::check_then_compaction(
            &mut self.schema,
            &mut self.version_set,
            flush,
            merge,
            horizon,
        );
        let ghost schema_now = self.schema;
        let ghost set_now = self.version_set;
        let removed = done.removed;
        let mut i: usize = 0;
        while i < removed.len()
            invariant
                i <= removed.len(),
                self.cleaner == held_before,
                self.schema == schema_now,
                self.version_set == set_now,
                self.readers == old(self).readers,
                self.latest == old(self).latest,
                self.retired@ == waiting + Seq::new(i as nat, |x: int| (removed[x], last)),
            decreases removed.len() - i,
        {
            let ghost before = self.retired@;
            self.retired.push((removed[i], last));
            proof {
                assert(self.retired@ =~= waiting + Seq::new(
                    (i + 1) as nat,
                    |x: int| (removed[x], last),
                ));
            }
            i += 1;
        }
        let ghost all = self.retired@;
        proof {
            let now_files = self.schema.immutable_files();
            let now_levels = self.version_set.levels();
            assert(self.versions() =~= all_versions(&self.schema, &self.version_set));
            assert(old(self).versions() =~= all_versions(&old(self).schema, &old(self).version_set));
            // What was out of reach before is out of reach now.
            assert forall|file: FileId|
                file < next && !names(levels, file) && !files.contains(file) implies !names(
                now_levels,
                file,
            ) && !now_files.contains(file) by {
                if now_files.contains(file) {
                    let x = choose|x: int| 0 <= x < now_files.len() && #[trigger] now_files[x] == file;
                    assert(files.contains(now_files[x]) || now_files[x] >= next);
                }
            }
            assert forall|x: int| 0 <= x < all.len() implies (#[trigger] all[x]).0
                < self.version_set.next_file() && !names(now_levels, all[x].0)
                && !now_files.contains(all[x].0) by {
                if x < waiting.len() {
                    assert(all[x] == old(self).retired@[x]);
                } else {
                    assert(all[x].0 == removed[x - waiting.len()]);
                }
            }
            assert forall|file: FileId| #[trigger] self.cleaner.holds(file) implies file
                < self.version_set.next_file() && !names(now_levels, file) && !now_files.contains(
                file,
            ) by {
                assert(file < next && !names(levels, file) && !files.contains(file));
            }
        }
        self.forward();
        proof {
            let readers = self.readers@;
            let keep = |r: (FileId, u64)| held(readers, r.1);
            let give = |r: (FileId, u64)| !held(readers, r.1);
            let zero = |r: (FileId, u64)| (r.0, 0usize);
            let kept = all.filter(keep);
            let given = all.filter(give);
            // A retired file stays retired or goes to the cleaner.
            assert forall|x: int| 0 <= x < all.len() implies self.retires(
                (#[trigger] all[x]).0,
            ) || self.discards(all[x].0) by {
                if keep(all[x]) {
                    all.lemma_filter_contains(keep, x);
                    let y = choose|y: int| 0 <= y < kept.len() && kept[y] == all[x];
                    assert(self.retired()[y].0 == all[x].0);
                } else {
                    all.lemma_filter_contains(give, x);
                    let y = choose|y: int| 0 <= y < given.len() && given[y] == all[x];
                    assert(self.cleaning()[old(self).cleaning().len() + y] == zero(given[y]));
                }
            }
            assert forall|file: FileId|
                names(old(self).levels(), file) && !names(
                    self.levels(),
                    file,
                ) implies #[trigger] self.discards(file) || self.retires(file) by {
                assert(removed@.contains(file));
                let r = choose|r: int| 0 <= r < removed@.len() && removed@[r] == file;
                assert(all[waiting.len() + r].0 == file);
            }
            assert forall|file: FileId| old(self).discards(file) implies #[trigger] self.discards(
                file,
            ) by {
                if !old(self).leaked().contains(file) {
                    let x = choose|x: int|
                        0 <= x < old(self).cleaning().len() && (
                        #[trigger] old(self).cleaning()[x]).0 == file;
                    assert(self.cleaning()[x].0 == file);
                }
            }
            assert forall|file: FileId| old(self).retires(file) implies #[trigger] self.retires(
                file,
            ) || self.discards(file) by {
                let x = choose|x: int|
                    0 <= x < old(self).retired().len() && (#[trigger] old(self).retired()[x]).0
                        == file;
                assert(all[x].0 == file);
            }
            if readers.len() == 0 && kept.len() > 0 {
                all.lemma_filter_pred(keep, 0);
            }
        }
        proof {
            assert(all =~= old(self).retired() + tagged(removed@, last));
            assert(self.stores() == stores_of(&self.schema, &self.version_set));
            assert(old(self).stores() == stores_of(&old(self).schema, &old(self).version_set));
            assert(self.retirement(old(self), removed@));
            crate::compaction::lemma_stopped(
                old(self).stores(),
                self.stores(),
                removed@,
                flush,
                merge,
                done.stopped is Some,
                old(self).option(),
                old(self).horizon(),
            );
        }
        match done.stopped {
            Some(e) => Err(WriteError::Version(e)),
            None => Ok(()),
        }
    }

    /// Carries out a task that arrived for the compactor.
    pub fn handle(&mut self, task: CompactTask) -> (result: Result<(), WriteError>)
        requires
            old(self).wf(),
        ensures
            final(self).wf(),
            final(self).same_settings(old(self)),
            final(self).readers() == old(self).readers(),
            final(self).latest() == old(self).latest(),
            final(self).log() == old(self).log(),
            final(self).leaked() == old(self).leaked(),
            old(self).version_number() <= final(self).version_number(),
            same_reads(old(self).versions(), final(self).versions(), old(self).horizon()),
            old(self).readers().len() > 0 ==> final(self).mutable() == old(self).mutable()
                && final(self).immutables() == old(self).immutables() && final(self).immutable_files() == old(self).immutable_files() && final(self).size() == old(self).size(),
            result is Ok ==> settled(
                final(self).levels(),
                old(self).option().major_threshold_with_sst_size,
                old(self).option().level_sst_magnification,
            ),
            result is Ok && old(self).readers().len() == 0 ==> final(self).mutable().len() == 0
                && (final(self).immutables().len() == 0 || final(self).immutables().len() < old(self).option().immutable_chunk_num),
            final(self).compacted_from(old(self), true, true, result is Err),
            result is Err ==> (true && old(self).readers().len() == 0 && flush_fails(
                old(self).stores(),
                old(self).option().immutable_chunk_num,
            )) || !settled(
                final(self).levels(),
                old(self).option().major_threshold_with_sst_size,
                old(self).option().level_sst_magnification,
            ),
            result matches Err(e) ==> e == WriteError::Version(VersionError::Exhausted),
            result is Err ==> final(self).next_file() == FileId::MAX || final(self).version_number()
                == u64::MAX,
            old(self).readers().len() == 0 && flush_fails(
                old(self).stores(),
                old(self).option().immutable_chunk_num,
            ) ==> result is Err,
            forall|file: FileId|
                names(old(self).levels(), file) && !names(final(self).levels(), file)
                    ==> #[trigger] final(self).discards(file) || final(self).retires(file),
            forall|file: FileId| old(self).discards(file) ==> #[trigger] final(self).discards(file),
            forall|file: FileId|
                old(self).retires(file) ==> #[trigger] final(self).retires(file) || final(self).discards(file),
            old(self).readers().len() == 0 ==> final(self).retired().len() == 0,
    {
        match task {
            CompactTask::Freeze => self.check_then_compaction(),
        }
    }

    /// Number of files that the cleaner is to try to delete in this turn: every
    /// file that waits now, once.
    pub fn deletions_due(&self) -> (n: usize)
        ensures
            n == self.cleaning().len(),
    {
        self.cleaner.turn()
    }

    /// The file to delete next, if one waits.
    pub fn next_to_delete(&self) -> (file: Option<FileId>)
        ensures
            match file {
                Some(f) => self.cleaning().len() > 0 && f == self.cleaning()[0].0,
                None => self.cleaning().len() == 0,
            },
    {
        self.cleaner.next()
    }

    /// Takes note of how the attempt to delete the file that [`DB::next_to_delete`]
    /// names went. A file that was deleted leaves the queue. A file that was not
    /// is tried again in a later turn, unless it has now failed
    /// [`MAX_DELETE_ATTEMPTS`] times: then it is given up and put on record as
    /// leaked.
    pub fn resolve_delete(&mut self, deleted: bool)
        requires
            old(self).wf(),
        ensures
            final(self).wf(),
            final(self).same_settings(old(self)),
            final(self).versions() == old(self).versions(),
            final(self).mutable() == old(self).mutable(),
            final(self).immutables() == old(self).immutables(),
            final(self).immutable_files() == old(self).immutable_files(),
            final(self).levels() == old(self).levels(),
            final(self).readers() == old(self).readers(),
            final(self).retired() == old(self).retired(),
            final(self).log() == old(self).log(),
            old(self).cleaning().len() == 0 ==> final(self).cleaning() == old(self).cleaning()
                && final(self).leaked() == old(self).leaked(),
            old(self).cleaning().len() > 0 && deleted ==> final(self).cleaning() == old(self).cleaning().drop_first() && final(self).leaked() == old(self).leaked(),
            old(self).cleaning().len() > 0 && !deleted && old(self).cleaning()[0].1 + 1
                < MAX_DELETE_ATTEMPTS ==> final(self).cleaning() == old(self).cleaning().drop_first().push(
                (old(self).cleaning()[0].0, (old(self).cleaning()[0].1 + 1) as usize),
            ) && final(self).leaked() == old(self).leaked(),
            old(self).cleaning().len() > 0 && !deleted && old(self).cleaning()[0].1 + 1
                >= MAX_DELETE_ATTEMPTS ==> final(self).cleaning() == old(self).cleaning().drop_first() && final(self).leaked() == old(self).leaked().push(
                old(self).cleaning()[0].0,
            ),
    {
        let ghost held = self.cleaner;
        self.cleaner.resolve(deleted);
        proof {
            assert forall|file: FileId| #[trigger] self.cleaner.holds(file) implies held.holds(
                file,
            ) by {
                let w = self.cleaner.waiting();
                let v = held.waiting();
                if self.cleaner.leaked().contains(file) {
                    if !held.leaked().contains(file) {
                        let gone = self.cleaner.leaked();
                        let x = choose|x: int| 0 <= x < gone.len() && #[trigger] gone[x] == file;
                        if x < held.leaked().len() {
                            assert(held.leaked()[x] == file);
                        }
                        assert(v[0].0 == file);
                    }
                } else {
                    let x = choose|x: int| 0 <= x < w.len() && (#[trigger] w[x]).0 == file;
                    if v.len() > 0 {
                        if x < v.len() - 1 {
                            assert(v[x + 1].0 == file);
                        } else {
                            assert(v[0].0 == file);
                        }
                    }
                }
            }
        }
    }
}

/// The sources of a scan in the order of their precedence: the streams that the
/// scan was made with, the mutable table, the immutable segments, newest first,
/// and the streams of the version; each as the scan shows it.
pub open spec fn scan_sources(
    mutable: Seq<EntryView>,
    immutables: Seq<Seq<EntryView>>,
    levels: Seq<Seq<TableView>>,
    streams: Seq<Seq<EntryView>>,
    lower: KeyBoundView,
    upper: KeyBoundView,
    ts: Timestamp,
    mask: ProjectionMask,
) -> Seq<Seq<EntryView>> {
    scanned_runs(streams, lower, upper, ts, mask) + seq![
        scanned(mutable, lower, upper, ts, mask),
    ] + scanned_runs(
        immutables,
        lower,
        upper,
        ts,
        mask,
    ) + version_streams(levels, lower, upper, ts, mask)
}

/// The sources of a scan are sorted runs, and hold together what the scan shows
/// of the versions of the database and of the streams that the scan was made
/// with.
pub proof fn lemma_scan_sources(
    mutable: Seq<EntryView>,
    immutables: Seq<Seq<EntryView>>,
    levels: Seq<Seq<TableView>>,
    streams: Seq<Seq<EntryView>>,
    lower: KeyBoundView,
    upper: KeyBoundView,
    ts: Timestamp,
    mask: ProjectionMask,
    width: nat,
)
    requires
        sorted(mutable),
        all_sorted(immutables),
        all_sorted(streams),
        crate::version::layout_wf(levels, width),
    ensures
        all_sorted(scan_sources(mutable, immutables, levels, streams, lower, upper, ts, mask)),
        merged_versions(
            scan_sources(mutable, immutables, levels, streams, lower, upper, ts, mask),
        ) == scan_map(
            levels_versions(levels, 0).union_prefer_right(
                merged_versions(immutables),
            ).union_prefer_right(versions(mutable)).union_prefer_right(merged_versions(streams)),
            lower,
            upper,
            ts,
            mask,
        ),
{
    let a = scanned_runs(streams, lower, upper, ts, mask);
    lemma_merged_scanned(streams, lower, upper, ts, mask);
    let b = seq![scanned(mutable, lower, upper, ts, mask)];
    let c = scanned_runs(immutables, lower, upper, ts, mask);
    let d = version_streams(levels, lower, upper, ts, mask);
    let out = scan_sources(mutable, immutables, levels, streams, lower, upper, ts, mask);
    lemma_scanned_map(mutable, lower, upper, ts, mask);
    lemma_merged_scanned(immutables, lower, upper, ts, mask);
    lemma_version_streams(levels, lower, upper, ts, mask, width);
    assert forall|r: int| 0 <= r < out.len() implies sorted(#[trigger] out[r]) by {
        if r < a.len() {
            assert(out[r] == a[r]);
        } else if r < a.len() + 1 {
            assert(out[r] == b[0]);
        } else if r < a.len() + 1 + c.len() {
            assert(out[r] == c[r - a.len() - 1]);
        } else {
            assert(out[r] == d[r - a.len() - 1 - c.len()]);
        }
    }
    lemma_merged_append(a + b + c, d);
    lemma_merged_append(a + b, c);
    lemma_merged_append(a, b);
    lemma_merged_one(scanned(mutable, lower, upper, ts, mask));
    let lv = levels_versions(levels, 0);
    let iv = merged_versions(immutables);
    let mv = versions(mutable);
    lemma_scan_map_union(lv, iv, lower, upper, ts, mask);
    lemma_scan_map_union(lv.union_prefer_right(iv), mv, lower, upper, ts, mask);
    lemma_scan_map_union(
        lv.union_prefer_right(iv).union_prefer_right(mv),
        merged_versions(streams),
        lower,
        upper,
        ts,
        mask,
    );
    assert(merged_versions(out) =~= scan_map(
        lv.union_prefer_right(iv).union_prefer_right(mv).union_prefer_right(
            merged_versions(streams),
        ),
        lower,
        upper,
        ts,
        mask,
    ));
}

/// A scan in preparation: a key range, a snapshot, and what to read.
pub struct Scan<'scan> {
    schema: &'scan Schema,
    lower: KeyBound,
    upper: KeyBound,
    ts: Timestamp,
    version: &'scan Version,
    streams: Vec<Vec<Entry>>,
    limit: Option<usize>,
    projection: ProjectionMask,
}

impl<'scan> Scan<'scan> {
    pub closed spec fn mutable(&self) -> Seq<EntryView> {
        self.schema.mutable()
    }

    pub closed spec fn immutables(&self) -> Seq<Seq<EntryView>> {
        self.schema.immutables()
    }

    pub closed spec fn levels(&self) -> Seq<Seq<TableView>> {
        self.version@
    }

    /// The streams that the scan was made with. They take precedence over the
    /// database.
    pub closed spec fn streams(&self) -> Seq<Seq<EntryView>> {
        run_views(self.streams@)
    }

    pub closed spec fn lower(&self) -> KeyBoundView {
        self.lower@
    }

    pub closed spec fn upper(&self) -> KeyBoundView {
        self.upper@
    }

    pub closed spec fn ts(&self) -> Timestamp {
        self.ts
    }

    /// The most distinct user keys that the scan yields, if it is limited.
    pub closed spec fn limit_of(&self) -> Option<usize> {
        self.limit
    }

    /// The leaf columns that the scan reads.
    pub closed spec fn mask(&self) -> ProjectionMask {
        self.projection
    }

    pub closed spec fn record_schema(&self) -> RecordSchema {
        self.schema.record_schema()
    }

    pub closed spec fn wf(&self) -> bool {
        &&& self.schema.wf()
        &&& self.version.wf()
        &&& self.version.width() == self.schema.record_schema().columns
        &&& all_sorted(run_views(self.streams@))
    }

    /// The sources that the scan merges, in the order of their precedence.
    pub open spec fn sources(&self) -> Seq<Seq<EntryView>> {
        scan_sources(
            self.mutable(),
            self.immutables(),
            self.levels(),
            self.streams(),
            self.lower(),
            self.upper(),
            self.ts(),
            self.mask(),
        )
    }

    /// The versions that the scan reads from: those of the database, under those
    /// of the streams that the scan was made with.
    pub open spec fn versions(&self) -> Map<TimestampedView, Option<RowView>> {
        levels_versions(self.levels(), 0).union_prefer_right(
            merged_versions(self.immutables()),
        ).union_prefer_right(versions(self.mutable())).union_prefer_right(
            merged_versions(self.streams()),
        )
    }

    /// A scan of `[lower, upper]` at snapshot `ts` over what is in memory and the
    /// segments of `version`, with `streams` as further sources that take
    /// precedence; without limit, reading every column.
    pub fn new(
        schema: &'scan Schema,
        range: (KeyBound, KeyBound),
        ts: Timestamp,
        version: &'scan Version,
        streams: Vec<Vec<Entry>>,
    ) -> (scan: Self)
        requires
            schema.wf(),
            version.wf(),
            version.width() == schema.record_schema().columns,
            all_sorted(run_views(streams@)),
        ensures
            scan.wf(),
            scan.mutable() == schema.mutable(),
            scan.immutables() == schema.immutables(),
            scan.levels() == version@,
            scan.streams() == run_views(streams@),
            scan.lower() == range.0@,
            scan.upper() == range.1@,
            scan.ts() == ts,
            scan.limit_of() == None::<usize>,
            scan.record_schema() == schema.record_schema(),
            forall|leaf: int| scan.mask().includes(leaf),
    {
        let (lower, upper) = range;
        Scan {
            schema,
            lower,
            upper,
            ts,
            version,
            streams,
            limit: None,
            projection: ProjectionMask::all(),
        }
    }

    /// The same scan, cut to at most `limit` distinct user keys.
    pub fn limit(self, limit: Option<usize>) -> (scan: Self)
        ensures
            scan.limit_of() == limit,
            scan.wf() == self.wf(),
            scan.mutable() == self.mutable(),
            scan.immutables() == self.immutables(),
            scan.levels() == self.levels(),
            scan.streams() == self.streams(),
            scan.lower() == self.lower(),
            scan.upper() == self.upper(),
            scan.ts() == self.ts(),
            scan.mask() == self.mask(),
            scan.record_schema() == self.record_schema(),
    {
        Scan {
            schema: self.schema,
            lower: self.lower,
            upper: self.upper,
            ts: self.ts,
            version: self.version,
            streams: self.streams,
            limit,
            projection: self.projection,
        }
    }

    /// The same scan, reading of the user columns only those at the listed
    /// positions, besides the key column, the tombstone flag and the timestamp,
    /// which are always read. A position that names no column is ignored.
    pub fn projection(self, projection: Vec<usize>) -> (scan: Self)
        requires
            self.wf(),
        ensures
            scan.wf(),
            forall|leaf: int|
                scan.mask().includes(leaf) == leaf_shown(self.record_schema(), projection@, leaf),
            scan.limit_of() == self.limit_of(),
            scan.mutable() == self.mutable(),
            scan.immutables() == self.immutables(),
            scan.levels() == self.levels(),
            scan.streams() == self.streams(),
            scan.lower() == self.lower(),
            scan.upper() == self.upper(),
            scan.ts() == self.ts(),
            scan.record_schema() == self.record_schema(),
    {
        let mask = parts_mask(self.schema.shape(), &projection);
        Scan {
            schema: self.schema,
            lower: self.lower,
            upper: self.upper,
            ts: self.ts,
            version: self.version,
            streams: self.streams,
            limit: self.limit,
            projection: mask,
        }
    }

    /// Carries out the scan: merges the sources and yields, in the order of key
    /// ascending and timestamp descending, every version in range that was
    /// written at or before the snapshot, once, with the value of the source of
    /// highest precedence that holds it, as the mask shows it. Tombstones are
    /// among them. A limit cuts the outcome after that many distinct user keys.
    pub fn take(self) -> (out: Vec<Entry>)
        requires
            self.wf(),
        ensures
            entry_views(out@) == limited(run_of(merged_versions(self.sources())), self.limit_of()),
            sorted(run_of(merged_versions(self.sources()))),
            versions(run_of(merged_versions(self.sources()))) == merged_versions(self.sources()),
            merged_versions(self.sources()) == scan_map(
                self.versions(),
                self.lower(),
                self.upper(),
                self.ts(),
                self.mask(),
            ),
            self.limit_of() == Some(0usize) ==> out@.len() == 0,
            range_empty(self.lower(), self.upper()) ==> out@.len() == 0,
    {
        let ghost sources = self.sources();
        let ghost initial = self.streams();
        let ghost mview = self.mutable();
        let ghost iviews = self.immutables();
        let ghost lower = self.lower@;
        let ghost upper = self.upper@;
        let ghost mask = self.projection;
        let ts = self.ts;
        let mut streams: Vec<Vec<Entry>> = Vec::new();
        let ghost first = scanned_runs(initial, lower, upper, ts, mask);
        let mut r: usize = 0;
        while r < self.streams.len()
            invariant
                r <= self.streams.len(),
                initial == run_views(self.streams@),
                lower == self.lower@,
                upper == self.upper@,
                mask == self.projection,
                first == scanned_runs(initial, lower, upper, ts, mask),
                run_views(streams@) == first.take(r as int),
            decreases self.streams.len() - r,
        {
            let ghost prev = run_views(streams@);
            let run = crate::stream::scan_run(
                &self.streams[r],
                &self.lower,
                &self.upper,
                ts,
                &self.projection,
            );
            streams.push(run);
            proof {
                assert(run_views(streams@) =~= prev.push(first[r as int]));
                assert(first.take(r + 1) =~= first.take(r as int).push(first[r as int]));
            }
            r += 1;
        }
        proof {
            assert(first.take(r as int) =~= first);
            lemma_scan_sources(
                mview,
                iviews,
                self.version@,
                initial,
                lower,
                upper,
                ts,
                mask,
                self.version.width(),
            );
        }
        let inmem = self.schema.mutable.scan(&self.lower, &self.upper, ts);
        let shown = project_run(&inmem, &self.projection);
        streams.push(shown);
        proof {
            assert(run_views(streams@) =~= first + seq![scanned(mview, lower, upper, ts, mask)]);
        }
        let ghost head = run_views(streams@);
        let ghost frozen = scanned_runs(iviews, lower, upper, ts, mask);
        let mut i: usize = 0;
        proof {
            assert(head + frozen.take(0) =~= head);
        }
        while i < self.schema.immutables.len()
            invariant
                self.schema.wf(),
                iviews == self.schema.immutables(),
                lower == self.lower@,
                upper == self.upper@,
                mask == self.projection,
                frozen == scanned_runs(iviews, lower, upper, ts, mask),
                i <= self.schema.immutables.len(),
                run_views(streams@) == head + frozen.take(i as int),
            decreases self.schema.immutables.len() - i,
        {
            let ghost prev = run_views(streams@);
            let run = self.schema.immutables[i].1.scan(&self.lower, &self.upper, ts, &self.projection);
            streams.push(run);
            proof {
                assert(run_views(streams@) =~= prev.push(frozen[i as int]));
                assert(head + frozen.take(i + 1) =~= (head + frozen.take(i as int)).push(
                    frozen[i as int],
                ));
            }
            i += 1;
        }
        proof {
            assert(frozen.take(i as int) =~= frozen);
        }
        self.version.streams(&mut streams, &self.lower, &self.upper, ts, &self.projection);
        proof {
            assert(run_views(streams@) =~= sources);
        }
        let merged = merge_runs(&streams);
        proof {
            lemma_run_of(entry_views(merged@));
            crate::stream::lemma_limited_zero(entry_views(merged@));
            if range_empty(lower, upper) {
                assert(merged_versions(sources) =~= Map::<
                    TimestampedView,
                    Option<RowView>,
                >::empty());
                if merged@.len() > 0 {
                    crate::stream::lemma_versions_at(entry_views(merged@), 0);
                }
                crate::stream::lemma_key_count_monotone(entry_views(merged@), 0);
            }
        }
        let ghost full = entry_views(merged@);
        let out = limit_run(merged, self.limit);
        proof {
            if range_empty(lower, upper) {
                crate::stream::lemma_limited_len(full, self.limit);
            }
            assert(entry_views(out@).len() == out@.len());
            if self.limit == Some(0usize) {
                assert(entry_views(out@) == limited(full, Some(0usize)));
            }
        }
        out
    }
}

/// The mask of a reader who lists the user columns `projection`: the tombstone
/// flag, the timestamp and the key column, and each listed user column that the
/// table has.
pub fn parts_mask(shape: RecordSchema, projection: &Vec<usize>) -> (mask: ProjectionMask)
    requires
        Schema::shape_wf(shape),
    ensures
        forall|leaf: int| mask.includes(leaf) == leaf_shown(shape, projection@, leaf),
{
    let leaves = shape.columns + ENGINE_COLUMNS;
    let ghost parts = projection@;
    let mut indices: Vec<usize> = Vec::new();
    let mut i: usize = 0;
    // Skip the two engine columns.
    while i < projection.len()
        invariant
            i <= projection.len(),
            parts == projection@,
            leaves == shape.columns + ENGINE_COLUMNS,
            forall|leaf: int|
                0 <= leaf < leaves ==> (#[trigger] lists(indices@, leaf) == lists_part(
                    parts,
                    i as int,
                    leaf,
                )),
        decreases projection.len() - i,
    {
        let ghost before = indices@;
        let p = projection[i];
        if p < shape.columns {
            indices.push(p + ENGINE_COLUMNS);
        }
        proof {
            let after = indices@;
            assert forall|leaf: int| 0 <= leaf < leaves implies (#[trigger] lists(
                after,
                leaf,
            ) == lists_part(parts, i + 1, leaf)) by {
                assert(lists(before, leaf) == lists_part(parts, i as int, leaf));
                if lists(after, leaf) {
                    let k = choose|k: int| 0 <= k < after.len() && #[trigger] after[k] == leaf;
                    if k < before.len() {
                        assert(before[k] == leaf);
                        let q = choose|q: int|
                            0 <= q < i && #[trigger] parts[q] + ENGINE_COLUMNS == leaf;
                        assert(parts[q] + ENGINE_COLUMNS == leaf);
                    } else {
                        assert(parts[i as int] + ENGINE_COLUMNS == leaf);
                    }
                }
                if lists_part(parts, i + 1, leaf) {
                    let k = choose|k: int|
                        0 <= k < i + 1 && #[trigger] parts[k] + ENGINE_COLUMNS == leaf;
                    if k < i {
                        assert(parts[k] + ENGINE_COLUMNS == leaf);
                        assert(lists_part(parts, i as int, leaf));
                        let q = choose|q: int|
                            0 <= q < before.len() && #[trigger] before[q] == leaf;
                        assert(after[q] == leaf);
                    } else {
                        assert(after[before.len() as int] == leaf);
                    }
                }
            }
        }
        i += 1;
    }
    let ghost listed = indices@;
    indices.push(0);
    indices.push(1);
    indices.push(shape.primary_key_index + ENGINE_COLUMNS);
    let mask = ProjectionMask::leaves(leaves, &indices);
    proof {
        let all = indices@;
        let n = listed.len() as int;
        assert forall|leaf: int| mask.includes(leaf) == leaf_shown(shape, parts, leaf) by {
            if 0 <= leaf < leaves {
                assert(lists(listed, leaf) == lists_part(parts, parts.len() as int, leaf));
                if lists(all, leaf) {
                    let k = choose|k: int| 0 <= k < all.len() && #[trigger] all[k] == leaf;
                    if k < n {
                        assert(listed[k] == leaf);
                        let q = choose|q: int|
                            0 <= q < parts.len() && #[trigger] parts[q] + ENGINE_COLUMNS
                                == leaf;
                        assert(parts[q] + ENGINE_COLUMNS == leaf);
                    }
                }
                if leaf == 0 {
                    assert(all[n] == leaf);
                }
                if leaf == 1 {
                    assert(all[n + 1] == leaf);
                }
                if leaf == shape.primary_key_index + ENGINE_COLUMNS {
                    assert(all[n + 2] == leaf);
                }
                if exists|k: int|
                    0 <= k < parts.len() && #[trigger] parts[k] + ENGINE_COLUMNS == leaf {
                    assert(lists_part(parts, parts.len() as int, leaf));
                    let q = choose|q: int| 0 <= q < listed.len() && #[trigger] listed[q] == leaf;
                    assert(all[q] == leaf);
                }
            }
        }
    }
    mask
}

/// Copies a run, each entry as the mask shows it.
pub fn project_run(run: &Vec<Entry>, mask: &ProjectionMask) -> (out: Vec<Entry>)
    ensures
        entry_views(out@) == projected(entry_views(run@), *mask),
{
    let mut out: Vec<Entry> = Vec::new();
    let mut i: usize = 0;
    while i < run.len()
        invariant
            i <= run.len(),
            out.len() == i,
            forall|k: int|
                0 <= k < i ==> (#[trigger] out[k])@ == crate::stream::projected_entry(
                    run[k]@,
                    *mask,
                ),
        decreases run.len() - i,
    {
        out.push(run[i].project(mask));
        i += 1;
    }
    proof {
        assert(entry_views(out@) =~= projected(entry_views(run@), *mask));
    }
    out
}

} // verus!
