//! On-disk segments as the engine holds them: the rows of one segment file
//! together with its key range, by which a scan passes the segment over without
//! reading it.

use vstd::prelude::*;
use crate::fs::FileId;
use crate::inmem::immutable::{conforms, Immutable};
use crate::record::{clone_bytes, ProjectionMask};
use crate::scope::{lemma_scope_misses, scope_contains, scope_meets, Scope, ScopeView};
use crate::stream::{entry_views, projected, scanned, sorted, visible, within, Entry, EntryView,
    KeyBound, KeyBoundView};
use crate::timestamp::{key_le, precedes, Timestamp};

verus! {

/// Mathematical form of an [`SsTable`]: the file and the rows in order.
pub struct TableView {
    pub gen: FileId,
    pub rows: Seq<EntryView>,
}

/// The key range of a table: the keys of its first and last row.
pub open spec fn table_scope(t: TableView) -> ScopeView {
    ScopeView { min: t.rows[0].key.value, max: t.rows.last().key.value, gen: t.gen }
}

/// What a well-formed table is: at least one row, the rows in order, each record
/// `width` columns wide.
pub open spec fn table_wf(t: TableView, width: nat) -> bool {
    t.rows.len() > 0 && sorted(t.rows) && conforms(t.rows, width)
}

/// Every row of a sorted run has its key between the first key and the last.
pub proof fn lemma_rows_in_scope(t: TableView, i: int)
    requires
        sorted(t.rows),
        0 <= i < t.rows.len(),
    ensures
        scope_contains(table_scope(t), t.rows[i].key.value),
{
    let n = t.rows.len() - 1;
    if 0 < i {
        assert(precedes(t.rows[0].key, t.rows[i].key));
    }
    if i < n {
        assert(precedes(t.rows[i].key, t.rows[n].key));
    }
}

/// Where no entry of a run is visible, a scan of the run yields nothing.
pub proof fn lemma_within_none(
    s: Seq<EntryView>,
    lower: KeyBoundView,
    upper: KeyBoundView,
    ts: Timestamp,
)
    requires
        forall|i: int| 0 <= i < s.len() ==> !visible((#[trigger] s[i]).key, lower, upper, ts),
    ensures
        within(s, lower, upper, ts) == Seq::<EntryView>::empty(),
    decreases s.len(),
{
    reveal(Seq::filter);
    if s.len() > 0 {
        let s0 = s.drop_last();
        assert forall|i: int| 0 <= i < s0.len() implies !visible(
            (#[trigger] s0[i]).key,
            lower,
            upper,
            ts,
        ) by {
            assert(s0[i] == s[i]);
        }
        lemma_within_none(s0, lower, upper, ts);
        assert(!visible(s[s.len() - 1].key, lower, upper, ts));
    }
}

/// One segment file: its rows by column, and its key range.
pub struct SsTable {
    scope: Scope,
    rows: Immutable,
}

impl View for SsTable {
    type V = TableView;

    closed spec fn view(&self) -> TableView {
        TableView { gen: self.scope.gen, rows: self.rows@ }
    }
}

impl SsTable {
    /// Number of user columns.
    pub closed spec fn width(&self) -> nat {
        self.rows.width()
    }

    /// The rows are well formed and the scope is their key range.
    pub closed spec fn wf(&self) -> bool {
        &&& self.rows.wf()
        &&& self.rows@.len() > 0
        &&& self.scope@ == table_scope(self@)
    }

    /// A well-formed table has at least one row, sorted rows, and records of its
    /// width.
    pub proof fn lemma_wf(&self)
        requires
            self.wf(),
        ensures
            table_wf(self@, self.width()),
    {
    }

    /// The segment that file `gen` holds when `rows` are written to it.
    pub fn new(gen: FileId, rows: Immutable) -> (table: Self)
        requires
            rows.wf(),
            rows@.len() > 0,
        ensures
            table.wf(),
            table@.gen == gen,
            table@.rows == rows@,
            table.width() == rows.width(),
    {
        let scope = match rows.key_range() {
            Some((min, max)) => Scope { min: clone_bytes(min), max: clone_bytes(max), gen },
            None => Scope { min: Vec::new(), max: Vec::new(), gen },
        };
        SsTable { scope, rows }
    }

    /// A copy of the segment: the same rows in the same file.
    pub fn duplicate(&self, width: usize) -> (copy: Self)
        requires
            self.wf(),
            self.width() == width,
        ensures
            copy.wf(),
            copy@ == self@,
            copy.width() == self.width(),
    {
        proof {
            self.lemma_wf();
        }
        SsTable::new(self.scope.gen, Immutable::from_entries(self.rows.entries(), width))
    }

    /// The key range and file of the segment.
    pub fn scope(&self) -> (scope: &Scope)
        requires
            self.wf(),
        ensures
            scope@ == table_scope(self@),
    {
        &self.scope
    }

    /// The file that holds the segment.
    pub fn gen(&self) -> (gen: FileId)
        ensures
            gen == self@.gen,
    {
        self.scope.gen
    }

    /// Number of rows.
    pub fn len(&self) -> (n: usize)
        requires
            self.wf(),
        ensures
            n == self@.rows.len(),
    {
        self.rows.len()
    }

    /// The rows with a key in `[lower, upper]` and a timestamp at or before `ts`,
    /// in order, each as `mask` shows it. A segment whose key range does not reach
    /// into `[lower, upper]` is passed over without looking at its rows.
    pub fn scan(&self, lower: &KeyBound, upper: &KeyBound, ts: Timestamp, mask: &ProjectionMask)
        -> (out: Vec<Entry>)
        requires
            self.wf(),
        ensures
            entry_views(out@) == scanned(self@.rows, lower@, upper@, ts, *mask),
            !scope_meets(table_scope(self@), lower@, upper@) ==> out@.len() == 0,
    {
        if !self.scope.meets(lower, upper) {
            let out: Vec<Entry> = Vec::new();
            proof {
                lemma_table_misses(self@, lower@, upper@, ts);
                assert(entry_views(out@) =~= scanned(self@.rows, lower@, upper@, ts, *mask));
            }
            out
        } else {
            self.rows.scan(lower, upper, ts, mask)
        }
    }

    /// All rows in order, as entries.
    pub fn entries(&self) -> (out: Vec<Entry>)
        requires
            self.wf(),
        ensures
            entry_views(out@) == self@.rows,
    {
        self.rows.entries()
    }

    /// Whether the segment holds a version of `key` that is newer than `ts`.
    pub fn check_conflict(&self, key: &Vec<u8>, ts: Timestamp) -> (conflict: bool)
        requires
            self.wf(),
        ensures
            conflict == crate::inmem::mutable::conflicts(
                crate::stream::versions(self@.rows),
                key@,
                ts,
            ),
    {
        self.rows.check_conflict(key, ts)
    }
}

/// A scan of a range that the key range of a sorted table does not reach into
/// yields nothing.
pub proof fn lemma_table_misses(
    t: TableView,
    lower: KeyBoundView,
    upper: KeyBoundView,
    ts: Timestamp,
)
    requires
        sorted(t.rows),
        t.rows.len() > 0,
        !scope_meets(table_scope(t), lower, upper),
    ensures
        within(t.rows, lower, upper, ts) == Seq::<EntryView>::empty(),
{
    assert forall|i: int| 0 <= i < t.rows.len() implies !visible(
        (#[trigger] t.rows[i]).key,
        lower,
        upper,
        ts,
    ) by {
        lemma_rows_in_scope(t, i);
        lemma_scope_misses(table_scope(t), lower, upper, t.rows[i].key.value);
    }
    lemma_within_none(t.rows, lower, upper, ts);
}

} // verus!
