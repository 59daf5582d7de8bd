//! Immutable segments: the frozen form of a mutable table. The rows are kept by
//! column — the tombstone flags, the timestamps, the keys, and one array for each
//! user column — in the order of the table that was frozen.

use vstd::prelude::*;
use crate::inmem::mutable::{conflicts, lemma_seek, Mutable};
use crate::record::{cell_view, clone_bytes, clone_cell, projected_row, row_view, ProjectionMask,
    Row, RowView, Value, ENGINE_COLUMNS};
use crate::stream::{entry_views, is_above_lower, is_below_upper, lemma_newest_ts,
    projected_entry, scanned, sorted, stamp, versions, visible, within, Entry, EntryView,
    KeyBound};
use crate::timestamp::{lemma_precedes_transitive, precedes, KeyOrder, Timestamp, Timestamped,
    TimestampedView};

verus! {

/// Whether every record of the run has `width` columns.
pub open spec fn conforms(s: Seq<EntryView>, width: nat) -> bool {
    forall|i: int| 0 <= i < s.len() ==> ((#[trigger] s[i]).value matches Some(row) ==> row.len()
        == width)
}

/// Column `c` of an entry: null for a tombstone.
pub open spec fn cell_in(e: EntryView, c: int) -> Option<crate::record::ValueView> {
    match e.value {
        Some(row) => row[c],
        None => None,
    }
}

/// A frozen, columnar snapshot of a mutable table.
pub struct Immutable {
    nulls: Vec<bool>,
    tss: Vec<Timestamp>,
    keys: Vec<Vec<u8>>,
    columns: Vec<Vec<Option<Value>>>,
}

impl View for Immutable {
    type V = Seq<EntryView>;

    /// The rows of the segment in order, as entries.
    closed spec fn view(&self) -> Seq<EntryView> {
        Seq::new(self.keys.len() as nat, |i: int| self.entry_at(i))
    }
}

impl Immutable {
    /// Row `i` put back together from the column arrays.
    pub closed spec fn entry_at(&self, i: int) -> EntryView {
        EntryView {
            key: stamp(self.keys[i]@, self.tss[i]),
            value: if self.nulls[i] {
                None
            } else {
                Some(Seq::new(self.columns.len() as nat, |c: int| cell_view(self.columns[c][i])))
            },
        }
    }

    /// Number of user columns.
    pub closed spec fn width(&self) -> nat {
        self.columns.len() as nat
    }

    /// The column arrays have one length.
    pub closed spec fn aligned(&self) -> bool {
        &&& self.tss.len() == self.keys.len()
        &&& self.nulls.len() == self.keys.len()
        &&& forall|c: int|
            0 <= c < self.columns.len() ==> (#[trigger] self.columns[c]).len() == self.keys.len()
    }

    /// The column arrays are aligned, and the rows are in order with no
    /// `(key, timestamp)` twice.
    pub open spec fn wf(&self) -> bool {
        self.aligned() && sorted(self@) && conforms(self@, self.width())
    }

    /// Freezes the entries of a table: the same rows in the same order, by column.
    pub fn from_entries(entries: Vec<Entry>, width: usize) -> (seg: Self)
        requires
            sorted(entry_views(entries@)),
            conforms(entry_views(entries@), width as nat),
        ensures
            seg.wf(),
            seg@ == entry_views(entries@),
            seg.width() == width,
    {
        let ghost ev = entry_views(entries@);
        let n = entries.len();
        let mut nulls: Vec<bool> = Vec::new();
        let mut tss: Vec<Timestamp> = Vec::new();
        let mut keys: Vec<Vec<u8>> = Vec::new();
        let mut i: usize = 0;
        while i < n
            invariant
                i <= n,
                n == entries.len(),
                ev == entry_views(entries@),
                nulls.len() == i,
                tss.len() == i,
                keys.len() == i,
                forall|k: int|
                    0 <= k < i ==> (#[trigger] keys[k])@ == ev[k].key.value && tss[k]
                        == ev[k].key.ts && nulls[k] == (ev[k].value is None),
            decreases n - i,
        {
            let e = &entries[i];
            assert(e@ == ev[i as int]);
            nulls.push(e.value.is_none());
            tss.push(e.key.ts);
            keys.push(clone_bytes(&e.key.value));
            i += 1;
        }
        let mut columns: Vec<Vec<Option<Value>>> = Vec::new();
        let mut c: usize = 0;
        while c < width
            invariant
                c <= width,
                n == entries.len(),
                ev == entry_views(entries@),
                conforms(ev, width as nat),
                columns.len() == c,
                forall|d: int|
                    0 <= d < c ==> (#[trigger] columns[d]).len() == n && forall|r: int|
                        0 <= r < n ==> cell_view(#[trigger] columns[d][r]) == cell_in(ev[r], d),
            decreases width - c,
        {
            let mut column: Vec<Option<Value>> = Vec::new();
            let mut r: usize = 0;
            while r < n
                invariant
                    r <= n,
                    c < width,
                    n == entries.len(),
                    ev == entry_views(entries@),
                    conforms(ev, width as nat),
                    column.len() == r,
                    forall|q: int|
                        0 <= q < r ==> cell_view(#[trigger] column[q]) == cell_in(ev[q], c as int),
                decreases n - r,
            {
                let e = &entries[r];
                assert(e@ == ev[r as int]);
                let cell = match &e.value {
                    Some(row) => {
                        assert(row_view(row@).len() == width);
                        clone_cell(&row[c])
                    },
                    None => None,
                };
                column.push(cell);
                r += 1;
            }
            columns.push(column);
            c += 1;
        }
        let seg = Immutable { nulls, tss, keys, columns };
        proof {
            assert forall|k: int| 0 <= k < n implies seg.entry_at(k) == ev[k] by {
                match ev[k].value {
                    Some(row) => {
                        assert(seg.entry_at(k).value.unwrap() =~= row);
                    },
                    None => {},
                }
            }
            assert(seg@ =~= ev);
        }
        seg
    }

    /// Freezes a mutable table whose records all have `width` columns.
    pub fn from_mutable(table: Mutable, width: usize) -> (seg: Self)
        requires
            table.wf(),
            conforms(table@, width as nat),
        ensures
            seg.wf(),
            seg@ == table@,
            seg.width() == width,
    {
        Immutable::from_entries(table.into_entries(), width)
    }

    /// Number of rows.
    pub fn len(&self) -> (n: usize)
        requires
            self.wf(),
        ensures
            n == self@.len(),
    {
        self.keys.len()
    }

    /// The smallest and the largest user key of the segment; `None` if it has no
    /// rows.
    pub fn key_range(&self) -> (range: Option<(&Vec<u8>, &Vec<u8>)>)
        requires
            self.wf(),
        ensures
            range is None <==> self@.len() == 0,
            range matches Some((min, max)) ==> min@ == self@[0].key.value && max@
                == self@.last().key.value,
    {
        if self.keys.len() == 0 {
            None
        } else {
            Some((&self.keys[0], &self.keys[self.keys.len() - 1]))
        }
    }

    /// Row `i` as an entry, with the columns that `mask` leaves out read as null.
    fn row(&self, i: usize, mask: &ProjectionMask) -> (entry: Entry)
        requires
            self.wf(),
            i < self@.len(),
        ensures
            entry@ == projected_entry(self@[i as int], *mask),
    {
        let key = Timestamped { ts: self.tss[i], value: clone_bytes(&self.keys[i]) };
        let value = if self.nulls[i] {
            None
        } else {
            let ghost full = self@[i as int].value.unwrap();
            let mut row: Row = Vec::new();
            let mut c: usize = 0;
            while c < self.columns.len()
                invariant
                    c <= self.columns.len(),
                    self.aligned(),
                    i < self.keys.len(),
                    full.len() == self.columns.len(),
                    forall|d: int| 0 <= d < full.len() ==> full[d] == cell_view(self.columns[d][i as int]),
                    row.len() == c,
                    forall|d: int|
                        0 <= d < c ==> cell_view(#[trigger] row[d]) == projected_row(full, *mask)[d],
                decreases self.columns.len() - c,
            {
                assert(self.columns[c as int].len() == self.keys.len());
                if mask.column_included(c) {
                    row.push(clone_cell(&self.columns[c][i]));
                } else {
                    row.push(None);
                }
                c += 1;
            }
            assert(row_view(row@) =~= projected_row(full, *mask));
            Some(row)
        };
        Entry { key, value }
    }

    /// The rows with a key in `[lower, upper]` and a timestamp at or before `ts`,
    /// in order, each as `mask` shows it. Tombstones are among them.
    pub fn scan(&self, lower: &KeyBound, upper: &KeyBound, ts: Timestamp, mask: &ProjectionMask)
        -> (out: Vec<Entry>)
        requires
            self.wf(),
        ensures
            entry_views(out@) == scanned(self@, lower@, upper@, ts, *mask),
    {
        let ghost s = self@;
        let ghost pred = |e: EntryView| visible(e.key, lower@, upper@, ts);
        let ghost proj = |e: EntryView| projected_entry(e, *mask);
        let mut out: Vec<Entry> = Vec::new();
        let mut i: usize = 0;
        proof {
            reveal(Seq::filter);
            assert(s.take(0).filter(pred) =~= Seq::<EntryView>::empty());
            assert(entry_views(out@) =~= s.take(0).filter(pred).map_values(proj));
        }
        while i < self.keys.len()
            invariant
                i <= self.keys.len(),
                self.wf(),
                s == self@,
                pred == (|e: EntryView| visible(e.key, lower@, upper@, ts)),
                proj == (|e: EntryView| projected_entry(e, *mask)),
                entry_views(out@) == s.take(i as int).filter(pred).map_values(proj),
            decreases self.keys.len() - i,
        {
            proof {
                reveal(Seq::filter);
                assert(s.take(i + 1).drop_last() =~= s.take(i as int));
                assert(s.take(i + 1).last() == s[i as int]);
            }
            if self.tss[i] <= ts && is_above_lower(lower, &self.keys[i]) && is_below_upper(
                upper,
                &self.keys[i],
            ) {
                let ghost before = entry_views(out@);
                let e = self.row(i, mask);
                out.push(e);
                proof {
                    assert(entry_views(out@) =~= before.push(proj(s[i as int])));
                    assert(s.take(i + 1).filter(pred).map_values(proj) =~= s.take(
                        i as int,
                    ).filter(pred).map_values(proj).push(proj(s[i as int])));
                }
            }
            i += 1;
        }
        proof {
            assert(s.take(i as int) =~= s);
        }
        out
    }

    /// Index of the first row that does not precede `(key, ts)`.
    fn seek(&self, key: &Vec<u8>, ts: Timestamp) -> (at: usize)
        requires
            self.wf(),
        ensures
            at <= self@.len(),
            forall|i: int| 0 <= i < at ==> precedes((#[trigger] self@[i]).key, stamp(key@, ts)),
            forall|i: int|
                at <= i < self@.len() ==> !precedes((#[trigger] self@[i]).key, stamp(key@, ts)),
    {
        let ghost s = self@;
        let ghost target = stamp(key@, ts);
        let mut lo: usize = 0;
        let mut hi: usize = self.keys.len();
        while lo < hi
            invariant
                lo <= hi <= self.keys.len(),
                self.wf(),
                s == self@,
                target == stamp(key@, ts),
                forall|i: int| 0 <= i < lo ==> precedes((#[trigger] s[i]).key, target),
                forall|i: int| hi <= i < s.len() ==> !precedes((#[trigger] s[i]).key, target),
            decreases hi - lo,
        {
            let mid = lo + (hi - lo) / 2;
            let before = matches!(
                crate::timestamp::compare_versions(&self.keys[mid], self.tss[mid], key, ts),
                KeyOrder::Less
            );
            proof {
                assert(s[mid as int].key == stamp(self.keys[mid as int]@, self.tss[mid as int]));
            }
            if before {
                proof {
                    assert forall|i: int| 0 <= i < mid + 1 implies precedes(
                        (#[trigger] s[i]).key,
                        target,
                    ) by {
                        if i < mid {
                            assert(precedes(s[i].key, s[mid as int].key));
                            lemma_precedes_transitive(s[i].key, s[mid as int].key, target);
                        }
                    }
                }
                lo = mid + 1;
            } else {
                proof {
                    assert forall|i: int| mid <= i < s.len() implies !precedes(
                        (#[trigger] s[i]).key,
                        target,
                    ) by {
                        if i > mid && precedes(s[i].key, target) {
                            assert(precedes(s[mid as int].key, s[i].key));
                            lemma_precedes_transitive(s[mid as int].key, s[i].key, target);
                        }
                    }
                }
                hi = mid;
            }
        }
        lo
    }

    /// Whether the segment holds a version of `key` that is newer than `ts`.
    pub fn check_conflict(&self, key: &Vec<u8>, ts: Timestamp) -> (conflict: bool)
        requires
            self.wf(),
        ensures
            conflict == conflicts(versions(self@), key@, ts),
    {
        let at = self.seek(key, Timestamp::MAX);
        proof {
            let s = self@;
            let m = versions(s);
            lemma_seek(s, at as int, key@, Timestamp::MAX);
            lemma_newest_ts(m, key@, Timestamp::MAX);
            if at < s.len() && s[at as int].key.value == key@ {
                let t = s[at as int].key.ts;
                assert(s[at as int].key == stamp(key@, t));
                if t > ts {
                    assert(m.dom().contains(stamp(key@, t)));
                } else {
                    assert forall|t2: Timestamp| t2 > ts implies !m.dom().contains(
                        #[trigger] stamp(key@, t2),
                    ) by {}
                }
            } else {
                assert forall|t2: Timestamp| t2 > ts implies !m.dom().contains(
                    #[trigger] stamp(key@, t2),
                ) by {}
            }
        }
        if at < self.keys.len() {
            matches!(crate::timestamp::compare_keys(&self.keys[at], key), KeyOrder::Equal)
                && self.tss[at] > ts
        } else {
            false
        }
    }

    /// All rows in order, as entries.
    pub fn entries(&self) -> (out: Vec<Entry>)
        requires
            self.wf(),
        ensures
            entry_views(out@) == self@,
    {
        let mask = ProjectionMask::all();
        let mut out: Vec<Entry> = Vec::new();
        let mut i: usize = 0;
        while i < self.keys.len()
            invariant
                i <= self.keys.len(),
                self.wf(),
                forall|leaf: int| mask.includes(leaf),
                out.len() == i,
                forall|k: int| 0 <= k < i ==> (#[trigger] out[k])@ == self@[k],
            decreases self.keys.len() - i,
        {
            let e = self.row(i, &mask);
            proof {
                crate::record::lemma_project_all(self@[i as int].value, mask);
            }
            out.push(e);
            i += 1;
        }
        proof {
            assert(entry_views(out@) =~= self@);
        }
        out
    }
}

/// Whether every record among the versions has `width` columns.
pub open spec fn conforming(m: Map<TimestampedView, Option<RowView>>, width: nat) -> bool {
    forall|k: TimestampedView| #[trigger]
        m.dom().contains(k) ==> (m[k] matches Some(row) ==> row.len() == width)
}

/// A sorted run conforms exactly if its versions conform.
pub proof fn lemma_conforms_map(s: Seq<EntryView>, width: nat)
    requires
        sorted(s),
    ensures
        conforms(s, width) <==> conforming(versions(s), width),
{
    if conforms(s, width) {
        assert forall|k: TimestampedView| #[trigger]
            versions(s).dom().contains(k) implies (versions(s)[k] matches Some(row) ==> row.len()
            == width) by {
            let p = crate::stream::position(s, k);
            crate::stream::lemma_versions_at(s, p);
        }
    }
    if conforming(versions(s), width) {
        assert forall|i: int| 0 <= i < s.len() implies ((#[trigger] s[i]).value matches Some(row)
            ==> row.len() == width) by {
            crate::stream::lemma_versions_at(s, i);
        }
    }
}

/// Runs that conform hold together versions that conform.
pub proof fn lemma_conforming_merged(runs: Seq<Seq<EntryView>>, width: nat)
    requires
        forall|r: int| 0 <= r < runs.len() ==> sorted(#[trigger] runs[r]) && conforms(runs[r], width),
    ensures
        conforming(crate::stream::merge::merged_versions(runs), width),
    decreases runs.len(),
{
    if runs.len() > 0 {
        let rest = runs.drop_first();
        assert forall|r: int| 0 <= r < rest.len() implies sorted(#[trigger] rest[r]) && conforms(
            rest[r],
            width,
        ) by {
            assert(rest[r] == runs[r + 1]);
        }
        lemma_conforming_merged(rest, width);
        lemma_conforms_map(runs[0], width);
    }
}

/// Freezing changes nothing that a scan shows: a scan of the segment that a
/// table was frozen into, reading every column, yields the entries that the same
/// scan of the table yielded, in the same order.
pub proof fn lemma_freeze_scan(
    table: Seq<EntryView>,
    segment: Seq<EntryView>,
    lower: crate::stream::KeyBoundView,
    upper: crate::stream::KeyBoundView,
    ts: Timestamp,
    mask: ProjectionMask,
)
    requires
        segment == table,
        forall|leaf: int| mask.includes(leaf),
    ensures
        scanned(segment, lower, upper, ts, mask) == within(table, lower, upper, ts),
{
    crate::stream::lemma_projected_all(within(table, lower, upper, ts), mask);
}

} // verus!
