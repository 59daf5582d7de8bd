//! Entries and ordered runs of entries: what every source of a scan yields.

pub mod merge;

use vstd::prelude::*;
use crate::record::{clone_value, project_value, projected_value, saturate, size_of_value,
    value_size, value_view, ProjectionMask, Row, RowView};
use crate::timestamp::{compare_keys, key_le, key_lt, lemma_precedes_asymmetric,
    lemma_precedes_transitive, precedes, KeyOrder, Timestamp, Timestamped, TimestampedView};

verus! {

/// One version of one key: the timestamped key and the columns written at that
/// time, or `None` where the write was a removal (a tombstone).
#[derive(Debug, PartialEq, Eq)]
pub struct Entry {
    pub key: Timestamped,
    pub value: Option<Row>,
}

/// Mathematical form of an [`Entry`].
pub struct EntryView {
    pub key: TimestampedView,
    pub value: Option<RowView>,
}

impl View for Entry {
    type V = EntryView;

    open spec fn view(&self) -> EntryView {
        EntryView { key: self.key@, value: value_view(self.value) }
    }
}

impl Clone for Entry {
    fn clone(&self) -> (copy: Self)
        ensures
            copy@ == self@,
    {
        Entry {
            key: Timestamped { ts: self.key.ts, value: crate::record::clone_bytes(&self.key.value) },
            value: clone_value(&self.value),
        }
    }
}

impl Entry {
    pub fn new(key: Timestamped, value: Option<Row>) -> (entry: Self)
        ensures
            entry.key == key,
            entry.value == value,
    {
        Entry { key, value }
    }

    /// The user key.
    pub fn key(&self) -> (key: &Vec<u8>)
        ensures
            key@ == self@.key.value,
    {
        &self.key.value
    }

    /// The timestamp of this version.
    pub fn ts(&self) -> (ts: Timestamp)
        ensures
            ts == self@.key.ts,
    {
        self.key.ts
    }

    /// The columns of the record, or `None` for a tombstone.
    pub fn get(&self) -> (value: Option<&Row>)
        ensures
            value is Some <==> self@.value is Some,
            value matches Some(row) ==> Some(crate::record::row_view(row@)) == self@.value,
    {
        match &self.value {
            Some(row) => Some(row),
            None => None,
        }
    }

    /// Whether this version records a removal.
    pub fn is_tombstone(&self) -> (tombstone: bool)
        ensures
            tombstone == (self@.value is None),
    {
        self.value.is_none()
    }

    /// A copy of this entry as a reader with `mask` sees it.
    pub fn project(&self, mask: &ProjectionMask) -> (out: Self)
        ensures
            out@ == projected_entry(self@, *mask),
    {
        Entry {
            key: Timestamped { ts: self.key.ts, value: crate::record::clone_bytes(&self.key.value) },
            value: project_value(&self.value, mask),
        }
    }
}

/// An entry under a mask: key and timestamp stay, left-out columns read as null.
pub open spec fn projected_entry(e: EntryView, mask: ProjectionMask) -> EntryView {
    EntryView { key: e.key, value: projected_value(e.value, mask) }
}

/// The entries of a vector in their mathematical form.
pub open spec fn entry_views(s: Seq<Entry>) -> Seq<EntryView> {
    Seq::new(s.len(), |i: int| s[i]@)
}

/// A run is sorted when each entry strictly precedes all later ones: keys ascend,
/// the versions of one key descend in time, and no `(key, timestamp)` occurs twice.
pub open spec fn sorted(s: Seq<EntryView>) -> bool {
    forall|i: int, j: int| 0 <= i < j < s.len() ==> precedes(#[trigger] s[i].key, #[trigger] s[j].key)
}

/// Whether the run holds a version with this timestamped key.
pub open spec fn holds(s: Seq<EntryView>, k: TimestampedView) -> bool {
    exists|i: int| 0 <= i < s.len() && (#[trigger] s[i]).key == k
}

/// A position at which the run holds `k`.
pub open spec fn position(s: Seq<EntryView>, k: TimestampedView) -> int {
    choose|i: int| 0 <= i < s.len() && (#[trigger] s[i]).key == k
}

/// The versions that a run holds, as a map from timestamped key to what was
/// written.
pub open spec fn versions(s: Seq<EntryView>) -> Map<TimestampedView, Option<RowView>> {
    Map::new(|k: TimestampedView| holds(s, k), |k: TimestampedView| s[position(s, k)].value)
}

/// In a sorted run a timestamped key has one position.
pub proof fn lemma_sorted_unique(s: Seq<EntryView>, i: int, j: int)
    requires
        sorted(s),
        0 <= i < s.len(),
        0 <= j < s.len(),
        s[i].key == s[j].key,
    ensures
        i == j,
{
    if i < j {
        lemma_precedes_asymmetric(s[i].key, s[j].key);
    }
    if j < i {
        lemma_precedes_asymmetric(s[j].key, s[i].key);
    }
}

/// The map of a sorted run gives at each key of the run the value stored there.
pub proof fn lemma_versions_at(s: Seq<EntryView>, i: int)
    requires
        sorted(s),
        0 <= i < s.len(),
    ensures
        versions(s).dom().contains(s[i].key),
        versions(s)[s[i].key] == s[i].value,
{
    let k = s[i].key;
    assert(holds(s, k));
    lemma_sorted_unique(s, i, position(s, k));
}

/// A prefix of a sorted run is sorted.
pub proof fn lemma_sorted_take(s: Seq<EntryView>, n: int)
    requires
        sorted(s),
        0 <= n <= s.len(),
    ensures
        sorted(s.take(n)),
{
    let t = s.take(n);
    assert forall|i: int, j: int| 0 <= i < j < t.len() implies precedes(
        #[trigger] t[i].key,
        #[trigger] t[j].key,
    ) by {
        assert(t[i] == s[i] && t[j] == s[j]);
    }
}

/// An entry that comes after the last one extends a sorted run.
pub proof fn lemma_sorted_push(s: Seq<EntryView>, e: EntryView)
    requires
        sorted(s),
        s.len() > 0 ==> precedes(s.last().key, e.key),
    ensures
        sorted(s.push(e)),
{
    let t = s.push(e);
    assert forall|i: int, j: int| 0 <= i < j < t.len() implies precedes(
        #[trigger] t[i].key,
        #[trigger] t[j].key,
    ) by {
        if j < s.len() {
            assert(t[i] == s[i] && t[j] == s[j]);
        } else {
            assert(t[j] == e);
            assert(t[i] == s[i]);
            if i < s.len() - 1 {
                assert(precedes(s[i].key, s[s.len() - 1].key));
                lemma_precedes_transitive(s[i].key, s.last().key, e.key);
            }
        }
    }
}

/// Appending to a run adds one version to its map.
pub proof fn lemma_versions_push(s: Seq<EntryView>, e: EntryView)
    requires
        sorted(s.push(e)),
    ensures
        versions(s.push(e)) == versions(s).insert(e.key, e.value),
{
    let t = s.push(e);
    let n = s.len() as int;
    assert(t.take(n) =~= s);
    lemma_sorted_take(t, n);
    assert(t[n] == e);
    assert forall|k: TimestampedView| holds(t, k) <==> (k == e.key || holds(s, k)) by {
        if holds(t, k) {
            let i = position(t, k);
            if i < n {
                assert(s[i] == t[i]);
            }
        }
        if holds(s, k) {
            let i = position(s, k);
            assert(t[i] == s[i]);
        }
    }
    assert forall|k: TimestampedView| holds(t, k) implies versions(t)[k] == versions(s).insert(
        e.key,
        e.value,
    )[k] by {
        let i = position(t, k);
        if k == e.key {
            lemma_sorted_unique(t, i, n);
        } else {
            assert(i < n);
            assert(s[i] == t[i]);
            lemma_sorted_unique(s, i, position(s, k));
        }
    }
    assert(versions(t) =~= versions(s).insert(e.key, e.value));
}

/// The map of the empty run is empty.
pub proof fn lemma_versions_empty()
    ensures
        versions(Seq::<EntryView>::empty()) == Map::<TimestampedView, Option<RowView>>::empty(),
{
    assert(versions(Seq::<EntryView>::empty()) =~= Map::<TimestampedView, Option<RowView>>::empty());
}

/// Sorted runs with the same map are the same run.
pub proof fn lemma_sorted_runs_equal(a: Seq<EntryView>, b: Seq<EntryView>)
    requires
        sorted(a),
        sorted(b),
        versions(a) == versions(b),
    ensures
        a == b,
    decreases a.len(),
{
    if a.len() == 0 {
        if b.len() > 0 {
            lemma_versions_at(b, 0);
            assert(holds(a, b[0].key));
        }
        assert(a =~= b);
    } else if b.len() == 0 {
        lemma_versions_at(a, 0);
        assert(holds(b, a[0].key));
    } else {
        // The last entries agree: each run holds the other's last key, and a key
        // that is not last precedes the last.
        let la = a.len() - 1;
        let lb = b.len() - 1;
        lemma_versions_at(a, la);
        lemma_versions_at(b, lb);
        assert(holds(b, a[la].key));
        assert(holds(a, b[lb].key));
        let pb = position(b, a[la].key);
        let pa = position(a, b[lb].key);
        if pb < lb {
            assert(precedes(b[pb].key, b[lb].key));
            if pa < la {
                assert(precedes(a[pa].key, a[la].key));
                lemma_precedes_asymmetric(a[pa].key, a[la].key);
            }
        }
        assert(pb == lb);
        lemma_versions_at(b, lb);
        assert(a[la] == b[lb]);
        let a0 = a.drop_last();
        let b0 = b.drop_last();
        assert(a0 =~= a.take(la));
        assert(b0 =~= b.take(lb));
        lemma_sorted_take(a, la);
        lemma_sorted_take(b, lb);
        assert(a =~= a0.push(a[la]));
        assert(b =~= b0.push(b[lb]));
        lemma_versions_push(a0, a[la]);
        lemma_versions_push(b0, b[lb]);
        assert(!holds(a0, a[la].key)) by {
            if holds(a0, a[la].key) {
                let i = position(a0, a[la].key);
                assert(a0[i] == a[i]);
                lemma_sorted_unique(a, i, la);
            }
        }
        assert(!holds(b0, b[lb].key)) by {
            if holds(b0, b[lb].key) {
                let i = position(b0, b[lb].key);
                assert(b0[i] == b[i]);
                lemma_sorted_unique(b, i, lb);
            }
        }
        assert(versions(a0) =~= versions(a).remove(a[la].key));
        assert(versions(b0) =~= versions(b).remove(b[lb].key));
        lemma_sorted_runs_equal(a0, b0);
    }
}

/// One end of a key range.
#[derive(Debug, PartialEq, Eq)]
pub enum KeyBound {
    Included(Vec<u8>),
    Excluded(Vec<u8>),
    Unbounded,
}

/// Mathematical form of a [`KeyBound`].
pub enum KeyBoundView {
    Included(Seq<u8>),
    Excluded(Seq<u8>),
    Unbounded,
}

impl View for KeyBound {
    type V = KeyBoundView;

    open spec fn view(&self) -> KeyBoundView {
        match self {
            KeyBound::Included(k) => KeyBoundView::Included(k@),
            KeyBound::Excluded(k) => KeyBoundView::Excluded(k@),
            KeyBound::Unbounded => KeyBoundView::Unbounded,
        }
    }
}

impl Clone for KeyBound {
    fn clone(&self) -> (copy: Self)
        ensures
            copy@ == self@,
    {
        match self {
            KeyBound::Included(k) => KeyBound::Included(crate::record::clone_bytes(k)),
            KeyBound::Excluded(k) => KeyBound::Excluded(crate::record::clone_bytes(k)),
            KeyBound::Unbounded => KeyBound::Unbounded,
        }
    }
}

/// Whether `key` is at or above a lower bound.
pub open spec fn above_lower(lower: KeyBoundView, key: Seq<u8>) -> bool {
    match lower {
        KeyBoundView::Included(l) => key_le(l, key),
        KeyBoundView::Excluded(l) => key_lt(l, key),
        KeyBoundView::Unbounded => true,
    }
}

/// Whether `key` is at or below an upper bound.
pub open spec fn below_upper(upper: KeyBoundView, key: Seq<u8>) -> bool {
    match upper {
        KeyBoundView::Included(u) => key_le(key, u),
        KeyBoundView::Excluded(u) => key_lt(key, u),
        KeyBoundView::Unbounded => true,
    }
}

/// Whether a version is one that a scan of `[lower, upper]` at snapshot `ts` may
/// show: its key lies in the range and it was written at or before `ts`.
pub open spec fn visible(k: TimestampedView, lower: KeyBoundView, upper: KeyBoundView, ts: Timestamp)
    -> bool {
    above_lower(lower, k.value) && below_upper(upper, k.value) && k.ts <= ts
}

/// Whether `key` is at or above `lower`.
pub fn is_above_lower(lower: &KeyBound, key: &Vec<u8>) -> (above: bool)
    ensures
        above == above_lower(lower@, key@),
{
    match lower {
        KeyBound::Included(l) => !matches!(compare_keys(l, key), KeyOrder::Greater),
        KeyBound::Excluded(l) => matches!(compare_keys(l, key), KeyOrder::Less),
        KeyBound::Unbounded => true,
    }
}

/// Whether `key` is at or below `upper`.
pub fn is_below_upper(upper: &KeyBound, key: &Vec<u8>) -> (below: bool)
    ensures
        below == below_upper(upper@, key@),
{
    match upper {
        KeyBound::Included(u) => !matches!(compare_keys(key, u), KeyOrder::Greater),
        KeyBound::Excluded(u) => matches!(compare_keys(key, u), KeyOrder::Less),
        KeyBound::Unbounded => true,
    }
}

/// The entries of a run that are [`visible`], in run order. Tombstones stay in.
pub open spec fn within(s: Seq<EntryView>, lower: KeyBoundView, upper: KeyBoundView, ts: Timestamp)
    -> Seq<EntryView> {
    s.filter(|e: EntryView| visible(e.key, lower, upper, ts))
}

/// Each entry of a run as the mask shows it.
pub open spec fn projected(s: Seq<EntryView>, mask: ProjectionMask) -> Seq<EntryView> {
    s.map_values(|e: EntryView| projected_entry(e, mask))
}

/// What a scan of one sorted run yields: the entries that are [`visible`], in run
/// order, each as the mask shows it. Tombstones stay in.
pub open spec fn scanned(
    s: Seq<EntryView>,
    lower: KeyBoundView,
    upper: KeyBoundView,
    ts: Timestamp,
    mask: ProjectionMask,
) -> Seq<EntryView> {
    projected(within(s, lower, upper, ts), mask)
}

/// A scan of a sorted run is sorted, holds exactly the visible versions of the
/// run, and gives each the projected value.
pub proof fn lemma_scanned(
    s: Seq<EntryView>,
    lower: KeyBoundView,
    upper: KeyBoundView,
    ts: Timestamp,
    mask: ProjectionMask,
)
    requires
        sorted(s),
    ensures
        sorted(scanned(s, lower, upper, ts, mask)),
        forall|k: TimestampedView|
            versions(scanned(s, lower, upper, ts, mask)).dom().contains(k) <==> (versions(
                s,
            ).dom().contains(k) && visible(k, lower, upper, ts)),
        forall|k: TimestampedView| #[trigger]
            versions(scanned(s, lower, upper, ts, mask)).dom().contains(k) ==> versions(
                scanned(s, lower, upper, ts, mask),
            )[k] == projected_value(versions(s)[k], mask),
    decreases s.len(),
{
    let pred = |e: EntryView| visible(e.key, lower, upper, ts);
    let proj = |e: EntryView| projected_entry(e, mask);
    let out = scanned(s, lower, upper, ts, mask);
    reveal(Seq::filter);
    if s.len() == 0 {
        assert(s.filter(pred) =~= Seq::<EntryView>::empty());
        assert(out =~= Seq::<EntryView>::empty());
    } else {
        let s0 = s.drop_last();
        let e = s.last();
        let n = s.len() - 1;
        assert(s0 =~= s.take(n));
        lemma_sorted_take(s, n);
        lemma_scanned(s0, lower, upper, ts, mask);
        let out0 = scanned(s0, lower, upper, ts, mask);
        assert(s =~= s0.push(e));
        lemma_versions_push(s0, e);
        if pred(e) {
            assert(s.filter(pred) =~= s0.filter(pred).push(e));
            assert(out =~= out0.push(proj(e)));
            // Everything in out0 comes from s0, hence precedes e.
            assert forall|i: int| 0 <= i < out0.len() implies precedes(
                (#[trigger] out0[i]).key,
                e.key,
            ) by {
                lemma_versions_at(out0, i);
                assert(holds(s0, out0[i].key));
                let p = position(s0, out0[i].key);
                assert(s0[p] == s[p]);
                assert(precedes(s[p].key, s[n].key));
            }
            lemma_sorted_push(out0, proj(e));
            lemma_versions_push(out0, proj(e));
        } else {
            assert(s.filter(pred) =~= s0.filter(pred));
            assert(out =~= out0);
        }
    }
}

/// Bytes that a timestamped key takes in the log: a length word, the key, and the
/// timestamp.
pub open spec fn key_size(k: TimestampedView) -> nat {
    12 + k.value.len()
}

/// Bytes that an entry takes in the log; also the estimate of what it takes in
/// memory.
pub open spec fn entry_size(e: EntryView) -> nat {
    key_size(e.key) + value_size(e.value)
}

/// Computes [`entry_size`] of a key and a value, saturating.
pub fn size_of_entry(key: &Timestamped, value: &Option<Row>) -> (size: usize)
    ensures
        size == saturate(entry_size((EntryView { key: key@, value: value_view(*value) })) as int),
{
    key.value.len().saturating_add(12).saturating_add(size_of_value(value))
}

/// The timestamped key made of a user key and a timestamp.
pub open spec fn stamp(key: Seq<u8>, ts: Timestamp) -> TimestampedView {
    TimestampedView { ts, value: key }
}

/// The timestamp of the newest version of `key` written at or before `ts`, if the
/// map holds one.
pub open spec fn newest_ts(m: Map<TimestampedView, Option<RowView>>, key: Seq<u8>, ts: Timestamp)
    -> Option<Timestamp>
    decreases ts,
{
    if m.dom().contains(stamp(key, ts)) {
        Some(ts)
    } else if ts == 0 {
        None
    } else {
        newest_ts(m, key, (ts - 1) as Timestamp)
    }
}

/// The newest version of `key` at or before `ts`: `None` if there is none, else
/// what was written (`Some(None)` for a tombstone).
pub open spec fn lookup(m: Map<TimestampedView, Option<RowView>>, key: Seq<u8>, ts: Timestamp)
    -> Option<Option<RowView>> {
    match newest_ts(m, key, ts) {
        Some(t) => Some(m[stamp(key, t)]),
        None => None,
    }
}

/// What a reader at snapshot `ts` sees under `key`: the columns of the newest
/// version at or before `ts`, or nothing if there is no such version or it is a
/// tombstone.
pub open spec fn read(m: Map<TimestampedView, Option<RowView>>, key: Seq<u8>, ts: Timestamp)
    -> Option<RowView> {
    match lookup(m, key, ts) {
        Some(Some(row)) => Some(row),
        _ => None,
    }
}

/// [`newest_ts`] gives a version of the map at or before `ts` with none between
/// it and `ts`, or finds that there is no version at or before `ts`.
pub proof fn lemma_newest_ts(m: Map<TimestampedView, Option<RowView>>, key: Seq<u8>, ts: Timestamp)
    ensures
        match newest_ts(m, key, ts) {
            Some(t) => t <= ts && m.dom().contains(stamp(key, t)) && forall|t2: Timestamp|
                t < t2 <= ts ==> !m.dom().contains(#[trigger] stamp(key, t2)),
            None => forall|t2: Timestamp| t2 <= ts ==> !m.dom().contains(#[trigger] stamp(key, t2)),
        },
    decreases ts,
{
    if !m.dom().contains(stamp(key, ts)) && ts > 0 {
        lemma_newest_ts(m, key, (ts - 1) as Timestamp);
    }
}

/// A version at or before `ts` with none between it and `ts` is the newest.
pub proof fn lemma_newest_ts_is(
    m: Map<TimestampedView, Option<RowView>>,
    key: Seq<u8>,
    ts: Timestamp,
    t: Timestamp,
)
    requires
        t <= ts,
        m.dom().contains(stamp(key, t)),
        forall|t2: Timestamp| t < t2 <= ts ==> !m.dom().contains(#[trigger] stamp(key, t2)),
    ensures
        newest_ts(m, key, ts) == Some(t),
{
    lemma_newest_ts(m, key, ts);
}

/// Where no version of `key` lies at or before `ts`, there is no newest one.
pub proof fn lemma_newest_ts_none(m: Map<TimestampedView, Option<RowView>>, key: Seq<u8>, ts: Timestamp)
    requires
        forall|t2: Timestamp| t2 <= ts ==> !m.dom().contains(#[trigger] stamp(key, t2)),
    ensures
        newest_ts(m, key, ts) is None,
{
    lemma_newest_ts(m, key, ts);
}

/// Index of the first entry of a sorted run that does not precede `(key, ts)`:
/// everything before it precedes the target, nothing from it on does.
pub fn lower_bound(run: &Vec<Entry>, key: &Vec<u8>, ts: Timestamp) -> (at: usize)
    requires
        sorted(entry_views(run@)),
    ensures
        at <= run.len(),
        forall|i: int| 0 <= i < at ==> precedes((#[trigger] entry_views(run@)[i]).key, stamp(key@, ts)),
        forall|i: int|
            at <= i < run.len() ==> !precedes((#[trigger] entry_views(run@)[i]).key, stamp(key@, ts)),
{
    let ghost s = entry_views(run@);
    let ghost target = stamp(key@, ts);
    let mut lo: usize = 0;
    let mut hi: usize = run.len();
    while lo < hi
        invariant
            lo <= hi <= run.len(),
            s == entry_views(run@),
            target == stamp(key@, ts),
            sorted(s),
            forall|i: int| 0 <= i < lo ==> precedes((#[trigger] s[i]).key, target),
            forall|i: int| hi <= i < run.len() ==> !precedes((#[trigger] s[i]).key, target),
        decreases hi - lo,
    {
        let mid = lo + (hi - lo) / 2;
        let before = matches!(
            crate::timestamp::compare_versions(&run[mid].key.value, run[mid].key.ts, key, ts),
            KeyOrder::Less
        );
        proof {
            assert(s[mid as int].key == stamp(run[mid as int].key.value@, run[mid as int].key.ts));
        }
        if before {
            proof {
                assert forall|i: int| 0 <= i < mid + 1 implies precedes(
                    (#[trigger] s[i]).key,
                    target,
                ) by {
                    if i < mid {
                        assert(precedes(s[i].key, s[mid as int].key));
                        lemma_precedes_transitive(s[i].key, s[mid as int].key, target);
                    }
                }
            }
            lo = mid + 1;
        } else {
            proof {
                assert forall|i: int| mid <= i < run.len() implies !precedes(
                    (#[trigger] s[i]).key,
                    target,
                ) by {
                    if i > mid && precedes(s[i].key, target) {
                        assert(precedes(s[mid as int].key, s[i].key));
                        lemma_precedes_transitive(s[mid as int].key, s[i].key, target);
                    }
                }
            }
            hi = mid;
        }
    }
    lo
}

/// The sorted run that holds exactly the versions of a map.
pub open spec fn run_of(m: Map<TimestampedView, Option<RowView>>) -> Seq<EntryView> {
    choose|s: Seq<EntryView>| sorted(s) && versions(s) == m
}

/// A sorted run is the run of its own versions.
pub proof fn lemma_run_of(s: Seq<EntryView>)
    requires
        sorted(s),
    ensures
        run_of(versions(s)) == s,
{
    let m = versions(s);
    let r = run_of(m);
    assert(sorted(s) && versions(s) == m);
    lemma_sorted_runs_equal(r, s);
}

/// Number of distinct user keys of a sorted run: the places where the key
/// changes.
pub open spec fn key_count(s: Seq<EntryView>) -> nat
    decreases s.len(),
{
    if s.len() == 0 {
        0
    } else {
        key_count(s.drop_last()) + if s.len() == 1 || s[s.len() - 2].key.value
            != s.last().key.value {
            1nat
        } else {
            0nat
        }
    }
}

/// A run cut to a limit on the number of distinct user keys: the longest prefix
/// that holds no more than `limit` user keys, with all their versions that the run
/// holds before the next key begins. Without a limit, the whole run.
pub open spec fn limited(s: Seq<EntryView>, limit: Option<usize>) -> Seq<EntryView>
    decreases s.len(),
{
    match limit {
        None => s,
        Some(n) => if key_count(s) <= n {
            s
        } else {
            limited(s.drop_last(), limit)
        },
    }
}

/// A longer prefix holds at least as many keys.
pub proof fn lemma_key_count_monotone(s: Seq<EntryView>, i: int)
    requires
        0 <= i <= s.len(),
    ensures
        key_count(s.take(i)) <= key_count(s),
    decreases s.len() - i,
{
    if i < s.len() {
        lemma_key_count_monotone(s, i + 1);
        assert(s.take(i + 1).drop_last() =~= s.take(i));
    } else {
        assert(s.take(i) =~= s);
    }
}

/// Where the first `i` entries hold at most `n` keys and one more entry would
/// make it more, the run cut to `n` keys is its first `i` entries.
pub proof fn lemma_limited(s: Seq<EntryView>, n: usize, i: int)
    requires
        0 <= i <= s.len(),
        key_count(s.take(i)) <= n,
        i < s.len() ==> key_count(s.take(i + 1)) > n,
    ensures
        limited(s, Some(n)) == s.take(i),
    decreases s.len() - i,
{
    if i == s.len() {
        assert(s.take(i) =~= s);
    } else {
        lemma_key_count_monotone(s, i + 1);
        let s0 = s.drop_last();
        assert(s0.take(i) =~= s.take(i));
        if i < s0.len() {
            assert(s0.take(i + 1) =~= s.take(i + 1));
        }
        lemma_limited(s0, n, i);
    }
}

/// A limit of no keys leaves nothing.
pub proof fn lemma_limited_zero(s: Seq<EntryView>)
    ensures
        limited(s, Some(0usize)) == Seq::<EntryView>::empty(),
{
    assert(key_count(s.take(0)) == 0);
    if s.len() > 0 {
        assert(s.take(1).drop_last() =~= s.take(0));
    }
    lemma_limited(s, 0, 0);
    assert(s.take(0) =~= Seq::<EntryView>::empty());
}

/// Cuts a sorted run to at most `limit` distinct user keys.
pub fn limit_run(run: Vec<Entry>, limit: Option<usize>) -> (out: Vec<Entry>)
    ensures
        entry_views(out@) == limited(entry_views(run@), limit),
{
    let n = match limit {
        None => {
            return run;
        },
        Some(n) => n,
    };
    let ghost s = entry_views(run@);
    let mut out = run;
    let mut keys: usize = 0;
    let mut i: usize = 0;
    let mut cut = false;
    proof {
        assert(key_count(s.take(0)) == 0);
    }
    while i < out.len() && !cut
        invariant
            i <= out.len(),
            s == entry_views(out@),
            keys == key_count(s.take(i as int)),
            keys <= n,
            cut ==> i < out.len() && key_count(s.take(i + 1)) > n,
        decreases out.len() - i + if cut { 0int } else { 1int },
    {
        let fresh = i == 0 || !matches!(
            compare_keys(&out[i - 1].key.value, &out[i].key.value),
            KeyOrder::Equal
        );
        proof {
            let t = s.take(i + 1);
            assert(t.drop_last() =~= s.take(i as int));
            assert(t.last() == s[i as int]);
            if i > 0 {
                assert(t[t.len() - 2] == s[i - 1]);
            }
        }
        if fresh && keys == n {
            cut = true;
        } else {
            if fresh {
                keys += 1;
            }
            i += 1;
        }
    }
    proof {
        lemma_limited(s, n, i as int);
    }
    if cut {
        out.truncate(i);
        proof {
            assert(entry_views(out@) =~= s.take(i as int));
        }
    } else {
        proof {
            assert(s.take(i as int) =~= s);
        }
    }
    out
}

/// A cut run is no longer than the run.
pub proof fn lemma_limited_len(s: Seq<EntryView>, limit: Option<usize>)
    ensures
        limited(s, limit).len() <= s.len(),
    decreases s.len(),
{
    match limit {
        None => {},
        Some(n) => {
            if key_count(s) > n {
                lemma_limited_len(s.drop_last(), limit);
            }
        },
    }
}

/// Scans a sorted run: copies the entries with a key in `[lower, upper]` and a
/// timestamp at or before `ts`, in order, each as `mask` shows it.
pub fn scan_run(
    run: &Vec<Entry>,
    lower: &KeyBound,
    upper: &KeyBound,
    ts: Timestamp,
    mask: &ProjectionMask,
) -> (out: Vec<Entry>)
    ensures
        entry_views(out@) == scanned(entry_views(run@), lower@, upper@, ts, *mask),
{
    let ghost s = entry_views(run@);
    let ghost pred = |e: EntryView| visible(e.key, lower@, upper@, ts);
    let ghost proj = |e: EntryView| projected_entry(e, *mask);
    let mut out: Vec<Entry> = Vec::new();
    let mut i: usize = 0;
    proof {
        reveal(Seq::filter);
        assert(s.take(0).filter(pred) =~= Seq::<EntryView>::empty());
        assert(entry_views(out@) =~= s.take(0).filter(pred).map_values(proj));
    }
    while i < run.len()
        invariant
            i <= run.len(),
            s == entry_views(run@),
            pred == (|e: EntryView| visible(e.key, lower@, upper@, ts)),
            proj == (|e: EntryView| projected_entry(e, *mask)),
            entry_views(out@) == s.take(i as int).filter(pred).map_values(proj),
        decreases run.len() - i,
    {
        let e = &run[i];
        proof {
            reveal(Seq::filter);
            assert(s.take(i + 1).drop_last() =~= s.take(i as int));
            assert(s.take(i + 1).last() == e@);
        }
        if e.key.ts <= ts && is_above_lower(lower, &e.key.value) && is_below_upper(
            upper,
            &e.key.value,
        ) {
            let ghost before = entry_views(out@);
            out.push(e.project(mask));
            proof {
                assert(entry_views(out@) =~= before.push(proj(e@)));
                assert(s.take(i + 1).filter(pred).map_values(proj) =~= s.take(i as int).filter(
                    pred,
                ).map_values(proj).push(proj(e@)));
            }
        }
        i += 1;
    }
    proof {
        assert(s.take(i as int) =~= s);
    }
    out
}

/// A projection leaves the key and the timestamp of an entry as they are. Of a
/// record it shows every column that the mask lets through unchanged, and every
/// other column as null; a tombstone stays a tombstone.
pub proof fn lemma_projection(e: EntryView, mask: ProjectionMask, column: int)
    ensures
        projected_entry(e, mask).key == e.key,
        e.value is None <==> projected_entry(e, mask).value is None,
        e.value matches Some(row) ==> {
            let shown = projected_entry(e, mask).value->Some_0;
            &&& shown.len() == row.len()
            &&& 0 <= column < row.len() && mask.includes(column + crate::record::ENGINE_COLUMNS)
                ==> shown[column] == row[column]
            &&& 0 <= column < row.len() && !mask.includes(column + crate::record::ENGINE_COLUMNS)
                ==> shown[column] is None
        },
{
}

/// A mask that lets every column through shows a run as it is.
pub proof fn lemma_projected_all(s: Seq<EntryView>, mask: ProjectionMask)
    requires
        forall|leaf: int| mask.includes(leaf),
    ensures
        projected(s, mask) == s,
{
    assert forall|i: int| 0 <= i < s.len() implies projected(s, mask)[i] == s[i] by {
        crate::record::lemma_project_all(s[i].value, mask);
    }
    assert(projected(s, mask) =~= s);
}

/// What readers at snapshot `snapshot` see of a map of versions: under each key
/// that was written and not removed, the columns of its newest version.
pub open spec fn visible_map(m: Map<TimestampedView, Option<RowView>>, snapshot: Timestamp) -> Map<
    Seq<u8>,
    RowView,
> {
    Map::new(
        |key: Seq<u8>| read(m, key, snapshot) is Some,
        |key: Seq<u8>| read(m, key, snapshot)->Some_0,
    )
}

} // verus!
