//! Merging sorted runs into one, earlier runs taking precedence where two runs
//! hold the same `(key, timestamp)`.

use vstd::prelude::*;
use crate::record::{projected_value, ProjectionMask, RowView};
use crate::stream::{entry_views, holds, lemma_scanned, lemma_sorted_push, lemma_sorted_take,
    lemma_versions_at, lemma_versions_empty, lemma_versions_push, position, scanned, sorted,
    versions, visible, Entry, EntryView, KeyBoundView};
use crate::timestamp::{compare_keys, lemma_precedes_asymmetric, lemma_precedes_transitive, precedes,
    KeyOrder, Timestamp, TimestampedView};

verus! {

/// The runs of a vector of vectors in their mathematical form.
pub open spec fn run_views(runs: Seq<Vec<Entry>>) -> Seq<Seq<EntryView>> {
    Seq::new(runs.len(), |r: int| entry_views(runs[r]@))
}

/// Whether every run is sorted.
pub open spec fn all_sorted(runs: Seq<Seq<EntryView>>) -> bool {
    forall|r: int| 0 <= r < runs.len() ==> sorted(#[trigger] runs[r])
}

/// The versions that a list of runs holds together. Where several runs hold the
/// same timestamped key, the run that comes first in the list gives the value.
pub open spec fn merged_versions(runs: Seq<Seq<EntryView>>) -> Map<
    TimestampedView,
    Option<RowView>,
>
    decreases runs.len(),
{
    if runs.len() == 0 {
        Map::empty()
    } else {
        merged_versions(runs.drop_first()).union_prefer_right(versions(runs[0]))
    }
}

/// A timestamped key is among the merged versions exactly if some run holds it.
pub proof fn lemma_merged_domain(runs: Seq<Seq<EntryView>>, k: TimestampedView)
    ensures
        merged_versions(runs).dom().contains(k) <==> exists|r: int|
            0 <= r < runs.len() && holds(#[trigger] runs[r], k),
    decreases runs.len(),
{
    if runs.len() > 0 {
        let rest = runs.drop_first();
        lemma_merged_domain(rest, k);
        if merged_versions(runs).dom().contains(k) {
            if holds(runs[0], k) {
            } else {
                let r = choose|r: int| 0 <= r < rest.len() && holds(#[trigger] rest[r], k);
                assert(rest[r] == runs[r + 1]);
            }
        }
        if exists|r: int| 0 <= r < runs.len() && holds(#[trigger] runs[r], k) {
            let r = choose|r: int| 0 <= r < runs.len() && holds(#[trigger] runs[r], k);
            if r > 0 {
                assert(rest[r - 1] == runs[r]);
            }
        }
    }
}

/// The merged value of a timestamped key is the one of the first run that holds
/// it.
pub proof fn lemma_merged_value(runs: Seq<Seq<EntryView>>, k: TimestampedView, r: int)
    requires
        0 <= r < runs.len(),
        holds(runs[r], k),
        forall|q: int| 0 <= q < r ==> !holds(#[trigger] runs[q], k),
    ensures
        merged_versions(runs).dom().contains(k),
        merged_versions(runs)[k] == versions(runs[r])[k],
    decreases runs.len(),
{
    let rest = runs.drop_first();
    if r > 0 {
        assert(rest[r - 1] == runs[r]);
        assert forall|q: int| 0 <= q < r - 1 implies !holds(#[trigger] rest[q], k) by {
            assert(rest[q] == runs[q + 1]);
        }
        lemma_merged_value(rest, k, r - 1);
        assert(!holds(runs[0], k));
    }
}

/// Merges two sorted runs. Where both hold a `(key, timestamp)`, the entry of `hi`
/// is kept.
pub fn merge_two(hi: &Vec<Entry>, lo: &Vec<Entry>) -> (out: Vec<Entry>)
    requires
        sorted(entry_views(hi@)),
        sorted(entry_views(lo@)),
    ensures
        sorted(entry_views(out@)),
        versions(entry_views(out@)) == versions(entry_views(lo@)).union_prefer_right(
            versions(entry_views(hi@)),
        ),
{
    let ghost h = entry_views(hi@);
    let ghost l = entry_views(lo@);
    let mut out: Vec<Entry> = Vec::new();
    let mut i: usize = 0;
    let mut j: usize = 0;
    proof {
        lemma_versions_empty();
        assert(entry_views(out@) =~= Seq::<EntryView>::empty());
        assert(h.take(0) =~= Seq::<EntryView>::empty());
        assert(l.take(0) =~= Seq::<EntryView>::empty());
        assert(versions(entry_views(out@)) =~= versions(l.take(0)).union_prefer_right(
            versions(h.take(0)),
        ));
    }
    while i < hi.len() || j < lo.len()
        invariant
            i <= hi.len(),
            j <= lo.len(),
            h == entry_views(hi@),
            l == entry_views(lo@),
            sorted(h),
            sorted(l),
            sorted(entry_views(out@)),
            forall|x: int|
                0 <= x < out.len() && i < hi.len() ==> precedes(
                    (#[trigger] entry_views(out@)[x]).key,
                    h[i as int].key,
                ),
            forall|x: int|
                0 <= x < out.len() && j < lo.len() ==> precedes(
                    (#[trigger] entry_views(out@)[x]).key,
                    l[j as int].key,
                ),
            versions(entry_views(out@)) == versions(l.take(j as int)).union_prefer_right(
                versions(h.take(i as int)),
            ),
        decreases (hi.len() - i) + (lo.len() - j),
    {
        let ghost o = entry_views(out@);
        // 0: take from `hi` alone, 1: take from `lo` alone, 2: both hold the key.
        let pick: u8 = if j >= lo.len() {
            0
        } else if i >= hi.len() {
            1
        } else {
            match hi[i].key.compare(&lo[j].key) {
                KeyOrder::Less => 0,
                KeyOrder::Greater => 1,
                KeyOrder::Equal => 2,
            }
        };
        proof {
            lemma_sorted_take(h, i as int);
            lemma_sorted_take(l, j as int);
            if i < hi.len() {
                lemma_sorted_take(h, i + 1);
                assert(h.take(i + 1) =~= h.take(i as int).push(h[i as int]));
                lemma_versions_push(h.take(i as int), h[i as int]);
            }
            if j < lo.len() {
                lemma_sorted_take(l, j + 1);
                assert(l.take(j + 1) =~= l.take(j as int).push(l[j as int]));
                lemma_versions_push(l.take(j as int), l[j as int]);
            }
        }
        if pick == 1 {
            let e = lo[j].clone();
            proof {
                assert(e@ == l[j as int]);
                // No entry emitted so far has this key, so `hi` gave none for it.
                assert(!versions(o).dom().contains(e@.key)) by {
                    if holds(o, e@.key) {
                        let x = position(o, e@.key);
                        lemma_precedes_asymmetric(o[x].key, e@.key);
                    }
                }
                if o.len() > 0 {
                    assert(precedes(o[o.len() - 1].key, e@.key));
                }
                lemma_sorted_push(o, e@);
                lemma_versions_push(o, e@);
            }
            out.push(e);
            j += 1;
            proof {
                let o2 = entry_views(out@);
                assert(o2 =~= o.push(l[j - 1]));
                assert(versions(o2) =~= versions(l.take(j as int)).union_prefer_right(
                    versions(h.take(i as int)),
                ));
                assert forall|x: int| 0 <= x < out.len() && j < lo.len() implies precedes(
                    (#[trigger] o2[x]).key,
                    l[j as int].key,
                ) by {
                    assert(precedes(l[j - 1].key, l[j as int].key));
                    if x < o.len() {
                        assert(o2[x] == o[x]);
                        lemma_precedes_transitive(o[x].key, l[j - 1].key, l[j as int].key);
                    }
                }
                assert forall|x: int| 0 <= x < out.len() && i < hi.len() implies precedes(
                    (#[trigger] o2[x]).key,
                    h[i as int].key,
                ) by {
                    if x < o.len() {
                        assert(o2[x] == o[x]);
                    }
                }
            }
        } else {
            let e = hi[i].clone();
            proof {
                assert(e@ == h[i as int]);
                if o.len() > 0 {
                    assert(precedes(o[o.len() - 1].key, e@.key));
                }
                lemma_sorted_push(o, e@);
                lemma_versions_push(o, e@);
            }
            out.push(e);
            i += 1;
            if pick == 2 {
                j += 1;
            }
            proof {
                let o2 = entry_views(out@);
                assert(o2 =~= o.push(h[i - 1]));
                assert(versions(o2) =~= versions(l.take(j as int)).union_prefer_right(
                    versions(h.take(i as int)),
                ));
                assert forall|x: int| 0 <= x < out.len() && i < hi.len() implies precedes(
                    (#[trigger] o2[x]).key,
                    h[i as int].key,
                ) by {
                    assert(precedes(h[i - 1].key, h[i as int].key));
                    if x < o.len() {
                        assert(o2[x] == o[x]);
                        lemma_precedes_transitive(o[x].key, h[i - 1].key, h[i as int].key);
                    }
                }
                assert forall|x: int| 0 <= x < out.len() && j < lo.len() implies precedes(
                    (#[trigger] o2[x]).key,
                    l[j as int].key,
                ) by {
                    if pick == 2 {
                        assert(precedes(l[j - 1].key, l[j as int].key));
                        assert(h[i - 1].key == l[j - 1].key);
                        if x < o.len() {
                            assert(o2[x] == o[x]);
                            lemma_precedes_transitive(o[x].key, l[j - 1].key, l[j as int].key);
                        }
                    } else {
                        if x < o.len() {
                            assert(o2[x] == o[x]);
                            lemma_precedes_transitive(o[x].key, h[i - 1].key, l[j as int].key);
                        }
                    }
                }
            }
        }
    }
    proof {
        assert(h.take(i as int) =~= h);
        assert(l.take(j as int) =~= l);
    }
    out
}

/// Merges any number of sorted runs into one sorted run that holds every version
/// of every run once. Where several runs hold the same `(key, timestamp)`, the
/// entry of the run that comes first in `runs` is kept.
pub fn merge_runs(runs: &Vec<Vec<Entry>>) -> (out: Vec<Entry>)
    requires
        all_sorted(run_views(runs@)),
    ensures
        sorted(entry_views(out@)),
        versions(entry_views(out@)) == merged_versions(run_views(runs@)),
{
    let ghost rs = run_views(runs@);
    let mut out: Vec<Entry> = Vec::new();
    let mut r: usize = runs.len();
    proof {
        lemma_versions_empty();
        assert(entry_views(out@) =~= Seq::<EntryView>::empty());
        assert(rs.skip(r as int) =~= Seq::<Seq<EntryView>>::empty());
    }
    while r > 0
        invariant
            r <= runs.len(),
            rs == run_views(runs@),
            all_sorted(rs),
            sorted(entry_views(out@)),
            versions(entry_views(out@)) == merged_versions(rs.skip(r as int)),
        decreases r,
    {
        r -= 1;
        proof {
            assert(sorted(rs[r as int]));
            let tail = rs.skip(r as int);
            assert(tail[0] == rs[r as int]);
            assert(tail.drop_first() =~= rs.skip(r + 1));
        }
        if runs[r].len() > 0 {
            out = merge_two(&runs[r], &out);
        } else {
            proof {
                assert(rs[r as int] =~= Seq::<EntryView>::empty());
                lemma_versions_empty();
                assert(merged_versions(rs.skip(r as int)) =~= merged_versions(rs.skip(r + 1)));
            }
        }
    }
    proof {
        assert(rs.skip(0) =~= rs);
    }
    out
}

/// The entries of several sorted sources as one ordered stream.
pub struct MergeStream {
    merged: Vec<Entry>,
    next: usize,
}

impl MergeStream {
    /// What the stream has yet to yield.
    pub closed spec fn remaining(&self) -> Seq<EntryView> {
        entry_views(self.merged@).skip(self.next as int)
    }

    pub closed spec fn wf(&self) -> bool {
        self.next <= self.merged.len() && sorted(entry_views(self.merged@))
    }

    /// Merges the given sources; on a tie the source that comes first wins.
    pub fn from_vec(streams: Vec<Vec<Entry>>) -> (stream: Self)
        requires
            all_sorted(run_views(streams@)),
        ensures
            stream.wf(),
            sorted(stream.remaining()),
            versions(stream.remaining()) == merged_versions(run_views(streams@)),
    {
        let merged = merge_runs(&streams);
        proof {
            assert(entry_views(merged@).skip(0) =~= entry_views(merged@));
        }
        MergeStream { merged, next: 0 }
    }

    /// Yields the next entry in order, or `None` at the end of the stream.
    pub fn next(&mut self) -> (entry: Option<Entry>)
        requires
            old(self).wf(),
        ensures
            final(self).wf(),
            old(self).remaining().len() == 0 ==> entry is None && final(self).remaining()
                == old(self).remaining(),
            old(self).remaining().len() > 0 ==> entry is Some && entry.unwrap()@ == old(self).remaining()[0] && final(self).remaining() == old(self).remaining().drop_first(),
    {
        if self.next < self.merged.len() {
            let e = self.merged[self.next].clone();
            self.next += 1;
            proof {
                assert(final(self).remaining() =~= old(self).remaining().drop_first());
            }
            Some(e)
        } else {
            None
        }
    }

    /// Yields everything that is left, in order.
    pub fn collect(self) -> (entries: Vec<Entry>)
        requires
            self.wf(),
        ensures
            entry_views(entries@) == self.remaining(),
    {
        let mut entries: Vec<Entry> = Vec::new();
        let mut i: usize = self.next;
        while i < self.merged.len()
            invariant
                self.next <= i <= self.merged.len(),
                entries.len() == i - self.next,
                forall|k: int|
                    0 <= k < entries.len() ==> (#[trigger] entries[k])@ == self.merged[self.next
                        + k]@,
            decreases self.merged.len() - i,
        {
            entries.push(self.merged[i].clone());
            i += 1;
        }
        proof {
            assert(entry_views(entries@) =~= self.remaining());
        }
        entries
    }
}

/// What a scan shows of a map of versions: the versions that are [`visible`],
/// each with the value that the mask lets through.
pub open spec fn scan_map(
    m: Map<TimestampedView, Option<RowView>>,
    lower: KeyBoundView,
    upper: KeyBoundView,
    ts: Timestamp,
    mask: ProjectionMask,
) -> Map<TimestampedView, Option<RowView>> {
    Map::new(
        |k: TimestampedView| m.dom().contains(k) && visible(k, lower, upper, ts),
        |k: TimestampedView| projected_value(m[k], mask),
    )
}

/// Each run as a scan shows it.
pub open spec fn scanned_runs(
    runs: Seq<Seq<EntryView>>,
    lower: KeyBoundView,
    upper: KeyBoundView,
    ts: Timestamp,
    mask: ProjectionMask,
) -> Seq<Seq<EntryView>> {
    Seq::new(runs.len(), |r: int| scanned(runs[r], lower, upper, ts, mask))
}

/// The map of a scan of a sorted run is the scan of the map of the run.
pub proof fn lemma_scanned_map(
    s: Seq<EntryView>,
    lower: KeyBoundView,
    upper: KeyBoundView,
    ts: Timestamp,
    mask: ProjectionMask,
)
    requires
        sorted(s),
    ensures
        sorted(scanned(s, lower, upper, ts, mask)),
        versions(scanned(s, lower, upper, ts, mask)) == scan_map(
            versions(s),
            lower,
            upper,
            ts,
            mask,
        ),
{
    lemma_scanned(s, lower, upper, ts, mask);
    assert(versions(scanned(s, lower, upper, ts, mask)) =~= scan_map(
        versions(s),
        lower,
        upper,
        ts,
        mask,
    ));
}

/// Every entry of a scan of a sorted run has the key of an entry of the run.
pub proof fn lemma_scanned_from(
    s: Seq<EntryView>,
    lower: KeyBoundView,
    upper: KeyBoundView,
    ts: Timestamp,
    mask: ProjectionMask,
    x: int,
)
    requires
        sorted(s),
        0 <= x < scanned(s, lower, upper, ts, mask).len(),
    ensures
        holds(s, scanned(s, lower, upper, ts, mask)[x].key),
{
    lemma_scanned(s, lower, upper, ts, mask);
    lemma_versions_at(scanned(s, lower, upper, ts, mask), x);
}

/// The versions of a list of runs followed by another: the first list takes
/// precedence.
pub proof fn lemma_merged_append(a: Seq<Seq<EntryView>>, b: Seq<Seq<EntryView>>)
    ensures
        merged_versions(a + b) == merged_versions(b).union_prefer_right(merged_versions(a)),
    decreases a.len(),
{
    if a.len() == 0 {
        assert(a + b =~= b);
        assert(merged_versions(b).union_prefer_right(merged_versions(a)) =~= merged_versions(b));
    } else {
        let rest = a.drop_first();
        lemma_merged_append(rest, b);
        assert((a + b).drop_first() =~= rest + b);
        assert((a + b)[0] == a[0]);
        assert(merged_versions(a + b) =~= merged_versions(b).union_prefer_right(
            merged_versions(a),
        ));
    }
}

/// The versions of a single run.
pub proof fn lemma_merged_one(a: Seq<EntryView>)
    ensures
        merged_versions(seq![a]) == versions(a),
{
    let runs = seq![a];
    assert(runs.drop_first() =~= Seq::<Seq<EntryView>>::empty());
    assert(merged_versions(runs.drop_first()) =~= Map::<TimestampedView, Option<RowView>>::empty());
    assert(runs[0] == a);
    assert(merged_versions(runs) =~= versions(a));
}

/// A scan of a union of maps is the union of the scans.
pub proof fn lemma_scan_map_union(
    a: Map<TimestampedView, Option<RowView>>,
    b: Map<TimestampedView, Option<RowView>>,
    lower: KeyBoundView,
    upper: KeyBoundView,
    ts: Timestamp,
    mask: ProjectionMask,
)
    ensures
        scan_map(a.union_prefer_right(b), lower, upper, ts, mask) == scan_map(
            a,
            lower,
            upper,
            ts,
            mask,
        ).union_prefer_right(scan_map(b, lower, upper, ts, mask)),
{
    assert(scan_map(a.union_prefer_right(b), lower, upper, ts, mask) =~= scan_map(
        a,
        lower,
        upper,
        ts,
        mask,
    ).union_prefer_right(scan_map(b, lower, upper, ts, mask)));
}

/// Scanning every run and merging gives the scan of the merged versions.
pub proof fn lemma_merged_scanned(
    runs: Seq<Seq<EntryView>>,
    lower: KeyBoundView,
    upper: KeyBoundView,
    ts: Timestamp,
    mask: ProjectionMask,
)
    requires
        all_sorted(runs),
    ensures
        all_sorted(scanned_runs(runs, lower, upper, ts, mask)),
        merged_versions(scanned_runs(runs, lower, upper, ts, mask)) == scan_map(
            merged_versions(runs),
            lower,
            upper,
            ts,
            mask,
        ),
    decreases runs.len(),
{
    let out = scanned_runs(runs, lower, upper, ts, mask);
    assert forall|r: int| 0 <= r < out.len() implies sorted(#[trigger] out[r]) by {
        assert(sorted(runs[r]));
        lemma_scanned_map(runs[r], lower, upper, ts, mask);
    }
    if runs.len() == 0 {
        assert(merged_versions(out) =~= scan_map(merged_versions(runs), lower, upper, ts, mask));
    } else {
        let rest = runs.drop_first();
        assert forall|r: int| 0 <= r < rest.len() implies sorted(#[trigger] rest[r]) by {
            assert(rest[r] == runs[r + 1]);
        }
        lemma_merged_scanned(rest, lower, upper, ts, mask);
        assert(out.drop_first() =~= scanned_runs(rest, lower, upper, ts, mask));
        assert(sorted(runs[0]));
        lemma_scanned_map(runs[0], lower, upper, ts, mask);
        lemma_scan_map_union(merged_versions(rest), versions(runs[0]), lower, upper, ts, mask);
    }
}

/// A sorted run followed by a sorted run whose entries all come later is sorted,
/// and holds the versions of both.
pub proof fn lemma_sorted_concat(a: Seq<EntryView>, b: Seq<EntryView>)
    requires
        sorted(a),
        sorted(b),
        forall|i: int, j: int|
            0 <= i < a.len() && 0 <= j < b.len() ==> precedes(
                (#[trigger] a[i]).key,
                (#[trigger] b[j]).key,
            ),
    ensures
        sorted(a + b),
        versions(a + b) == versions(a).union_prefer_right(versions(b)),
        versions(a + b) == versions(b).union_prefer_right(versions(a)),
{
    let c = a + b;
    assert forall|i: int, j: int| 0 <= i < j < c.len() implies precedes(
        #[trigger] c[i].key,
        #[trigger] c[j].key,
    ) by {
        if j < a.len() {
            assert(c[i] == a[i] && c[j] == a[j]);
        } else if i >= a.len() {
            assert(c[i] == b[i - a.len()] && c[j] == b[j - a.len()]);
        } else {
            assert(c[i] == a[i] && c[j] == b[j - a.len()]);
        }
    }
    assert forall|k: TimestampedView| holds(c, k) <==> (holds(a, k) || holds(b, k)) by {
        if holds(c, k) {
            let i = position(c, k);
            if i < a.len() {
                assert(c[i] == a[i]);
            } else {
                assert(c[i] == b[i - a.len()]);
            }
        }
        if holds(a, k) {
            let i = position(a, k);
            assert(c[i] == a[i]);
        }
        if holds(b, k) {
            let i = position(b, k);
            assert(c[i + a.len()] == b[i]);
        }
    }
    assert forall|k: TimestampedView| !(holds(a, k) && holds(b, k)) by {
        if holds(a, k) && holds(b, k) {
            lemma_precedes_asymmetric(a[position(a, k)].key, b[position(b, k)].key);
        }
    }
    assert forall|k: TimestampedView| holds(c, k) implies versions(c)[k] == versions(
        a,
    ).union_prefer_right(versions(b))[k] by {
        let i = position(c, k);
        if i < a.len() {
            assert(c[i] == a[i]);
            crate::stream::lemma_sorted_unique(a, i, position(a, k));
        } else {
            assert(c[i] == b[i - a.len()]);
            crate::stream::lemma_sorted_unique(b, i - a.len(), position(b, k));
        }
    }
    assert(versions(c) =~= versions(a).union_prefer_right(versions(b)));
    assert(versions(c) =~= versions(b).union_prefer_right(versions(a)));
}

} // verus!
