//! Compaction: what happens to the tables when the mutable table is full. The
//! mutable table is frozen, the immutable segments are written out to level 0,
//! and a level that holds too many segments has them merged into the next level.
//! A merge drops the versions that no reader can see any more, and cuts what
//! is left into segments of bounded size.

pub mod major;

use vstd::prelude::*;
use crate::compaction::major::{distinct_gens, files_ok, lemma_same_reads_under, names,
    same_reads, stems_from, unique_files};
use crate::fs::FileId;
use crate::option::DbOption;
use crate::ondisk::{SsTable, TableView};
use crate::record::{saturate, RowView};
use crate::stream::merge::{lemma_merged_append, merged_versions};
use crate::stream::{entry_size, entry_views, holds, lemma_newest_ts, lemma_newest_ts_is,
    lemma_sorted_push, lemma_sorted_take, lemma_versions_at, lemma_versions_empty,
    lemma_versions_push, newest_ts, position, size_of_entry, sorted, stamp, versions, Entry,
    EntryView};
use crate::version::edit::{EditView, VersionEdit};
use crate::version::set::{apply_all, edit_views, VersionSet};
use crate::version::{level_runs, levels_versions, VersionError, MAX_LEVEL};
use crate::Schema;
use crate::timestamp::{compare_keys, key_lt, lemma_key_lt_asymmetric, lemma_key_lt_irreflexive,
    lemma_key_lt_transitive, lemma_precedes_asymmetric, lemma_precedes_transitive, precedes,
    KeyOrder, Timestamp, TimestampedView};

verus! {

/// What the compactor is asked to do.
#[derive(Clone, Copy, Debug, PartialEq, Eq, Structural)]
pub enum CompactTask {
    /// The mutable table has outgrown its size: freeze it and compact.
    Freeze,
}


/// Whether a merge with the given horizon keeps a version: it keeps every
/// version written at or after the horizon, and of the versions of a key written
/// before the horizon the newest one, which is the one that a reader at the
/// horizon sees. The others no reader at or after the horizon can see.
pub open spec fn kept(m: Map<TimestampedView, Option<RowView>>, k: TimestampedView, horizon: Timestamp)
    -> bool {
    k.ts >= horizon || newest_ts(m, k.value, horizon) == Some(k.ts)
}

/// The versions that a merge with the given horizon keeps.
pub open spec fn retained(m: Map<TimestampedView, Option<RowView>>, horizon: Timestamp) -> Map<
    TimestampedView,
    Option<RowView>,
> {
    Map::new(|k: TimestampedView| m.dom().contains(k) && kept(m, k, horizon), |k: TimestampedView| m[k])
}

/// What a reader at or after the horizon sees is the same before and after the
/// versions that are not kept are dropped.
pub proof fn lemma_retained_reads(
    m: Map<TimestampedView, Option<RowView>>,
    horizon: Timestamp,
    key: Seq<u8>,
    snapshot: Timestamp,
)
    requires
        horizon <= snapshot,
    ensures
        newest_ts(retained(m, horizon), key, snapshot) == newest_ts(m, key, snapshot),
        crate::stream::lookup(retained(m, horizon), key, snapshot) == crate::stream::lookup(
            m,
            key,
            snapshot,
        ),
        crate::stream::read(retained(m, horizon), key, snapshot) == crate::stream::read(
            m,
            key,
            snapshot,
        ),
{
    let r = retained(m, horizon);
    lemma_newest_ts(m, key, snapshot);
    lemma_newest_ts(m, key, horizon);
    match newest_ts(m, key, snapshot) {
        Some(t) => {
            // The newest version is kept: it was written at or after the horizon, or
            // it is the newest one before it.
            if t < horizon {
                lemma_newest_ts_is(m, key, horizon, t);
            }
            assert(r.dom().contains(stamp(key, t)));
            lemma_newest_ts_is(r, key, snapshot, t);
        },
        None => {
            crate::stream::lemma_newest_ts_none(r, key, snapshot);
        },
    }
}

/// Whether entry `i` of a sorted run is the newest version of its key at or
/// before the horizon, told from its neighbour: it was written at or before the
/// horizon, and the entry before it is of another key or was written after the
/// horizon.
pub open spec fn newest_before(s: Seq<EntryView>, i: int, horizon: Timestamp) -> bool {
    s[i].key.ts <= horizon && (i == 0 || s[i - 1].key.value != s[i].key.value || s[i - 1].key.ts
        > horizon)
}

/// What the neighbour tells is true.
pub proof fn lemma_newest_before(s: Seq<EntryView>, i: int, horizon: Timestamp)
    requires
        sorted(s),
        0 <= i < s.len(),
    ensures
        newest_before(s, i, horizon) <==> newest_ts(versions(s), s[i].key.value, horizon) == Some(
            s[i].key.ts,
        ),
{
    let m = versions(s);
    let key = s[i].key.value;
    let t = s[i].key.ts;
    lemma_versions_at(s, i);
    lemma_newest_ts(m, key, horizon);
    lemma_key_lt_irreflexive(key);
    assert(s[i].key == stamp(key, t));
    if newest_before(s, i, horizon) {
        assert forall|t2: Timestamp| t < t2 <= horizon implies !m.dom().contains(
            #[trigger] stamp(key, t2),
        ) by {
            if holds(s, stamp(key, t2)) {
                let q = position(s, stamp(key, t2));
                if q > i {
                    assert(precedes(s[i].key, s[q].key));
                } else if q < i {
                    assert(precedes(s[i - 1].key, s[i].key));
                    if q < i - 1 {
                        assert(precedes(s[q].key, s[i - 1].key));
                        if key_lt(s[i - 1].key.value, key) {
                            if key_lt(key, s[i - 1].key.value) {
                                lemma_key_lt_asymmetric(key, s[i - 1].key.value);
                            }
                        }
                    }
                }
            }
        }
        lemma_newest_ts_is(m, key, horizon, t);
    } else if t <= horizon {
        assert(i > 0 && s[i - 1].key.value == key && s[i - 1].key.ts <= horizon);
        lemma_versions_at(s, i - 1);
        assert(precedes(s[i - 1].key, s[i].key));
        assert(s[i - 1].key == stamp(key, s[i - 1].key.ts));
    }
}

/// The entries of a run that satisfy a condition on their timestamped keys form
/// a sorted run, which holds exactly the versions of the run that satisfy it.
pub proof fn lemma_filtered(s: Seq<EntryView>, p: spec_fn(TimestampedView) -> bool)
    requires
        sorted(s),
    ensures
        sorted(s.filter(|e: EntryView| p(e.key))),
        versions(s.filter(|e: EntryView| p(e.key))) == Map::new(
            |k: TimestampedView| versions(s).dom().contains(k) && p(k),
            |k: TimestampedView| versions(s)[k],
        ),
    decreases s.len(),
{
    let pred = |e: EntryView| p(e.key);
    let out = s.filter(pred);
    let want = Map::new(
        |k: TimestampedView| versions(s).dom().contains(k) && p(k),
        |k: TimestampedView| versions(s)[k],
    );
    reveal(Seq::filter);
    if s.len() == 0 {
        assert(out =~= Seq::<EntryView>::empty());
        assert(versions(out) =~= want);
    } else {
        let s0 = s.drop_last();
        let e = s.last();
        let n = s.len() - 1;
        assert(s0 =~= s.take(n));
        lemma_sorted_take(s, n);
        lemma_filtered(s0, p);
        let out0 = s0.filter(pred);
        assert(s =~= s0.push(e));
        lemma_versions_push(s0, e);
        if pred(e) {
            assert(out =~= out0.push(e));
            assert forall|i: int| 0 <= i < out0.len() implies precedes(
                (#[trigger] out0[i]).key,
                e.key,
            ) by {
                lemma_versions_at(out0, i);
                assert(holds(s0, out0[i].key));
                let q = position(s0, out0[i].key);
                assert(s0[q] == s[q]);
                assert(precedes(s[q].key, s[n].key));
            }
            lemma_sorted_push(out0, e);
            lemma_versions_push(out0, e);
        } else {
            assert(out =~= out0);
        }
        assert(versions(out) =~= want);
    }
}

/// Drops from a sorted run the versions that no reader at or after the horizon
/// can see.
pub fn gc(run: &Vec<Entry>, horizon: Timestamp) -> (out: Vec<Entry>)
    requires
        sorted(entry_views(run@)),
    ensures
        sorted(entry_views(out@)),
        versions(entry_views(out@)) == retained(versions(entry_views(run@)), horizon),
        run.len() > 0 ==> out.len() > 0,
{
    let ghost s = entry_views(run@);
    let ghost m = versions(s);
    let ghost p = |k: TimestampedView| kept(m, k, horizon);
    let ghost pred = |e: EntryView| p(e.key);
    let mut out: Vec<Entry> = Vec::new();
    let mut i: usize = 0;
    proof {
        reveal(Seq::filter);
        assert(s.take(0).filter(pred) =~= Seq::<EntryView>::empty());
        assert(entry_views(out@) =~= Seq::<EntryView>::empty());
    }
    while i < run.len()
        invariant
            i <= run.len(),
            s == entry_views(run@),
            sorted(s),
            m == versions(s),
            p == (|k: TimestampedView| kept(m, k, horizon)),
            pred == (|e: EntryView| p(e.key)),
            entry_views(out@) == s.take(i as int).filter(pred),
            i > 0 ==> out.len() > 0,
        decreases run.len() - i,
    {
        let e = &run[i];
        let keep = e.key.ts >= horizon || i == 0 || run[i - 1].key.ts > horizon || !matches!(
            compare_keys(&run[i - 1].key.value, &e.key.value),
            KeyOrder::Equal
        );
        proof {
            reveal(Seq::filter);
            assert(s.take(i + 1).drop_last() =~= s.take(i as int));
            assert(s.take(i + 1).last() == e@);
            lemma_newest_before(s, i as int, horizon);
            assert(keep == pred(s[i as int]));
            if i == 0 {
                // The first entry is the newest version of its key.
                assert(keep);
            }
        }
        if keep {
            let ghost before = entry_views(out@);
            out.push(e.clone());
            proof {
                assert(entry_views(out@) =~= before.push(e@));
            }
        }
        i += 1;
    }
    proof {
        assert(s.take(i as int) =~= s);
        lemma_filtered(s, p);
        assert(versions(entry_views(out@)) =~= retained(m, horizon));
    }
    out
}

/// A size estimate grown by the size of one more entry. Sizes are machine
/// words: one that does not fit counts as the largest word.
pub open spec fn grown(bytes: usize, e: EntryView) -> usize {
    saturate(bytes + saturate(entry_size(e) as int))
}

/// The estimate of the bytes that the entries of a run take together.
pub open spec fn estimate(s: Seq<EntryView>) -> usize
    decreases s.len(),
{
    if s.len() == 0 {
        0
    } else {
        grown(estimate(s.drop_last()), s.last())
    }
}

/// The runs of a list one after another.
pub open spec fn concat(chunks: Seq<Seq<EntryView>>) -> Seq<EntryView>
    decreases chunks.len(),
{
    if chunks.len() == 0 {
        Seq::empty()
    } else {
        concat(chunks.drop_last()) + chunks.last()
    }
}

/// Whether a piece keeps to the rule for entries that begin a new key: such an
/// entry was added because the piece with it was estimated at no more than `max`
/// bytes. So a piece exceeds `max` only by the versions of a key that it had
/// room to begin, or by those of its first key.
#[verifier::opaque]
pub open spec fn piece_ok(piece: Seq<EntryView>, max: usize) -> bool {
    forall|j: int|
        1 <= j < piece.len() && piece[j - 1].key.value != piece[j].key.value ==> estimate(
            #[trigger] piece.take(j + 1),
        ) <= max
}

/// Whether a piece may follow the pieces cut so far: it begins a new key, and
/// the last piece was cut because with the first entry of this one it would have
/// been estimated at more than `max` bytes.
pub open spec fn follows(chunks: Seq<Seq<EntryView>>, piece: Seq<EntryView>, max: usize) -> bool {
    chunks.len() > 0 ==> piece.len() > 0 && chunks.last().last().key.value != piece[0].key.value
        && grown(estimate(chunks.last()), piece[0]) > max
}

/// Whether a run is cut well for segments of at most `max` bytes: every piece
/// holds an entry and keeps to the rule of [`piece_ok`], and every piece but the
/// first follows the ones before it as [`follows`] asks. A cut thus falls only
/// where the user key changes, so that no key has versions in two pieces.
#[verifier::opaque]
pub open spec fn well_cut(chunks: Seq<Seq<EntryView>>, max: usize) -> bool {
    &&& forall|c: int| 0 <= c < chunks.len() ==> (#[trigger] chunks[c]).len() > 0
    &&& forall|c: int| 0 <= c < chunks.len() ==> piece_ok(#[trigger] chunks[c], max)
    &&& forall|c: int|
        0 <= c < chunks.len() - 1 ==> (#[trigger] chunks[c]).last().key.value != chunks[c
            + 1][0].key.value && grown(estimate(chunks[c]), chunks[c + 1][0]) > max
}

/// The runs of a vector of vectors in their mathematical form.
pub open spec fn chunk_views(chunks: Seq<Vec<Entry>>) -> Seq<Seq<EntryView>> {
    Seq::new(chunks.len(), |c: int| entry_views(chunks[c]@))
}

/// A piece that may follow the pieces cut so far makes with them a run that is
/// cut well.
pub proof fn lemma_well_cut_push(chunks: Seq<Seq<EntryView>>, piece: Seq<EntryView>, max: usize)
    requires
        well_cut(chunks, max),
        piece.len() > 0,
        piece_ok(piece, max),
        follows(chunks, piece, max),
    ensures
        well_cut(chunks.push(piece), max),
        concat(chunks.push(piece)) == concat(chunks) + piece,
{
    reveal(well_cut);
    let out = chunks.push(piece);
    assert(out.drop_last() =~= chunks);
    assert forall|c: int| 0 <= c < out.len() implies (#[trigger] out[c]).len() > 0 && piece_ok(
        out[c],
        max,
    ) by {
        if c < chunks.len() {
            assert(out[c] == chunks[c]);
        }
    }
    assert forall|c: int| 0 <= c < out.len() - 1 implies (#[trigger] out[c]).last().key.value
        != out[c + 1][0].key.value && grown(estimate(out[c]), out[c + 1][0]) > max by {
        if c < chunks.len() - 1 {
            assert(out[c] == chunks[c] && out[c + 1] == chunks[c + 1]);
        } else {
            assert(out[c] == chunks[c] && out[c + 1] == piece);
        }
    }
}

/// A piece stays within the rule when an entry is added that continues its last
/// key, or that the piece has room for.
pub proof fn lemma_piece_push(piece: Seq<EntryView>, e: EntryView, max: usize)
    requires
        piece_ok(piece, max),
        piece.len() == 0 || piece.last().key.value == e.key.value || grown(estimate(piece), e)
            <= max,
    ensures
        piece_ok(piece.push(e), max),
        estimate(piece.push(e)) == grown(estimate(piece), e),
{
    reveal(piece_ok);
    let out = piece.push(e);
    assert(out.drop_last() =~= piece);
    assert forall|j: int|
        1 <= j < out.len() && out[j - 1].key.value != out[j].key.value implies estimate(
        #[trigger] out.take(j + 1),
    ) <= max by {
        if j < piece.len() {
            assert(out.take(j + 1) =~= piece.take(j + 1));
            assert(out[j - 1] == piece[j - 1] && out[j] == piece[j]);
        } else {
            assert(out.take(j + 1) =~= out);
        }
    }
}

/// A piece without entries keeps to the rule.
pub proof fn lemma_piece_empty(max: usize)
    ensures
        piece_ok(Seq::<EntryView>::empty(), max),
{
    reveal(piece_ok);
}

/// Cuts a run into pieces for segments of at most `max` bytes, in order.
pub fn split(run: Vec<Entry>, max: usize) -> (chunks: Vec<Vec<Entry>>)
    ensures
        concat(chunk_views(chunks@)) == entry_views(run@),
        well_cut(chunk_views(chunks@), max),
        run.len() > 0 ==> chunks.len() > 0,
{
    let ghost s = entry_views(run@);
    let ghost all = run@;
    let n = run.len();
    let mut pending = crate::reversed(run);
    let mut chunks: Vec<Vec<Entry>> = Vec::new();
    let mut piece: Vec<Entry> = Vec::new();
    let mut bytes: usize = 0;
    let mut i: usize = 0;
    proof {
        reveal(well_cut);
        reveal(piece_ok);
        assert(chunk_views(chunks@) =~= Seq::<Seq<EntryView>>::empty());
        assert(concat(chunk_views(chunks@)) + entry_views(piece@) =~= s.take(0));
    }
    while i < n
        invariant
            i <= n,
            n == all.len(),
            s == entry_views(all),
            pending.len() == n - i,
            forall|k: int| 0 <= k < pending.len() ==> pending[k] == all[n - 1 - k],
            concat(chunk_views(chunks@)) + entry_views(piece@) == s.take(i as int),
            i > 0 ==> piece.len() > 0,
            i == 0 ==> piece.len() == 0 && chunks.len() == 0,
            well_cut(chunk_views(chunks@), max),
            follows(chunk_views(chunks@), entry_views(piece@), max),
            piece_ok(entry_views(piece@), max),
            bytes == estimate(entry_views(piece@)),
        decreases n - i,
    {
        let entry = pending.pop().unwrap();
        let size = size_of_entry(&entry.key, &entry.value);
        let ghost pv = entry_views(piece@);
        let ghost cv = chunk_views(chunks@);
        let ghost e = entry@;
        proof {
            assert(entry == all[i as int]);
            assert(e == s[i as int]);
            assert(s.take(i + 1) =~= s.take(i as int).push(e));
            assert(e == (EntryView { key: entry.key@, value: crate::record::value_view(entry.value) }));
        }
        let same_key = piece.len() > 0 && matches!(
            compare_keys(&piece[piece.len() - 1].key.value, &entry.key.value),
            KeyOrder::Equal
        );
        let more = bytes.saturating_add(size);
        if piece.len() == 0 || same_key || more <= max {
            proof {
                if piece.len() > 0 {
                    assert(pv.last() == piece[piece.len() - 1]@);
                }
                lemma_piece_push(pv, e, max);
            }
            piece.push(entry);
            bytes = more;
            proof {
                let pv2 = entry_views(piece@);
                assert(pv2 =~= pv.push(e));
                assert(concat(cv) + pv2 =~= s.take(i + 1));
                if pv.len() > 0 {
                    assert(pv2[0] == pv[0]);
                }
            }
        } else {
            proof {
                assert(pv.last() == piece[piece.len() - 1]@);
                lemma_well_cut_push(cv, pv, max);
                lemma_piece_empty(max);
                lemma_piece_push(Seq::<EntryView>::empty(), e, max);
            }
            let mut full: Vec<Entry> = Vec::new();
            core::mem::swap(&mut full, &mut piece);
            chunks.push(full);
            piece.push(entry);
            bytes = size;
            proof {
                let pv2 = entry_views(piece@);
                let cv2 = chunk_views(chunks@);
                assert(pv2 =~= Seq::<EntryView>::empty().push(e));
                assert(cv2 =~= cv.push(pv));
                assert(concat(cv2) + pv2 =~= s.take(i + 1));
            }
        }
        i += 1;
    }
    if piece.len() > 0 {
        let ghost pv = entry_views(piece@);
        let ghost cv = chunk_views(chunks@);
        proof {
            lemma_well_cut_push(cv, pv, max);
        }
        chunks.push(piece);
        proof {
            assert(chunk_views(chunks@) =~= cv.push(pv));
            assert(s.take(n as int) =~= s);
        }
    } else {
        proof {
            assert(s.take(0) =~= s);
            assert(entry_views(piece@) =~= Seq::<EntryView>::empty());
            assert(concat(chunk_views(chunks@)) + entry_views(piece@) =~= concat(
                chunk_views(chunks@),
            ));
        }
    }
    chunks
}

/// Where an entry of a piece lies in the whole: the entries of a piece are
/// entries of the whole, in the same order, and the pieces lie in the whole one
/// after another.
pub proof fn lemma_concat_index(chunks: Seq<Seq<EntryView>>, c: int, j: int) -> (at: int)
    requires
        0 <= c < chunks.len(),
        0 <= j < chunks[c].len(),
    ensures
        0 <= at < concat(chunks).len(),
        concat(chunks)[at] == chunks[c][j],
        at == concat(chunks.take(c)).len() + j,
        concat(chunks.take(c)).len() + chunks[c].len() <= concat(chunks).len(),
    decreases chunks.len(),
{
    let init = chunks.drop_last();
    if c == chunks.len() - 1 {
        assert(chunks.take(c) =~= init);
        concat(init).len() + j
    } else {
        let at = lemma_concat_index(init, c, j);
        assert(init.take(c) =~= chunks.take(c));
        assert(init[c] == chunks[c]);
        at
    }
}

/// The whole holds the pieces in order: a later piece begins where the earlier
/// ones end.
pub proof fn lemma_concat_take(chunks: Seq<Seq<EntryView>>, c: int)
    requires
        0 <= c < chunks.len(),
    ensures
        concat(chunks.take(c + 1)) == concat(chunks.take(c)) + chunks[c],
{
    let t = chunks.take(c + 1);
    assert(t.drop_last() =~= chunks.take(c));
    assert(t.last() == chunks[c]);
}

/// Every entry of the whole is an entry of a piece.
pub proof fn lemma_concat_from(chunks: Seq<Seq<EntryView>>, at: int) -> (place: (int, int))
    requires
        0 <= at < concat(chunks).len(),
    ensures
        0 <= place.0 < chunks.len(),
        0 <= place.1 < chunks[place.0].len(),
        chunks[place.0][place.1] == concat(chunks)[at],
    decreases chunks.len(),
{
    let init = chunks.drop_last();
    if at < concat(init).len() {
        let place = lemma_concat_from(init, at);
        assert(init[place.0] == chunks[place.0]);
        place
    } else {
        (chunks.len() - 1, at - concat(init).len())
    }
}

/// The pieces of a sorted run are sorted runs, and every entry of a piece comes
/// before every entry of a later piece.
pub proof fn lemma_concat_sorted(chunks: Seq<Seq<EntryView>>)
    requires
        sorted(concat(chunks)),
    ensures
        forall|c: int| 0 <= c < chunks.len() ==> sorted(#[trigger] chunks[c]),
        forall|c: int, d: int, i: int, j: int|
            0 <= c < d < chunks.len() && 0 <= i < chunks[c].len() && 0 <= j < chunks[d].len()
                ==> precedes((#[trigger] chunks[c][i]).key, (#[trigger] chunks[d][j]).key),
{
    let whole = concat(chunks);
    assert forall|c: int| 0 <= c < chunks.len() implies sorted(#[trigger] chunks[c]) by {
        let piece = chunks[c];
        assert forall|i: int, j: int| 0 <= i < j < piece.len() implies precedes(
            #[trigger] piece[i].key,
            #[trigger] piece[j].key,
        ) by {
            let x = lemma_concat_index(chunks, c, i);
            let y = lemma_concat_index(chunks, c, j);
            assert(precedes(whole[x].key, whole[y].key));
        }
    }
    assert forall|c: int, d: int, i: int, j: int|
        0 <= c < d < chunks.len() && 0 <= i < chunks[c].len() && 0 <= j < chunks[d].len() implies precedes(
        (#[trigger] chunks[c][i]).key,
        (#[trigger] chunks[d][j]).key,
    ) by {
        let x = lemma_concat_index(chunks, c, i);
        let y = lemma_concat_index(chunks, d, j);
        lemma_concat_prefix_len(chunks, c + 1, d);
        lemma_concat_take(chunks, c);
        assert(precedes(whole[x].key, whole[y].key));
    }
}

/// More pieces make a longer whole.
pub proof fn lemma_concat_prefix_len(chunks: Seq<Seq<EntryView>>, c: int, d: int)
    requires
        0 <= c <= d <= chunks.len(),
    ensures
        concat(chunks.take(c)).len() <= concat(chunks.take(d)).len(),
    decreases d - c,
{
    if c < d {
        lemma_concat_prefix_len(chunks, c, d - 1);
        lemma_concat_take(chunks, d - 1);
    }
}

/// Of two good cuts of one run that agree on their first `c` pieces, the next
/// piece of the first is no shorter than that of the second: had the first cut
/// fallen earlier, the entry after it would have found room in the piece.
proof fn lemma_cut_no_shorter(
    p: Seq<Seq<EntryView>>,
    q: Seq<Seq<EntryView>>,
    max: usize,
    c: int,
)
    requires
        well_cut(p, max),
        well_cut(q, max),
        concat(p) == concat(q),
        0 <= c < p.len(),
        c < q.len(),
        p.take(c) == q.take(c),
    ensures
        p[c].len() >= q[c].len(),
{
    reveal(well_cut);
    reveal(piece_ok);
    let run = concat(p);
    let off = concat(p.take(c)).len();
    let k = p[c].len() as int;
    if k < q[c].len() {
        lemma_concat_take(p, c);
        lemma_concat_take(q, c);
        // The first cut goes on after its piece.
        let in_q = lemma_concat_index(q, c, k);
        let last = lemma_concat_index(p, c, k - 1);
        let same = lemma_concat_index(q, c, k - 1);
        if c + 1 == p.len() {
            assert(p.take(c + 1) =~= p);
        }
        lemma_concat_prefix_len(p, c + 1, p.len() as int);
        assert(c + 1 < p.len());
        let next = lemma_concat_index(p, c + 1, 0);
        assert(p[c + 1][0] == q[c][k]);
        assert(p[c].last() == q[c][k - 1]);
        let head = q[c].take(k + 1);
        let front = head.drop_last();
        let piece = p[c];
        assert forall|x: int| 0 <= x < k implies #[trigger] front[x] == piece[x] by {
            let a = lemma_concat_index(p, c, x);
            let b = lemma_concat_index(q, c, x);
        }
        assert(front =~= piece);
        assert(head.last() == q[c][k]);
        assert(estimate(head) == grown(estimate(p[c]), p[c + 1][0]));
    }
}

/// A run has one good cut: two lists of pieces that are both cut well for the
/// same size and make the same run are the same list.
pub proof fn lemma_cut_unique(p: Seq<Seq<EntryView>>, q: Seq<Seq<EntryView>>, max: usize, c: int)
    requires
        well_cut(p, max),
        well_cut(q, max),
        concat(p) == concat(q),
        0 <= c <= p.len(),
        c <= q.len(),
    ensures
        p.take(c) == q.take(c),
        c == p.len() || c == q.len() ==> p == q,
    decreases c,
{
    if c == 0 {
        assert(p.take(0) =~= q.take(0));
    } else {
        lemma_cut_unique(p, q, max, c - 1);
        lemma_cut_no_shorter(p, q, max, c - 1);
        lemma_cut_no_shorter(q, p, max, c - 1);
        let mine = p[c - 1];
        let other = q[c - 1];
        assert forall|x: int| 0 <= x < mine.len() implies #[trigger] mine[x] == other[x] by {
            let a = lemma_concat_index(p, c - 1, x);
            let b = lemma_concat_index(q, c - 1, x);
        }
        assert(mine =~= other);
        assert forall|x: int| 0 <= x < c implies p.take(c)[x] == q.take(c)[x] by {
            if x < c - 1 {
                assert(p.take(c - 1)[x] == q.take(c - 1)[x]);
            }
        }
        assert(p.take(c) =~= q.take(c));
    }
    if c == p.len() || c == q.len() {
        reveal(well_cut);
        assert(p.take(p.len() as int) =~= p);
        assert(q.take(q.len() as int) =~= q);
        if c < p.len() {
            // The pieces of `p` beyond those of `q` would make the run longer.
            lemma_concat_take(p, c);
            lemma_concat_prefix_len(p, c + 1, p.len() as int);
            assert(concat(p.take(c + 1)).len() == concat(q).len() + p[c].len());
            assert(false);
        }
        if c < q.len() {
            lemma_concat_take(q, c);
            lemma_concat_prefix_len(q, c + 1, q.len() as int);
            assert(concat(q.take(c + 1)).len() == concat(p).len() + q[c].len());
            assert(false);
        }
    }
}

/// Number of tables at which level `level` is due for a major compaction:
/// `base` for level 0, and `magnification` times as many for each level below.
pub open spec fn threshold(base: usize, magnification: usize, level: nat) -> nat
    decreases level,
{
    if level == 0 {
        base as nat
    } else {
        threshold(base, magnification, (level - 1) as nat) * (magnification as nat)
    }
}

/// Computes [`threshold`]; `None` where it is more than a machine word, and so
/// more than the level can ever hold.
pub fn level_threshold(base: usize, magnification: usize, level: usize) -> (t: Option<usize>)
    ensures
        match t {
            Some(t) => t == threshold(base, magnification, level as nat),
            None => threshold(base, magnification, level as nat) > usize::MAX,
        },
{
    let mut t: usize = base;
    let mut l: usize = 0;
    while l < level
        invariant
            l <= level,
            t == threshold(base, magnification, l as nat),
        decreases level - l,
    {
        match t.checked_mul(magnification) {
            Some(next) => {
                t = next;
            },
            None => {
                proof {
                    lemma_threshold_grows(base, magnification, (l + 1) as nat, level as nat);
                }
                return None;
            },
        }
        l += 1;
    }
    Some(t)
}

/// Once the threshold has outgrown a machine word, it stays beyond it.
pub proof fn lemma_threshold_grows(base: usize, magnification: usize, from: nat, to: nat)
    requires
        from <= to,
        from > 0,
        threshold(base, magnification, from) > usize::MAX,
    ensures
        threshold(base, magnification, to) > usize::MAX,
    decreases to - from,
{
    if from < to {
        lemma_threshold_grows(base, magnification, from, (to - 1) as nat);
        let t = threshold(base, magnification, (to - 1) as nat);
        // A product beyond a machine word has a factor of at least one.
        assert(magnification >= 1) by {
            let f = threshold(base, magnification, (from - 1) as nat);
            assert(threshold(base, magnification, from) == f * magnification);
            if magnification == 0 {
                assert(f * 0 == 0) by (nonlinear_arith);
            }
        }
        assert(t * magnification >= t) by (nonlinear_arith)
            requires
                t >= 0,
                magnification >= 1,
        ;
    }
}

/// Whether a level holds so many tables that a major compaction is due.
pub open spec fn overfull(tables: nat, base: usize, magnification: usize, level: nat) -> bool {
    tables > 0 && tables >= threshold(base, magnification, level)
}

/// Computes [`overfull`].
pub fn is_overfull(tables: usize, base: usize, magnification: usize, level: usize) -> (due: bool)
    ensures
        due == overfull(tables as nat, base, magnification, level as nat),
{
    match level_threshold(base, magnification, level) {
        Some(t) => tables > 0 && tables >= t,
        None => false,
    }
}

/// The tables that the immutable segments make when they are written to their
/// files.
pub open spec fn segment_tables(files: Seq<FileId>, segments: Seq<Seq<EntryView>>) -> Seq<TableView> {
    Seq::new(segments.len(), |i: int| TableView { gen: files[i], rows: segments[i] })
}

/// The edits of a minor compaction: each immutable segment is put into level 0,
/// the oldest first, so that the newest comes to stand first.
pub open spec fn flush_edits(tables: Seq<TableView>) -> Seq<EditView> {
    Seq::new(
        tables.len(),
        |k: int| EditView::Add { level: 0, table: tables[tables.len() - 1 - k] },
    )
}

/// The layout after a minor compaction: the tables of the immutable segments
/// stand in level 0 before the tables that were there.
pub open spec fn flushed(levels: Seq<Seq<TableView>>, tables: Seq<TableView>) -> Seq<Seq<TableView>> {
    levels.update(0, tables + levels[0])
}

/// The files of the layout and of the immutable segments are in order: no two
/// tables, and no two segments, are held by one file, no segment by the file of
/// a table, and every file has a name below the name that the next new file
/// gets.
pub open spec fn storage_ok(levels: Seq<Seq<TableView>>, files: Seq<FileId>, next_file: FileId)
    -> bool {
    &&& files_ok(levels, next_file)
    &&& forall|i: int| 0 <= i < files.len() ==> #[trigger] files[i] < next_file
    &&& forall|i: int, j: int| 0 <= i < j < files.len() ==> #[trigger] files[i] != #[trigger] files[j]
    &&& forall|i: int| 0 <= i < files.len() ==> !names(levels, #[trigger] files[i])
    &&& unique_files(levels)
}

/// The edits of a minor compaction can be applied, and make the layout that the
/// compaction is to make.
pub proof fn lemma_flush_layout(levels: Seq<Seq<TableView>>, tables: Seq<TableView>)
    requires
        levels.len() > 0,
    ensures
        apply_all(levels, flush_edits(tables)) == Ok::<Seq<Seq<TableView>>, VersionError>(
            flushed(levels, tables),
        ),
    decreases tables.len(),
{
    let edits = flush_edits(tables);
    let n = tables.len() as int;
    if n == 0 {
        assert(tables + levels[0] =~= levels[0]);
        assert(flushed(levels, tables) =~= levels);
    } else {
        let last = tables[n - 1];
        let next = levels.update(0, levels[0].insert(0, last));
        assert(crate::version::apply_edit(levels, edits[0]) == Ok::<
            Seq<Seq<TableView>>,
            VersionError,
        >(next));
        let init = tables.take(n - 1);
        lemma_flush_layout(next, init);
        assert(edits.drop_first() =~= flush_edits(init));
        assert(init + next[0] =~= tables + levels[0]);
        assert(flushed(next, init) =~= flushed(levels, tables));
    }
}

/// After a minor compaction the levels hold what they held, and on top of it
/// what the tables that came in hold.
pub proof fn lemma_flush_versions(levels: Seq<Seq<TableView>>, tables: Seq<TableView>)
    requires
        levels.len() > 0,
    ensures
        levels_versions(flushed(levels, tables), 0) == levels_versions(
            levels,
            0,
        ).union_prefer_right(merged_versions(level_runs(tables))),
{
    let after = flushed(levels, tables);
    crate::compaction::major::lemma_levels_versions_tail(levels, after, 1);
    assert(level_runs(tables + levels[0]) =~= level_runs(tables) + level_runs(levels[0]));
    lemma_merged_append(level_runs(tables), level_runs(levels[0]));
    assert(levels_versions(after, 0) =~= levels_versions(levels, 0).union_prefer_right(
        merged_versions(level_runs(tables)),
    ));
}

/// Maps read the same as themselves, and reading the same carries over.
pub proof fn lemma_same_reads_chain(
    a: Map<TimestampedView, Option<RowView>>,
    b: Map<TimestampedView, Option<RowView>>,
    c: Map<TimestampedView, Option<RowView>>,
    horizon: Timestamp,
)
    requires
        same_reads(a, b, horizon),
        same_reads(b, c, horizon),
    ensures
        same_reads(a, c, horizon),
        same_reads(a, a, horizon),
{
    assert forall|key: Seq<u8>, snapshot: Timestamp| snapshot >= horizon implies #[trigger] newest_ts(
        a,
        key,
        snapshot,
    ) == newest_ts(c, key, snapshot) && crate::stream::lookup(a, key, snapshot)
        == crate::stream::lookup(c, key, snapshot) by {
        assert(newest_ts(a, key, snapshot) == newest_ts(b, key, snapshot));
        assert(newest_ts(b, key, snapshot) == newest_ts(c, key, snapshot));
    }
}

/// Whether no level but the last holds so many tables that a major compaction
/// is due.
pub open spec fn settled(levels: Seq<Seq<TableView>>, base: usize, magnification: usize) -> bool {
    forall|l: int|
        0 <= l < levels.len() - 1 ==> !overfull(
            (#[trigger] levels[l]).len(),
            base,
            magnification,
            l as nat,
        )
}

/// What the tables in memory and the segments hold together.
pub open spec fn all_versions(schema: &Schema, version_set: &VersionSet) -> Map<
    TimestampedView,
    Option<RowView>,
> {
    levels_versions(version_set.levels(), 0).union_prefer_right(
        merged_versions(schema.immutables()),
    ).union_prefer_right(versions(schema.mutable()))
}

/// Whether the settings of a schema are those of another.
pub open spec fn same_schema_settings(a: &Schema, b: &Schema) -> bool {
    &&& a.option() == b.option()
    &&& a.record_schema() == b.record_schema()
    &&& a.signal_capacity() == b.signal_capacity()
    &&& a.log() == b.log()
}

/// The compactor: it freezes the mutable table, writes the immutable segments
/// out, and keeps the levels within their thresholds.
pub struct Compactor;

/// How a compaction ended.
pub struct Compacted {
    /// The files that the layout holds no longer, and that are to be deleted.
    pub removed: Vec<FileId>,
    /// Why the work stopped early, if it did.
    pub stopped: Option<VersionError>,
}

/// Every table after a minor compaction was there before, or is the table of a
/// segment.
pub proof fn lemma_flushed_origin(levels: Seq<Seq<TableView>>, tables: Seq<TableView>, file: FileId)
    requires
        levels.len() > 0,
        names(flushed(levels, tables), file),
    ensures
        names(levels, file) || exists|i: int| 0 <= i < tables.len() && (#[trigger] tables[i]).gen == file,
{
    let after = flushed(levels, tables);
    let (k, i) = choose|k: int, i: int|
        0 <= k < after.len() && 0 <= i < after[k].len() && (#[trigger] after[k][i]).gen == file;
    if k == 0 {
        if i < tables.len() {
            assert(after[0][i] == tables[i]);
        } else {
            assert(after[0][i] == levels[0][i - tables.len()]);
            assert(names(levels, file));
        }
    } else {
        assert(after[k][i] == levels[k][i]);
        assert(names(levels, file));
    }
}

/// A minor compaction keeps every table that was there.
pub proof fn lemma_flushed_names(levels: Seq<Seq<TableView>>, tables: Seq<TableView>, file: FileId)
    requires
        levels.len() > 0,
        names(levels, file),
    ensures
        names(flushed(levels, tables), file),
{
    let after = flushed(levels, tables);
    let (k, i) = choose|k: int, i: int|
        0 <= k < levels.len() && 0 <= i < levels[k].len() && (#[trigger] levels[k][i]).gen == file;
    if k == 0 {
        assert(after[0][tables.len() + i] == levels[0][i]);
    } else {
        assert(after[k][i] == levels[k][i]);
    }
}

impl Compactor {
    /// Minor compaction: writes every immutable segment out to its file and puts
    /// it into level 0, before the tables that are there, the newest segment
    /// first. When the version numbers are used up, nothing changes.
    pub fn minor_compaction(schema: &mut Schema, version_set: &mut VersionSet) -> (result: Result<
        (),
        VersionError,
    >)
        requires
            old(schema).wf(),
            old(version_set).wf(),
            old(version_set).width() == old(schema).record_schema().columns,
            storage_ok(
                old(version_set).levels(),
                old(schema).immutable_files(),
                old(version_set).next_file(),
            ),
        ensures
            final(schema).wf(),
            final(version_set).wf(),
            final(version_set).width() == old(version_set).width(),
            final(version_set).next_file() == old(version_set).next_file(),
            storage_ok(
                final(version_set).levels(),
                final(schema).immutable_files(),
                final(version_set).next_file(),
            ),
            same_schema_settings(final(schema), old(schema)),
            final(schema).mutable() == old(schema).mutable(),
            final(schema).size() == old(schema).size(),
            all_versions(final(schema), final(version_set)) == all_versions(
                old(schema),
                old(version_set),
            ),
            match result {
                Ok(()) => final(schema).immutables().len() == 0 && final(schema).immutable_files().len() == 0 && final(version_set).levels() == flushed(
                    old(version_set).levels(),
                    segment_tables(old(schema).immutable_files(), old(schema).immutables()),
                ) && final(version_set).number() == old(version_set).number() + 1,
                Err(e) => e == VersionError::Exhausted && final(schema).immutables() == old(schema).immutables() && final(schema).immutable_files() == old(schema).immutable_files() && final(version_set).levels() == old(version_set).levels()
                    && final(version_set).number() == old(version_set).number(),
            },
            result is Err <==> old(version_set).number() == u64::MAX,
    {
        if !version_set.can_edit() {
            return Err(VersionError::Exhausted);
        }
        let ghost levels = version_set.levels();
        let ghost files = schema.immutable_files();
        let ghost segments = schema.immutables();
        let ghost tables = segment_tables(files, segments);
        let ghost width = version_set.width();
        let ghost n = segments.len() as int;
        let mut edits: Vec<VersionEdit> = Vec::new();
        let mut k: usize = 0;
        let waiting = schema.immutable_count();
        proof {
            version_set.lemma_wf();
            assert(edit_views(edits@) =~= flush_edits(tables).take(0));
            assert(files.len() == segments.len());
            assert(segments.take(n) =~= segments);
            assert(files.take(n) =~= files);
        }
        while schema.immutable_count() > 0
            invariant
                schema.wf(),
                same_schema_settings(schema, old(schema)),
                schema.mutable() == old(schema).mutable(),
                schema.size() == old(schema).size(),
                schema.record_schema().columns == width,
                n == segments.len(),
                n <= usize::MAX,
                files.len() == n,
                tables == segment_tables(files, segments),
                0 <= k <= n,
                schema.immutables() == segments.take(n - k),
                schema.immutable_files() == files.take(n - k),
                edit_views(edits@) == flush_edits(tables).take(k as int),
                forall|i: int|
                    0 <= i < edits.len() ==> ((#[trigger] edits[i]) matches VersionEdit::Add {
                        table,
                        ..
                    } ==> table.wf() && table.width() == width),
            decreases n - k,
        {
            let ghost before = edit_views(edits@);
            let ghost held = edits@;
            let (gen, segment) = schema.pop_oldest();
            proof {
                assert(segments.take(n - k).last() == segments[n - k - 1]);
                assert(files.take(n - k).last() == files[n - k - 1]);
                assert(segments.take(n - k).drop_last() =~= segments.take(n - k - 1));
                assert(files.take(n - k).drop_last() =~= files.take(n - k - 1));
            }
            let table = SsTable::new(gen, segment);
            proof {
                assert(table@ == tables[n - 1 - k]);
            }
            edits.push(VersionEdit::Add { level: 0, table });
            proof {
                assert(edit_views(edits@) =~= before.push(flush_edits(tables)[k as int]));
                assert(flush_edits(tables).take(k + 1) =~= flush_edits(tables).take(k as int).push(
                    flush_edits(tables)[k as int],
                ));
                assert forall|i: int| 0 <= i < edits.len() implies ((
                #[trigger] edits[i]) matches VersionEdit::Add { table, .. } ==> table.wf()
                    && table.width() == width) by {
                    if i < held.len() {
                        assert(edits[i] == held[i]);
                    }
                }
            }
            k += 1;
        }
        proof {
            assert(flush_edits(tables).take(n) =~= flush_edits(tables));
            lemma_flush_layout(levels, tables);
            lemma_flush_versions(levels, tables);
            assert(level_runs(tables) =~= segments);
            assert(schema.immutables() =~= Seq::<Seq<EntryView>>::empty());
            assert(merged_versions(Seq::<Seq<EntryView>>::empty()) =~= Map::<
                TimestampedView,
                Option<RowView>,
            >::empty());
            lemma_flushed_files(levels, files, segments, version_set.next_file());
        }
        match version_set.apply_edits(edits) {
            Ok(_) => {
                proof {
                    assert(all_versions(schema, version_set) =~= all_versions(
                        old(schema),
                        old(version_set),
                    ));
                }
                Ok(())
            },
            // Out of reach: the edits can be applied, and a version number is left.
            Err(e) => Err(e),
        }
    }
}

/// The layout after a minor compaction holds the files of the tables that were
/// there and of the segments that came in.
pub proof fn lemma_flushed_files(
    levels: Seq<Seq<TableView>>,
    files: Seq<FileId>,
    segments: Seq<Seq<EntryView>>,
    next_file: FileId,
)
    requires
        levels.len() > 0,
        files.len() == segments.len(),
        storage_ok(levels, files, next_file),
    ensures
        storage_ok(
            flushed(levels, segment_tables(files, segments)),
            Seq::<FileId>::empty(),
            next_file,
        ),
{
    let tables = segment_tables(files, segments);
    let after = flushed(levels, tables);
    let top = tables + levels[0];
    let n = tables.len() as int;
    // Where a table of the layout comes from: a segment, or the layout before.
    assert forall|l: int, i: int| 0 <= l < after.len() && 0 <= i < after[l].len() implies (l
        == 0 && i < n ==> (#[trigger] after[l][i]).gen == files[i]) && (l == 0 && i >= n
        ==> after[l][i] == levels[0][i - n]) && (l > 0 ==> after[l][i] == levels[l][i]) by {
        if l == 0 {
            if i < n {
                assert(top[i] == tables[i]);
            } else {
                assert(top[i] == levels[0][i - n]);
            }
        } else {
            assert(after[l] == levels[l]);
        }
    }
    assert forall|l: int, i: int, l2: int, i2: int|
        0 <= l < after.len() && 0 <= i < after[l].len() && 0 <= l2 < after.len() && 0 <= i2
            < after[l2].len() && (#[trigger] after[l][i]).gen == (#[trigger] after[l2][i2]).gen implies l
        == l2 && i == i2 by {
        let seg = l == 0 && i < n;
        let seg2 = l2 == 0 && i2 < n;
        let o = if l == 0 {
            i - n
        } else {
            i
        };
        let o2 = if l2 == 0 {
            i2 - n
        } else {
            i2
        };
        if seg && !seg2 {
            assert(levels[l2][o2].gen == files[i]);
            assert(names(levels, files[i]));
        } else if !seg && seg2 {
            assert(levels[l][o].gen == files[i2]);
            assert(names(levels, files[i2]));
        } else if !seg && !seg2 {
            assert(levels[l][o].gen == levels[l2][o2].gen);
        }
    }
    assert forall|l: int| 0 <= l < after.len() implies distinct_gens(#[trigger] after[l]) by {
        assert forall|i: int, j: int| 0 <= i < j < after[l].len() implies (
        #[trigger] after[l][i]).gen != (#[trigger] after[l][j]).gen by {}
    }
    assert forall|l: int, i: int| 0 <= l < after.len() && 0 <= i < after[l].len() implies (
    #[trigger] after[l][i]).gen < next_file by {
        if l == 0 && i < n {
            assert(files[i] < next_file);
        } else if l == 0 {
            assert(levels[0][i - n].gen < next_file);
        } else {
            assert(levels[l][i].gen < next_file);
        }
    }
}

/// A step of major compaction leaves the levels above and below its two levels
/// alone, and takes one table out of its level.
pub proof fn lemma_stepped_frame(
    before: Seq<Seq<TableView>>,
    after: Seq<Seq<TableView>>,
    l: usize,
    max: usize,
    horizon: Timestamp,
    first_file: FileId,
    removed: Seq<FileId>,
    next_file: FileId,
)
    requires
        crate::compaction::major::stepped(
            before,
            after,
            l,
            max,
            horizon,
            first_file,
            removed,
            next_file,
        ),
        before.len() > 0,
    ensures
        after.len() == before.len(),
        after[l as int].len() == before[l as int].len() - 1,
        forall|k: int| 0 <= k < before.len() && k != l && k != l + 1 ==> after[k] == before[k],
        same_reads(levels_versions(before, 0), levels_versions(after, 0), horizon),
{
    let (s, a, b, outs) = choose|s: int, a: int, b: int, outs: Seq<TableView>|
        {
            &&& #[trigger] crate::compaction::major::step_ok(before, l, s, a, b, outs, horizon)
            &&& crate::compaction::major::oldest_at(before, l as int, s)
            &&& crate::compaction::major::inputs_at(before, l as int, s, a, b)
            &&& after == crate::compaction::major::compacted(before, l as int, s, a, b, outs)
            &&& well_cut(level_runs(outs), max)
            &&& forall|j: int| 0 <= j < outs.len() ==> (#[trigger] outs[j]).gen == first_file + j
            &&& removed == crate::version::set::removed_files(
                crate::compaction::major::step_edits(before, l, s, a, b, outs),
            )
        };
    crate::compaction::major::lemma_step_reads(before, l, s, a, b, outs, horizon);
}

/// Whether level `l` is where the next step of a major compaction is due: it is
/// the first level that holds so many tables that a compaction is due, and not
/// the last level.
pub open spec fn due(levels: Seq<Seq<TableView>>, base: usize, magnification: usize, l: usize) -> bool {
    &&& l + 1 < levels.len()
    &&& overfull(levels[l as int].len(), base, magnification, l as nat)
    &&& forall|k: int|
        0 <= k < l ==> !overfull((#[trigger] levels[k]).len(), base, magnification, k as nat)
}

/// Whether `after` is the layout that the step that is due makes of `before`,
/// with `first_file` the name of its first new file, `next_file` the first name
/// that it leaves, and `removed` the files of its inputs.
pub open spec fn next_step(
    before: Seq<Seq<TableView>>,
    after: Seq<Seq<TableView>>,
    base: usize,
    magnification: usize,
    max: usize,
    horizon: Timestamp,
    first_file: FileId,
    removed: Seq<FileId>,
    next_file: FileId,
) -> bool {
    exists|l: usize| #[trigger]
        due(before, base, magnification, l) && crate::compaction::major::stepped(
            before,
            after,
            l,
            max,
            horizon,
            first_file,
            removed,
            next_file,
        )
}

/// The lists one after another.
pub open spec fn joined(lists: Seq<Seq<FileId>>) -> Seq<FileId>
    decreases lists.len(),
{
    if lists.len() == 0 {
        Seq::empty()
    } else {
        joined(lists.drop_last()) + lists.last()
    }
}

/// Whether the layouts are those of a run of major compaction, one step after
/// the other: each layout but the first is what the step that is due makes of
/// the layout before it. `files` holds, for each layout, the name that the next
/// new file gets, and `gone`, for each step, the files of its inputs.
pub open spec fn compaction_run(
    layouts: Seq<Seq<Seq<TableView>>>,
    files: Seq<FileId>,
    gone: Seq<Seq<FileId>>,
    base: usize,
    magnification: usize,
    max: usize,
    horizon: Timestamp,
) -> bool
    decreases layouts.len(),
{
    if layouts.len() <= 1 {
        layouts.len() == 1 && files.len() == 1 && gone.len() == 0
    } else {
        &&& files.len() == layouts.len()
        &&& gone.len() == layouts.len() - 1
        &&& compaction_run(
            layouts.drop_last(),
            files.drop_last(),
            gone.drop_last(),
            base,
            magnification,
            max,
            horizon,
        )
        &&& next_step(
            layouts[layouts.len() - 2],
            layouts.last(),
            base,
            magnification,
            max,
            horizon,
            files[files.len() - 2],
            gone.last(),
            files.last(),
        )
    }
}

/// What a major compaction makes of a layout: it takes the steps that are due,
/// one after the other, `steps` of them, from `before` to `after`. The first new
/// file is named `first_file`, `next_file` is the first name that is left, and
/// `removed` are the files of the inputs of all the steps, in the order of the
/// steps.
pub open spec fn compacts(
    before: Seq<Seq<TableView>>,
    after: Seq<Seq<TableView>>,
    first_file: FileId,
    next_file: FileId,
    removed: Seq<FileId>,
    steps: int,
    base: usize,
    magnification: usize,
    max: usize,
    horizon: Timestamp,
) -> bool {
    exists|layouts: Seq<Seq<Seq<TableView>>>, files: Seq<FileId>, gone: Seq<Seq<FileId>>| #[trigger]
        compaction_run(layouts, files, gone, base, magnification, max, horizon) && layouts[0]
            == before && layouts.last() == after && files[0] == first_file && files.last()
            == next_file && joined(gone) == removed && gone.len() == steps
}

/// Whether a major compaction has to stop at a layout: a step is due, and it
/// cannot be made in a version set with the version number `number` and `left`
/// as the name of its next new file. `next_file` is the name of the next new
/// file once the step has failed.
pub open spec fn halted(
    levels: Seq<Seq<TableView>>,
    number: u64,
    left: FileId,
    next_file: FileId,
    base: usize,
    magnification: usize,
    max: usize,
    horizon: Timestamp,
) -> bool {
    exists|l: usize| #[trigger]
        due(levels, base, magnification, l) && crate::compaction::major::step_fails(
            levels,
            number,
            left,
            l,
            max,
            horizon,
        ) && next_file == if number == u64::MAX {
            left
        } else {
            FileId::MAX
        }
}

/// What a major compaction makes of a layout, whether or not it stopped early:
/// it took `steps` of the steps that were due, from `before` to `after`. If it
/// did not stop, no step is due any more, and `next_file` is the first name
/// that is left. If it stopped, the step that is due at `after` cannot be made
/// with the version number `number`, as [`halted`] says.
pub open spec fn compacts_until(
    before: Seq<Seq<TableView>>,
    after: Seq<Seq<TableView>>,
    first_file: FileId,
    next_file: FileId,
    removed: Seq<FileId>,
    steps: int,
    number: u64,
    stopped: bool,
    base: usize,
    magnification: usize,
    max: usize,
    horizon: Timestamp,
) -> bool {
    exists|left: FileId| #[trigger]
        compacts(
            before,
            after,
            first_file,
            left,
            removed,
            steps,
            base,
            magnification,
            max,
            horizon,
        ) && if stopped {
            halted(after, number, left, next_file, base, magnification, max, horizon)
        } else {
            left == next_file && settled(after, base, magnification)
        }
}

/// A run of major compaction goes on with the step that is due.
pub proof fn lemma_run_push(
    layouts: Seq<Seq<Seq<TableView>>>,
    files: Seq<FileId>,
    gone: Seq<Seq<FileId>>,
    after: Seq<Seq<TableView>>,
    next_file: FileId,
    removed: Seq<FileId>,
    base: usize,
    magnification: usize,
    max: usize,
    horizon: Timestamp,
)
    requires
        compaction_run(layouts, files, gone, base, magnification, max, horizon),
        next_step(
            layouts.last(),
            after,
            base,
            magnification,
            max,
            horizon,
            files.last(),
            removed,
            next_file,
        ),
    ensures
        compaction_run(
            layouts.push(after),
            files.push(next_file),
            gone.push(removed),
            base,
            magnification,
            max,
            horizon,
        ),
        joined(gone.push(removed)) == joined(gone) + removed,
{
    assert(layouts.push(after).drop_last() =~= layouts);
    assert(files.push(next_file).drop_last() =~= files);
    assert(gone.push(removed).drop_last() =~= gone);
    assert(layouts.len() >= 1 && files.len() == layouts.len());
}

/// The segments that wait in memory once the mutable table has been frozen, the
/// newest first: the table itself, if it holds anything, before the segments
/// that were there.
pub open spec fn gathered(mutable: Seq<EntryView>, immutables: Seq<Seq<EntryView>>) -> Seq<
    Seq<EntryView>,
> {
    if mutable.len() > 0 {
        seq![mutable] + immutables
    } else {
        immutables
    }
}

/// The files of the segments of [`gathered`]: the frozen table gets the next new
/// file.
pub open spec fn gathered_files(mutable: Seq<EntryView>, files: Seq<FileId>, next_file: int) -> Seq<
    FileId,
> {
    if mutable.len() > 0 {
        seq![next_file as FileId] + files
    } else {
        files
    }
}

/// Whether so many segments wait that they are written out.
pub open spec fn spills(segments: Seq<Seq<EntryView>>, chunk: usize) -> bool {
    segments.len() > 0 && segments.len() >= chunk
}

/// What a database holds in memory and in its layout, as a compaction sees it.
pub struct Stores {
    /// The mutable table.
    pub mutable: Seq<EntryView>,
    /// The immutable segments, the newest first.
    pub immutables: Seq<Seq<EntryView>>,
    /// The files that the immutable segments are to be written to.
    pub files: Seq<FileId>,
    /// The size estimate of the mutable table.
    pub size: usize,
    /// The tables, level by level.
    pub levels: Seq<Seq<TableView>>,
    /// The name that the next new file gets.
    pub next_file: int,
    /// The number of the current version.
    pub number: int,
}

/// What a schema and a version set hold together.
pub open spec fn stores_of(schema: &Schema, version_set: &VersionSet) -> Stores {
    Stores {
        mutable: schema.mutable(),
        immutables: schema.immutables(),
        files: schema.immutable_files(),
        size: schema.size(),
        levels: version_set.levels(),
        next_file: version_set.next_file() as int,
        number: version_set.number() as int,
    }
}

/// What the part of a compaction that works on memory makes of what a database
/// holds. The mutable table is frozen if it holds anything: it becomes the
/// newest segment, with the next new file as its file. If then at least `chunk`
/// segments wait, they are all written out: their tables stand in level 0
/// before the tables that were there, in a new version.
pub open spec fn flushed_stores(s: Stores, chunk: usize) -> Stores {
    let segments = gathered(s.mutable, s.immutables);
    let files = gathered_files(s.mutable, s.files, s.next_file);
    let spilled = spills(segments, chunk);
    Stores {
        mutable: Seq::empty(),
        immutables: if spilled {
            Seq::empty()
        } else {
            segments
        },
        files: if spilled {
            Seq::empty()
        } else {
            files
        },
        size: if s.mutable.len() > 0 {
            0
        } else {
            s.size
        },
        levels: if spilled {
            flushed(s.levels, segment_tables(files, segments))
        } else {
            s.levels
        },
        next_file: s.next_file + if s.mutable.len() > 0 {
            1int
        } else {
            0int
        },
        number: s.number + if spilled {
            1int
        } else {
            0int
        },
    }
}

/// Whether the part of a compaction that works on memory cannot be done: the
/// mutable table holds something and no file name is left for it, or the
/// segments are to be written out and no version number is left.
pub open spec fn flush_fails(s: Stores, chunk: usize) -> bool {
    if s.mutable.len() > 0 && s.next_file == FileId::MAX {
        true
    } else {
        spills(gathered(s.mutable, s.immutables), chunk) && s.number == u64::MAX
    }
}

/// In a settled layout no level but the last has reached its threshold, unless
/// it is empty: level 0 holds fewer tables than the base threshold, wherever
/// that is not 0.
pub proof fn lemma_settled_count(
    levels: Seq<Seq<TableView>>,
    base: usize,
    magnification: usize,
    l: int,
)
    requires
        settled(levels, base, magnification),
        0 <= l < levels.len() - 1,
    ensures
        levels[l].len() == 0 || levels[l].len() < threshold(base, magnification, l as nat),
        l == 0 && base > 0 ==> levels[0].len() <= base - 1,
{
    assert(!overfull(levels[l].len(), base, magnification, l as nat));
}

/// What a database holds where the part of a compaction that works on memory
/// could not be done. Without a file name for the mutable table nothing has
/// changed. Else the mutable table is frozen, if it held anything, and the
/// segments wait as they are, since no version number is left to write them
/// out under.
pub open spec fn stuck_stores(s: Stores) -> Stores {
    if s.mutable.len() > 0 && s.next_file == FileId::MAX {
        s
    } else {
        Stores {
            mutable: Seq::empty(),
            immutables: gathered(s.mutable, s.immutables),
            files: gathered_files(s.mutable, s.files, s.next_file),
            size: if s.mutable.len() > 0 {
                0
            } else {
                s.size
            },
            levels: s.levels,
            next_file: s.next_file + if s.mutable.len() > 0 {
                1int
            } else {
                0int
            },
            number: s.number,
        }
    }
}

/// Whether `after` is what a compaction makes of `before`, and `stopped` tells
/// whether it stopped early. With `flush` it does the part on memory. Where
/// that cannot be done, as [`flush_fails`] says, the compaction stops, and
/// [`stuck_stores`] says what is left. Else [`flushed_stores`] says what the
/// part on memory leaves, and with `merge` the major compaction follows, of
/// which [`compacts_until`] says what it leaves and when it stops. `removed`
/// are the files that the major compaction took out of the layout.
pub open spec fn compaction_of(
    before: Stores,
    after: Stores,
    removed: Seq<FileId>,
    flush: bool,
    merge: bool,
    stopped: bool,
    option: DbOption,
    horizon: Timestamp,
) -> bool {
    if flush && flush_fails(before, option.immutable_chunk_num) {
        stopped && after == stuck_stores(before) && removed.len() == 0
    } else {
        let mid = if flush {
            flushed_stores(before, option.immutable_chunk_num)
        } else {
            before
        };
        &&& after.mutable == mid.mutable
        &&& after.immutables == mid.immutables
        &&& after.files == mid.files
        &&& after.size == mid.size
        &&& if merge {
            mid.next_file <= FileId::MAX && 0 <= after.next_file <= FileId::MAX && 0
                <= after.number <= u64::MAX && compacts_until(
                mid.levels,
                after.levels,
                mid.next_file as FileId,
                after.next_file as FileId,
                removed,
                after.number - mid.number,
                after.number as u64,
                stopped,
                option.major_threshold_with_sst_size,
                option.level_sst_magnification,
                option.max_sst_file_size,
                horizon,
            )
        } else {
            &&& !stopped
            &&& after.levels == mid.levels
            &&& after.next_file == mid.next_file
            &&& after.number == mid.number
            &&& removed.len() == 0
        }
    }
}

/// A compaction stops early only where the part on memory cannot be done, or
/// where a step of the major compaction is still due when it ends.
pub proof fn lemma_stopped(
    before: Stores,
    after: Stores,
    removed: Seq<FileId>,
    flush: bool,
    merge: bool,
    stopped: bool,
    option: DbOption,
    horizon: Timestamp,
)
    requires
        compaction_of(before, after, removed, flush, merge, stopped, option, horizon),
    ensures
        stopped ==> (flush && flush_fails(before, option.immutable_chunk_num)) || (merge
            && !settled(
            after.levels,
            option.major_threshold_with_sst_size,
            option.level_sst_magnification,
        )),
        !stopped && merge ==> settled(
            after.levels,
            option.major_threshold_with_sst_size,
            option.level_sst_magnification,
        ),
        stopped ==> after.next_file == FileId::MAX || after.number == u64::MAX,
{
    let base = option.major_threshold_with_sst_size;
    let magnification = option.level_sst_magnification;
    if stopped && !(flush && flush_fails(before, option.immutable_chunk_num)) {
        let mid = if flush {
            flushed_stores(before, option.immutable_chunk_num)
        } else {
            before
        };
        let max = option.max_sst_file_size;
        let left = choose|left: FileId| #[trigger]
            compacts(
                mid.levels,
                after.levels,
                mid.next_file as FileId,
                left,
                removed,
                after.number - mid.number,
                base,
                magnification,
                max,
                horizon,
            ) && halted(
                after.levels,
                after.number as u64,
                left,
                after.next_file as FileId,
                base,
                magnification,
                max,
                horizon,
            );
        let l = choose|l: usize| #[trigger]
            due(after.levels, base, magnification, l)
                && crate::compaction::major::step_fails(
                after.levels,
                after.number as u64,
                left,
                l,
                max,
                horizon,
            ) && after.next_file as FileId == if after.number as u64 == u64::MAX {
                left
            } else {
                FileId::MAX
            };
    }
}

impl Compactor {
    /// Major compaction: from level 0 down, as long as a level holds so many
    /// tables that a compaction is due, its oldest table is merged into the next
    /// level. Returns the files of all the tables that were merged, which the
    /// layout holds no longer. When the file names or the version numbers are
    /// used up, the work stops with what has been done.
    pub fn major_compaction(
        version_set: &mut VersionSet,
        base: usize,
        magnification: usize,
        max: usize,
        horizon: Timestamp,
    ) -> (done: Compacted)
        requires
            old(version_set).wf(),
            files_ok(old(version_set).levels(), old(version_set).next_file()),
            unique_files(old(version_set).levels()),
        ensures
            final(version_set).wf(),
            final(version_set).width() == old(version_set).width(),
            files_ok(final(version_set).levels(), final(version_set).next_file()),
            unique_files(final(version_set).levels()),
            old(version_set).next_file() <= final(version_set).next_file(),
            old(version_set).number() <= final(version_set).number(),
            stems_from(
                final(version_set).levels(),
                old(version_set).levels(),
                old(version_set).next_file(),
            ),
            forall|r: int|
                0 <= r < done.removed.len() ==> !names(
                    final(version_set).levels(),
                    #[trigger] done.removed[r],
                ) && done.removed[r] < final(version_set).next_file() && (names(
                    old(version_set).levels(),
                    done.removed[r],
                ) || done.removed[r] >= old(version_set).next_file()),
            forall|file: FileId|
                names(old(version_set).levels(), file) && !#[trigger] names(
                    final(version_set).levels(),
                    file,
                ) ==> done.removed@.contains(file),
            same_reads(
                levels_versions(old(version_set).levels(), 0),
                levels_versions(final(version_set).levels(), 0),
                horizon,
            ),
            compacts_until(
                old(version_set).levels(),
                final(version_set).levels(),
                old(version_set).next_file(),
                final(version_set).next_file(),
                done.removed@,
                final(version_set).number() - old(version_set).number(),
                final(version_set).number(),
                done.stopped is Some,
                base,
                magnification,
                max,
                horizon,
            ),
            done.stopped is None ==> settled(final(version_set).levels(), base, magnification),
            done.stopped matches Some(e) ==> e == VersionError::Exhausted,
            done.stopped is Some ==> final(version_set).next_file() == FileId::MAX || final(version_set).number() == u64::MAX,
    {
        let ghost start = version_set.levels();
        let ghost mut layouts: Seq<Seq<Seq<TableView>>> = seq![version_set.levels()];
        let ghost mut files_at: Seq<FileId> = seq![version_set.next_file()];
        let ghost mut gone: Seq<Seq<FileId>> = Seq::empty();
        let mut removed: Vec<FileId> = Vec::new();
        let mut failure: Option<VersionError> = None;
        let mut level: usize = 0;
        let ghost first = version_set.next_file();
        proof {
            version_set.lemma_wf();
            lemma_same_reads_refl(levels_versions(start, 0), horizon);
        }
        while level + 1 < MAX_LEVEL && failure.is_none()
            invariant
                version_set.wf(),
                version_set.width() == old(version_set).width(),
                files_ok(version_set.levels(), version_set.next_file()),
                old(version_set).next_file() <= version_set.next_file(),
                old(version_set).number() <= version_set.number(),
                start == old(version_set).levels(),
                first == old(version_set).next_file(),
                version_set.levels().len() == MAX_LEVEL,
                level < MAX_LEVEL,
                unique_files(version_set.levels()),
                stems_from(version_set.levels(), start, first),
                forall|r: int|
                    0 <= r < removed.len() ==> !names(version_set.levels(), #[trigger] removed[r])
                        && removed[r] < version_set.next_file() && (names(start, removed[r])
                        || removed[r] >= first),
                forall|file: FileId|
                    names(start, file) && !#[trigger] names(version_set.levels(), file)
                        ==> removed@.contains(file),
                same_reads(
                    levels_versions(start, 0),
                    levels_versions(version_set.levels(), 0),
                    horizon,
                ),
                forall|l: int|
                    0 <= l < level ==> !overfull(
                        (#[trigger] version_set.levels()[l]).len(),
                        base,
                        magnification,
                        l as nat,
                    ),
                failure matches Some(e) ==> e == VersionError::Exhausted,
                failure is Some ==> version_set.next_file() == FileId::MAX || version_set.number()
                    == u64::MAX,
                failure is Some ==> halted(
                    version_set.levels(),
                    version_set.number(),
                    files_at.last(),
                    version_set.next_file(),
                    base,
                    magnification,
                    max,
                    horizon,
                ),
                compaction_run(layouts, files_at, gone, base, magnification, max, horizon),
                layouts[0] == start,
                layouts.last() == version_set.levels(),
                files_at[0] == first,
                failure is None ==> files_at.last() == version_set.next_file(),
                joined(gone) == removed@,
                gone.len() == version_set.number() - old(version_set).number(),
            decreases MAX_LEVEL - level + if failure is None { 1int } else { 0int },
        {
            while failure.is_none() && is_overfull(
                version_set.current().level_len(level),
                base,
                magnification,
                level,
            )
                invariant
                    version_set.wf(),
                    version_set.width() == old(version_set).width(),
                    files_ok(version_set.levels(), version_set.next_file()),
                    old(version_set).next_file() <= version_set.next_file(),
                    old(version_set).number() <= version_set.number(),
                    start == old(version_set).levels(),
                    first == old(version_set).next_file(),
                    version_set.levels().len() == MAX_LEVEL,
                    level + 1 < MAX_LEVEL,
                    unique_files(version_set.levels()),
                    stems_from(version_set.levels(), start, first),
                    forall|r: int|
                        0 <= r < removed.len() ==> !names(
                            version_set.levels(),
                            #[trigger] removed[r],
                        ) && removed[r] < version_set.next_file() && (names(start, removed[r])
                            || removed[r] >= first),
                    forall|file: FileId|
                        names(start, file) && !#[trigger] names(version_set.levels(), file)
                            ==> removed@.contains(file),
                    same_reads(
                        levels_versions(start, 0),
                        levels_versions(version_set.levels(), 0),
                        horizon,
                    ),
                    forall|l: int|
                        0 <= l < level ==> !overfull(
                            (#[trigger] version_set.levels()[l]).len(),
                            base,
                            magnification,
                            l as nat,
                        ),
                    failure matches Some(e) ==> e == VersionError::Exhausted,
                    failure is Some ==> version_set.next_file() == FileId::MAX || version_set.number()
                        == u64::MAX,
                    failure is Some ==> halted(
                        version_set.levels(),
                        version_set.number(),
                        files_at.last(),
                        version_set.next_file(),
                        base,
                        magnification,
                        max,
                        horizon,
                    ),
                    compaction_run(layouts, files_at, gone, base, magnification, max, horizon),
                    layouts[0] == start,
                    layouts.last() == version_set.levels(),
                    files_at[0] == first,
                    failure is None ==> files_at.last() == version_set.next_file(),
                    joined(gone) == removed@,
                    gone.len() == version_set.number() - old(version_set).number(),
                decreases
                        version_set.levels()[level as int].len() + if failure is None {
                            1int
                        } else {
                            0int
                        },
            {
                let ghost before = version_set.levels();
                let ghost first_file = version_set.next_file();
                match crate::compaction::major::major_step(version_set, level, max, horizon) {
                    Ok(mut files) => {
                        proof {
                            let after = version_set.levels();
                            lemma_stepped_frame(
                                before,
                                after,
                                level,
                                max,
                                horizon,
                                first_file,
                                files@,
                                version_set.next_file(),
                            );
                            lemma_same_reads_chain(
                                levels_versions(start, 0),
                                levels_versions(before, 0),
                                levels_versions(after, 0),
                                horizon,
                            );
                            crate::compaction::major::lemma_stems_chain(
                                start,
                                before,
                                after,
                                first,
                                first_file,
                            );
                            let earlier = removed@;
                            assert forall|r: int| 0 <= r < earlier.len() implies !names(
                                after,
                                #[trigger] earlier[r],
                            ) by {
                                // A file that was gone before the step is not the file of
                                // an old table, and is older than every new file.
                                if names(after, earlier[r]) {
                                    let (k, i) = choose|k: int, i: int|
                                        0 <= k < after.len() && 0 <= i < after[k].len() && (
                                        #[trigger] after[k][i]).gen == earlier[r];
                                    assert(names(before, after[k][i].gen) || after[k][i].gen
                                        >= first_file);
                                }
                            }
                            assert forall|r: int| 0 <= r < files.len() implies #[trigger] files[r]
                                < first_file by {
                                let (k, i) = choose|k: int, i: int|
                                    0 <= k < before.len() && 0 <= i < before[k].len() && (
                                    #[trigger] before[k][i]).gen == files[r];
                            }
                            assert forall|l: int| 0 <= l < level implies !overfull(
                                (#[trigger] after[l]).len(),
                                base,
                                magnification,
                                l as nat,
                            ) by {
                                assert(after[l] == before[l]);
                            }
                        }
                        let ghost earlier = removed@;
                        let ghost later = files@;
                        removed.append(&mut files);
                        proof {
                            let after = version_set.levels();
                            assert(due(before, base, magnification, level));
                            lemma_run_push(
                                layouts,
                                files_at,
                                gone,
                                after,
                                version_set.next_file(),
                                later,
                                base,
                                magnification,
                                max,
                                horizon,
                            );
                            layouts = layouts.push(after);
                            files_at = files_at.push(version_set.next_file());
                            gone = gone.push(later);
                            assert forall|r: int| 0 <= r < removed.len() implies !names(
                                after,
                                #[trigger] removed[r],
                            ) && removed[r] < version_set.next_file() && (names(start, removed[r])
                                || removed[r] >= first) by {
                                if r < earlier.len() {
                                    assert(removed[r] == earlier[r]);
                                } else {
                                    let f = later[r - earlier.len()];
                                    assert(removed[r] == f);
                                    let (k, i) = choose|k: int, i: int|
                                        0 <= k < before.len() && 0 <= i < before[k].len() && (
                                        #[trigger] before[k][i]).gen == f;
                                    assert(names(start, before[k][i].gen) || before[k][i].gen
                                        >= first);
                                }
                            }
                            assert forall|file: FileId|
                                names(start, file) && !#[trigger] names(
                                    after,
                                    file,
                                ) implies removed@.contains(file) by {
                                if names(before, file) {
                                    assert(later.contains(file));
                                    let r = choose|r: int| 0 <= r < later.len() && later[r] == file;
                                    assert(removed@[earlier.len() + r] == file);
                                } else {
                                    assert(earlier.contains(file));
                                    let r = choose|r: int|
                                        0 <= r < earlier.len() && earlier[r] == file;
                                    assert(removed@[r] == file);
                                }
                            }
                        }
                    },
                    Err(e) => {
                        proof {
                            assert(due(before, base, magnification, level));
                        }
                        failure = Some(e);
                    },
                }
            }
            if failure.is_none() {
                level += 1;
            }
        }
        proof {
            assert(compacts(
                start,
                version_set.levels(),
                first,
                files_at.last(),
                removed@,
                version_set.number() - old(version_set).number(),
                base,
                magnification,
                max,
                horizon,
            ));
            assert(failure is None ==> files_at.last() == version_set.next_file());
        }
        Compacted { removed, stopped: failure }
    }

    /// What the compactor does when a freeze is asked for. With `flush`, it
    /// freezes the mutable table if that holds anything, and, if then as many
    /// immutable segments wait as the options ask for, writes them all out to
    /// level 0. With `merge`, it then carries out the major compactions that
    /// are due. Returns the files that the layout holds no longer. When the
    /// file names or the version numbers are used up, the work stops with what
    /// has been done. No reader at or after the horizon sees any change.
    pub fn check_then_compaction(
        schema: &mut Schema,
        version_set: &mut VersionSet,
        flush: bool,
        merge: bool,
        horizon: Timestamp,
    ) -> (done: Compacted)
        requires
            old(schema).wf(),
            old(version_set).wf(),
            old(version_set).width() == old(schema).record_schema().columns,
            storage_ok(
                old(version_set).levels(),
                old(schema).immutable_files(),
                old(version_set).next_file(),
            ),
        ensures
            final(schema).wf(),
            final(version_set).wf(),
            final(version_set).width() == old(version_set).width(),
            storage_ok(
                final(version_set).levels(),
                final(schema).immutable_files(),
                final(version_set).next_file(),
            ),
            old(version_set).next_file() <= final(version_set).next_file(),
            old(version_set).number() <= final(version_set).number(),
            same_schema_settings(final(schema), old(schema)),
            same_reads(
                all_versions(old(schema), old(version_set)),
                all_versions(final(schema), final(version_set)),
                horizon,
            ),
            !flush ==> final(schema).mutable() == old(schema).mutable() && final(schema).immutables() == old(schema).immutables() && final(schema).immutable_files() == old(schema).immutable_files() && final(schema).size() == old(schema).size(),
            done.stopped is None && merge ==> settled(
                final(version_set).levels(),
                old(schema).option().major_threshold_with_sst_size,
                old(schema).option().level_sst_magnification,
            ),
            done.stopped is None && flush ==> final(schema).mutable().len() == 0 && (final(schema).immutables().len() == 0 || final(schema).immutables().len() < old(schema).option().immutable_chunk_num),
            compaction_of(
                stores_of(old(schema), old(version_set)),
                stores_of(final(schema), final(version_set)),
                done.removed@,
                flush,
                merge,
                done.stopped is Some,
                old(schema).option(),
                horizon,
            ),
            done.stopped matches Some(e) ==> e == VersionError::Exhausted,
            done.stopped is Some ==> final(version_set).next_file() == FileId::MAX || final(version_set).number() == u64::MAX,
            flush && flush_fails(
                stores_of(old(schema), old(version_set)),
                old(schema).option().immutable_chunk_num,
            ) ==> done.stopped is Some,
            !merge && done.stopped is Some ==> flush && flush_fails(
                stores_of(old(schema), old(version_set)),
                old(schema).option().immutable_chunk_num,
            ),
            forall|r: int|
                0 <= r < done.removed.len() ==> !names(
                    final(version_set).levels(),
                    #[trigger] done.removed[r],
                ) && done.removed[r] < final(version_set).next_file() && !final(schema).immutable_files().contains(done.removed[r]),
            forall|file: FileId|
                names(old(version_set).levels(), file) && !#[trigger] names(
                    final(version_set).levels(),
                    file,
                ) ==> done.removed@.contains(file),
            forall|file: FileId| #[trigger]
                names(final(version_set).levels(), file) ==> names(
                    old(version_set).levels(),
                    file,
                ) || old(schema).immutable_files().contains(file) || file >= old(version_set).next_file(),
            forall|i: int|
                0 <= i < final(schema).immutable_files().len() ==> old(schema).immutable_files().contains(#[trigger] final(schema).immutable_files()[i])
                    || final(schema).immutable_files()[i] >= old(version_set).next_file(),
    {
        let ghost before = all_versions(schema, version_set);
        let ghost start = version_set.levels();
        let ghost start_files = schema.immutable_files();
        let ghost start_next = version_set.next_file();
        proof {
            assert forall|i: int| 0 <= i < start_files.len() implies start_files.contains(
                #[trigger] start_files[i],
            ) by {}
        }
        proof {
            lemma_same_reads_refl(before, horizon);
            version_set.lemma_wf();
        }
        if flush {
            if !schema.mutable_is_empty() {
                let ghost files = schema.immutable_files();
                let ghost levels = version_set.levels();
                let ghost memory = schema.versions();
                proof {
                    assert(before =~= levels_versions(levels, 0).union_prefer_right(memory));
                }
                match version_set.next_file_id() {
                    None => {
                        return Compacted {
                            removed: Vec::new(),
                            stopped: Some(VersionError::Exhausted),
                        };
                    },
                    Some(gen) => {
                        schema.freeze(gen);
                        proof {
                            let after = schema.immutable_files();
                            assert(after[0] == gen);
                            assert forall|i: int| 0 <= i < after.len() implies #[trigger] after[i]
                                < version_set.next_file() by {
                                if i > 0 {
                                    assert(after[i] == files[i - 1]);
                                }
                            }
                            assert forall|i: int, j: int| 0 <= i < j < after.len() implies #[trigger] after[i]
                                != #[trigger] after[j] by {
                                assert(after[j] == files[j - 1]);
                                if i > 0 {
                                    assert(after[i] == files[i - 1]);
                                }
                            }
                            assert forall|i: int| 0 <= i < after.len() implies !names(
                                levels,
                                #[trigger] after[i],
                            ) by {
                                if i > 0 {
                                    assert(after[i] == files[i - 1]);
                                }
                            }
                            assert forall|i: int| 0 <= i < after.len() implies start_files.contains(
                                #[trigger] after[i],
                            ) || after[i] >= start_next by {
                                if i > 0 {
                                    assert(after[i] == files[i - 1]);
                                }
                            }
                            assert(schema.versions() == memory);
                            assert(all_versions(schema, version_set) =~= levels_versions(
                                levels,
                                0,
                            ).union_prefer_right(memory));
                        }
                    },
                }
            }
            proof {
                assert(schema.mutable() =~= Seq::<EntryView>::empty());
                assert(schema.immutables() == gathered(
                    old(schema).mutable(),
                    old(schema).immutables(),
                ));
                assert(schema.immutable_files() == gathered_files(
                    old(schema).mutable(),
                    old(schema).immutable_files(),
                    start_next as int,
                ));
            }
            let waiting = schema.immutable_count();
            if waiting > 0 && waiting >= schema.options().immutable_chunk_num {
                let ghost unflushed = version_set.levels();
                let ghost waiting_files = schema.immutable_files();
                let ghost tables = segment_tables(schema.immutable_files(), schema.immutables());
                match Compactor::minor_compaction(schema, version_set) {
                    Ok(()) => {
                        proof {
                            assert forall|file: FileId| #[trigger]
                                names(version_set.levels(), file) implies names(start, file)
                                || start_files.contains(file) || file >= start_next by {
                                lemma_flushed_origin(unflushed, tables, file);
                                if !names(unflushed, file) {
                                    let i = choose|i: int|
                                        0 <= i < tables.len() && (#[trigger] tables[i]).gen == file;
                                    assert(waiting_files[i] == file);
                                }
                            }
                            assert forall|file: FileId| names(start, file) implies #[trigger] names(
                                version_set.levels(),
                                file,
                            ) by {
                                lemma_flushed_names(unflushed, tables, file);
                            }
                        }
                    },
                    Err(e) => {
                        return Compacted { removed: Vec::new(), stopped: Some(e) };
                    },
                }
            }
        }
        let ghost middle = version_set.levels();
        let ghost middle_next = version_set.next_file();
        let ghost files = schema.immutable_files();
        proof {
            if flush {
                assert(schema.immutables().len() == 0 ==> schema.immutables() =~= Seq::<
                    Seq<EntryView>,
                >::empty());
                assert(schema.immutable_files().len() == 0 ==> schema.immutable_files()
                    =~= Seq::<FileId>::empty());
                assert(stores_of(schema, version_set) == flushed_stores(
                    stores_of(old(schema), old(version_set)),
                    old(schema).option().immutable_chunk_num,
                ));
            }
        }
        let base = schema.options().major_threshold_with_sst_size;
        let magnification = schema.options().level_sst_magnification;
        let max = schema.options().max_sst_file_size;
        proof {
            assert forall|file: FileId| names(start, file) implies #[trigger] names(middle, file) by {}
        }
        if !merge {
            return Compacted { removed: Vec::new(), stopped: None };
        }
        let done = Compactor::major_compaction(version_set, base, magnification, max, horizon);
        proof {
            assert forall|file: FileId| #[trigger]
                names(version_set.levels(), file) implies names(start, file)
                || start_files.contains(file) || file >= start_next by {
                let (k, i) = choose|k: int, i: int|
                    0 <= k < version_set.levels().len() && 0 <= i < version_set.levels()[k].len()
                        && (#[trigger] version_set.levels()[k][i]).gen == file;
                assert(names(middle, version_set.levels()[k][i].gen) || version_set.levels()[k][i].gen >= middle_next);
            }
            assert forall|r: int| 0 <= r < done.removed.len() implies !files.contains(
                #[trigger] done.removed[r],
            ) by {
                if files.contains(done.removed[r]) {
                    let i = choose|i: int| 0 <= i < files.len() && files[i] == done.removed[r];
                    assert(!names(middle, files[i]));
                    assert(files[i] < middle_next);
                }
            }
            let after = version_set.levels();
            version_set.lemma_wf();
            lemma_same_reads_under(
                levels_versions(middle, 0),
                levels_versions(after, 0),
                merged_versions(schema.immutables()),
                horizon,
            );
            lemma_same_reads_under(
                levels_versions(middle, 0).union_prefer_right(merged_versions(schema.immutables())),
                levels_versions(after, 0).union_prefer_right(merged_versions(schema.immutables())),
                versions(schema.mutable()),
                horizon,
            );
            assert forall|i: int| 0 <= i < files.len() implies !names(after, #[trigger] files[i]) by {
                if names(after, files[i]) {
                    let (k, j) = choose|k: int, j: int|
                        0 <= k < after.len() && 0 <= j < after[k].len() && (
                        #[trigger] after[k][j]).gen == files[i];
                    assert(names(middle, after[k][j].gen) || after[k][j].gen >= middle_next);
                }
            }
        }
        done
    }
}

/// Every map reads the same as itself.
pub proof fn lemma_same_reads_refl(a: Map<TimestampedView, Option<RowView>>, horizon: Timestamp)
    ensures
        same_reads(a, a, horizon),
{
}

} // verus!
