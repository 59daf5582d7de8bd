//! Major compaction: merging the oldest segment of a level that holds too many
//! into the segments of the next level that share keys with it.

use vstd::prelude::*;
use crate::compaction::{chunk_views, concat, gc, lemma_concat_sorted, lemma_retained_reads,
    retained, split, well_cut};
use crate::fs::FileId;
use crate::inmem::immutable::{conforms, lemma_conforming_merged, lemma_conforms_map, Immutable};
use crate::ondisk::{lemma_rows_in_scope, table_scope, table_wf, SsTable, TableView};
use crate::record::RowView;
use crate::scope::{scope_contains, scopes_overlap};
use crate::stream::merge::{lemma_merged_append, lemma_merged_domain, lemma_merged_one,
    lemma_sorted_concat, merge_runs, merged_versions, run_views};
use crate::stream::{entry_views, holds, lemma_newest_ts, lemma_newest_ts_is,
    lemma_newest_ts_none, lookup, newest_ts, position, sorted, versions, Entry, EntryView};
use crate::timestamp::{compare_keys, key_le, key_lt, lemma_key_lt_asymmetric,
    lemma_key_lt_total, lemma_key_lt_transitive, precedes, KeyOrder, Timestamp,
    TimestampedView};
use crate::version::edit::{EditView, VersionEdit};
use crate::version::set::{apply_all, edit_views, removed_files, VersionSet};
use crate::version::{apply_edit, fits, gen_index, insertion_point, lemma_gen_index,
    lemma_insertion_point, level_runs, levels_versions, ordered, Version, VersionError,
    MAX_LEVEL};

verus! {

/// No two tables of the level are held by the same file.
pub open spec fn distinct_gens(level: Seq<TableView>) -> bool {
    forall|i: int, j: int|
        0 <= i < j < level.len() ==> (#[trigger] level[i]).gen != (#[trigger] level[j]).gen
}

/// Every table of the level has sorted rows, and at least one.
pub open spec fn filled(level: Seq<TableView>) -> bool {
    forall|i: int| 0 <= i < level.len() ==> sorted((#[trigger] level[i]).rows) && level[i].rows.len() > 0
}

/// The edits that take the tables from `a` up to `b` out of a level.
pub open spec fn removes(lvl: usize, level: Seq<TableView>, a: int, b: int) -> Seq<EditView> {
    Seq::new((b - a) as nat, |i: int| EditView::Remove { level: lvl, gen: level[a + i].gen })
}

/// The edits that put the given tables into a level, in order.
pub open spec fn adds(lvl: usize, outs: Seq<TableView>) -> Seq<EditView> {
    Seq::new(outs.len(), |j: int| EditView::Add { level: lvl, table: outs[j] })
}

/// In a level without two tables of one file, a file is found where it is.
pub proof fn lemma_gen_index_at(level: Seq<TableView>, at: int)
    requires
        distinct_gens(level),
        0 <= at < level.len(),
    ensures
        gen_index(level, level[at].gen) == at,
{
    lemma_gen_index(level, level[at].gen);
}

/// Applying one list of edits after another.
pub proof fn lemma_apply_all_append(
    levels: Seq<Seq<TableView>>,
    first: Seq<EditView>,
    second: Seq<EditView>,
)
    ensures
        apply_all(levels, first + second) == match apply_all(levels, first) {
            Ok(mid) => apply_all(mid, second),
            Err(e) => Err(e),
        },
    decreases first.len(),
{
    if first.len() == 0 {
        assert(first + second =~= second);
    } else {
        assert((first + second)[0] == first[0]);
        assert((first + second).drop_first() =~= first.drop_first() + second);
        match apply_edit(levels, first[0]) {
            Ok(next) => {
                lemma_apply_all_append(next, first.drop_first(), second);
            },
            Err(_) => {},
        }
    }
}

/// Taking a stretch of tables out of a level, one after another, leaves the
/// tables before and after the stretch.
pub proof fn lemma_remove_range(levels: Seq<Seq<TableView>>, lvl: usize, a: int, b: int)
    requires
        lvl < levels.len(),
        0 <= a <= b <= levels[lvl as int].len(),
        distinct_gens(levels[lvl as int]),
    ensures
        apply_all(levels, removes(lvl, levels[lvl as int], a, b)) == Ok::<
            Seq<Seq<TableView>>,
            VersionError,
        >(
            levels.update(
                lvl as int,
                levels[lvl as int].take(a) + levels[lvl as int].skip(b),
            ),
        ),
    decreases b - a,
{
    let level = levels[lvl as int];
    let edits = removes(lvl, level, a, b);
    if a == b {
        assert(level.take(a) + level.skip(b) =~= level);
        assert(levels.update(lvl as int, level) =~= levels);
    } else {
        lemma_gen_index_at(level, a);
        let next_level = level.remove(a);
        let next = levels.update(lvl as int, next_level);
        assert(apply_edit(levels, edits[0]) == Ok::<Seq<Seq<TableView>>, VersionError>(next));
        assert forall|i: int, j: int| 0 <= i < j < next_level.len() implies (
        #[trigger] next_level[i]).gen != (#[trigger] next_level[j]).gen by {
            let x = if i < a {
                i
            } else {
                i + 1
            };
            let y = if j < a {
                j
            } else {
                j + 1
            };
            assert(next_level[i] == level[x] && next_level[j] == level[y]);
        }
        lemma_remove_range(next, lvl, a, b - 1);
        assert forall|i: int| 0 <= i < b - 1 - a implies removes(lvl, next_level, a, b - 1)[i]
            == edits.drop_first()[i] by {
            assert(next_level[a + i] == level[a + i + 1]);
        }
        assert(edits.drop_first() =~= removes(lvl, next_level, a, b - 1));
        assert(next_level.take(a) + next_level.skip(b - 1) =~= level.take(a) + level.skip(b));
        assert(next.update(lvl as int, next_level.take(a) + next_level.skip(b - 1))
            =~= levels.update(lvl as int, level.take(a) + level.skip(b)));
    }
}

/// Where every table before `p` ends before `min` and the table at `p` does not,
/// `p` is the insertion point.
pub proof fn lemma_insertion_point_is(level: Seq<TableView>, min: Seq<u8>, p: int)
    requires
        0 <= p <= level.len(),
        forall|i: int| 0 <= i < p ==> key_lt(table_scope(#[trigger] level[i]).max, min),
        p < level.len() ==> !key_lt(table_scope(level[p]).max, min),
    ensures
        insertion_point(level, min) == p,
{
    lemma_insertion_point(level, min);
    let q = insertion_point(level, min);
    if q < p {
        assert(key_lt(table_scope(level[q]).max, min));
    }
}

/// Putting tables into a level between the tables that end before them and the
/// tables that begin after them places them there, in order.
pub proof fn lemma_add_outs(
    levels: Seq<Seq<TableView>>,
    lvl: usize,
    pre: Seq<TableView>,
    post: Seq<TableView>,
    outs: Seq<TableView>,
)
    requires
        1 <= lvl < levels.len(),
        levels[lvl as int] == pre + post,
        ordered(pre + outs + post),
        filled(pre + outs + post),
    ensures
        apply_all(levels, adds(lvl, outs)) == Ok::<Seq<Seq<TableView>>, VersionError>(
            levels.update(lvl as int, pre + outs + post),
        ),
    decreases outs.len(),
{
    let edits = adds(lvl, outs);
    let level = pre + post;
    let all = pre + outs + post;
    if outs.len() == 0 {
        assert(all =~= level);
        assert(levels.update(lvl as int, level) =~= levels);
    } else {
        let t = outs[0];
        let n = pre.len() as int;
        assert(all[n] == t);
        lemma_rows_in_scope(t, 0);
        // Nothing in the level shares a key with the new table.
        assert forall|i: int| 0 <= i < level.len() implies !scopes_overlap(
            table_scope(#[trigger] level[i]),
            table_scope(t),
        ) by {
            if i < n {
                assert(level[i] == all[i]);
                assert(key_lt(table_scope(all[i]).max, table_scope(all[n]).min));
                lemma_key_lt_asymmetric(table_scope(all[i]).max, table_scope(t).min);
            } else {
                let x = i + outs.len();
                assert(level[i] == all[x]);
                assert(key_lt(table_scope(all[n]).max, table_scope(all[x]).min));
                lemma_key_lt_asymmetric(table_scope(t).max, table_scope(all[x]).min);
            }
        }
        assert forall|i: int| 0 <= i < n implies key_lt(
            table_scope(#[trigger] level[i]).max,
            table_scope(t).min,
        ) by {
            assert(level[i] == all[i]);
            assert(key_lt(table_scope(all[i]).max, table_scope(all[n]).min));
        }
        if n < level.len() {
            let x = n + outs.len();
            assert(level[n] == all[x]);
            assert(key_lt(table_scope(all[n]).max, table_scope(all[x]).min));
            lemma_rows_in_scope(all[x], 0);
            // It begins after the new table ends, so it does not end before the new
            // table begins.
            if key_lt(table_scope(all[x]).max, table_scope(t).min) {
                if table_scope(t).min != table_scope(t).max {
                    lemma_key_lt_transitive(
                        table_scope(all[x]).max,
                        table_scope(t).min,
                        table_scope(t).max,
                    );
                }
                lemma_key_lt_transitive(
                    table_scope(all[x]).max,
                    table_scope(t).max,
                    table_scope(all[x]).min,
                );
                if table_scope(all[x]).min != table_scope(all[x]).max {
                    lemma_key_lt_transitive(
                        table_scope(all[x]).max,
                        table_scope(all[x]).min,
                        table_scope(all[x]).max,
                    );
                }
                crate::timestamp::lemma_key_lt_irreflexive(table_scope(all[x]).max);
                lemma_key_lt_asymmetric(table_scope(all[x]).max, table_scope(all[x]).min);
            }
        }
        lemma_insertion_point_is(level, table_scope(t).min, n);
        let next_level = level.insert(n, t);
        let next = levels.update(lvl as int, next_level);
        assert(apply_edit(levels, edits[0]) == Ok::<Seq<Seq<TableView>>, VersionError>(next));
        let pre2 = pre.push(t);
        let outs2 = outs.drop_first();
        assert(next_level =~= pre2 + post);
        assert(pre2 + outs2 + post =~= all);
        lemma_add_outs(next, lvl, pre2, post, outs2);
        assert(edits.drop_first() =~= adds(lvl, outs2));
        assert(next.update(lvl as int, all) =~= levels.update(lvl as int, all));
    }
}

/// Whether two maps of versions show every reader at or after the horizon the
/// same: under every key the same newest version with the same value.
pub open spec fn same_reads(
    a: Map<TimestampedView, Option<RowView>>,
    b: Map<TimestampedView, Option<RowView>>,
    horizon: Timestamp,
) -> bool {
    forall|key: Seq<u8>, snapshot: Timestamp|
        snapshot >= horizon ==> #[trigger] newest_ts(a, key, snapshot) == newest_ts(
            b,
            key,
            snapshot,
        ) && lookup(a, key, snapshot) == lookup(b, key, snapshot)
}

/// No timestamped key is in both maps.
pub open spec fn apart(
    a: Map<TimestampedView, Option<RowView>>,
    b: Map<TimestampedView, Option<RowView>>,
) -> bool {
    forall|k: TimestampedView| !(a.dom().contains(k) && b.dom().contains(k))
}

/// The newest version of a key in a union of maps is the newer of the newest in
/// either, and has the value of the map on top where both hold it.
pub proof fn lemma_newest_union(
    below: Map<TimestampedView, Option<RowView>>,
    top: Map<TimestampedView, Option<RowView>>,
    key: Seq<u8>,
    snapshot: Timestamp,
)
    ensures
        newest_ts(below.union_prefer_right(top), key, snapshot) == match (
            newest_ts(below, key, snapshot),
            newest_ts(top, key, snapshot),
        ) {
            (None, None) => None,
            (Some(t), None) => Some(t),
            (None, Some(u)) => Some(u),
            (Some(t), Some(u)) => if t > u {
                Some(t)
            } else {
                Some(u)
            },
        },
        lookup(below.union_prefer_right(top), key, snapshot) == match (
            newest_ts(below, key, snapshot),
            newest_ts(top, key, snapshot),
        ) {
            (None, None) => None,
            (Some(t), None) => lookup(below, key, snapshot),
            (None, Some(u)) => lookup(top, key, snapshot),
            (Some(t), Some(u)) => if t > u {
                lookup(below, key, snapshot)
            } else {
                lookup(top, key, snapshot)
            },
        },
{
    let both = below.union_prefer_right(top);
    lemma_newest_ts(below, key, snapshot);
    lemma_newest_ts(top, key, snapshot);
    match (newest_ts(below, key, snapshot), newest_ts(top, key, snapshot)) {
        (None, None) => {
            lemma_newest_ts_none(both, key, snapshot);
        },
        (Some(t), None) => {
            lemma_newest_ts_is(both, key, snapshot, t);
        },
        (None, Some(u)) => {
            lemma_newest_ts_is(both, key, snapshot, u);
        },
        (Some(t), Some(u)) => {
            if t > u {
                lemma_newest_ts_is(both, key, snapshot, t);
            } else {
                lemma_newest_ts_is(both, key, snapshot, u);
            }
        },
    }
}

/// Maps that read the same still read the same under a map on top of both.
pub proof fn lemma_same_reads_under(
    a: Map<TimestampedView, Option<RowView>>,
    b: Map<TimestampedView, Option<RowView>>,
    top: Map<TimestampedView, Option<RowView>>,
    horizon: Timestamp,
)
    requires
        same_reads(a, b, horizon),
    ensures
        same_reads(a.union_prefer_right(top), b.union_prefer_right(top), horizon),
{
    assert forall|key: Seq<u8>, snapshot: Timestamp| snapshot >= horizon implies #[trigger] newest_ts(
        a.union_prefer_right(top),
        key,
        snapshot,
    ) == newest_ts(b.union_prefer_right(top), key, snapshot) && lookup(
        a.union_prefer_right(top),
        key,
        snapshot,
    ) == lookup(b.union_prefer_right(top), key, snapshot) by {
        assert(newest_ts(a, key, snapshot) == newest_ts(b, key, snapshot));
        lemma_newest_union(a, top, key, snapshot);
        lemma_newest_union(b, top, key, snapshot);
    }
}

/// Maps that read the same still read the same on top of a map below both.
pub proof fn lemma_same_reads_over(
    below: Map<TimestampedView, Option<RowView>>,
    a: Map<TimestampedView, Option<RowView>>,
    b: Map<TimestampedView, Option<RowView>>,
    horizon: Timestamp,
)
    requires
        same_reads(a, b, horizon),
    ensures
        same_reads(below.union_prefer_right(a), below.union_prefer_right(b), horizon),
{
    assert forall|key: Seq<u8>, snapshot: Timestamp| snapshot >= horizon implies #[trigger] newest_ts(
        below.union_prefer_right(a),
        key,
        snapshot,
    ) == newest_ts(below.union_prefer_right(b), key, snapshot) && lookup(
        below.union_prefer_right(a),
        key,
        snapshot,
    ) == lookup(below.union_prefer_right(b), key, snapshot) by {
        assert(newest_ts(a, key, snapshot) == newest_ts(b, key, snapshot));
        lemma_newest_union(below, a, key, snapshot);
        lemma_newest_union(below, b, key, snapshot);
    }
}

/// Dropping the versions that a merge does not keep changes no read at or after
/// the horizon.
pub proof fn lemma_retained_same_reads(
    m: Map<TimestampedView, Option<RowView>>,
    horizon: Timestamp,
)
    ensures
        same_reads(m, retained(m, horizon), horizon),
{
    assert forall|key: Seq<u8>, snapshot: Timestamp| snapshot >= horizon implies #[trigger] newest_ts(
        m,
        key,
        snapshot,
    ) == newest_ts(retained(m, horizon), key, snapshot) && lookup(m, key, snapshot) == lookup(
        retained(m, horizon),
        key,
        snapshot,
    ) by {
        lemma_retained_reads(m, horizon, key, snapshot);
    }
}

/// A run among runs may be counted last, where none of the runs after it holds
/// a key that it holds.
pub proof fn lemma_merged_splice_bottom(
    pre: Seq<Seq<EntryView>>,
    mid: Seq<EntryView>,
    post: Seq<Seq<EntryView>>,
)
    requires
        apart(versions(mid), merged_versions(post)),
    ensures
        merged_versions(pre + seq![mid] + post) == versions(mid).union_prefer_right(
            merged_versions(pre + post),
        ),
{
    lemma_merged_append(pre + seq![mid], post);
    lemma_merged_append(pre, seq![mid]);
    lemma_merged_one(mid);
    lemma_merged_append(pre, post);
    assert(merged_versions(pre + seq![mid] + post) =~= versions(mid).union_prefer_right(
        merged_versions(pre + post),
    ));
}

/// Runs among runs may be counted first, where none of the runs before them
/// holds a key that they hold.
pub proof fn lemma_merged_splice_top(
    pre: Seq<Seq<EntryView>>,
    mid: Seq<Seq<EntryView>>,
    post: Seq<Seq<EntryView>>,
)
    requires
        apart(merged_versions(mid), merged_versions(pre)),
    ensures
        merged_versions(pre + mid + post) == merged_versions(pre + post).union_prefer_right(
            merged_versions(mid),
        ),
{
    lemma_merged_append(pre + mid, post);
    lemma_merged_append(pre, mid);
    lemma_merged_append(pre, post);
    assert(merged_versions(pre + mid + post) =~= merged_versions(pre + post).union_prefer_right(
        merged_versions(mid),
    ));
}

/// The versions of the tables of a level all lie in the key ranges of the
/// tables.
pub proof fn lemma_level_keys(level: Seq<TableView>, k: TimestampedView) -> (at: int)
    requires
        filled(level),
        merged_versions(level_runs(level)).dom().contains(k),
    ensures
        0 <= at < level.len(),
        holds(level[at].rows, k),
        scope_contains(table_scope(level[at]), k.value),
{
    lemma_merged_domain(level_runs(level), k);
    let at = choose|r: int| 0 <= r < level_runs(level).len() && holds(#[trigger] level_runs(level)[r], k);
    let p = position(level[at].rows, k);
    lemma_rows_in_scope(level[at], p);
    at
}

/// Tables that come in key order one after the other hold no key in common.
pub proof fn lemma_ordered_apart(x: Seq<TableView>, y: Seq<TableView>)
    requires
        ordered(x + y),
        filled(x + y),
    ensures
        apart(merged_versions(level_runs(x)), merged_versions(level_runs(y))),
        apart(merged_versions(level_runs(y)), merged_versions(level_runs(x))),
{
    let all = x + y;
    assert forall|i: int| 0 <= i < x.len() implies sorted((#[trigger] x[i]).rows) && x[i].rows.len()
        > 0 by {
        assert(x[i] == all[i]);
    }
    assert forall|i: int| 0 <= i < y.len() implies sorted((#[trigger] y[i]).rows) && y[i].rows.len()
        > 0 by {
        assert(y[i] == all[i + x.len()]);
    }
    assert forall|k: TimestampedView|
        !(merged_versions(level_runs(x)).dom().contains(k) && merged_versions(
            level_runs(y),
        ).dom().contains(k)) by {
        if merged_versions(level_runs(x)).dom().contains(k) && merged_versions(
            level_runs(y),
        ).dom().contains(k) {
            let i = lemma_level_keys(x, k);
            let j = lemma_level_keys(y, k);
            assert(x[i] == all[i] && y[j] == all[j + x.len()]);
            assert(key_lt(table_scope(all[i]).max, table_scope(all[j + x.len()]).min));
            let hi = table_scope(x[i]).max;
            let lo = table_scope(y[j]).min;
            if k.value != hi {
                lemma_key_lt_transitive(k.value, hi, lo);
            }
            lemma_key_lt_asymmetric(k.value, lo);
        }
    }
}

/// The pieces of a sorted run hold together the versions of the run.
pub proof fn lemma_merged_concat(chunks: Seq<Seq<EntryView>>)
    requires
        sorted(concat(chunks)),
    ensures
        merged_versions(chunks) == versions(concat(chunks)),
    decreases chunks.len(),
{
    if chunks.len() == 0 {
        crate::stream::lemma_versions_empty();
        assert(merged_versions(chunks) =~= versions(concat(chunks)));
    } else {
        let init = chunks.drop_last();
        let last = chunks.last();
        let whole = concat(chunks);
        let head = concat(init);
        assert(head =~= whole.take(head.len() as int));
        crate::stream::lemma_sorted_take(whole, head.len() as int);
        lemma_merged_concat(init);
        lemma_concat_sorted(chunks);
        assert forall|i: int, j: int| 0 <= i < head.len() && 0 <= j < last.len() implies precedes(
            (#[trigger] head[i]).key,
            (#[trigger] last[j]).key,
        ) by {
            assert(whole[i] == head[i]);
            assert(whole[head.len() + j] == last[j]);
        }
        lemma_sorted_concat(head, last);
        assert(chunks =~= init + seq![last]);
        lemma_merged_append(init, seq![last]);
        lemma_merged_one(last);
    }
}

/// The versions of the levels from `from` on depend on those levels alone.
pub proof fn lemma_levels_versions_tail(
    a: Seq<Seq<TableView>>,
    b: Seq<Seq<TableView>>,
    from: int,
)
    requires
        a.len() == b.len(),
        forall|l: int| from <= l < a.len() ==> a[l] == b[l],
    ensures
        levels_versions(a, from) == levels_versions(b, from),
    decreases a.len() - from,
{
    if 0 <= from < a.len() {
        lemma_levels_versions_tail(a, b, from + 1);
    }
}

/// Levels that read the same from level `l` on, and are the same above it, read
/// the same from every level above `l` on.
pub proof fn lemma_levels_frame(
    a: Seq<Seq<TableView>>,
    b: Seq<Seq<TableView>>,
    from: int,
    l: int,
    horizon: Timestamp,
)
    requires
        a.len() == b.len(),
        0 <= from <= l <= a.len(),
        forall|k: int| 0 <= k < l ==> a[k] == b[k],
        same_reads(levels_versions(a, l), levels_versions(b, l), horizon),
    ensures
        same_reads(levels_versions(a, from), levels_versions(b, from), horizon),
    decreases l - from,
{
    if from < l {
        lemma_levels_frame(a, b, from + 1, l, horizon);
        lemma_same_reads_under(
            levels_versions(a, from + 1),
            levels_versions(b, from + 1),
            merged_versions(level_runs(a[from])),
            horizon,
        );
    }
}

/// A stretch of an ordered level is ordered, and a stretch of a filled level is
/// filled.
pub proof fn lemma_stretch(level: Seq<TableView>, i: int, j: int)
    requires
        0 <= i <= j <= level.len(),
    ensures
        ordered(level) ==> ordered(level.subrange(i, j)),
        filled(level) ==> filled(level.subrange(i, j)),
        distinct_gens(level) ==> distinct_gens(level.subrange(i, j)),
{
    let part = level.subrange(i, j);
    if ordered(level) {
        assert forall|x: int, y: int| 0 <= x < y < part.len() implies key_lt(
            table_scope(#[trigger] part[x]).max,
            table_scope(#[trigger] part[y]).min,
        ) by {
            assert(part[x] == level[i + x] && part[y] == level[i + y]);
        }
    }
    if filled(level) {
        assert forall|x: int| 0 <= x < part.len() implies sorted((#[trigger] part[x]).rows)
            && part[x].rows.len() > 0 by {
            assert(part[x] == level[i + x]);
        }
    }
    if distinct_gens(level) {
        assert forall|x: int, y: int| 0 <= x < y < part.len() implies (#[trigger] part[x]).gen != (
        #[trigger] part[y]).gen by {
            assert(part[x] == level[i + x] && part[y] == level[i + y]);
        }
    }
}

/// The layout after one step of major compaction: table `s` of level `l` is
/// gone, and in level `l + 1` the tables from `a` up to `b` have given way to
/// `outs`.
pub open spec fn compacted(
    levels: Seq<Seq<TableView>>,
    l: int,
    s: int,
    a: int,
    b: int,
    outs: Seq<TableView>,
) -> Seq<Seq<TableView>> {
    levels.update(l, levels[l].remove(s)).update(
        l + 1,
        levels[l + 1].take(a) + outs + levels[l + 1].skip(b),
    )
}

/// The one edit of a step of major compaction: it takes out the inputs and puts
/// in the outputs.
pub open spec fn step_edits(
    levels: Seq<Seq<TableView>>,
    l: usize,
    s: int,
    a: int,
    b: int,
    outs: Seq<TableView>,
) -> Seq<EditView> {
    removes(l, levels[l as int], s, s + 1) + removes(
        (l + 1) as usize,
        levels[l + 1],
        a,
        b,
    ) + adds((l + 1) as usize, outs)
}

/// What the inputs of a step hold together: the table of level `l` on top of
/// the tables of level `l + 1`.
pub open spec fn step_inputs(levels: Seq<Seq<TableView>>, l: int, s: int, a: int, b: int) -> Map<
    TimestampedView,
    Option<RowView>,
> {
    merged_versions(seq![levels[l][s].rows] + level_runs(levels[l + 1].subrange(a, b)))
}

/// What a step of major compaction rests on. Level 0 gives its last table, which
/// is its oldest. The outputs fit in key order between the tables of the next
/// level that stay, and hold what the merge keeps of the inputs.
pub open spec fn step_ok(
    levels: Seq<Seq<TableView>>,
    l: usize,
    s: int,
    a: int,
    b: int,
    outs: Seq<TableView>,
    horizon: Timestamp,
) -> bool {
    &&& l + 1 < levels.len()
    &&& l + 1 <= usize::MAX
    &&& 0 <= s < levels[l as int].len()
    &&& 0 <= a <= b <= levels[l + 1].len()
    &&& filled(levels[l as int])
    &&& filled(levels[l + 1])
    &&& distinct_gens(levels[l as int])
    &&& distinct_gens(levels[l + 1])
    &&& ordered(levels[l + 1])
    &&& (l >= 1 ==> ordered(levels[l as int]))
    &&& (l == 0 ==> s == levels[0].len() - 1)
    &&& ordered(levels[l + 1].take(a) + outs + levels[l + 1].skip(b))
    &&& filled(outs)
    &&& merged_versions(level_runs(outs)) == retained(step_inputs(levels, l as int, s, a, b), horizon)
}

/// The edit of a step can be applied, and makes the layout that the step is to
/// make.
pub proof fn lemma_step_layout(
    levels: Seq<Seq<TableView>>,
    l: usize,
    s: int,
    a: int,
    b: int,
    outs: Seq<TableView>,
    horizon: Timestamp,
)
    requires
        step_ok(levels, l, s, a, b, outs, horizon),
    ensures
        apply_all(levels, step_edits(levels, l, s, a, b, outs)) == Ok::<
            Seq<Seq<TableView>>,
            VersionError,
        >(compacted(levels, l as int, s, a, b, outs)),
{
    let up = levels[l as int];
    let down = levels[l + 1];
    let e1 = removes(l, up, s, s + 1);
    let e2 = removes((l + 1) as usize, down, a, b);
    let e3 = adds((l + 1) as usize, outs);
    lemma_remove_range(levels, l, s, s + 1);
    let first = levels.update(l as int, up.take(s) + up.skip(s + 1));
    assert(up.take(s) + up.skip(s + 1) =~= up.remove(s));
    assert(first[l + 1] == down);
    lemma_remove_range(first, (l + 1) as usize, a, b);
    let second = first.update(l + 1, down.take(a) + down.skip(b));
    let all = down.take(a) + outs + down.skip(b);
    assert forall|i: int| 0 <= i < all.len() implies sorted((#[trigger] all[i]).rows)
        && all[i].rows.len() > 0 by {
        if i < a {
            assert(all[i] == down[i]);
        } else if i < a + outs.len() {
            assert(all[i] == outs[i - a]);
        } else {
            assert(all[i] == down[i - outs.len() + (b - a)]);
        }
    }
    lemma_add_outs(second, (l + 1) as usize, down.take(a), down.skip(b), outs);
    lemma_apply_all_append(levels, e1, e2);
    lemma_apply_all_append(levels, e1 + e2, e3);
    assert(second.update(l + 1, all) =~= compacted(levels, l as int, s, a, b, outs));
}

/// A step of major compaction changes no read at or after the horizon.
pub proof fn lemma_step_reads(
    levels: Seq<Seq<TableView>>,
    l: usize,
    s: int,
    a: int,
    b: int,
    outs: Seq<TableView>,
    horizon: Timestamp,
)
    requires
        step_ok(levels, l, s, a, b, outs, horizon),
    ensures
        same_reads(
            levels_versions(levels, 0),
            levels_versions(compacted(levels, l as int, s, a, b, outs), 0),
            horizon,
        ),
{
    let li = l as int;
    let after = compacted(levels, li, s, a, b, outs);
    let up = levels[li];
    let down = levels[li + 1];
    let up2 = up.remove(s);
    let down2 = down.take(a) + outs + down.skip(b);
    let table = up[s];
    let mid = down.subrange(a, b);
    let x = levels_versions(levels, li + 2);
    lemma_levels_versions_tail(levels, after, li + 2);
    // Level `l`: the table that goes may be counted last.
    let pre_u = level_runs(up.take(s));
    let post_u = level_runs(up.skip(s + 1));
    assert(level_runs(up) =~= pre_u + seq![table.rows] + post_u);
    assert(level_runs(up2) =~= pre_u + post_u);
    if l >= 1 {
        lemma_stretch(up, s, up.len() as int);
        assert(up.subrange(s, up.len() as int) =~= seq![table] + up.skip(s + 1));
        lemma_ordered_apart(seq![table], up.skip(s + 1));
        assert(level_runs(seq![table]) =~= seq![table.rows]);
        lemma_merged_one(table.rows);
    } else {
        assert(post_u =~= Seq::<Seq<EntryView>>::empty());
        assert(merged_versions(post_u) =~= Map::<TimestampedView, Option<RowView>>::empty());
    }
    lemma_merged_splice_bottom(pre_u, table.rows, post_u);
    let um = merged_versions(level_runs(up));
    let um2 = merged_versions(level_runs(up2));
    assert(um == versions(table.rows).union_prefer_right(um2));
    // Level `l + 1`: the tables that go, and the tables that come, may be
    // counted first.
    let pre_d = level_runs(down.take(a));
    let post_d = level_runs(down.skip(b));
    assert(level_runs(down) =~= pre_d + level_runs(mid) + post_d);
    assert(level_runs(down2) =~= pre_d + level_runs(outs) + post_d);
    lemma_stretch(down, 0, b);
    assert(down.subrange(0, b) =~= down.take(a) + mid);
    lemma_ordered_apart(down.take(a), mid);
    lemma_merged_splice_top(pre_d, level_runs(mid), post_d);
    let both = down.take(a) + outs + down.skip(b);
    lemma_stretch(both, 0, a + outs.len());
    assert(both.subrange(0, a + outs.len()) =~= down.take(a) + outs);
    assert forall|i: int| 0 <= i < both.len() implies sorted((#[trigger] both[i]).rows)
        && both[i].rows.len() > 0 by {
        if i < a {
            assert(both[i] == down[i]);
        } else if i < a + outs.len() {
            assert(both[i] == outs[i - a]);
        } else {
            assert(both[i] == down[i - outs.len() + (b - a)]);
        }
    }
    lemma_ordered_apart(down.take(a), outs);
    lemma_merged_splice_top(pre_d, level_runs(outs), post_d);
    let rest = merged_versions(pre_d + post_d);
    let input = merged_versions(level_runs(mid));
    let output = merged_versions(level_runs(outs));
    let dm = merged_versions(level_runs(down));
    let dm2 = merged_versions(level_runs(down2));
    assert(dm == rest.union_prefer_right(input));
    assert(dm2 == rest.union_prefer_right(output));
    // The inputs of the merge: the table of level `l` over those of level `l + 1`.
    let merged = step_inputs(levels, li, s, a, b);
    lemma_merged_append(seq![table.rows], level_runs(mid));
    lemma_merged_one(table.rows);
    assert(merged == input.union_prefer_right(versions(table.rows)));
    lemma_retained_same_reads(merged, horizon);
    let base = x.union_prefer_right(rest);
    lemma_same_reads_over(base, merged, output, horizon);
    lemma_same_reads_under(
        base.union_prefer_right(merged),
        base.union_prefer_right(output),
        um2,
        horizon,
    );
    assert(after[li] == up2);
    assert(after[li + 1] == down2);
    assert(levels_versions(levels, li + 1) == x.union_prefer_right(dm));
    assert(levels_versions(after, li + 1) == x.union_prefer_right(dm2));
    assert(levels_versions(levels, li) =~= base.union_prefer_right(merged).union_prefer_right(um2));
    assert(levels_versions(after, li) =~= base.union_prefer_right(output).union_prefer_right(um2));
    lemma_levels_frame(levels, after, 0, li, horizon);
}

/// A key of an input of a step lies after every table that stays before the
/// inputs, and before every table that stays after them.
pub proof fn lemma_input_key_bounds(
    down: Seq<TableView>,
    a: int,
    b: int,
    table: TableView,
    k: TimestampedView,
)
    requires
        ordered(down),
        filled(down),
        0 <= a <= b <= down.len(),
        sorted(table.rows),
        table.rows.len() > 0,
        forall|i: int|
            0 <= i < a ==> key_lt(table_scope(#[trigger] down[i]).max, table_scope(table).min),
        forall|i: int|
            b <= i < down.len() ==> key_lt(
                table_scope(table).max,
                table_scope(#[trigger] down[i]).min,
            ),
        holds(table.rows, k) || exists|i: int| a <= i < b && holds(#[trigger] down[i].rows, k),
    ensures
        forall|i: int| 0 <= i < a ==> key_lt(table_scope(#[trigger] down[i]).max, k.value),
        forall|i: int| b <= i < down.len() ==> key_lt(k.value, table_scope(#[trigger] down[i]).min),
{
    if holds(table.rows, k) {
        let p = position(table.rows, k);
        lemma_rows_in_scope(table, p);
        assert forall|i: int| 0 <= i < a implies key_lt(
            table_scope(#[trigger] down[i]).max,
            k.value,
        ) by {
            if k.value != table_scope(table).min {
                lemma_key_lt_transitive(table_scope(down[i]).max, table_scope(table).min, k.value);
            }
        }
        assert forall|i: int| b <= i < down.len() implies key_lt(
            k.value,
            table_scope(#[trigger] down[i]).min,
        ) by {
            if k.value != table_scope(table).max {
                lemma_key_lt_transitive(k.value, table_scope(table).max, table_scope(down[i]).min);
            }
        }
    } else {
        let t = choose|i: int| a <= i < b && holds(#[trigger] down[i].rows, k);
        let p = position(down[t].rows, k);
        lemma_rows_in_scope(down[t], p);
        assert forall|i: int| 0 <= i < a implies key_lt(
            table_scope(#[trigger] down[i]).max,
            k.value,
        ) by {
            assert(key_lt(table_scope(down[i]).max, table_scope(down[t]).min));
            if k.value != table_scope(down[t]).min {
                lemma_key_lt_transitive(
                    table_scope(down[i]).max,
                    table_scope(down[t]).min,
                    k.value,
                );
            }
        }
        assert forall|i: int| b <= i < down.len() implies key_lt(
            k.value,
            table_scope(#[trigger] down[i]).min,
        ) by {
            assert(key_lt(table_scope(down[t]).max, table_scope(down[i]).min));
            if k.value != table_scope(down[t]).max {
                lemma_key_lt_transitive(
                    k.value,
                    table_scope(down[t]).max,
                    table_scope(down[i]).min,
                );
            }
        }
    }
}

/// Whether `key` lies after every table of the level before `a` and before
/// every table from `b` on.
pub open spec fn between(down: Seq<TableView>, a: int, b: int, key: Seq<u8>) -> bool {
    &&& forall|i: int| 0 <= i < a ==> key_lt(table_scope(#[trigger] down[i]).max, key)
    &&& forall|i: int| b <= i < down.len() ==> key_lt(key, table_scope(#[trigger] down[i]).min)
}

/// The outputs of a step, cut from what the merge keeps of the inputs, fit in
/// key order between the tables that stay.
pub proof fn lemma_outs_ordered(
    down: Seq<TableView>,
    a: int,
    b: int,
    table: TableView,
    chunks: Seq<Seq<EntryView>>,
    outs: Seq<TableView>,
    max: usize,
)
    requires
        ordered(down),
        filled(down),
        0 <= a <= b <= down.len(),
        sorted(table.rows),
        table.rows.len() > 0,
        forall|i: int|
            0 <= i < a ==> key_lt(table_scope(#[trigger] down[i]).max, table_scope(table).min),
        forall|i: int|
            b <= i < down.len() ==> key_lt(
                table_scope(table).max,
                table_scope(#[trigger] down[i]).min,
            ),
        sorted(concat(chunks)),
        well_cut(chunks, max),
        outs.len() == chunks.len(),
        forall|j: int| 0 <= j < outs.len() ==> (#[trigger] outs[j]).rows == chunks[j],
        forall|k: TimestampedView|
            holds(concat(chunks), k) ==> holds(table.rows, k) || exists|i: int|
                a <= i < b && holds(#[trigger] down[i].rows, k),
    ensures
        filled(outs),
        ordered(down.take(a) + outs + down.skip(b)),
{
    reveal(well_cut);
    lemma_concat_sorted(chunks);
    let whole = concat(chunks);
    let all = down.take(a) + outs + down.skip(b);
    let m = outs.len() as int;
    assert forall|j: int| 0 <= j < outs.len() implies sorted((#[trigger] outs[j]).rows)
        && outs[j].rows.len() > 0 by {
        assert(sorted(chunks[j]));
        assert(chunks[j].len() > 0);
    }
    // Every entry of a piece has the key of an input.
    assert forall|j: int, x: int|
        0 <= j < chunks.len() && 0 <= x < chunks[j].len() implies between(
        down,
        a,
        b,
        (#[trigger] chunks[j][x]).key.value,
    ) by {
        let at = crate::compaction::lemma_concat_index(chunks, j, x);
        assert(whole[at].key == chunks[j][x].key);
        assert(holds(whole, chunks[j][x].key));
        lemma_input_key_bounds(down, a, b, table, chunks[j][x].key);
    }
    // Pieces come in strict key order.
    assert forall|c: int, d: int| 0 <= c < d < chunks.len() implies key_lt(
        chunks[c].last().key.value,
        chunks[d][0].key.value,
    ) by {
        let e = chunks[c].last();
        let f = chunks[c + 1][0];
        assert(chunks[c][chunks[c].len() - 1] == e);
        assert(precedes(chunks[c][chunks[c].len() - 1].key, chunks[c + 1][0].key));
        assert(key_lt(e.key.value, f.key.value));
        if d > c + 1 {
            assert(precedes(chunks[c + 1][0].key, chunks[d][0].key));
            if f.key.value != chunks[d][0].key.value {
                lemma_key_lt_transitive(e.key.value, f.key.value, chunks[d][0].key.value);
            }
        }
    }
    assert forall|i: int, j: int| 0 <= i < j < all.len() implies key_lt(
        table_scope(#[trigger] all[i]).max,
        table_scope(#[trigger] all[j]).min,
    ) by {
        if j < a {
            assert(all[i] == down[i] && all[j] == down[j]);
        } else if i >= a + m {
            assert(all[i] == down[i - m + (b - a)] && all[j] == down[j - m + (b - a)]);
        } else if i < a && j >= a + m {
            assert(all[i] == down[i] && all[j] == down[j - m + (b - a)]);
        } else if i < a {
            let c = j - a;
            assert(all[i] == down[i] && all[j] == outs[c]);
            assert(table_scope(outs[c]).min == chunks[c][0].key.value);
            assert(between(down, a, b, chunks[c][0].key.value));
        } else if j >= a + m {
            let c = i - a;
            assert(all[i] == outs[c] && all[j] == down[j - m + (b - a)]);
            assert(table_scope(outs[c]).max == chunks[c][chunks[c].len() - 1].key.value);
            assert(between(down, a, b, chunks[c][chunks[c].len() - 1].key.value));
        } else {
            let c = i - a;
            let d = j - a;
            assert(all[i] == outs[c] && all[j] == outs[d]);
        }
    }
}

/// No two tables of a level are held by one file, and every file of the layout
/// has a name below the name that the next new file gets.
pub open spec fn files_ok(levels: Seq<Seq<TableView>>, next_file: FileId) -> bool {
    &&& forall|l: int| 0 <= l < levels.len() ==> distinct_gens(#[trigger] levels[l])
    &&& forall|l: int, i: int|
        0 <= l < levels.len() && 0 <= i < levels[l].len() ==> (#[trigger] levels[l][i]).gen
            < next_file
}

/// No two tables of the layout are held by one file.
pub open spec fn unique_files(levels: Seq<Seq<TableView>>) -> bool {
    forall|l: int, i: int, l2: int, i2: int|
        0 <= l < levels.len() && 0 <= i < levels[l].len() && 0 <= l2 < levels.len() && 0 <= i2
            < levels[l2].len() && (#[trigger] levels[l][i]).gen == (#[trigger] levels[l2][i2]).gen
            ==> l == l2 && i == i2
}

/// Whether the layout holds a table of the file.
pub open spec fn names(levels: Seq<Seq<TableView>>, file: FileId) -> bool {
    exists|l: int, i: int|
        0 <= l < levels.len() && 0 <= i < levels[l].len() && (#[trigger] levels[l][i]).gen == file
}

/// Every table of `after` was a table of `before`, or is held by a new file.
pub open spec fn stems_from(
    after: Seq<Seq<TableView>>,
    before: Seq<Seq<TableView>>,
    first_file: FileId,
) -> bool {
    forall|l: int, i: int|
        0 <= l < after.len() && 0 <= i < after[l].len() ==> names(
            before,
            (#[trigger] after[l][i]).gen,
        ) || after[l][i].gen >= first_file
}

/// Whether table `s` is the oldest of level `l`. Level 0 is kept newest first,
/// so its oldest table is its last; in the other levels the oldest table is the
/// one of the file with the smallest name.
pub open spec fn oldest_at(levels: Seq<Seq<TableView>>, l: int, s: int) -> bool {
    if l == 0 {
        s == levels[0].len() - 1
    } else {
        forall|i: int| 0 <= i < levels[l].len() ==> levels[l][s].gen <= (#[trigger] levels[l][i]).gen
    }
}

/// The tables that a step of major compaction takes from level `l + 1` along
/// with table `s` of level `l`: those from `a` up to `b`, where every table
/// before `a` ends before the table of level `l` begins, the table at `a` does
/// not, and the table at `b` is the first from `a` on that begins after the
/// table of level `l` ends.
pub open spec fn inputs_at(levels: Seq<Seq<TableView>>, l: int, s: int, a: int, b: int) -> bool {
    let table = levels[l][s];
    let down = levels[l + 1];
    &&& 0 <= a <= b <= down.len()
    &&& forall|i: int| 0 <= i < a ==> key_lt(table_scope(#[trigger] down[i]).max, table_scope(table).min)
    &&& a < down.len() ==> !key_lt(table_scope(down[a]).max, table_scope(table).min)
    &&& forall|i: int|
        a <= i < b ==> !key_lt(table_scope(table).max, table_scope(#[trigger] down[i]).min)
    &&& b < down.len() ==> key_lt(table_scope(table).max, table_scope(down[b]).min)
}

/// What one step of major compaction does to a layout: it takes the oldest
/// table of level `l` and the tables of level `l + 1` that it reaches, merges
/// them, drops what no reader at or after the horizon can see, and puts what is
/// left into level `l + 1`, cut into tables of at most `max` bytes, in new
/// files: the first is named `first_file`, and `next_file` is the first name
/// that is left.
pub open spec fn stepped(
    before: Seq<Seq<TableView>>,
    after: Seq<Seq<TableView>>,
    l: usize,
    max: usize,
    horizon: Timestamp,
    first_file: FileId,
    removed: Seq<FileId>,
    next_file: FileId,
) -> bool {
    exists|s: int, a: int, b: int, outs: Seq<TableView>|
        {
            &&& #[trigger] step_ok(before, l, s, a, b, outs, horizon)
            &&& oldest_at(before, l as int, s)
            &&& inputs_at(before, l as int, s, a, b)
            &&& after == compacted(before, l as int, s, a, b, outs)
            &&& well_cut(level_runs(outs), max)
            &&& forall|j: int| 0 <= j < outs.len() ==> (#[trigger] outs[j]).gen == first_file + j
            &&& next_file == first_file + outs.len()
            &&& removed == crate::version::set::removed_files(
                step_edits(before, l, s, a, b, outs),
            )
        }
}

/// The layout after a step holds the files that were there before, less the
/// inputs, and the new files of the outputs.
pub proof fn lemma_compacted_files(
    levels: Seq<Seq<TableView>>,
    l: int,
    s: int,
    a: int,
    b: int,
    outs: Seq<TableView>,
    first_file: FileId,
)
    requires
        files_ok(levels, first_file),
        0 <= l,
        l + 1 < levels.len(),
        0 <= s < levels[l].len(),
        0 <= a <= b <= levels[l + 1].len(),
        first_file + outs.len() <= FileId::MAX,
        forall|j: int| 0 <= j < outs.len() ==> (#[trigger] outs[j]).gen == first_file + j,
    ensures
        files_ok(compacted(levels, l, s, a, b, outs), (first_file + outs.len()) as FileId),
{
    let after = compacted(levels, l, s, a, b, outs);
    let up = levels[l];
    let down = levels[l + 1];
    let up2 = up.remove(s);
    let down2 = down.take(a) + outs + down.skip(b);
    let m = outs.len() as int;
    assert(distinct_gens(up) && distinct_gens(down));
    assert forall|i: int| 0 <= i < up2.len() implies (#[trigger] up2[i]) == up[if i < s {
        i
    } else {
        i + 1
    }] by {}
    assert forall|i: int| 0 <= i < down2.len() implies (#[trigger] down2[i]).gen < first_file + m
        && (i < a ==> down2[i] == down[i]) && (a <= i < a + m ==> down2[i] == outs[i - a]) && (i
        >= a + m ==> down2[i] == down[i - m + (b - a)]) by {
        if i < a {
            assert(down2[i] == down[i]);
        } else if i < a + m {
            assert(down2[i] == outs[i - a]);
        } else {
            assert(down2[i] == down[i - m + (b - a)]);
        }
    }
    assert forall|k: int| 0 <= k < after.len() implies distinct_gens(#[trigger] after[k]) by {
        if k == l {
            assert forall|i: int, j: int| 0 <= i < j < up2.len() implies (#[trigger] up2[i]).gen != (
            #[trigger] up2[j]).gen by {
                let x = if i < s {
                    i
                } else {
                    i + 1
                };
                let y = if j < s {
                    j
                } else {
                    j + 1
                };
                assert(up2[i] == up[x] && up2[j] == up[y]);
            }
        } else if k == l + 1 {
            assert forall|i: int, j: int| 0 <= i < j < down2.len() implies (
            #[trigger] down2[i]).gen != (#[trigger] down2[j]).gen by {
                let x = if i < a {
                    i
                } else {
                    i - m + (b - a)
                };
                let y = if j < a {
                    j
                } else {
                    j - m + (b - a)
                };
                if (i < a || i >= a + m) && (j < a || j >= a + m) {
                    assert(down2[i] == down[x] && down2[j] == down[y]);
                } else if i < a || i >= a + m {
                    assert(down2[i] == down[x]);
                    assert(down[x].gen < first_file);
                } else if j < a || j >= a + m {
                    assert(down2[j] == down[y]);
                    assert(down[y].gen < first_file);
                }
            }
        } else {
            assert(after[k] == levels[k]);
        }
    }
    assert forall|k: int, i: int|
        0 <= k < after.len() && 0 <= i < after[k].len() implies (#[trigger] after[k][i]).gen
        < first_file + m by {
        if k == l {
            assert(up2[i] == up[if i < s {
                i
            } else {
                i + 1
            }]);
        } else if k == l + 1 {
            if i < a {
                assert(down[i].gen < first_file);
            } else if i >= a + m {
                assert(down[i - m + (b - a)].gen < first_file);
            }
        } else {
            assert(after[k] == levels[k]);
        }
    }
}

/// Where a table of the layout after a step comes from: with the outputs it is
/// one of them, else it is the table of the layout before the step at the place
/// that the second component names.
pub proof fn lemma_compacted_origin(
    levels: Seq<Seq<TableView>>,
    l: int,
    s: int,
    a: int,
    b: int,
    outs: Seq<TableView>,
    k: int,
    i: int,
) -> (origin: (bool, int))
    requires
        0 <= l,
        l + 1 < levels.len(),
        0 <= s < levels[l].len(),
        0 <= a <= b <= levels[l + 1].len(),
        0 <= k < levels.len(),
        0 <= i < compacted(levels, l, s, a, b, outs)[k].len(),
    ensures
        origin.0 ==> k == l + 1 && 0 <= origin.1 < outs.len() && origin.1 == i - a && compacted(
            levels,
            l,
            s,
            a,
            b,
            outs,
        )[k][i] == outs[origin.1],
        !origin.0 ==> 0 <= origin.1 < levels[k].len() && compacted(levels, l, s, a, b, outs)[k][i]
            == levels[k][origin.1] && (k == l ==> origin.1 != s && (origin.1 == if i < s {
            i
        } else {
            i + 1
        })) && (k == l + 1 ==> !(a <= origin.1 < b) && (origin.1 == if i < a {
            i
        } else {
            i - outs.len() + (b - a)
        })) && (k != l && k != l + 1 ==> origin.1 == i),
{
    let after = compacted(levels, l, s, a, b, outs);
    let m = outs.len() as int;
    if k == l {
        let o = if i < s {
            i
        } else {
            i + 1
        };
        assert(after[k] == levels[l].remove(s));
        (false, o)
    } else if k == l + 1 {
        let down = levels[l + 1];
        assert(after[k] == down.take(a) + outs + down.skip(b));
        if i < a {
            (false, i)
        } else if i < a + m {
            (true, i - a)
        } else {
            (false, i - m + (b - a))
        }
    } else {
        assert(after[k] == levels[k]);
        (false, i)
    }
}

/// After a step no two tables of the layout are held by one file, every table
/// that was not there before is held by a new file, and no table is held by
/// the file of an input.
pub proof fn lemma_compacted_unique(
    levels: Seq<Seq<TableView>>,
    l: int,
    s: int,
    a: int,
    b: int,
    outs: Seq<TableView>,
    first_file: FileId,
)
    requires
        files_ok(levels, first_file),
        unique_files(levels),
        0 <= l,
        l + 1 < levels.len(),
        0 <= s < levels[l].len(),
        0 <= a <= b <= levels[l + 1].len(),
        first_file + outs.len() <= FileId::MAX,
        forall|j: int| 0 <= j < outs.len() ==> (#[trigger] outs[j]).gen == first_file + j,
    ensures
        unique_files(compacted(levels, l, s, a, b, outs)),
        stems_from(compacted(levels, l, s, a, b, outs), levels, first_file),
        !names(compacted(levels, l, s, a, b, outs), levels[l][s].gen),
        forall|t: int|
            a <= t < b ==> !names(
                compacted(levels, l, s, a, b, outs),
                (#[trigger] levels[l + 1][t]).gen,
            ),
{
    let after = compacted(levels, l, s, a, b, outs);
    assert forall|k: int, i: int, k2: int, i2: int|
        0 <= k < after.len() && 0 <= i < after[k].len() && 0 <= k2 < after.len() && 0 <= i2
            < after[k2].len() && (#[trigger] after[k][i]).gen == (#[trigger] after[k2][i2]).gen implies k
        == k2 && i == i2 by {
        let o = lemma_compacted_origin(levels, l, s, a, b, outs, k, i);
        let o2 = lemma_compacted_origin(levels, l, s, a, b, outs, k2, i2);
        if !o.0 {
            assert(levels[k][o.1].gen < first_file);
        }
        if !o2.0 {
            assert(levels[k2][o2.1].gen < first_file);
        }
        if !o.0 && !o2.0 {
            assert(levels[k][o.1].gen == levels[k2][o2.1].gen);
        }
    }
    assert forall|k: int, i: int| 0 <= k < after.len() && 0 <= i < after[k].len() implies names(
        levels,
        (#[trigger] after[k][i]).gen,
    ) || after[k][i].gen >= first_file by {
        let o = lemma_compacted_origin(levels, l, s, a, b, outs, k, i);
        if !o.0 {
            assert(levels[k][o.1].gen == after[k][i].gen);
        }
    }
    assert(!names(after, levels[l][s].gen)) by {
        if names(after, levels[l][s].gen) {
            let (k, i) = choose|k: int, i: int|
                0 <= k < after.len() && 0 <= i < after[k].len() && (#[trigger] after[k][i]).gen
                    == levels[l][s].gen;
            let o = lemma_compacted_origin(levels, l, s, a, b, outs, k, i);
            assert(levels[l][s].gen < first_file);
            if !o.0 {
                assert(levels[k][o.1].gen == levels[l][s].gen);
            }
        }
    }
    assert forall|t: int| a <= t < b implies !names(after, (#[trigger] levels[l + 1][t]).gen) by {
        let f = levels[l + 1][t].gen;
        if names(after, f) {
            let (k, i) = choose|k: int, i: int|
                0 <= k < after.len() && 0 <= i < after[k].len() && (#[trigger] after[k][i]).gen == f;
            let o = lemma_compacted_origin(levels, l, s, a, b, outs, k, i);
            assert(f < first_file);
            if !o.0 {
                assert(levels[k][o.1].gen == levels[l + 1][t].gen);
            }
        }
    }
}

/// A file that the layout names before a step and no longer after it is the
/// file of an input of the step.
pub proof fn lemma_compacted_left(
    levels: Seq<Seq<TableView>>,
    l: int,
    s: int,
    a: int,
    b: int,
    outs: Seq<TableView>,
    file: FileId,
)
    requires
        0 <= l,
        l + 1 < levels.len(),
        0 <= s < levels[l].len(),
        0 <= a <= b <= levels[l + 1].len(),
        names(levels, file),
        !names(compacted(levels, l, s, a, b, outs), file),
    ensures
        file == levels[l][s].gen || exists|t: int|
            a <= t < b && (#[trigger] levels[l + 1][t]).gen == file,
{
    let after = compacted(levels, l, s, a, b, outs);
    let m = outs.len() as int;
    let (k, i) = choose|k: int, i: int|
        0 <= k < levels.len() && 0 <= i < levels[k].len() && (#[trigger] levels[k][i]).gen == file;
    if k == l {
        if i != s {
            let j = if i < s {
                i
            } else {
                i - 1
            };
            assert(after[k] == levels[l].remove(s));
            assert(after[k][j] == levels[k][i]);
            assert(names(after, file));
        }
    } else if k == l + 1 {
        let down = levels[l + 1];
        assert(after[k] == down.take(a) + outs + down.skip(b));
        if i < a {
            assert(after[k][i] == down[i]);
            assert(names(after, file));
        } else if i >= b {
            let j = i - (b - a) + m;
            assert(after[k][j] == down[i]);
            assert(names(after, file));
        }
    } else {
        assert(after[k] == levels[k]);
        assert(after[k][i] == levels[k][i]);
        assert(names(after, file));
    }
}

/// The files that a list of edits takes out, for one list after another.
pub proof fn lemma_removed_append(first: Seq<EditView>, second: Seq<EditView>)
    ensures
        removed_files(first + second) == removed_files(first) + removed_files(second),
    decreases second.len(),
{
    if second.len() == 0 {
        assert(first + second =~= first);
        assert(removed_files(first) + removed_files(second) =~= removed_files(first));
    } else {
        let init = second.drop_last();
        lemma_removed_append(first, init);
        assert((first + second).drop_last() =~= first + init);
        assert((first + second).last() == second.last());
        assert(removed_files(first + second) =~= removed_files(first) + removed_files(second));
    }
}

/// The files that the edit of a step takes out are the files of its inputs.
pub proof fn lemma_step_removed(
    levels: Seq<Seq<TableView>>,
    l: usize,
    s: int,
    a: int,
    b: int,
    outs: Seq<TableView>,
)
    requires
        l + 1 < levels.len(),
        0 <= s < levels[l as int].len(),
        0 <= a <= b <= levels[l + 1].len(),
    ensures
        removed_files(step_edits(levels, l, s, a, b, outs)) == seq![levels[l as int][s].gen]
            + Seq::new((b - a) as nat, |t: int| levels[l + 1][a + t].gen),
{
    let e1 = removes(l, levels[l as int], s, s + 1);
    let e2 = removes((l + 1) as usize, levels[l + 1], a, b);
    let e3 = adds((l + 1) as usize, outs);
    lemma_removed_append(e1 + e2, e3);
    lemma_removed_append(e1, e2);
    lemma_removed_adds((l + 1) as usize, outs);
    lemma_removed_removes(l, levels[l as int], s, s + 1);
    lemma_removed_removes((l + 1) as usize, levels[l + 1], a, b);
    assert(removed_files(step_edits(levels, l, s, a, b, outs)) =~= seq![levels[l as int][s].gen]
        + Seq::new((b - a) as nat, |t: int| levels[l + 1][a + t].gen));
}

/// Edits that put tables in take no file out.
pub proof fn lemma_removed_adds(lvl: usize, outs: Seq<TableView>)
    ensures
        removed_files(adds(lvl, outs)) == Seq::<FileId>::empty(),
    decreases outs.len(),
{
    if outs.len() > 0 {
        lemma_removed_adds(lvl, outs.drop_last());
        assert(adds(lvl, outs).drop_last() =~= adds(lvl, outs.drop_last()));
    }
}

/// Edits that take a stretch of tables out take out the files of the stretch.
pub proof fn lemma_removed_removes(lvl: usize, level: Seq<TableView>, a: int, b: int)
    requires
        0 <= a <= b <= level.len(),
    ensures
        removed_files(removes(lvl, level, a, b)) == Seq::new(
            (b - a) as nat,
            |t: int| level[a + t].gen,
        ),
    decreases b - a,
{
    if a < b {
        lemma_removed_removes(lvl, level, a, b - 1);
        assert(removes(lvl, level, a, b).drop_last() =~= removes(lvl, level, a, b - 1));
        assert(removed_files(removes(lvl, level, a, b)) =~= Seq::new(
            (b - a) as nat,
            |t: int| level[a + t].gen,
        ));
    } else {
        assert(removed_files(removes(lvl, level, a, b)) =~= Seq::new(
            (b - a) as nat,
            |t: int| level[a + t].gen,
        ));
    }
}

/// The tables that the pieces of a merge make in new files, the first of which
/// is `first_file`.
pub open spec fn outs_of(pieces: Seq<Seq<EntryView>>, first_file: FileId) -> Seq<TableView> {
    Seq::new(
        pieces.len(),
        |j: int| TableView { gen: (first_file + j) as FileId, rows: pieces[j] },
    )
}

/// Every piece of what a merge keeps of inputs that conform is a sorted run
/// that conforms and holds an entry.
pub proof fn lemma_pieces_ok(
    inputs: Seq<Seq<EntryView>>,
    merged: Seq<EntryView>,
    whole: Seq<EntryView>,
    pieces: Seq<Seq<EntryView>>,
    width: nat,
    max: usize,
    horizon: Timestamp,
)
    requires
        forall|r: int| 0 <= r < inputs.len() ==> sorted(#[trigger] inputs[r]) && conforms(
            inputs[r],
            width,
        ),
        sorted(merged),
        versions(merged) == merged_versions(inputs),
        sorted(whole),
        versions(whole) == retained(versions(merged), horizon),
        concat(pieces) == whole,
        well_cut(pieces, max),
    ensures
        forall|c: int|
            0 <= c < pieces.len() ==> sorted(#[trigger] pieces[c]) && conforms(pieces[c], width)
                && pieces[c].len() > 0,
{
    reveal(well_cut);
    lemma_conforming_merged(inputs, width);
    lemma_conforms_map(whole, width);
    lemma_concat_sorted(pieces);
    assert forall|c: int| 0 <= c < pieces.len() implies sorted(#[trigger] pieces[c]) && conforms(
        pieces[c],
        width,
    ) && pieces[c].len() > 0 by {
        assert forall|x: int| 0 <= x < pieces[c].len() implies ((
        #[trigger] pieces[c][x]).value matches Some(row) ==> row.len() == width) by {
            let at = crate::compaction::lemma_concat_index(pieces, c, x);
        }
    }
}

/// What a step of major compaction rests on holds of the step that the
/// compactor takes.
pub proof fn lemma_step_holds(
    levels: Seq<Seq<TableView>>,
    width: nat,
    level: usize,
    s: int,
    a: int,
    b: int,
    merged: Seq<EntryView>,
    whole: Seq<EntryView>,
    pieces: Seq<Seq<EntryView>>,
    max: usize,
    horizon: Timestamp,
    first_file: FileId,
)
    requires
        crate::version::layout_wf(levels, width),
        files_ok(levels, first_file),
        level + 1 < levels.len(),
        0 <= s < levels[level as int].len(),
        oldest_at(levels, level as int, s),
        inputs_at(levels, level as int, s, a, b),
        forall|i: int|
            b <= i < levels[level + 1].len() ==> key_lt(
                table_scope(levels[level as int][s]).max,
                table_scope(#[trigger] levels[level + 1][i]).min,
            ),
        sorted(merged),
        versions(merged) == step_inputs(levels, level as int, s, a, b),
        sorted(whole),
        versions(whole) == retained(versions(merged), horizon),
        concat(pieces) == whole,
        well_cut(pieces, max),
    ensures
        step_ok(levels, level, s, a, b, outs_of(pieces, first_file), horizon),
        well_cut(level_runs(outs_of(pieces, first_file)), max),
{
    let up = levels[level as int];
    let down = levels[level + 1];
    let tv = up[s];
    let mid = down.subrange(a, b);
    let inputs = seq![tv.rows] + level_runs(mid);
    let outs = outs_of(pieces, first_file);
    assert(level_runs(outs) =~= pieces);
    lemma_merged_concat(pieces);
    assert forall|i: int| 0 <= i < down.len() implies sorted((#[trigger] down[i]).rows)
        && down[i].rows.len() > 0 by {
        assert(table_wf(down[i], width));
    }
    assert forall|i: int| 0 <= i < up.len() implies sorted((#[trigger] up[i]).rows)
        && up[i].rows.len() > 0 by {
        assert(table_wf(up[i], width));
    }
    // Every key of an output is the key of an input.
    assert forall|k: TimestampedView| holds(whole, k) implies holds(tv.rows, k) || exists|i: int|
        a <= i < b && holds(#[trigger] down[i].rows, k) by {
        assert(versions(whole).dom().contains(k));
        assert(merged_versions(inputs).dom().contains(k));
        lemma_merged_domain(inputs, k);
        let r = choose|r: int| 0 <= r < inputs.len() && holds(#[trigger] inputs[r], k);
        if r > 0 {
            assert(inputs[r] == down[a + r - 1].rows);
        }
    }
    assert(ordered(down));
    lemma_outs_ordered(down, a, b, tv, pieces, outs, max);
    if level >= 1 {
        assert(ordered(up));
    }
    assert(distinct_gens(up) && distinct_gens(down));
}

/// The oldest table of a level.
fn pick_oldest(version: &Version, level: usize) -> (s: usize)
    requires
        version.wf(),
        level < MAX_LEVEL,
        version@[level as int].len() > 0,
    ensures
        s < version@[level as int].len(),
        oldest_at(version@, level as int, s as int),
{
    let n = version.level_len(level);
    if level == 0 {
        return n - 1;
    }
    let ghost up = version@[level as int];
    let mut s: usize = 0;
    let mut i: usize = 0;
    while i < n
        invariant
            version.wf(),
            1 <= level < MAX_LEVEL,
            up == version@[level as int],
            n == up.len(),
            s < n,
            i <= n,
            forall|k: int| 0 <= k < i ==> up[s as int].gen <= (#[trigger] up[k]).gen,
        decreases n - i,
    {
        if version.table(level, i).gen() < version.table(level, s).gen() {
            s = i;
        }
        i += 1;
    }
    s
}

/// The tables of the next level that the table of this level reaches.
fn reach(version: &Version, level: usize, s: usize) -> (range: (usize, usize))
    requires
        version.wf(),
        level + 1 < MAX_LEVEL,
        s < version@[level as int].len(),
    ensures
        inputs_at(version@, level as int, s as int, range.0 as int, range.1 as int),
        forall|i: int|
            range.1 <= i < version@[level + 1].len() ==> key_lt(
                table_scope(version@[level as int][s as int]).max,
                table_scope(#[trigger] version@[level + 1][i]).min,
            ),
{
    let ghost levels = version@;
    let ghost down = levels[level + 1];
    let table = version.table(level, s);
    let ghost tv = table@;
    let n = version.level_len(level + 1);
    let mut a: usize = 0;
    while a < n && matches!(
        compare_keys(&version.table(level + 1, a).scope().max, &table.scope().min),
        KeyOrder::Less
    )
        invariant
            version.wf(),
            version@ == levels,
            level + 1 < MAX_LEVEL,
            down == levels[level + 1],
            n == down.len(),
            table.wf(),
            table@ == tv,
            a <= n,
            forall|i: int|
                0 <= i < a ==> key_lt(table_scope(#[trigger] down[i]).max, table_scope(tv).min),
        decreases n - a,
    {
        a += 1;
    }
    let mut b: usize = a;
    while b < n && !matches!(
        compare_keys(&table.scope().max, &version.table(level + 1, b).scope().min),
        KeyOrder::Less
    )
        invariant
            version.wf(),
            version@ == levels,
            level + 1 < MAX_LEVEL,
            down == levels[level + 1],
            n == down.len(),
            table.wf(),
            table@ == tv,
            a <= b <= n,
            forall|i: int|
                a <= i < b ==> !key_lt(table_scope(tv).max, table_scope(#[trigger] down[i]).min),
        decreases n - b,
    {
        b += 1;
    }
    proof {
        // Every table from `b` on begins after the table ends.
        assert(ordered(down));
        assert forall|i: int| b <= i < down.len() implies key_lt(
            table_scope(tv).max,
            table_scope(#[trigger] down[i]).min,
        ) by {
            if i > b {
                assert(key_lt(table_scope(down[b as int]).max, table_scope(down[i]).min));
                assert(table_wf(down[b as int], version.width()));
                lemma_rows_in_scope(down[b as int], 0);
                let lo = table_scope(down[b as int]).min;
                let hi = table_scope(down[b as int]).max;
                if lo != hi {
                    lemma_key_lt_transitive(table_scope(tv).max, lo, hi);
                }
                lemma_key_lt_transitive(table_scope(tv).max, hi, table_scope(down[i]).min);
            }
        }
    }
    (a, b)
}

/// The rows of the inputs of a step, the table of this level first, and the
/// edits that take the inputs out of the layout.
fn gather(version: &Version, level: usize, s: usize, a: usize, b: usize) -> (out: (
    Vec<Vec<Entry>>,
    Vec<VersionEdit>,
))
    requires
        version.wf(),
        level + 1 < MAX_LEVEL,
        s < version@[level as int].len(),
        a <= b <= version@[level + 1].len(),
    ensures
        run_views(out.0@) == seq![version@[level as int][s as int].rows] + level_runs(
            version@[level + 1].subrange(a as int, b as int),
        ),
        edit_views(out.1@) == removes(level, version@[level as int], s as int, s + 1) + removes(
            (level + 1) as usize,
            version@[level + 1],
            a as int,
            b as int,
        ),
        forall|k: int| 0 <= k < out.1.len() ==> (#[trigger] out.1[k]) is Remove,
{
    let ghost levels = version@;
    let ghost up = levels[level as int];
    let ghost down = levels[level + 1];
    let table = version.table(level, s);
    let ghost tv = table@;
    let mut runs: Vec<Vec<Entry>> = Vec::new();
    let mut edits: Vec<VersionEdit> = Vec::new();
    runs.push(table.entries());
    edits.push(VersionEdit::Remove { level, gen: table.gen() });
    proof {
        assert(run_views(runs@) =~= seq![tv.rows] + level_runs(down.subrange(a as int, a as int)));
        assert(edit_views(edits@) =~= removes(level, up, s as int, s + 1) + removes(
            (level + 1) as usize,
            down,
            a as int,
            a as int,
        ));
    }
    let mut i: usize = a;
    while i < b
        invariant
            version.wf(),
            version@ == levels,
            level + 1 < MAX_LEVEL,
            up == levels[level as int],
            down == levels[level + 1],
            tv == up[s as int],
            s < up.len(),
            a <= i <= b <= down.len(),
            run_views(runs@) == seq![tv.rows] + level_runs(down.subrange(a as int, i as int)),
            edit_views(edits@) == removes(level, up, s as int, s + 1) + removes(
                (level + 1) as usize,
                down,
                a as int,
                i as int,
            ),
            forall|k: int| 0 <= k < edits.len() ==> (#[trigger] edits[k]) is Remove,
        decreases b - i,
    {
        let ghost runs_before = run_views(runs@);
        let ghost edits_before = edit_views(edits@);
        let t = version.table(level + 1, i);
        runs.push(t.entries());
        edits.push(VersionEdit::Remove { level: level + 1, gen: t.gen() });
        proof {
            assert(run_views(runs@) =~= runs_before.push(down[i as int].rows));
            assert(level_runs(down.subrange(a as int, i + 1)) =~= level_runs(
                down.subrange(a as int, i as int),
            ).push(down[i as int].rows));
            assert(run_views(runs@) =~= seq![tv.rows] + level_runs(
                down.subrange(a as int, i + 1),
            ));
            assert(edit_views(edits@) =~= edits_before.push(
                EditView::Remove { level: (level + 1) as usize, gen: down[i as int].gen },
            ));
            assert(removes((level + 1) as usize, down, a as int, i + 1) =~= removes(
                (level + 1) as usize,
                down,
                a as int,
                i as int,
            ).push(EditView::Remove { level: (level + 1) as usize, gen: down[i as int].gen }));
            assert(edit_views(edits@) =~= removes(level, up, s as int, s + 1) + removes(
                (level + 1) as usize,
                down,
                a as int,
                i + 1,
            ));
        }
        i += 1;
    }
    (runs, edits)
}

/// Makes of each piece a table in a new file, in order, and appends the edits
/// that put the tables into the level below `level`. Tells whether the file
/// names sufficed for all the pieces; if not, the names are used up, and the
/// edits put in the tables of the pieces that got a name.
fn build(
    version_set: &mut VersionSet,
    pieces: Vec<Vec<Entry>>,
    level: usize,
    edits: &mut Vec<VersionEdit>,
) -> (ok: bool)
    requires
        old(version_set).wf(),
        level + 1 < MAX_LEVEL,
        forall|c: int|
            0 <= c < pieces.len() ==> sorted(#[trigger] chunk_views(pieces@)[c]) && conforms(
                chunk_views(pieces@)[c],
                old(version_set).width(),
            ) && chunk_views(pieces@)[c].len() > 0,
        forall|k: int| 0 <= k < old(edits).len() ==> (#[trigger] old(edits)[k]) is Remove,
    ensures
        final(version_set).wf(),
        final(version_set).levels() == old(version_set).levels(),
        final(version_set).width() == old(version_set).width(),
        final(version_set).number() == old(version_set).number(),
        ok == (old(version_set).next_file() + pieces.len() <= FileId::MAX),
        final(version_set).next_file() == old(version_set).next_file() + nameable(
            pieces.len() as nat,
            old(version_set).next_file(),
        ),
        edit_views(final(edits)@) == edit_views(old(edits)@) + adds(
            (level + 1) as usize,
            outs_of(chunk_views(pieces@), old(version_set).next_file()).take(
                nameable(pieces.len() as nat, old(version_set).next_file()),
            ),
        ),
        forall|k: int|
            0 <= k < final(edits).len() ==> ((#[trigger] final(edits)[k]) matches VersionEdit::Add {
                table,
                ..
            } ==> table.wf() && table.width() == old(version_set).width()),
{
    let ghost base = version_set.next_file();
    let ghost width = version_set.width();
    let ghost levels = version_set.levels();
    let ghost cviews = chunk_views(pieces@);
    let ghost outs = outs_of(cviews, base);
    let ghost all_chunks = pieces@;
    let ghost removing = edit_views(edits@);
    let columns = version_set.current().columns();
    let m = pieces.len();
    let mut pending = crate::reversed(pieces);
    let mut j: usize = 0;
    let mut exhausted = false;
    proof {
        assert(edit_views(edits@) =~= removing + adds((level + 1) as usize, outs.take(0)));
    }
    while j < m && !exhausted
        invariant
            version_set.wf(),
            version_set.levels() == levels,
            version_set.width() == width,
            version_set.number() == old(version_set).number(),
            columns == width,
            level + 1 < MAX_LEVEL,
            j <= m,
            m == all_chunks.len(),
            cviews == chunk_views(all_chunks),
            outs == outs_of(cviews, base),
            forall|c: int|
                0 <= c < cviews.len() ==> sorted(#[trigger] cviews[c]) && conforms(
                    cviews[c],
                    width,
                ) && cviews[c].len() > 0,
            pending.len() == m - j,
            forall|k: int| 0 <= k < pending.len() ==> pending[k] == all_chunks[m - 1 - k],
            version_set.next_file() == base + j,
            exhausted ==> j < m && version_set.next_file() == FileId::MAX,
            edit_views(edits@) == removing + adds((level + 1) as usize, outs.take(j as int)),
            forall|k: int|
                0 <= k < edits.len() ==> ((#[trigger] edits[k]) matches VersionEdit::Add {
                    table,
                    ..
                } ==> table.wf() && table.width() == width),
        decreases m - j + if exhausted { 0int } else { 1int },
    {
        match version_set.next_file_id() {
            None => {
                exhausted = true;
            },
            Some(id) => {
                let chunk = pending.pop().unwrap();
                let ghost before = edit_views(edits@);
                let ghost held = edits@;
                proof {
                    assert(chunk == all_chunks[j as int]);
                    assert(entry_views(chunk@) == cviews[j as int]);
                }
                let rows = Immutable::from_entries(chunk, columns);
                let t = SsTable::new(id, rows);
                proof {
                    assert(t@ == outs[j as int]);
                }
                edits.push(VersionEdit::Add { level: level + 1, table: t });
                proof {
                    assert(edit_views(edits@) =~= before.push(
                        EditView::Add { level: (level + 1) as usize, table: outs[j as int] },
                    ));
                    assert(adds((level + 1) as usize, outs.take(j + 1)) =~= adds(
                        (level + 1) as usize,
                        outs.take(j as int),
                    ).push(EditView::Add { level: (level + 1) as usize, table: outs[j as int] }));
                    assert(edit_views(edits@) =~= removing + adds(
                        (level + 1) as usize,
                        outs.take(j + 1),
                    ));
                    assert forall|k: int| 0 <= k < edits.len() implies ((
                    #[trigger] edits[k]) matches VersionEdit::Add { table, .. } ==> table.wf()
                        && table.width() == width) by {
                        if k < held.len() {
                            assert(edits[k] == held[k]);
                        }
                    }
                }
                j += 1;
            },
        }
    }
    proof {
        assert(j == nameable(m as nat, base));
    }
    !exhausted
}

/// Number of new files, of `wanted`, that get a name when the next new file is
/// named `next_file`: all of them, unless the names run out first.
pub open spec fn nameable(wanted: nat, next_file: FileId) -> int {
    if next_file + wanted <= FileId::MAX {
        wanted as int
    } else {
        FileId::MAX - next_file
    }
}

/// Whether `pieces` are what the step at level `l` cuts for its new tables:
/// what the merge of the oldest table of the level, table `s`, with the tables
/// from `a` up to `b` of the next level keeps, cut well for tables of at most
/// `max` bytes.
pub open spec fn cut_of(
    levels: Seq<Seq<TableView>>,
    l: usize,
    s: int,
    a: int,
    b: int,
    pieces: Seq<Seq<EntryView>>,
    max: usize,
    horizon: Timestamp,
) -> bool {
    &&& 0 <= s < levels[l as int].len()
    &&& oldest_at(levels, l as int, s)
    &&& inputs_at(levels, l as int, s, a, b)
    &&& well_cut(pieces, max)
    &&& sorted(concat(pieces))
    &&& versions(concat(pieces)) == retained(step_inputs(levels, l as int, s, a, b), horizon)
}

/// Whether the step at level `l` makes `n` new tables.
pub open spec fn step_makes(
    levels: Seq<Seq<TableView>>,
    l: usize,
    max: usize,
    horizon: Timestamp,
    n: int,
) -> bool {
    exists|s: int, a: int, b: int, pieces: Seq<Seq<EntryView>>| #[trigger]
        cut_of(levels, l, s, a, b, pieces, max, horizon) && pieces.len() == n
}

/// Whether the step at level `l` cannot be made in a version set with the
/// layout `levels`, version number `number` and `next_file` as the name of its
/// next new file: no version number is left, or the file names that are left
/// do not suffice for the tables that the step makes.
pub open spec fn step_fails(
    levels: Seq<Seq<TableView>>,
    number: u64,
    next_file: FileId,
    l: usize,
    max: usize,
    horizon: Timestamp,
) -> bool {
    number == u64::MAX || exists|n: int| #[trigger]
        step_makes(levels, l, max, horizon, n) && next_file + n > FileId::MAX
}

/// The step at a level makes one number of tables: its inputs are fixed by the
/// layout, what the merge keeps of them is one run, and a run has one good cut.
pub proof fn lemma_step_makes_unique(
    levels: Seq<Seq<TableView>>,
    l: usize,
    max: usize,
    horizon: Timestamp,
    n: int,
    m: int,
)
    requires
        l + 1 < levels.len(),
        distinct_gens(levels[l as int]),
        step_makes(levels, l, max, horizon, n),
        step_makes(levels, l, max, horizon, m),
    ensures
        n == m,
{
    let (s, a, b, p) = choose|s: int, a: int, b: int, pieces: Seq<Seq<EntryView>>| #[trigger]
        cut_of(levels, l, s, a, b, pieces, max, horizon) && pieces.len() == n;
    let (s2, a2, b2, q) = choose|s: int, a: int, b: int, pieces: Seq<Seq<EntryView>>| #[trigger]
        cut_of(levels, l, s, a, b, pieces, max, horizon) && pieces.len() == m;
    let up = levels[l as int];
    let down = levels[l + 1];
    // The oldest table is one table.
    if s != s2 {
        if s < s2 {
            assert(up[s].gen != up[s2].gen);
        } else {
            assert(up[s2].gen != up[s].gen);
        }
        assert(up[s].gen <= up[s2].gen);
        assert(up[s2].gen <= up[s].gen);
    }
    // It reaches one stretch of the next level.
    if a < a2 {
        assert(key_lt(table_scope(down[a]).max, table_scope(up[s]).min));
    }
    if a2 < a {
        assert(key_lt(table_scope(down[a2]).max, table_scope(up[s]).min));
    }
    if b < b2 {
        assert(!key_lt(table_scope(up[s]).max, table_scope(down[b]).min));
    }
    if b2 < b {
        assert(!key_lt(table_scope(up[s]).max, table_scope(down[b2]).min));
    }
    crate::stream::lemma_sorted_runs_equal(concat(p), concat(q));
    let c = if p.len() <= q.len() {
        p.len() as int
    } else {
        q.len() as int
    };
    crate::compaction::lemma_cut_unique(p, q, max, c);
}

/// One step of major compaction at `level`: merges the oldest table of the
/// level with the tables of the next level that it reaches, and publishes the
/// outcome as the next version. Returns the files of the inputs, which the
/// layout holds no longer. The step fails exactly where [`step_fails`] says
/// so: without a version number left nothing changes; without file names
/// enough for the new tables the names are used up and the layout stays as it
/// is.
pub fn major_step(version_set: &mut VersionSet, level: usize, max: usize, horizon: Timestamp) -> (result:
    Result<Vec<FileId>, VersionError>)
    requires
        old(version_set).wf(),
        files_ok(old(version_set).levels(), old(version_set).next_file()),
        unique_files(old(version_set).levels()),
        level + 1 < MAX_LEVEL,
        old(version_set).levels()[level as int].len() > 0,
    ensures
        final(version_set).wf(),
        final(version_set).width() == old(version_set).width(),
        files_ok(final(version_set).levels(), final(version_set).next_file()),
        unique_files(final(version_set).levels()),
        stems_from(
            final(version_set).levels(),
            old(version_set).levels(),
            old(version_set).next_file(),
        ),
        old(version_set).next_file() <= final(version_set).next_file(),
        result matches Ok(removed) ==> forall|r: int|
            0 <= r < removed.len() ==> names(old(version_set).levels(), #[trigger] removed[r])
                && !names(final(version_set).levels(), removed[r]),
        result matches Ok(removed) ==> forall|file: FileId|
            names(old(version_set).levels(), file) && !#[trigger] names(
                final(version_set).levels(),
                file,
            ) ==> removed@.contains(file),
        result is Err <==> step_fails(
            old(version_set).levels(),
            old(version_set).number(),
            old(version_set).next_file(),
            level,
            max,
            horizon,
        ),
        match result {
            Ok(removed) => final(version_set).number() == old(version_set).number() + 1
                && stepped(
                old(version_set).levels(),
                final(version_set).levels(),
                level,
                max,
                horizon,
                old(version_set).next_file(),
                removed@,
                final(version_set).next_file(),
            ),
            Err(e) => {
                &&& e == VersionError::Exhausted
                &&& final(version_set).levels() == old(version_set).levels()
                &&& final(version_set).number() == old(version_set).number()
                &&& final(version_set).next_file() == if old(version_set).number() == u64::MAX {
                    old(version_set).next_file()
                } else {
                    FileId::MAX
                }
            },
        },
{
    let ghost levels = version_set.levels();
    let ghost width = version_set.width();
    let ghost base = version_set.next_file();
    let ghost up = levels[level as int];
    let ghost down = levels[level + 1];
    proof {
        version_set.lemma_wf();
        lemma_stems_refl(levels, base);
    }
    if !version_set.can_edit() {
        return Err(VersionError::Exhausted);
    }
    let version = version_set.current();
    let s = pick_oldest(version, level);
    let (a, b) = reach(version, level, s);
    let (runs, mut edits) = gather(version, level, s, a, b);
    let ghost tv = up[s as int];
    let ghost inputs = seq![tv.rows] + level_runs(down.subrange(a as int, b as int));
    proof {
        assert forall|r: int| 0 <= r < inputs.len() implies sorted(#[trigger] inputs[r])
            && conforms(inputs[r], width) by {
            if r > 0 {
                assert(inputs[r] == down[a + r - 1].rows);
                assert(table_wf(down[a + r - 1], width));
            } else {
                assert(table_wf(up[s as int], width));
            }
        }
    }
    let merged = merge_runs(&runs);
    let kept = gc(&merged, horizon);
    let ghost whole = entry_views(kept@);
    let ghost merged_view = entry_views(merged@);
    let pieces = split(kept, max);
    let ghost cviews = chunk_views(pieces@);
    let ghost outs = outs_of(cviews, base);
    proof {
        lemma_pieces_ok(inputs, merged_view, whole, cviews, width, max, horizon);
    }
    let ghost m = pieces.len();
    proof {
        assert(cut_of(levels, level, s as int, a as int, b as int, cviews, max, horizon));
        assert(step_makes(levels, level, max, horizon, cviews.len() as int));
    }
    if !build(version_set, pieces, level, &mut edits) {
        return Err(VersionError::Exhausted);
    }
    proof {
        assert forall|n: int| #[trigger] step_makes(levels, level, max, horizon, n) implies base + n
            <= FileId::MAX by {
            lemma_step_makes_unique(levels, level, max, horizon, n, m as int);
        }
    }
    proof {
        lemma_step_holds(
            levels,
            width,
            level,
            s as int,
            a as int,
            b as int,
            merged_view,
            whole,
            cviews,
            max,
            horizon,
            base,
        );
        lemma_step_layout(levels, level, s as int, a as int, b as int, outs, horizon);
        assert(edit_views(edits@) =~= step_edits(levels, level, s as int, a as int, b as int, outs));
        lemma_compacted_files(levels, level as int, s as int, a as int, b as int, outs, base);
        lemma_compacted_unique(levels, level as int, s as int, a as int, b as int, outs, base);
        lemma_step_removed(levels, level, s as int, a as int, b as int, outs);
    }
    match version_set.apply_edits(edits) {
        Ok(removed) => {
            proof {
                lemma_step_files(
                    levels,
                    version_set.levels(),
                    level,
                    s as int,
                    a as int,
                    b as int,
                    outs,
                    removed@,
                );
            }
            Ok(removed)
        },
        Err(e) => Err(e),
    }
}

/// The files that a step returns are the files of its inputs: the layout named
/// every one of them before the step and names none of them after it, and
/// every file that the layout names no longer is among them.
pub proof fn lemma_step_files(
    levels: Seq<Seq<TableView>>,
    after: Seq<Seq<TableView>>,
    level: usize,
    s: int,
    a: int,
    b: int,
    outs: Seq<TableView>,
    removed: Seq<FileId>,
)
    requires
        level + 1 < levels.len(),
        0 <= s < levels[level as int].len(),
        0 <= a <= b <= levels[level + 1].len(),
        after == compacted(levels, level as int, s, a, b, outs),
        removed == seq![levels[level as int][s].gen] + Seq::new(
            (b - a) as nat,
            |t: int| levels[level + 1][a + t].gen,
        ),
        !names(after, levels[level as int][s].gen),
        forall|t: int| a <= t < b ==> !names(after, (#[trigger] levels[level + 1][t]).gen),
    ensures
        forall|r: int|
            0 <= r < removed.len() ==> names(levels, #[trigger] removed[r]) && !names(
                after,
                removed[r],
            ),
        forall|file: FileId|
            names(levels, file) && !#[trigger] names(after, file) ==> removed.contains(file),
{
    assert forall|r: int| 0 <= r < removed.len() implies names(levels, #[trigger] removed[r])
        && !names(after, removed[r]) by {
        if r == 0 {
            assert(levels[level as int][s].gen == removed[r]);
        } else {
            assert(levels[level + 1][a + r - 1].gen == removed[r]);
        }
    }
    assert forall|file: FileId|
        names(levels, file) && !#[trigger] names(after, file) implies removed.contains(file) by {
        lemma_compacted_left(levels, level as int, s, a, b, outs, file);
        if file == levels[level as int][s].gen {
            assert(removed[0] == file);
        } else {
            let t = choose|t: int| a <= t < b && (#[trigger] levels[level + 1][t]).gen == file;
            assert(removed[t - a + 1] == file);
        }
    }
}

/// Every table of a layout is a table of the layout.
pub proof fn lemma_stems_refl(levels: Seq<Seq<TableView>>, first_file: FileId)
    ensures
        stems_from(levels, levels, first_file),
{
}

/// Stemming from carries over: what stems from a layout that stems from another
/// stems from that one.
pub proof fn lemma_stems_chain(
    a: Seq<Seq<TableView>>,
    b: Seq<Seq<TableView>>,
    c: Seq<Seq<TableView>>,
    first: FileId,
    second: FileId,
)
    requires
        stems_from(b, a, first),
        stems_from(c, b, second),
        first <= second,
    ensures
        stems_from(c, a, first),
{
    assert forall|l: int, i: int| 0 <= l < c.len() && 0 <= i < c[l].len() implies names(
        a,
        (#[trigger] c[l][i]).gen,
    ) || c[l][i].gen >= first by {
        let f = c[l][i].gen;
        if f < first {
            assert(names(b, f));
            let (k, j) = choose|k: int, j: int|
                0 <= k < b.len() && 0 <= j < b[k].len() && (#[trigger] b[k][j]).gen == f;
            assert(names(a, b[k][j].gen));
        }
    }
}

/// Maps that read the same show every reader at or after the horizon the same
/// records: as many, under the same keys, with the same columns.
pub proof fn lemma_same_reads_visible(
    a: Map<TimestampedView, Option<RowView>>,
    b: Map<TimestampedView, Option<RowView>>,
    horizon: Timestamp,
    snapshot: Timestamp,
)
    requires
        same_reads(a, b, horizon),
        horizon <= snapshot,
    ensures
        crate::stream::visible_map(a, snapshot) == crate::stream::visible_map(b, snapshot),
        forall|key: Seq<u8>|
            crate::stream::read(a, key, snapshot) == crate::stream::read(b, key, snapshot),
{
    assert forall|key: Seq<u8>|
        crate::stream::read(a, key, snapshot) == crate::stream::read(b, key, snapshot) by {
        assert(newest_ts(a, key, snapshot) == newest_ts(b, key, snapshot));
    }
    assert(crate::stream::visible_map(a, snapshot) =~= crate::stream::visible_map(b, snapshot));
}

} // verus!
