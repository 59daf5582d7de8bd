//! A version: which segments the database consists of, level by level. Level 0
//! holds the segments that freezes produce, newest first, and their key ranges may
//! overlap. In every deeper level the segments are in key order and their key
//! ranges are disjoint.

pub mod cleaner;
pub mod edit;
pub mod set;

use vstd::prelude::*;
use crate::fs::FileId;
use crate::inmem::immutable::conforms;
use crate::ondisk::{lemma_table_misses, table_scope, table_wf, SsTable, TableView};
use crate::record::{ProjectionMask, RowView};
use crate::scope::{scope_contains, scope_meets, scopes_overlap, ScopeView};
use crate::stream::merge::{all_sorted, lemma_merged_append, lemma_merged_one,
    lemma_merged_scanned, lemma_scan_map_union, lemma_scanned_from, lemma_scanned_map,
    lemma_sorted_concat, merged_versions, run_views, scan_map, scanned_runs};
use crate::stream::{entry_views, projected, scanned, sorted, versions, within, Entry, EntryView, KeyBound,
    KeyBoundView};
use crate::timestamp::{compare_keys, key_le, key_lt, lemma_key_lt_asymmetric,
    lemma_key_lt_total, lemma_key_lt_transitive, precedes, KeyOrder, Timestamp, TimestampedView};
use crate::version::edit::{EditView, VersionEdit};

verus! {

/// Number of levels.
pub const MAX_LEVEL: usize = 7;

/// Why an edit cannot be applied to a version.
#[derive(Clone, Copy, Debug, PartialEq, Eq, Structural)]
pub enum VersionError {
    /// The edit names a level that does not exist.
    InvalidLevel(usize),
    /// The edit removes a file that the level does not hold.
    FileNotFound(FileId),
    /// The edit adds, below level 0, a file whose key range overlaps that of a
    /// file of the level.
    Overlap(FileId),
    /// No file name or version number is left to hand out.
    Exhausted,
}

/// The tables of a level in their mathematical form.
pub open spec fn level_views(level: Seq<SsTable>) -> Seq<TableView> {
    Seq::new(level.len(), |i: int| level[i]@)
}

/// The levels of a version in their mathematical form.
pub open spec fn levels_view(levels: Seq<Vec<SsTable>>) -> Seq<Seq<TableView>> {
    Seq::new(levels.len(), |l: int| level_views(levels[l]@))
}

/// The tables of a level are in key order with disjoint key ranges: each ends
/// before the next begins.
pub open spec fn ordered(level: Seq<TableView>) -> bool {
    forall|i: int, j: int|
        0 <= i < j < level.len() ==> key_lt(
            table_scope(#[trigger] level[i]).max,
            table_scope(#[trigger] level[j]).min,
        )
}

/// What a well-formed level layout is: the fixed number of levels, every table
/// well formed and `width` columns wide, and every level below level 0 ordered.
pub open spec fn layout_wf(levels: Seq<Seq<TableView>>, width: nat) -> bool {
    &&& levels.len() == MAX_LEVEL
    &&& forall|l: int, i: int|
        0 <= l < levels.len() && 0 <= i < levels[l].len() ==> table_wf(
            #[trigger] levels[l][i],
            width,
        )
    &&& forall|l: int| 1 <= l < levels.len() ==> ordered(#[trigger] levels[l])
}

/// Below level 0 the key ranges of the tables of a level are pairwise disjoint:
/// no key lies in the ranges of two tables, and so the level holds at most one
/// table that can hold a given key.
pub proof fn lemma_levels_disjoint(levels: Seq<Seq<TableView>>, width: nat, l: int, i: int, j: int)
    requires
        layout_wf(levels, width),
        1 <= l < levels.len(),
        0 <= i < levels[l].len(),
        0 <= j < levels[l].len(),
        i != j,
    ensures
        !scopes_overlap(table_scope(levels[l][i]), table_scope(levels[l][j])),
        forall|key: Seq<u8>|
            !(scope_contains(table_scope(levels[l][i]), key) && scope_contains(
                table_scope(levels[l][j]),
                key,
            )),
{
    let level = levels[l];
    assert(ordered(level));
    let (a, b) = if i < j {
        (i, j)
    } else {
        (j, i)
    };
    let first = table_scope(level[a]);
    let second = table_scope(level[b]);
    assert(key_lt(first.max, second.min));
    lemma_key_lt_asymmetric(first.max, second.min);
    assert forall|key: Seq<u8>| !(scope_contains(first, key) && scope_contains(second, key)) by {
        if scope_contains(first, key) && scope_contains(second, key) {
            // second.min <= key <= first.max < second.min
            if key != first.max {
                crate::timestamp::lemma_key_lt_transitive(key, first.max, second.min);
            }
            if second.min != key {
                crate::timestamp::lemma_key_lt_asymmetric(second.min, key);
            } else {
                crate::timestamp::lemma_key_lt_irreflexive(key);
            }
        }
    }
    if key_le(second.min, first.max) && second.min == first.max {
        crate::timestamp::lemma_key_lt_irreflexive(first.max);
    }
}

/// No table of the level shares a key with the key range of `t`.
pub open spec fn fits(level: Seq<TableView>, t: TableView) -> bool {
    forall|i: int|
        0 <= i < level.len() ==> !scopes_overlap(
            table_scope(#[trigger] level[i]),
            table_scope(t),
        )
}

/// Number of leading tables of the level that end before `min`: where a table
/// that begins at `min` goes.
pub open spec fn insertion_point(level: Seq<TableView>, min: Seq<u8>) -> int
    decreases level.len(),
{
    if level.len() == 0 {
        0
    } else if key_lt(table_scope(level[0]).max, min) {
        1 + insertion_point(level.drop_first(), min)
    } else {
        0
    }
}

/// Position of the first table of the level that file `gen` holds; the length of
/// the level if there is none.
pub open spec fn gen_index(level: Seq<TableView>, gen: FileId) -> int
    decreases level.len(),
{
    if level.len() == 0 {
        0
    } else if level[0].gen == gen {
        0
    } else {
        1 + gen_index(level.drop_first(), gen)
    }
}

/// [`gen_index`] lies within the level or at its end, finds `gen` where it lies
/// within, and passes over tables of other files only.
pub proof fn lemma_gen_index(level: Seq<TableView>, gen: FileId)
    ensures
        0 <= gen_index(level, gen) <= level.len(),
        gen_index(level, gen) < level.len() ==> level[gen_index(level, gen)].gen == gen,
        forall|i: int| 0 <= i < gen_index(level, gen) ==> (#[trigger] level[i]).gen != gen,
    decreases level.len(),
{
    if level.len() > 0 && level[0].gen != gen {
        let rest = level.drop_first();
        lemma_gen_index(rest, gen);
        assert forall|i: int| 0 <= i < gen_index(level, gen) implies (#[trigger] level[i]).gen
            != gen by {
            if i > 0 {
                assert(level[i] == rest[i - 1]);
            }
        }
        if gen_index(level, gen) < level.len() {
            assert(level[gen_index(level, gen)] == rest[gen_index(rest, gen)]);
        }
    }
}

/// [`insertion_point`] lies within the level or at its end, every table before
/// it ends before `min`, and the table at it does not.
pub proof fn lemma_insertion_point(level: Seq<TableView>, min: Seq<u8>)
    ensures
        0 <= insertion_point(level, min) <= level.len(),
        forall|i: int|
            0 <= i < insertion_point(level, min) ==> key_lt(
                table_scope(#[trigger] level[i]).max,
                min,
            ),
        insertion_point(level, min) < level.len() ==> !key_lt(
            table_scope(level[insertion_point(level, min)]).max,
            min,
        ),
    decreases level.len(),
{
    if level.len() > 0 && key_lt(table_scope(level[0]).max, min) {
        let rest = level.drop_first();
        lemma_insertion_point(rest, min);
        assert forall|i: int| 0 <= i < insertion_point(level, min) implies key_lt(
            table_scope(#[trigger] level[i]).max,
            min,
        ) by {
            if i > 0 {
                assert(level[i] == rest[i - 1]);
            }
        }
        if insertion_point(level, min) < level.len() {
            assert(level[insertion_point(level, min)] == rest[insertion_point(rest, min)]);
        }
    }
}

/// The layout that an edit makes of a layout, or why it cannot be applied.
pub open spec fn apply_edit(levels: Seq<Seq<TableView>>, edit: EditView) -> Result<
    Seq<Seq<TableView>>,
    VersionError,
> {
    match edit {
        EditView::Add { level, table } => {
            if level >= levels.len() {
                Err(VersionError::InvalidLevel(level))
            } else if level == 0 {
                Ok(levels.update(0, levels[0].insert(0, table)))
            } else if !fits(levels[level as int], table) {
                Err(VersionError::Overlap(table.gen))
            } else {
                Ok(
                    levels.update(
                        level as int,
                        levels[level as int].insert(
                            insertion_point(levels[level as int], table_scope(table).min),
                            table,
                        ),
                    ),
                )
            }
        },
        EditView::Remove { level, gen } => {
            if level >= levels.len() {
                Err(VersionError::InvalidLevel(level))
            } else if gen_index(levels[level as int], gen) >= levels[level as int].len() {
                Err(VersionError::FileNotFound(gen))
            } else {
                Ok(
                    levels.update(
                        level as int,
                        levels[level as int].remove(gen_index(levels[level as int], gen)),
                    ),
                )
            }
        },
    }
}

/// The rows of the tables of a level, table by table.
pub open spec fn level_runs(level: Seq<TableView>) -> Seq<Seq<EntryView>> {
    Seq::new(level.len(), |i: int| level[i].rows)
}

/// The versions that the levels from `from` on hold together. A level takes
/// precedence over every deeper one, and within a level an earlier table over a
/// later one.
pub open spec fn levels_versions(levels: Seq<Seq<TableView>>, from: int) -> Map<
    TimestampedView,
    Option<RowView>,
>
    decreases levels.len() - from,
{
    if from < 0 || from >= levels.len() {
        Map::empty()
    } else {
        levels_versions(levels, from + 1).union_prefer_right(
            merged_versions(level_runs(levels[from])),
        )
    }
}

/// Putting a table that fits into an ordered level at its insertion point keeps
/// the level ordered.
pub proof fn lemma_insert_ordered(level: Seq<TableView>, t: TableView)
    requires
        ordered(level),
        fits(level, t),
        forall|i: int| 0 <= i < level.len() ==> sorted((#[trigger] level[i]).rows) && level[i].rows.len() > 0,
        sorted(t.rows),
        t.rows.len() > 0,
    ensures
        ordered(level.insert(insertion_point(level, table_scope(t).min), t)),
{
    let min = table_scope(t).min;
    let max = table_scope(t).max;
    let p = insertion_point(level, min);
    lemma_insertion_point(level, min);
    let out = level.insert(p, t);
    crate::ondisk::lemma_rows_in_scope(t, 0);
    assert forall|i: int, j: int| 0 <= i < j < out.len() implies key_lt(
        table_scope(#[trigger] out[i]).max,
        table_scope(#[trigger] out[j]).min,
    ) by {
        if j < p {
            assert(out[i] == level[i] && out[j] == level[j]);
        } else if j == p {
            assert(out[i] == level[i]);
        } else if i > p {
            assert(out[i] == level[i - 1] && out[j] == level[j - 1]);
        } else {
            // out[j] is an old table at or after the insertion point; it does not
            // overlap t and does not end before t begins, so it begins after t.
            let q = j - 1;
            assert(out[j] == level[q]);
            let tq = level[q];
            crate::ondisk::lemma_rows_in_scope(tq, 0);
            assert(!key_lt(table_scope(tq).max, min)) by {
                if q > p {
                    assert(key_lt(table_scope(level[p]).max, table_scope(tq).min));
                    if key_lt(table_scope(tq).max, min) {
                        if table_scope(tq).min != table_scope(tq).max {
                            lemma_key_lt_transitive(
                                table_scope(tq).min,
                                table_scope(tq).max,
                                min,
                            );
                        }
                        lemma_key_lt_transitive(
                            table_scope(level[p]).max,
                            table_scope(tq).min,
                            min,
                        );
                    }
                }
            }
            lemma_key_lt_total(table_scope(tq).max, min);
            assert(key_le(min, table_scope(tq).max));
            assert(!scopes_overlap(table_scope(tq), table_scope(t)));
            lemma_key_lt_total(table_scope(tq).min, max);
            assert(key_lt(max, table_scope(tq).min));
            if i < p {
                assert(out[i] == level[i]);
                if min != max {
                    lemma_key_lt_transitive(min, max, table_scope(tq).min);
                }
                lemma_key_lt_transitive(table_scope(level[i]).max, min, table_scope(tq).min);
            } else {
                assert(out[i] == t);
            }
        }
    }
}

/// Taking a table out of an ordered level leaves it ordered.
pub proof fn lemma_remove_ordered(level: Seq<TableView>, at: int)
    requires
        ordered(level),
        0 <= at < level.len(),
    ensures
        ordered(level.remove(at)),
{
    let out = level.remove(at);
    assert forall|i: int, j: int| 0 <= i < j < out.len() implies key_lt(
        table_scope(#[trigger] out[i]).max,
        table_scope(#[trigger] out[j]).min,
    ) by {
        let a = if i < at {
            i
        } else {
            i + 1
        };
        let b = if j < at {
            j
        } else {
            j + 1
        };
        assert(out[i] == level[a] && out[j] == level[b]);
    }
}

/// An edit that can be applied to a well-formed layout leaves it well formed,
/// provided that a table it adds is well formed.
pub proof fn lemma_apply_edit_wf(levels: Seq<Seq<TableView>>, edit: EditView, width: nat)
    requires
        layout_wf(levels, width),
        edit matches EditView::Add { table, .. } ==> table_wf(table, width),
        apply_edit(levels, edit) is Ok,
    ensures
        layout_wf(apply_edit(levels, edit)->Ok_0, width),
{
    let out = apply_edit(levels, edit)->Ok_0;
    match edit {
        EditView::Add { level, table } => {
            let l = level as int;
            if l == 0 {
                let lev = levels[0].insert(0, table);
                assert forall|i: int| 0 <= i < lev.len() implies table_wf(
                    #[trigger] lev[i],
                    width,
                ) by {
                    if i > 0 {
                        assert(lev[i] == levels[0][i - 1]);
                    }
                }
            } else {
                let p = insertion_point(levels[l], table_scope(table).min);
                lemma_insertion_point(levels[l], table_scope(table).min);
                let lev = levels[l].insert(p, table);
                assert forall|i: int| 0 <= i < lev.len() implies table_wf(
                    #[trigger] lev[i],
                    width,
                ) by {
                    if i < p {
                        assert(lev[i] == levels[l][i]);
                    } else if i > p {
                        assert(lev[i] == levels[l][i - 1]);
                    }
                }
                assert(ordered(levels[l]));
                lemma_insert_ordered(levels[l], table);
            }
            assert forall|k: int, i: int|
                0 <= k < out.len() && 0 <= i < out[k].len() implies table_wf(
                #[trigger] out[k][i],
                width,
            ) by {
                if k != l {
                    assert(out[k] == levels[k]);
                }
            }
            assert forall|k: int| 1 <= k < out.len() implies ordered(#[trigger] out[k]) by {
                if k != l {
                    assert(out[k] == levels[k]);
                }
            }
        },
        EditView::Remove { level, gen } => {
            let l = level as int;
            let at = gen_index(levels[l], gen);
            lemma_gen_index(levels[l], gen);
            let lev = levels[l].remove(at);
            assert forall|i: int| 0 <= i < lev.len() implies table_wf(#[trigger] lev[i], width) by {
                if i < at {
                    assert(lev[i] == levels[l][i]);
                } else {
                    assert(lev[i] == levels[l][i + 1]);
                }
            }
            if l >= 1 {
                assert(ordered(levels[l]));
                lemma_remove_ordered(levels[l], at);
            }
            assert forall|k: int, i: int|
                0 <= k < out.len() && 0 <= i < out[k].len() implies table_wf(
                #[trigger] out[k][i],
                width,
            ) by {
                if k != l {
                    assert(out[k] == levels[k]);
                }
            }
            assert forall|k: int| 1 <= k < out.len() implies ordered(#[trigger] out[k]) by {
                if k != l {
                    assert(out[k] == levels[k]);
                }
            }
        },
    }
}

/// The level layout of the database at one moment.
pub struct Version {
    levels: Vec<Vec<SsTable>>,
    width: usize,
}

impl View for Version {
    type V = Seq<Seq<TableView>>;

    /// The tables, level by level.
    closed spec fn view(&self) -> Seq<Seq<TableView>> {
        levels_view(self.levels@)
    }
}

impl Version {
    /// Number of user columns of every record.
    pub closed spec fn width(&self) -> nat {
        self.width as nat
    }

    /// Every table is well formed and of the version's width.
    pub closed spec fn tables_wf(&self) -> bool {
        forall|l: int, i: int|
            0 <= l < self.levels.len() && 0 <= i < self.levels[l].len() ==> (
            #[trigger] self.levels[l][i]).wf() && self.levels[l][i].width() == self.width
    }

    /// The layout is well formed.
    pub open spec fn wf(&self) -> bool {
        self.tables_wf() && layout_wf(self@, self.width())
    }

    /// The version without segments.
    pub fn new(width: usize) -> (version: Self)
        ensures
            version.wf(),
            version.width() == width,
            forall|l: int| 0 <= l < MAX_LEVEL ==> (#[trigger] version@[l]).len() == 0,
    {
        let mut levels: Vec<Vec<SsTable>> = Vec::new();
        let mut l: usize = 0;
        while l < MAX_LEVEL
            invariant
                l <= MAX_LEVEL,
                levels.len() == l,
                forall|k: int| 0 <= k < l ==> (#[trigger] levels[k]).len() == 0,
            decreases MAX_LEVEL - l,
        {
            levels.push(Vec::new());
            l += 1;
        }
        Version { levels, width }
    }

    /// A copy of the version: the same tables at the same places.
    pub fn duplicate(&self) -> (copy: Self)
        requires
            self.wf(),
        ensures
            copy.wf(),
            copy@ == self@,
            copy.width() == self.width(),
    {
        let mut levels: Vec<Vec<SsTable>> = Vec::new();
        let mut l: usize = 0;
        while l < self.levels.len()
            invariant
                l <= self.levels.len(),
                self.wf(),
                levels.len() == l,
                forall|k: int|
                    0 <= k < l ==> (#[trigger] levels[k]).len() == self.levels[k].len(),
                forall|k: int, i: int|
                    0 <= k < l && 0 <= i < levels[k].len() ==> (#[trigger] levels[k][i])@
                        == self.levels[k][i]@ && levels[k][i].wf() && levels[k][i].width()
                        == self.width,
            decreases self.levels.len() - l,
        {
            let mut tables: Vec<SsTable> = Vec::new();
            let mut i: usize = 0;
            while i < self.levels[l].len()
                invariant
                    l < self.levels.len(),
                    i <= self.levels[l as int].len(),
                    self.wf(),
                    tables.len() == i,
                    forall|j: int|
                        0 <= j < i ==> (#[trigger] tables[j])@ == self.levels[l as int][j]@
                            && tables[j].wf() && tables[j].width() == self.width,
                decreases self.levels[l as int].len() - i,
            {
                tables.push(self.levels[l][i].duplicate(self.width));
                i += 1;
            }
            levels.push(tables);
            l += 1;
        }
        let copy = Version { levels, width: self.width };
        proof {
            assert forall|k: int| 0 <= k < copy@.len() implies #[trigger] copy@[k] == self@[k] by {
                assert(copy.levels[k].len() == self.levels[k].len());
                assert(copy@[k] =~= self@[k]);
            }
            assert(copy@ =~= self@);
        }
        copy
    }

    /// Number of user columns of every record.
    pub fn columns(&self) -> (width: usize)
        ensures
            width == self.width(),
    {
        self.width
    }

    /// Number of tables of a level.
    pub fn level_len(&self, level: usize) -> (n: usize)
        requires
            self.wf(),
            level < MAX_LEVEL,
        ensures
            n == self@[level as int].len(),
    {
        self.levels[level].len()
    }

    /// Table `index` of a level.
    pub fn table(&self, level: usize, index: usize) -> (table: &SsTable)
        requires
            self.wf(),
            level < MAX_LEVEL,
            index < self@[level as int].len(),
        ensures
            table.wf(),
            table.width() == self.width(),
            table@ == self@[level as int][index as int],
    {
        &self.levels[level][index]
    }

    /// Applies one edit. An edit that cannot be applied leaves the version as it
    /// is.
    pub fn apply(&mut self, edit: VersionEdit) -> (result: Result<(), VersionError>)
        requires
            old(self).wf(),
            edit matches VersionEdit::Add { table, .. } ==> table.wf() && table.width() == old(self).width(),
        ensures
            final(self).wf(),
            final(self).width() == old(self).width(),
            match apply_edit(old(self)@, edit@) {
                Ok(levels) => result is Ok && final(self)@ == levels,
                Err(e) => result == Err::<(), VersionError>(e) && final(self)@ == old(self)@,
            },
    {
        let ghost before = self@;
        let ghost width = self.width();
        let ghost ev = edit@;
        match edit {
            VersionEdit::Add { level, table } => {
                let ghost tv = table@;
                proof {
                    table.lemma_wf();
                }
                if level >= MAX_LEVEL {
                    return Err(VersionError::InvalidLevel(level));
                }
                let at = if level == 0 {
                    0
                } else {
                    let ghost lev = before[level as int];
                    let n = self.levels[level].len();
                    // The tables that end before the new one begins.
                    let mut p: usize = 0;
                    assert(lev.skip(0) =~= lev);
                    while p < n && matches!(
                        compare_keys(&self.levels[level][p].scope().max, &table.scope().min),
                        KeyOrder::Less
                    )
                        invariant
                            self.wf(),
                            self@ == before,
                            table.wf(),
                            table@ == tv,
                            1 <= level < MAX_LEVEL,
                            lev == before[level as int],
                            n == lev.len(),
                            p <= n,
                            insertion_point(lev, table_scope(tv).min) == p + insertion_point(
                                lev.skip(p as int),
                                table_scope(tv).min,
                            ),
                        decreases n - p,
                    {
                        proof {
                            let rest = lev.skip(p as int);
                            assert(rest[0] == lev[p as int]);
                            assert(rest.drop_first() =~= lev.skip(p + 1));
                        }
                        p += 1;
                    }
                    proof {
                        let rest = lev.skip(p as int);
                        if p < n {
                            assert(rest[0] == lev[p as int]);
                        }
                        assert(insertion_point(lev, table_scope(tv).min) == p);
                    }
                    // Every table overlaps the new one or not; one that does stops
                    // the edit.
                    let mut i: usize = 0;
                    let mut overlap = false;
                    while i < n && !overlap
                        invariant
                            self.wf(),
                            self@ == before,
                            table.wf(),
                            table@ == tv,
                            1 <= level < MAX_LEVEL,
                            lev == before[level as int],
                            n == lev.len(),
                            i <= n,
                            overlap ==> i < n && scopes_overlap(
                                table_scope(lev[i as int]),
                                table_scope(tv),
                            ),
                            forall|k: int|
                                0 <= k < i ==> !scopes_overlap(
                                    table_scope(#[trigger] lev[k]),
                                    table_scope(tv),
                                ),
                        decreases n - i + if overlap { 0int } else { 1int },
                    {
                        if self.levels[level][i].scope().overlaps(table.scope()) {
                            assert(lev[i as int] == self.levels[level as int][i as int]@);
                            overlap = true;
                        } else {
                            i += 1;
                        }
                    }
                    if overlap {
                        assert(!fits(lev, tv));
                        return Err(VersionError::Overlap(table.gen()));
                    }
                    p
                };
                proof {
                    lemma_apply_edit_wf(before, edit@, width);
                }
                self.levels[level].insert(at, table);
                proof {
                    let out = apply_edit(before, edit@)->Ok_0;
                    assert(self@[level as int] =~= out[level as int]);
                    assert(self@ =~= out);
                    assert forall|l: int, i: int|
                        0 <= l < self.levels.len() && 0 <= i < self.levels[l].len() implies (
                    #[trigger] self.levels[l][i]).wf() && self.levels[l][i].width()
                        == self.width by {
                        if l == level {
                            if i < at {
                                assert(self.levels[l][i] == old(self).levels[l][i]);
                            } else if i > at {
                                assert(self.levels[l][i] == old(self).levels[l][i - 1]);
                            }
                        } else {
                            assert(self.levels[l] == old(self).levels[l]);
                        }
                    }
                }
                Ok(())
            },
            VersionEdit::Remove { level, gen } => {
                if level >= MAX_LEVEL {
                    return Err(VersionError::InvalidLevel(level));
                }
                let ghost lev = before[level as int];
                let n = self.levels[level].len();
                let mut at: usize = 0;
                assert(lev.skip(0) =~= lev);
                while at < n && self.levels[level][at].gen() != gen
                    invariant
                        self.wf(),
                        self@ == before,
                        level < MAX_LEVEL,
                        lev == before[level as int],
                        n == lev.len(),
                        at <= n,
                        gen_index(lev, gen) == at + gen_index(lev.skip(at as int), gen),
                    decreases n - at,
                {
                    proof {
                        let rest = lev.skip(at as int);
                        assert(rest[0] == lev[at as int]);
                        assert(rest.drop_first() =~= lev.skip(at + 1));
                    }
                    at += 1;
                }
                proof {
                    let rest = lev.skip(at as int);
                    if at < n {
                        assert(rest[0] == lev[at as int]);
                    }
                    assert(gen_index(lev, gen) == at);
                }
                if at >= n {
                    return Err(VersionError::FileNotFound(gen));
                }
                proof {
                    lemma_apply_edit_wf(before, edit@, width);
                }
                self.levels[level].remove(at);
                proof {
                    let out = apply_edit(before, edit@)->Ok_0;
                    assert(self@[level as int] =~= out[level as int]);
                    assert(self@ =~= out);
                    assert forall|l: int, i: int|
                        0 <= l < self.levels.len() && 0 <= i < self.levels[l].len() implies (
                    #[trigger] self.levels[l][i]).wf() && self.levels[l][i].width()
                        == self.width by {
                        if l == level {
                            if i < at {
                                assert(self.levels[l][i] == old(self).levels[l][i]);
                            } else {
                                assert(self.levels[l][i] == old(self).levels[l][i + 1]);
                            }
                        } else {
                            assert(self.levels[l] == old(self).levels[l]);
                        }
                    }
                }
                Ok(())
            },
        }
    }
}

/// What a scan reads of a level below level 0: the scans of its tables one after
/// another, which is one run, as the tables are in key order.
pub open spec fn level_stream(
    level: Seq<TableView>,
    lower: KeyBoundView,
    upper: KeyBoundView,
    ts: Timestamp,
    mask: ProjectionMask,
) -> Seq<EntryView>
    decreases level.len(),
{
    if level.len() == 0 {
        Seq::empty()
    } else {
        level_stream(level.drop_last(), lower, upper, ts, mask) + scanned(
            level.last().rows,
            lower,
            upper,
            ts,
            mask,
        )
    }
}

/// The streams of the levels from `from` on, one for each level.
pub open spec fn deep_streams(
    levels: Seq<Seq<TableView>>,
    from: int,
    lower: KeyBoundView,
    upper: KeyBoundView,
    ts: Timestamp,
    mask: ProjectionMask,
) -> Seq<Seq<EntryView>> {
    Seq::new(
        (levels.len() - from) as nat,
        |i: int| level_stream(levels[from + i], lower, upper, ts, mask),
    )
}

/// The streams that a version gives a scan: one for each table of level 0, in
/// the order of the level, then one for each deeper level.
pub open spec fn version_streams(
    levels: Seq<Seq<TableView>>,
    lower: KeyBoundView,
    upper: KeyBoundView,
    ts: Timestamp,
    mask: ProjectionMask,
) -> Seq<Seq<EntryView>> {
    scanned_runs(level_runs(levels[0]), lower, upper, ts, mask) + deep_streams(
        levels,
        1,
        lower,
        upper,
        ts,
        mask,
    )
}

/// The stream of an ordered level is a sorted run that holds what a scan shows of
/// the versions of the level, and none of its keys lies beyond the last table.
pub proof fn lemma_level_stream(
    level: Seq<TableView>,
    lower: KeyBoundView,
    upper: KeyBoundView,
    ts: Timestamp,
    mask: ProjectionMask,
)
    requires
        ordered(level),
        forall|i: int|
            0 <= i < level.len() ==> sorted((#[trigger] level[i]).rows) && level[i].rows.len() > 0,
    ensures
        sorted(level_stream(level, lower, upper, ts, mask)),
        versions(level_stream(level, lower, upper, ts, mask)) == scan_map(
            merged_versions(level_runs(level)),
            lower,
            upper,
            ts,
            mask,
        ),
        forall|x: int|
            0 <= x < level_stream(level, lower, upper, ts, mask).len() ==> key_le(
                (#[trigger] level_stream(level, lower, upper, ts, mask)[x]).key.value,
                table_scope(level.last()).max,
            ),
    decreases level.len(),
{
    let out = level_stream(level, lower, upper, ts, mask);
    if level.len() == 0 {
        crate::stream::lemma_versions_empty();
        assert(merged_versions(level_runs(level)) =~= Map::<
            TimestampedView,
            Option<RowView>,
        >::empty());
        assert(versions(out) =~= scan_map(
            merged_versions(level_runs(level)),
            lower,
            upper,
            ts,
            mask,
        ));
    } else {
        let init = level.drop_last();
        let last = level.last();
        let n = level.len() - 1;
        assert forall|i: int, j: int| 0 <= i < j < init.len() implies key_lt(
            table_scope(#[trigger] init[i]).max,
            table_scope(#[trigger] init[j]).min,
        ) by {
            assert(init[i] == level[i] && init[j] == level[j]);
        }
        assert forall|i: int| 0 <= i < init.len() implies sorted((#[trigger] init[i]).rows)
            && init[i].rows.len() > 0 by {
            assert(init[i] == level[i]);
        }
        lemma_level_stream(init, lower, upper, ts, mask);
        let a = level_stream(init, lower, upper, ts, mask);
        let b = scanned(last.rows, lower, upper, ts, mask);
        assert(sorted(last.rows));
        lemma_scanned_map(last.rows, lower, upper, ts, mask);
        // Keys of `b` lie in the scope of the last table.
        assert forall|j: int| 0 <= j < b.len() implies scope_contains(
            table_scope(last),
            (#[trigger] b[j]).key.value,
        ) by {
            lemma_scanned_from(last.rows, lower, upper, ts, mask, j);
            let p = crate::stream::position(last.rows, b[j].key);
            crate::ondisk::lemma_rows_in_scope(last, p);
        }
        assert forall|i: int, j: int| 0 <= i < a.len() && 0 <= j < b.len() implies precedes(
            (#[trigger] a[i]).key,
            (#[trigger] b[j]).key,
        ) by {
            let prev = init.last();
            assert(prev == level[n - 1]);
            assert(key_lt(table_scope(level[n - 1]).max, table_scope(level[n]).min));
            let ka = a[i].key.value;
            let kb = b[j].key.value;
            assert(key_le(ka, table_scope(prev).max));
            assert(scope_contains(table_scope(last), kb));
            if ka != table_scope(prev).max {
                lemma_key_lt_transitive(ka, table_scope(prev).max, table_scope(last).min);
            }
            if kb != table_scope(last).min {
                lemma_key_lt_transitive(ka, table_scope(last).min, kb);
            }
        }
        lemma_sorted_concat(a, b);
        assert forall|x: int| 0 <= x < out.len() implies key_le(
            (#[trigger] out[x]).key.value,
            table_scope(last).max,
        ) by {
            if x < a.len() {
                assert(out[x] == a[x]);
                let prev = init.last();
                assert(prev == level[n - 1]);
                assert(key_lt(table_scope(level[n - 1]).max, table_scope(level[n]).min));
                crate::ondisk::lemma_rows_in_scope(last, 0);
                let ka = a[x].key.value;
                if ka != table_scope(prev).max {
                    lemma_key_lt_transitive(ka, table_scope(prev).max, table_scope(last).min);
                }
                if table_scope(last).min != table_scope(last).max {
                    lemma_key_lt_transitive(ka, table_scope(last).min, table_scope(last).max);
                }
            } else {
                assert(out[x] == b[x - a.len()]);
            }
        }
        // The versions of the level: the last table below the others.
        assert(level_runs(level) =~= level_runs(init) + seq![last.rows]);
        lemma_merged_append(level_runs(init), seq![last.rows]);
        lemma_merged_one(last.rows);
        lemma_scan_map_union(
            versions(last.rows),
            merged_versions(level_runs(init)),
            lower,
            upper,
            ts,
            mask,
        );
    }
}

/// The streams of the deeper levels hold together what a scan shows of the
/// versions of those levels.
pub proof fn lemma_deep_streams(
    levels: Seq<Seq<TableView>>,
    from: int,
    lower: KeyBoundView,
    upper: KeyBoundView,
    ts: Timestamp,
    mask: ProjectionMask,
    width: nat,
)
    requires
        layout_wf(levels, width),
        1 <= from <= levels.len(),
    ensures
        all_sorted(deep_streams(levels, from, lower, upper, ts, mask)),
        merged_versions(deep_streams(levels, from, lower, upper, ts, mask)) == scan_map(
            levels_versions(levels, from),
            lower,
            upper,
            ts,
            mask,
        ),
    decreases levels.len() - from,
{
    let out = deep_streams(levels, from, lower, upper, ts, mask);
    if from == levels.len() {
        assert(merged_versions(out) =~= scan_map(
            levels_versions(levels, from),
            lower,
            upper,
            ts,
            mask,
        ));
    } else {
        lemma_deep_streams(levels, from + 1, lower, upper, ts, mask, width);
        let rest = deep_streams(levels, from + 1, lower, upper, ts, mask);
        assert(out.drop_first() =~= rest);
        assert(out[0] == level_stream(levels[from], lower, upper, ts, mask));
        assert(ordered(levels[from]));
        assert forall|i: int| 0 <= i < levels[from].len() implies sorted(
            (#[trigger] levels[from][i]).rows,
        ) && levels[from][i].rows.len() > 0 by {
            assert(table_wf(levels[from][i], width));
        }
        lemma_level_stream(levels[from], lower, upper, ts, mask);
        assert forall|r: int| 0 <= r < out.len() implies sorted(#[trigger] out[r]) by {
            if r > 0 {
                assert(out[r] == rest[r - 1]);
            }
        }
        lemma_scan_map_union(
            levels_versions(levels, from + 1),
            merged_versions(level_runs(levels[from])),
            lower,
            upper,
            ts,
            mask,
        );
    }
}

/// The streams of a version are sorted runs that hold together what a scan shows
/// of the versions of the version.
pub proof fn lemma_version_streams(
    levels: Seq<Seq<TableView>>,
    lower: KeyBoundView,
    upper: KeyBoundView,
    ts: Timestamp,
    mask: ProjectionMask,
    width: nat,
)
    requires
        layout_wf(levels, width),
    ensures
        all_sorted(version_streams(levels, lower, upper, ts, mask)),
        merged_versions(version_streams(levels, lower, upper, ts, mask)) == scan_map(
            levels_versions(levels, 0),
            lower,
            upper,
            ts,
            mask,
        ),
{
    let top = scanned_runs(level_runs(levels[0]), lower, upper, ts, mask);
    let deep = deep_streams(levels, 1, lower, upper, ts, mask);
    assert forall|r: int| 0 <= r < level_runs(levels[0]).len() implies sorted(
        #[trigger] level_runs(levels[0])[r],
    ) by {
        assert(table_wf(levels[0][r], width));
    }
    lemma_merged_scanned(level_runs(levels[0]), lower, upper, ts, mask);
    lemma_deep_streams(levels, 1, lower, upper, ts, mask, width);
    lemma_merged_append(top, deep);
    let out = version_streams(levels, lower, upper, ts, mask);
    assert forall|r: int| 0 <= r < out.len() implies sorted(#[trigger] out[r]) by {
        if r < top.len() {
            assert(out[r] == top[r]);
        } else {
            assert(out[r] == deep[r - top.len()]);
        }
    }
    lemma_scan_map_union(
        levels_versions(levels, 1),
        merged_versions(level_runs(levels[0])),
        lower,
        upper,
        ts,
        mask,
    );
}

impl Version {
    /// The versions that the segments hold together.
    pub open spec fn versions(&self) -> Map<TimestampedView, Option<RowView>> {
        levels_versions(self@, 0)
    }

    /// Appends to `streams` what the segments give a scan of `[lower, upper]` at
    /// snapshot `ts`: a stream for each table of level 0, then one stream for each
    /// deeper level, which runs through the tables of the level in key order.
    pub fn streams(
        &self,
        streams: &mut Vec<Vec<Entry>>,
        lower: &KeyBound,
        upper: &KeyBound,
        ts: Timestamp,
        mask: &ProjectionMask,
    )
        requires
            self.wf(),
        ensures
            run_views(final(streams)@) == run_views(old(streams)@) + version_streams(
                self@,
                lower@,
                upper@,
                ts,
                *mask,
            ),
    {
        let ghost before = run_views(streams@);
        let ghost top = scanned_runs(level_runs(self@[0]), lower@, upper@, ts, *mask);
        let ghost deep = deep_streams(self@, 1, lower@, upper@, ts, *mask);
        let n0 = self.levels[0].len();
        let mut i: usize = 0;
        proof {
            assert(run_views(streams@) =~= before + top.take(0));
        }
        while i < n0
            invariant
                self.wf(),
                i <= n0,
                n0 == self@[0].len(),
                top == scanned_runs(level_runs(self@[0]), lower@, upper@, ts, *mask),
                run_views(streams@) == before + top.take(i as int),
            decreases n0 - i,
        {
            let run = self.levels[0][i].scan(lower, upper, ts, mask);
            let ghost prev = run_views(streams@);
            streams.push(run);
            proof {
                assert(run_views(streams@) =~= prev.push(top[i as int]));
                assert(before + top.take(i + 1) =~= (before + top.take(i as int)).push(
                    top[i as int],
                ));
            }
            i += 1;
        }
        proof {
            assert(top.take(n0 as int) =~= top);
            assert(run_views(streams@) =~= before + top + deep.take(0));
        }
        let mut l: usize = 1;
        while l < MAX_LEVEL
            invariant
                self.wf(),
                1 <= l <= MAX_LEVEL,
                deep == deep_streams(self@, 1, lower@, upper@, ts, *mask),
                run_views(streams@) == before + top + deep.take(l - 1),
            decreases MAX_LEVEL - l,
        {
            let ghost level = self@[l as int];
            let mut stream: Vec<Entry> = Vec::new();
            let n = self.levels[l].len();
            let mut i: usize = 0;
            proof {
                assert(entry_views(stream@) =~= level_stream(
                    level.take(0),
                    lower@,
                    upper@,
                    ts,
                    *mask,
                ));
            }
            while i < n
                invariant
                    self.wf(),
                    1 <= l < MAX_LEVEL,
                    level == self@[l as int],
                    n == level.len(),
                    i <= n,
                    entry_views(stream@) == level_stream(
                        level.take(i as int),
                        lower@,
                        upper@,
                        ts,
                        *mask,
                    ),
                decreases n - i,
            {
                let mut part = self.levels[l][i].scan(lower, upper, ts, mask);
                let ghost head = entry_views(stream@);
                let ghost tail = entry_views(part@);
                stream.append(&mut part);
                proof {
                    assert(level.take(i + 1).drop_last() =~= level.take(i as int));
                    assert(level.take(i + 1).last() == level[i as int]);
                    assert(entry_views(stream@) =~= head + tail);
                }
                i += 1;
            }
            let ghost prev = run_views(streams@);
            proof {
                assert(level.take(n as int) =~= level);
                assert(deep[l - 1] == level_stream(level, lower@, upper@, ts, *mask));
            }
            streams.push(stream);
            proof {
                assert(run_views(streams@) =~= prev.push(deep[l - 1]));
                assert(before + top + deep.take(l as int) =~= (before + top + deep.take(l - 1)).push(
                    deep[l - 1],
                ));
            }
            l += 1;
        }
        proof {
            assert(deep.take(MAX_LEVEL - 1) =~= deep);
            assert(before + top + deep =~= before + (top + deep));
        }
    }
}

/// Levels without tables hold no versions.
pub proof fn lemma_levels_versions_empty(levels: Seq<Seq<TableView>>, from: int)
    requires
        forall|l: int| 0 <= l < levels.len() ==> (#[trigger] levels[l]).len() == 0,
    ensures
        levels_versions(levels, from) == Map::<TimestampedView, Option<RowView>>::empty(),
    decreases levels.len() - from,
{
    if 0 <= from < levels.len() {
        lemma_levels_versions_empty(levels, from + 1);
        assert(level_runs(levels[from]) =~= Seq::<Seq<EntryView>>::empty());
        assert(merged_versions(level_runs(levels[from])) =~= Map::<
            TimestampedView,
            Option<RowView>,
        >::empty());
        assert(levels_versions(levels, from) =~= Map::<TimestampedView, Option<RowView>>::empty());
    }
}

} // verus!
