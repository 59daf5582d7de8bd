//! Records of the one table that a database stores: a primary key and a fixed
//! number of nullable user columns, each holding a boolean, an unsigned integer or
//! a byte string.

use vstd::prelude::*;

verus! {

/// The content of one non-null column.
#[derive(Debug, PartialEq, Eq)]
pub enum Value {
    Bool(bool),
    U32(u32),
    Bytes(Vec<u8>),
}

/// Mathematical form of a [`Value`].
pub enum ValueView {
    Bool(bool),
    U32(u32),
    Bytes(Seq<u8>),
}

impl View for Value {
    type V = ValueView;

    open spec fn view(&self) -> ValueView {
        match self {
            Value::Bool(b) => ValueView::Bool(*b),
            Value::U32(n) => ValueView::U32(*n),
            Value::Bytes(b) => ValueView::Bytes(b@),
        }
    }
}

impl Clone for Value {
    fn clone(&self) -> (copy: Self)
        ensures
            copy@ == self@,
    {
        match self {
            Value::Bool(b) => Value::Bool(*b),
            Value::U32(n) => Value::U32(*n),
            Value::Bytes(b) => {
                let bytes = clone_bytes(b);
                Value::Bytes(bytes)
            },
        }
    }
}

/// Copies a byte string.
pub fn clone_bytes(bytes: &Vec<u8>) -> (copy: Vec<u8>)
    ensures
        copy@ == bytes@,
{
    let copy = bytes.clone();
    assert(copy@ =~= bytes@);
    copy
}

/// The user columns of one record, in schema order. `None` is a null column.
pub type Row = Vec<Option<Value>>;

/// Mathematical form of a [`Row`].
pub type RowView = Seq<Option<ValueView>>;

pub open spec fn cell_view(cell: Option<Value>) -> Option<ValueView> {
    match cell {
        Some(v) => Some(v@),
        None => None,
    }
}

pub open spec fn row_view(row: Seq<Option<Value>>) -> RowView {
    Seq::new(row.len(), |i: int| cell_view(row[i]))
}

pub open spec fn value_view(value: Option<Row>) -> Option<RowView> {
    match value {
        Some(row) => Some(row_view(row@)),
        None => None,
    }
}

/// Copies one column.
pub fn clone_cell(cell: &Option<Value>) -> (copy: Option<Value>)
    ensures
        cell_view(copy) == cell_view(*cell),
{
    match cell {
        Some(v) => Some(v.clone()),
        None => None,
    }
}

/// Copies the columns of a record.
pub fn clone_row(row: &Row) -> (copy: Row)
    ensures
        row_view(copy@) == row_view(row@),
{
    let mut copy: Row = Vec::new();
    let mut i: usize = 0;
    while i < row.len()
        invariant
            i <= row.len(),
            copy.len() == i,
            forall|k: int| 0 <= k < i ==> cell_view(copy[k]) == cell_view(row[k]),
        decreases row.len() - i,
    {
        copy.push(clone_cell(&row[i]));
        i += 1;
    }
    assert(row_view(copy@) =~= row_view(row@));
    copy
}

/// Copies what an entry holds: the columns of a record, or nothing for a tombstone.
pub fn clone_value(value: &Option<Row>) -> (copy: Option<Row>)
    ensures
        value_view(copy) == value_view(*value),
{
    match value {
        Some(row) => Some(clone_row(row)),
        None => None,
    }
}

/// A record as a writer hands it in.
#[derive(Debug, PartialEq, Eq)]
pub struct Record {
    pub key: Vec<u8>,
    pub columns: Row,
}

/// Mathematical form of a [`Record`].
pub struct RecordView {
    pub key: Seq<u8>,
    pub columns: RowView,
}

impl View for Record {
    type V = RecordView;

    open spec fn view(&self) -> RecordView {
        RecordView { key: self.key@, columns: row_view(self.columns@) }
    }
}

impl Clone for Record {
    fn clone(&self) -> (copy: Self)
        ensures
            copy@ == self@,
    {
        Record { key: clone_bytes(&self.key), columns: clone_row(&self.columns) }
    }
}

impl Record {
    pub fn new(key: Vec<u8>, columns: Row) -> (record: Self)
        ensures
            record.key == key,
            record.columns == columns,
    {
        Record { key, columns }
    }

    /// The primary key.
    pub fn key(&self) -> (key: &Vec<u8>)
        ensures
            key@ == self@.key,
    {
        &self.key
    }
}

/// The shape that every record of a table has.
#[derive(Clone, Copy, Debug, PartialEq, Eq, Structural)]
pub struct RecordSchema {
    /// Number of user columns.
    pub columns: usize,
    /// Position of the primary-key column among the user columns.
    pub primary_key_index: usize,
}

/// Number of leaf columns that precede the user columns in a stored batch: the
/// tombstone flag and the timestamp.
pub const ENGINE_COLUMNS: usize = 2;

/// Which leaf columns a reader decodes. Leaf 0 is the tombstone flag, leaf 1 the
/// timestamp, and leaf `2 + j` is user column `j`.
#[derive(Debug, PartialEq, Eq)]
pub struct ProjectionMask {
    mask: Option<Vec<bool>>,
}

impl ProjectionMask {
    /// Whether the mask lets leaf column `leaf` through.
    pub closed spec fn includes(&self, leaf: int) -> bool {
        match self.mask {
            None => true,
            Some(m) => 0 <= leaf < m.len() && m[leaf],
        }
    }

    /// Whether the mask lets every leaf through, whatever the width of the table.
    pub closed spec fn is_all(&self) -> bool {
        self.mask is None
    }

    /// The mask that lets every leaf column through.
    pub fn all() -> (mask: Self)
        ensures
            mask.is_all(),
            forall|leaf: int| mask.includes(leaf),
    {
        ProjectionMask { mask: None }
    }

    /// The mask over `leaves` leaf columns that lets exactly the listed ones through.
    /// A listed index at or beyond `leaves` names no column and is ignored.
    pub fn leaves(leaves: usize, indices: &Vec<usize>) -> (mask: Self)
        ensures
            !mask.is_all(),
            forall|leaf: int|
                mask.includes(leaf) <==> (0 <= leaf < leaves && exists|i: int|
                    0 <= i < indices.len() && #[trigger] indices[i] == leaf),
    {
        let mut flags: Vec<bool> = Vec::new();
        let mut n: usize = 0;
        while n < leaves
            invariant
                n <= leaves,
                flags.len() == n,
                forall|k: int| 0 <= k < n ==> !flags[k],
            decreases leaves - n,
        {
            flags.push(false);
            n += 1;
        }
        let mut i: usize = 0;
        while i < indices.len()
            invariant
                i <= indices.len(),
                flags.len() == leaves,
                forall|leaf: int|
                    0 <= leaf < leaves ==> (flags[leaf] <==> exists|k: int|
                        0 <= k < i && #[trigger] indices[k] == leaf),
            decreases indices.len() - i,
        {
            let index = indices[i];
            if index < leaves {
                flags.set(index, true);
            }
            i += 1;
        }
        ProjectionMask { mask: Some(flags) }
    }

    /// Whether leaf column `leaf` is let through.
    pub fn leaf_included(&self, leaf: usize) -> (included: bool)
        ensures
            included == self.includes(leaf as int),
    {
        match &self.mask {
            None => true,
            Some(m) => leaf < m.len() && m[leaf],
        }
    }

    /// Whether user column `column` is let through.
    pub fn column_included(&self, column: usize) -> (included: bool)
        ensures
            included == self.includes(column + ENGINE_COLUMNS),
    {
        match &self.mask {
            None => true,
            Some(m) => m.len() >= ENGINE_COLUMNS && column < m.len() - ENGINE_COLUMNS && m[column
                + ENGINE_COLUMNS],
        }
    }
}

impl Clone for ProjectionMask {
    fn clone(&self) -> (copy: Self)
        ensures
            copy.is_all() == self.is_all(),
            forall|leaf: int| copy.includes(leaf) == self.includes(leaf),
    {
        match &self.mask {
            None => ProjectionMask { mask: None },
            Some(m) => {
                let flags = m.clone();
                assert(flags@ =~= m@);
                ProjectionMask { mask: Some(flags) }
            },
        }
    }
}

/// What a reader sees of a row under a mask: a column that the mask leaves out reads
/// as null, the others are unchanged, and the width stays the same.
pub open spec fn projected_row(row: RowView, mask: ProjectionMask) -> RowView {
    Seq::new(
        row.len(),
        |j: int|
            if mask.includes(j + ENGINE_COLUMNS) {
                row[j]
            } else {
                None
            },
    )
}

pub open spec fn projected_value(value: Option<RowView>, mask: ProjectionMask) -> Option<RowView> {
    match value {
        Some(row) => Some(projected_row(row, mask)),
        None => None,
    }
}

/// Copies a row, blanking the columns that `mask` leaves out.
pub fn project_row(row: &Row, mask: &ProjectionMask) -> (out: Row)
    ensures
        row_view(out@) == projected_row(row_view(row@), *mask),
{
    let mut out: Row = Vec::new();
    let mut j: usize = 0;
    while j < row.len()
        invariant
            j <= row.len(),
            out.len() == j,
            forall|k: int|
                0 <= k < j ==> cell_view(out[k]) == projected_row(row_view(row@), *mask)[k],
        decreases row.len() - j,
    {
        if mask.column_included(j) {
            out.push(clone_cell(&row[j]));
        } else {
            out.push(None);
        }
        j += 1;
    }
    assert(row_view(out@) =~= projected_row(row_view(row@), *mask));
    out
}

/// Copies what an entry holds under a mask; a tombstone stays a tombstone.
pub fn project_value(value: &Option<Row>, mask: &ProjectionMask) -> (out: Option<Row>)
    ensures
        value_view(out) == projected_value(value_view(*value), *mask),
{
    match value {
        Some(row) => Some(project_row(row, mask)),
        None => None,
    }
}

/// Letting every column through changes nothing.
pub proof fn lemma_project_all(value: Option<RowView>, mask: ProjectionMask)
    requires
        forall|leaf: int| mask.includes(leaf),
    ensures
        projected_value(value, mask) == value,
{
    match value {
        Some(row) => {
            assert(projected_row(row, mask) =~= row);
        },
        None => {},
    }
}

/// A size as a machine word: exact where it fits, the largest word where not.
pub open spec fn saturate(n: int) -> usize {
    if n > usize::MAX {
        usize::MAX
    } else {
        n as usize
    }
}

/// Bytes that one column takes in the log: a tag byte, then nothing for a null,
/// one byte for a boolean, four for an integer, or a length word and the bytes of
/// a byte string.
pub open spec fn cell_size(cell: Option<ValueView>) -> nat {
    match cell {
        None => 1,
        Some(ValueView::Bool(_)) => 2,
        Some(ValueView::U32(_)) => 5,
        Some(ValueView::Bytes(b)) => 9 + b.len(),
    }
}

/// Bytes that the columns of a row take together.
pub open spec fn cells_size(row: RowView) -> nat
    decreases row.len(),
{
    if row.len() == 0 {
        0
    } else {
        cells_size(row.drop_last()) + cell_size(row.last())
    }
}

/// Bytes that the value of an entry takes: a tag byte, and for a record the
/// column count as a word and the columns.
pub open spec fn value_size(value: Option<RowView>) -> nat {
    match value {
        None => 1,
        Some(row) => 9 + cells_size(row),
    }
}

/// Computes [`cell_size`].
pub fn size_of_cell(cell: &Option<Value>) -> (size: usize)
    ensures
        size == saturate(cell_size(cell_view(*cell)) as int),
{
    match cell {
        None => 1,
        Some(Value::Bool(_)) => 2,
        Some(Value::U32(_)) => 5,
        Some(Value::Bytes(b)) => b.len().saturating_add(9),
    }
}

/// Computes [`value_size`], saturating.
pub fn size_of_value(value: &Option<Row>) -> (size: usize)
    ensures
        size == saturate(value_size(value_view(*value)) as int),
{
    match value {
        None => 1,
        Some(row) => {
            let ghost r = row_view(row@);
            let mut size: usize = 9;
            let mut i: usize = 0;
            assert(cells_size(r.take(0)) == 0);
            while i < row.len()
                invariant
                    i <= row.len(),
                    r == row_view(row@),
                    size == saturate((9 + cells_size(r.take(i as int))) as int),
                decreases row.len() - i,
            {
                proof {
                    assert(r.take(i + 1).drop_last() =~= r.take(i as int));
                    assert(r.take(i + 1).last() == cell_view(row[i as int]));
                }
                size = size.saturating_add(size_of_cell(&row[i]));
                i += 1;
            }
            assert(r.take(i as int) =~= r);
            size
        },
    }
}

} // verus!
