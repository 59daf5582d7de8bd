//! Edits: the steps by which one version becomes the next.

use vstd::prelude::*;
use crate::fs::FileId;
use crate::ondisk::{SsTable, TableView};

verus! {

/// One step of a change of layout.
pub enum VersionEdit {
    /// Put a segment into a level.
    Add { level: usize, table: SsTable },
    /// Take the segment that file `gen` holds out of a level.
    Remove { level: usize, gen: FileId },
}

/// Mathematical form of a [`VersionEdit`].
pub enum EditView {
    Add { level: usize, table: TableView },
    Remove { level: usize, gen: FileId },
}

impl View for VersionEdit {
    type V = EditView;

    open spec fn view(&self) -> EditView {
        match self {
            VersionEdit::Add { level, table } => EditView::Add { level: *level, table: table@ },
            VersionEdit::Remove { level, gen } => EditView::Remove { level: *level, gen: *gen },
        }
    }
}

} // verus!
