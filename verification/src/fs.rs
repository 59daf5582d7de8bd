//! Names of the files that hold on-disk segments.

use vstd::prelude::*;

verus! {

/// Opaque name of one segment file. The engine hands them out in increasing
/// order, so a smaller id names an older file.
pub type FileId = u64;

} // verus!
