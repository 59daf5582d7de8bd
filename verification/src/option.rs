//! The options of a database.

use vstd::prelude::*;

verus! {

/// What a database is opened with.
#[derive(Debug, PartialEq, Eq)]
pub struct DbOption {
    /// Root directory of the write-ahead log and the segment files.
    pub path: String,
    /// Size estimate in bytes above which the mutable table is frozen.
    pub max_mem_table_size: usize,
    /// Number of immutable segments that are gathered before they are written out
    /// to level 0.
    pub immutable_chunk_num: usize,
    /// Number of segments in level 0 at which a major compaction sets in.
    pub major_threshold_with_sst_size: usize,
    /// Factor by which that number grows from one level to the next.
    pub level_sst_magnification: usize,
    /// Most bytes that a segment written by a compaction holds.
    pub max_sst_file_size: usize,
}

impl DbOption {
    /// The options of a database under `path`, with the customary sizes.
    pub fn new(path: String) -> (option: Self)
        ensures
            option.path == path,
            option.max_mem_table_size == 8388608,
            option.immutable_chunk_num == 3,
            option.major_threshold_with_sst_size == 10,
            option.level_sst_magnification == 10,
            option.max_sst_file_size == 25165824,
    {
        DbOption {
            path,
            max_mem_table_size: 8388608,
            immutable_chunk_num: 3,
            major_threshold_with_sst_size: 10,
            level_sst_magnification: 10,
            max_sst_file_size: 25165824,
        }
    }
}

} // verus!
