//! Log records and the tags that frame a batch of them.

use vstd::prelude::*;
use crate::record::{clone_bytes, clone_value, value_view, Row, RowView};
use crate::timestamp::{Timestamped, TimestampedView};

verus! {

/// Place of a log record in the batch that wrote it. A batch of one record is
/// `Full`; a longer batch is `First`, any number of `Middle`, then `Last`.
#[derive(Clone, Copy, Debug, PartialEq, Eq, Structural)]
pub enum LogType {
    Full,
    First,
    Middle,
    Last,
}

/// One record of the write-ahead log: what was written, and its frame tag.
#[derive(Debug, PartialEq, Eq)]
pub struct Log {
    pub key: Timestamped,
    pub value: Option<Row>,
    pub log_type: LogType,
}

/// Mathematical form of a [`Log`].
pub struct LogView {
    pub key: TimestampedView,
    pub value: Option<RowView>,
    pub log_type: LogType,
}

impl View for Log {
    type V = LogView;

    open spec fn view(&self) -> LogView {
        LogView { key: self.key@, value: value_view(self.value), log_type: self.log_type }
    }
}

impl Clone for Log {
    fn clone(&self) -> (copy: Self)
        ensures
            copy@ == self@,
    {
        Log {
            key: Timestamped { ts: self.key.ts, value: clone_bytes(&self.key.value) },
            value: clone_value(&self.value),
            log_type: self.log_type,
        }
    }
}

impl Log {
    /// The record as it goes into the log, to be written under the frame tag.
    pub fn into_entry(self) -> (framed: (LogType, crate::wal::record_entry::RecordEntry))
        ensures
            framed.0 == self.log_type,
            framed.1 is Encode,
            framed.1@.key == self@.key,
            framed.1@.value == self@.value,
    {
        (self.log_type, crate::wal::record_entry::RecordEntry::Encode((self.key, self.value)))
    }
}

/// The log records of a vector in their mathematical form.
pub open spec fn log_views(s: Seq<Log>) -> Seq<LogView> {
    Seq::new(s.len(), |i: int| s[i]@)
}

/// The tag of record `index` in a batch of `count` records.
pub open spec fn batch_tag(index: int, count: int) -> LogType {
    if count == 1 {
        LogType::Full
    } else if index == 0 {
        LogType::First
    } else if index == count - 1 {
        LogType::Last
    } else {
        LogType::Middle
    }
}

/// Computes [`batch_tag`].
pub fn tag_in_batch(index: usize, count: usize) -> (tag: LogType)
    requires
        index < count,
    ensures
        tag == batch_tag(index as int, count as int),
{
    if count == 1 {
        LogType::Full
    } else if index == 0 {
        LogType::First
    } else if index == count - 1 {
        LogType::Last
    } else {
        LogType::Middle
    }
}

} // verus!
