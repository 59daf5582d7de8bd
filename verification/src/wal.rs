//! The write-ahead log as the engine sees it: framed records waiting to be
//! appended, and their byte form.

pub mod log;
pub mod record_entry;
