//! The tables that live in memory: the mutable table that takes the writes, and
//! the immutable columnar segments that full mutable tables are frozen into.

pub mod immutable;
pub mod mutable;
