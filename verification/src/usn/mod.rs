//! Change-journal records and what they mean for the index.

pub mod laws;
pub mod ops;
pub mod record;

pub use ops::{ops_for, OpList, UsnOp};
pub use record::{
    walk_enum_buffer, walk_journal_buffer, EnumWalk, JournalWalk, ParsedUsnRecord, SkipCounts,
    WalkError,
};
