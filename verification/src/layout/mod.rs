//! File-layout buffers.

pub mod laws;
pub mod parse;

pub use parse::{
    walk_layout_buffer, LayoutFile, LayoutName, LayoutWalkError, FILE_LAYOUT_NAME_ENTRY_DOS,
    FILE_LAYOUT_NAME_ENTRY_PRIMARY, QUERY_FILE_LAYOUT_INCLUDE_EXTRA_INFO,
    QUERY_FILE_LAYOUT_INCLUDE_NAMES, QUERY_FILE_LAYOUT_INCLUDE_STREAMS,
    QUERY_FILE_LAYOUT_INCLUDE_STREAMS_WITH_NO_CLUSTERS_ALLOCATED, QUERY_FILE_LAYOUT_RESTART,
    QUERY_FILE_LAYOUT_SINGLE_INSTANCED, RECOMMENDED_LAYOUT_FLAGS,
};
