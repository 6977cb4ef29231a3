//! Requests and responses.

use crate::types::{SortSpec, VolumePhase};
use vstd::prelude::*;

verus! {

pub const PROTO_VERSION: u16 = 1;

pub const PIPE_NAME: &'static str = "\\\\.\\pipe\\goz-v1";

/// Largest frame a server accepts from a client.
pub const MAX_CLIENT_FRAME: u32 = 0x0010_0000;

/// Largest frame a client accepts from a server.
pub const MAX_SERVER_FRAME: u32 = 0x0100_0000;

/// Rows in one page of results.
pub const PAGE_ROWS: u32 = 4096;

#[derive(Clone, Debug, PartialEq)]
pub enum Request {
    Hello { proto_min: u16, proto_max: u16, client: String },
    Query(QueryRequest),
    Status,
}

#[derive(Clone, Debug, PartialEq)]
pub struct QueryRequest {
    pub query: String,
    /// Restrict the search to this directory.
    pub scope: Option<String>,
    pub sort: SortSpec,
    pub offset: u32,
    pub limit: Option<u32>,
    pub want_size: bool,
    pub want_mtime: bool,
    pub match_case: bool,
}

#[derive(Clone, Debug, PartialEq)]
pub enum Response {
    Hello { proto: u16, server: String, ready: bool },
    Results(QueryResults),
    Status(DaemonStatus),
    Error { code: ProtoError, message: String },
}

/// One page of results.
#[derive(Clone, Debug, PartialEq)]
pub struct QueryResults {
    /// Number of matches over all pages.
    pub total: u64,
    pub items: Vec<ResultItem>,
    /// More pages follow.
    pub more: bool,
    /// Some volume was not completely indexed.
    pub volumes_incomplete: bool,
    /// Some sizes or times were not known yet.
    pub metadata_pending: bool,
    pub generation: u64,
}

#[derive(Clone, Debug, PartialEq)]
pub struct ResultItem {
    /// The path, with U+FFFD where it is not valid Unicode.
    pub path: String,
    /// The exact path where it is not valid Unicode.
    pub path_u16: Option<Vec<u16>>,
    pub size: Option<u64>,
    pub mtime_ft: Option<i64>,
    pub is_dir: bool,
}

#[derive(Clone, Debug, PartialEq)]
pub struct DaemonStatus {
    pub volumes: Vec<VolumeStatus>,
    pub volumes_incomplete: bool,
    pub process_working_set: u64,
    pub process_private_bytes: u64,
}

/// Bytes in use and bytes allocated.
#[derive(Clone, Copy, Debug, PartialEq, Eq, Structural)]
pub struct MemPair {
    pub used: u64,
    pub alloc: u64,
}

impl Default for MemPair {
    fn default() -> (m: MemPair)
        ensures
            m.used == 0,
            m.alloc == 0,
    {
        MemPair { used: 0, alloc: 0 }
    }
}

#[derive(Clone, Debug, PartialEq)]
pub struct VolumeMemory {
    pub entries: MemPair,
    pub arena_raw: MemPair,
    pub arena_folded: MemPair,
    pub frn_map: MemPair,
    pub name_tables: MemPair,
    pub dir_children: MemPair,
    pub frn_map_kind: String,
}

#[derive(Clone, Debug, PartialEq)]
pub struct VolumeStatus {
    pub guid: String,
    pub mounts: Vec<String>,
    pub phase: VolumePhase,
    pub entries: u64,
    pub generation: u64,
    pub metadata_pending: bool,
    pub placeholders_created: u64,
    pub delete_of_unknown: u64,
    pub stale_slots: u64,
    pub link_reconciles_dropped: u64,
    pub memory: Option<VolumeMemory>,
}

#[derive(Clone, Copy, Debug, PartialEq, Eq, Structural)]
pub enum ProtoError {
    BadQuery,
    Internal,
    TooLarge,
    Unsupported,
}

/// What an item says.
#[verifier::ext_equal]
pub ghost struct ItemModel {
    pub path: Seq<char>,
    pub path_u16: Option<Seq<u16>>,
    pub size: Option<u64>,
    pub mtime_ft: Option<i64>,
    pub is_dir: bool,
}

/// What a page says.
#[verifier::ext_equal]
pub ghost struct PageModel {
    pub total: u64,
    pub items: Seq<ItemModel>,
    pub more: bool,
    pub volumes_incomplete: bool,
    pub metadata_pending: bool,
    pub generation: u64,
}

impl ResultItem {
    pub open spec fn model(&self) -> ItemModel {
        ItemModel {
            path: self.path@,
            path_u16: match self.path_u16 {
                Some(u) => Some(u@),
                None => None,
            },
            size: self.size,
            mtime_ft: self.mtime_ft,
            is_dir: self.is_dir,
        }
    }
}

pub open spec fn item_models(items: Seq<ResultItem>) -> Seq<ItemModel> {
    items.map_values(|i: ResultItem| i.model())
}

impl QueryResults {
    pub open spec fn model(&self) -> PageModel {
        PageModel {
            total: self.total,
            items: item_models(self.items@),
            more: self.more,
            volumes_incomplete: self.volumes_incomplete,
            metadata_pending: self.metadata_pending,
            generation: self.generation,
        }
    }
}

} // verus!
