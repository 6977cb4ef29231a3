//! The wire protocol.

pub mod binary;
pub mod frame;
pub mod types;
pub mod wire;

pub use binary::{
    decode_results_payload, encode_results_payload, push_item, push_results_header, BinError,
    RESP_TAG_JSON, RESP_TAG_RESULTS,
};
pub use frame::{
    decode_response_frame, encode_frame, encode_response_frame, FrameDecoder, FrameError,
    RespFrame, RespFrameError,
};
pub use types::{
    DaemonStatus, MemPair, ProtoError, QueryRequest, QueryResults, Request, Response, ResultItem,
    VolumeMemory, VolumeStatus, MAX_CLIENT_FRAME, MAX_SERVER_FRAME, PAGE_ROWS, PIPE_NAME,
    PROTO_VERSION,
};
