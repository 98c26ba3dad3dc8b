//! A RESP codec with a small command layer over an in-memory store.
//!
//! - `model`: frames as values, their wire format, and the decoder as spec functions.
//! - `frame`, `containers`, `order`: the frame types, their views, maps and sets kept in order.
//! - `encode`, `scan`, `decode`, `buffer`: writing frames, and sizing then decoding them.
//! - `laws`, `ordering`: round trip, sizing, prefixes, concatenation; the order on frames.
//! - `backend`, `cmd`, `execute`: the store, reading commands, and running them.
pub mod model;
pub mod frame;
pub mod encode;
pub mod order;
pub mod containers;
pub mod buffer;
pub mod scan;
pub mod decode;
pub mod backend;
pub mod cmd;
pub mod execute;
pub mod laws;
pub mod ordering;

pub use backend::{Backend, BackendView};
pub use cmd::{
    extract_args, validate_command, Command, CommandError, Echo, Get, HGet, HGetAll, HMGet, HSet,
    SAdd, SIsMember, SetCommand,
};
pub use decode::RespError;
pub use encode::RespEncoder;
pub use execute::{frame_handler, resp_ok, CommandExecutor};
pub use frame::{
    BulkError, BulkString, NullBulkString, RespArray, RespDouble, RespFrame, RespMap, RespNull,
    RespNullArray, RespSet, SimpleError, SimpleString,
};
pub use scan::find_crlf;
