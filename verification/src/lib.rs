//! A small RESP server core: an incremental frame codec for the wire
//! format, a command layer over decoded frames, and an in-memory backend.
//!
//! Every frame type has a ghost view; encoding and decoding are specified
//! over those views and the executable code is verified against them. The
//! laws the codec obeys, round trips among them, live in `laws`.
pub mod backend;
pub mod cmd;
pub mod decode;
pub mod encode;
pub mod frame;
pub mod laws;
pub mod outside;
pub mod text;

pub use backend::Backend;
pub use cmd::Command;
pub use cmd::CommandError;
pub use cmd::CommandExecutor;
pub use cmd::Get;
pub use cmd::HGet;
pub use cmd::HGetAll;
pub use cmd::HSet;
pub use cmd::SetCmd;
pub use cmd::Unrecognized;
pub use decode::RespDecode;
pub use decode::RespError;
pub use encode::RespEncode;
pub use frame::BulkString;
pub use frame::FrameV;
pub use frame::RespArray;
pub use frame::RespFrame;
pub use frame::RespMap;
pub use frame::RespNull;
pub use frame::RespNullArray;
pub use frame::RespNullBulkString;
pub use frame::RespSet;
pub use frame::SimpleError;
pub use frame::SimpleString;
