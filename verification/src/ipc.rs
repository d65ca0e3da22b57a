//! Worker protocol, version 1: framing and the flat request encoding. All
//! integers are little-endian.
//!
//! A worker declares its concurrency in `Hello`; the router answers with the
//! granted value in `HelloAck`, and the worker never holds more
//! claimed-and-unfinished requests than that. Every frame carries a request
//! id, so frames of concurrent requests may interleave on one stream.

pub mod frame;
pub mod hello;
pub mod history;
pub mod request;

use vstd::prelude::*;
use vstd::string::*;

use crate::bytes::{chars, dec};
use crate::text::decimal;

pub use crate::ipc::frame::{FrameHeader, FrameKind, FRAME_HEADER_LEN};
pub use crate::ipc::hello::{
    Hello, HelloAck, CONCURRENCY_UNBOUNDED, HELLO_ACK_PAYLOAD_LEN, HELLO_PAYLOAD_LEN,
};
pub use crate::ipc::request::{FieldView, RequestBuilder, RequestView};

verus! {

/// Protocol version negotiated in the Hello/HelloAck exchange.
pub const BWP_VERSION: u32 = 1;

/// Request frame flag: the preread body field carries a temp-file path.
pub const FLAG_BODY_FILE: u8 = 1;

/// Request frame flag: the body arrives as RequestBody frames after Claim.
pub const FLAG_BODY_STREAM: u8 = 2;

/// Request frame flag: this request is a WebSocket upgrade offer.
pub const FLAG_UPGRADE: u8 = 4;

/// Hello capability: the worker accepts FLAG_BODY_STREAM requests.
pub const CAP_BODY_STREAM: u32 = 1;

/// Hello capability: the worker accepts FLAG_UPGRADE requests.
pub const CAP_WEBSOCKET: u32 = 2;

/// WsMessage opcodes, carried in the `aux` field.
pub const WS_OP_TEXT: u32 = 1;

pub const WS_OP_BINARY: u32 = 2;

/// Payload: big-endian u16 status code and a UTF-8 reason, both optional.
pub const WS_OP_CLOSE: u32 = 8;

/// Pong status: the worker is free.
pub const PONG_IDLE: u32 = 0;

/// Pong status: the worker is still busy on the probed task.
pub const PONG_BUSY: u32 = 1;

/// A malformed frame, handshake or request payload.
#[derive(Debug, Clone, Copy, PartialEq, Eq, Structural)]
pub enum BwpError {
    Truncated { expected: usize, actual: usize },
    UnknownKind(u8),
    BadMagic,
    UnsupportedVersion(u32),
    OutOfBounds { off: usize, len: usize, blob: usize },
}

/// The number `n`, as messages write it.
pub open spec fn shown(n: int) -> Seq<char> {
    chars(dec(n as nat))
}

/// What an error says.
pub open spec fn error_text(e: BwpError) -> Seq<char> {
    match e {
        BwpError::Truncated { expected, actual } => "frame payload too short: "@ + shown(
            actual as int,
        ) + " < "@ + shown(expected as int),
        BwpError::UnknownKind(k) => "unknown frame kind "@ + shown(k as int),
        BwpError::BadMagic => "bad magic in Hello frame"@,
        BwpError::UnsupportedVersion(v) => "unsupported BWP version "@ + shown(v as int),
        BwpError::OutOfBounds { off, len, blob } => "offset table entry out of bounds: "@ + shown(
            off as int,
        ) + "+"@ + shown(len as int) + " > "@ + shown(blob as int),
    }
}

impl BwpError {
    /// The error in words.
    pub fn message(&self) -> (r: String)
        ensures
            r@ == error_text(*self),
    {
        match *self {
            BwpError::Truncated { expected, actual } => {
                let mut s = "frame payload too short: ".to_owned();
                s.append(decimal(actual as u64).as_str());
                s.append(" < ");
                s.append(decimal(expected as u64).as_str());
                s
            },
            BwpError::UnknownKind(k) => {
                let mut s = "unknown frame kind ".to_owned();
                s.append(decimal(k as u64).as_str());
                s
            },
            BwpError::BadMagic => "bad magic in Hello frame".to_owned(),
            BwpError::UnsupportedVersion(v) => {
                let mut s = "unsupported BWP version ".to_owned();
                s.append(decimal(v as u64).as_str());
                s
            },
            BwpError::OutOfBounds { off, len, blob } => {
                let mut s = "offset table entry out of bounds: ".to_owned();
                s.append(decimal(off as u64).as_str());
                s.append("+");
                s.append(decimal(len as u64).as_str());
                s.append(" > ");
                s.append(decimal(blob as u64).as_str());
                s
            },
        }
    }
}

} // verus!
