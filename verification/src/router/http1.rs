//! HTTP/1.1: request heads, response bytes, and the state machines of a
//! connection.

pub mod chunked;
pub mod conn;
pub mod head;
pub mod parse;
pub mod reply;
pub mod stage;
pub mod submit;
pub mod tunnel;

pub use crate::router::http1::head::{
    reason_phrase, server_header, write_chunk, write_response, write_return, write_simple,
};
pub use crate::router::http1::parse::{
    find_headers_end, parse_request, split_target, websocket_upgrade, Parsed,
};
