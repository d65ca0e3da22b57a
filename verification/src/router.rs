//! Request handling: routing, matching, the HTTP/1.1 and WebSocket grammars,
//! static files and the worker pool.

pub mod access_log;
pub mod addr;
pub mod args;
pub mod compile;
pub mod dispatch;
pub mod http1;
pub mod matching;
pub mod routes;
pub mod serve_static;
pub mod setup;
pub mod template;
pub mod uri;
pub mod ws;
