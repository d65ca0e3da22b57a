//! Buran application server: the verified core.
//!
//! The crate holds the rules of the server as plain functions and state
//! machines: the worker protocol, the configuration checks, request routing,
//! the HTTP and WebSocket grammars, the worker pool's bookkeeping and the
//! module-side helpers. Sockets, files, processes and timers live in the
//! binary around it.

pub mod bytes;
pub mod cli;
pub mod config;
pub mod control;
pub mod echo;
pub mod ipc;
pub mod json;
pub mod laws;
pub mod php;
pub mod router;
pub mod supervisor;
pub mod text;
pub mod worker;
