//! The PHP module: which script serves a request, what the engine is told of
//! it, and how the engine's output becomes a response.

pub mod engine;
pub mod page;
pub mod script;
pub mod session;
pub mod vars;

use vstd::prelude::*;
use vstd::string::*;

use crate::config::table::Table;

verus! {

/// Settings of an application that this module reads.
#[derive(Debug)]
pub struct AppConfig {
    pub root: String,
    /// The script that serves every request, if there is one.
    pub script: Option<String>,
    pub index: Option<String>,
    pub ini_file: Option<String>,
    /// Directives of the system.
    pub admin: Table<String>,
    /// Directives that scripts may override.
    pub user: Table<String>,
    /// Requests after which a worker exits; zero for none.
    pub max_requests: u64,
    pub user_id: Option<u32>,
    pub group_id: Option<u32>,
    pub user_name: Option<String>,
    /// Executable extensions besides the module's own.
    pub execute: Vec<String>,
}

} // verus!
