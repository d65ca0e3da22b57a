//! What the server's operations are for, said of what goes in and what comes
//! out.

pub mod delivery;
pub mod edges;
pub mod files;
pub mod intake;
pub mod lines;
pub mod patterns;
pub mod php;
pub mod pool;
pub mod relay;
pub mod routing;
pub mod service;
pub mod settings;
pub mod tunnel;
