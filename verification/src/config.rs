//! Configuration: the typed schema, environment substitution, the scan for
//! forbidden anchors and the checks across sections.

pub mod anchors;
pub mod copy;
pub mod cpu;
pub mod document;
pub mod schema;
pub mod soundness;
pub mod subst;
pub mod table;
pub mod validate;

use vstd::prelude::*;
use vstd::string::*;

use crate::bytes::{chars, dec};
use crate::text::{cat3, cat5, decimal};

pub use crate::config::anchors::reject_anchors;
pub use crate::config::validate::{parse_listener_addr, validate, Validated};

verus! {

/// A configuration that cannot be used.
#[derive(Debug)]
pub enum ConfigError {
    /// An anchor or alias on a line.
    AnchorForbidden { line: usize },
    /// A variable that is referred to and not set.
    EnvMissing { name: String, path: String },
    Invalid { path: String, message: String },
}

impl ConfigError {
    pub fn invalid(path: String, message: String) -> (r: Self)
        ensures
            r == (ConfigError::Invalid { path, message }),
    {
        ConfigError::Invalid { path, message }
    }

    /// The error in words.
    pub fn message(&self) -> (r: String)
        ensures
            r@ == config_error_text(*self),
    {
        match self {
            ConfigError::AnchorForbidden { line } => {
                let n = decimal(*line as u64);
                cat3("YAML anchors/aliases are not allowed (line ", n.as_str(), ")")
            },
            ConfigError::EnvMissing { name, path } => cat5(
                "environment variable \"",
                name.as_str(),
                "\" referenced at ",
                path.as_str(),
                " is not set",
            ),
            ConfigError::Invalid { path, message } => cat3(path.as_str(), ": ", message.as_str()),
        }
    }
}

/// What an error says.
pub open spec fn config_error_text(e: ConfigError) -> Seq<char> {
    match e {
        ConfigError::AnchorForbidden { line } => "YAML anchors/aliases are not allowed (line "@
            + chars(dec(line as nat)) + ")"@,
        ConfigError::EnvMissing { name, path } => "environment variable \""@ + name@
            + "\" referenced at "@ + path@ + " is not set"@,
        ConfigError::Invalid { path, message } => path@ + ": "@ + message@,
    }
}

} // verus!
