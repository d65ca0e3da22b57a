//! The configuration's text as a YAML document.

use serde_norway::Value;
use vstd::prelude::*;

use crate::config::anchors::{anchored, lines, reject_anchors};
use crate::config::ConfigError;

verus! {

/// A YAML value of the `serde_norway` crate.
#[verifier::external_type_specification]
#[verifier::external_body]
pub struct ExYamlValue(serde_norway::Value);

/// Why `serde_norway` refused a document.
#[verifier::external_type_specification]
#[verifier::external_body]
pub struct ExYamlError(serde_norway::Error);

/// What `serde_norway` reads a document as, `None` where it refuses it.
pub uninterp spec fn yaml_of(document: Seq<char>) -> Option<Value>;

/// Calls `serde_norway::from_str` for a document of any shape: a function of
/// the text alone.
#[verifier::external_body]
fn read_yaml(document: &str) -> (r: Result<Value, serde_norway::Error>)
    ensures
        match r {
            Ok(v) => yaml_of(document@) == Some(v),
            Err(_) => yaml_of(document@) is None,
        },
{
    serde_norway::from_str(document)
}

/// A text that is no document.
pub enum DocumentError {
    /// It holds an anchor or alias.
    Refused(ConfigError),
    /// It is no YAML.
    Unreadable(serde_norway::Error),
}

/// A line with an anchor or alias.
pub open spec fn has_anchor(document: Seq<char>) -> bool {
    exists|k: int| 0 <= k < lines(document).len() && anchored(#[trigger] lines(document)[k])
}

/// Read the configuration's text. It is refused where a line holds an anchor or
/// alias, by the first such line, before anything of it is read.
pub fn read_document(document: &str) -> (r: Result<Value, DocumentError>)
    requires
        document@.len() < usize::MAX,
    ensures
        match r {
            Ok(v) => !has_anchor(document@) && yaml_of(document@) == Some(v),
            Err(DocumentError::Refused(e)) => {
                &&& e matches ConfigError::AnchorForbidden { line } && 1 <= line <= lines(
                    document@,
                ).len() && anchored(lines(document@)[line - 1]) && forall|k: int|
                    0 <= k < line - 1 ==> !anchored(#[trigger] lines(document@)[k])
            },
            Err(DocumentError::Unreadable(_)) => !has_anchor(document@) && yaml_of(
                document@,
            ) is None,
        },
{
    match reject_anchors(document) {
        Err(e) => {
            return Err(DocumentError::Refused(e));
        },
        Ok(()) => {},
    }
    match read_yaml(document) {
        Ok(v) => Ok(v),
        Err(e) => Err(DocumentError::Unreadable(e)),
    }
}

} // verus!
