//! JSON text: what modules describe themselves with and are configured by.

use serde_json::Value;
use vstd::prelude::*;
use vstd::string::*;

verus! {

/// A parsed JSON document.
#[verifier::external_type_specification]
#[verifier::external_body]
pub struct ExValue(serde_json::Value);

/// Why `serde_json` refused a document.
#[verifier::external_type_specification]
#[verifier::external_body]
pub struct ExError(serde_json::Error);

/// What `serde_json` reads a document as, `None` where it refuses it.
pub uninterp spec fn json_of(document: Seq<u8>) -> Option<Value>;

/// The member of an object under a key.
pub uninterp spec fn json_member(v: Value, key: Seq<char>) -> Option<Value>;

/// The value as an unsigned integer, where it is one.
pub uninterp spec fn json_number(v: Value) -> Option<u64>;

/// The value as an array, where it is one.
pub uninterp spec fn json_items(v: Value) -> Option<Seq<Value>>;

/// The value as a string, where it is one.
pub uninterp spec fn json_string(v: Value) -> Option<Seq<char>>;

/// Calls `serde_json::from_slice` for a document of any shape: a function of
/// the bytes alone.
#[verifier::external_body]
pub(crate) fn read_json(document: &[u8]) -> (r: Result<Value, serde_json::Error>)
    ensures
        match r {
            Ok(v) => json_of(document@) == Some(v),
            Err(_) => json_of(document@) is None,
        },
{
    serde_json::from_slice(document)
}

/// Calls `Value::get` of `serde_json` with a string: a function of the value
/// and the key, `None` where the value is no object or has no such member.
#[verifier::external_body]
pub(crate) fn member<'a>(v: &'a Value, key: &str) -> (r: Option<&'a Value>)
    ensures
        match r {
            Some(m) => json_member(*v, key@) == Some(*m),
            None => json_member(*v, key@) is None,
        },
{
    v.get(key)
}

/// Calls `Value::as_u64` of `serde_json`: a function of the value alone.
#[verifier::external_body]
pub(crate) fn as_number(v: &Value) -> (r: Option<u64>)
    ensures
        r == json_number(*v),
{
    v.as_u64()
}

/// Calls `Value::as_array` of `serde_json`: a function of the value alone.
#[verifier::external_body]
pub(crate) fn as_items(v: &Value) -> (r: Option<&Vec<Value>>)
    ensures
        match r {
            Some(items) => json_items(*v) == Some(items@),
            None => json_items(*v) is None,
        },
{
    v.as_array()
}

/// Calls `Value::as_str` of `serde_json`: a function of the value alone.
#[verifier::external_body]
pub(crate) fn as_string(v: &Value) -> (r: Option<&str>)
    ensures
        match r {
            Some(s) => json_string(*v) == Some(s@),
            None => json_string(*v) is None,
        },
{
    v.as_str()
}

/// A lower-case hexadecimal digit.
pub open spec fn hex_char(n: int) -> char {
    if n < 10 {
        (48 + n) as char
    } else {
        (87 + n) as char
    }
}

/// A character as a JSON string holds it.
pub open spec fn json_char(c: char) -> Seq<char> {
    let u = c as int;
    if c == '"' || c == '\\' {
        seq!['\\', c]
    } else if u == 8 {
        seq!['\\', 'b']
    } else if u == 9 {
        seq!['\\', 't']
    } else if u == 10 {
        seq!['\\', 'n']
    } else if u == 12 {
        seq!['\\', 'f']
    } else if u == 13 {
        seq!['\\', 'r']
    } else if u < 32 {
        seq!['\\', 'u', '0', '0', hex_char(u / 16), hex_char(u % 16)]
    } else {
        seq![c]
    }
}

pub open spec fn json_chars(s: Seq<char>) -> Seq<char>
    decreases s.len(),
{
    if s.len() == 0 {
        seq![]
    } else {
        json_chars(s.drop_last()) + json_char(s.last())
    }
}

/// A text as a JSON string.
pub open spec fn json_text(s: Seq<char>) -> Seq<char> {
    seq!['"'] + json_chars(s) + seq!['"']
}

/// Calls `serde_json::to_string` on a string, which never fails: the text
/// between quotes, with quotes, backslashes and the control characters below
/// the space escaped.
#[verifier::external_body]
pub(crate) fn quote(s: &str) -> (r: String)
    ensures
        r@ == json_text(s@),
{
    serde_json::to_string(s).unwrap_or_default()
}

/// An optional text: the JSON string, or null.
pub open spec fn json_option(s: Option<Seq<char>>) -> Seq<char> {
    match s {
        Some(s) => json_text(s),
        None => "null"@,
    }
}

/// JSON strings, separated by commas.
pub open spec fn json_list(items: Seq<Seq<char>>) -> Seq<char>
    decreases items.len(),
{
    if items.len() == 0 {
        seq![]
    } else if items.len() == 1 {
        json_text(items[0])
    } else {
        json_list(items.drop_last()) + seq![','] + json_text(items.last())
    }
}

/// Members of an object whose values are strings, separated by commas.
pub open spec fn json_members(pairs: Seq<(Seq<char>, Seq<char>)>) -> Seq<char>
    decreases pairs.len(),
{
    if pairs.len() == 0 {
        seq![]
    } else {
        let one = json_text(pairs.last().0) + seq![':'] + json_text(pairs.last().1);
        if pairs.len() == 1 {
            one
        } else {
            json_members(pairs.drop_last()) + seq![','] + one
        }
    }
}

/// The string, or null.
pub fn quote_option(s: &Option<String>) -> (r: String)
    ensures
        r@ == json_option(
            match *s {
                Some(s) => Some(s@),
                None => None,
            },
        ),
{
    match s {
        Some(s) => quote(s.as_str()),
        None => "null".to_owned(),
    }
}

} // verus!
