//! Decoding one raw line into its `type` key.
//!
//! A line decodes successfully when it is a JSON object with a field named
//! `type` whose value is a string; the decoded key is the UTF-8 bytes of that
//! string. Every other line yields a human-readable description of why it was
//! rejected. The JSON parsing itself is done by `serde_json`; its outcome on
//! a given line is a pure function of the line's bytes, named here by
//! `decode_of`.

use vstd::prelude::*;

verus! {

/// The decode outcome for a line's bytes: `Ok` carries the UTF-8 bytes of the
/// line's `type` field, `Err` the description of why decoding failed.
///
/// This names the result of the `serde_json`-backed decoding in `decode_line`;
/// it is a function of the line's bytes alone.
pub uninterp spec fn decode_of(line: Seq<u8>) -> Result<Seq<u8>, Seq<char>>;

/// The mathematical value of an executable decode outcome.
pub open spec fn decode_view(r: Result<Vec<u8>, String>) -> Result<Seq<u8>, Seq<char>> {
    match r {
        Ok(key) => Ok(key@),
        Err(msg) => Err(msg@),
    }
}

/// Relies on `serde_json::from_slice::<Value>`, `Value::get` and
/// `Value::as_str` to parse a line and extract its `type` field; the error
/// wording follows `serde_json`'s own messages. The outcome depends only on
/// the line's bytes, which is what `decode_of` names.
#[verifier::external_body]
pub(crate) fn decode_line(line: &[u8]) -> (r: Result<Vec<u8>, String>)
    ensures
        decode_view(r) == decode_of(line@),
{
    match serde_json::from_slice::<serde_json::Value>(line) {
        Ok(value) => match value.get("type") {
            Some(field) => match field.as_str() {
                Some(key) => Ok(key.as_bytes().to_vec()),
                None => Err(String::from("invalid type: field `type` is not a string")),
            },
            None => Err(String::from("missing field `type`")),
        },
        Err(err) => Err(err.to_string()),
    }
}

} // verus!
