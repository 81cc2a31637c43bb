//! The few JSON facts the bus needs from its payloads, read and written by
//! serde_json.
use vstd::prelude::*;
use vstd::utf8::{decode_utf8, encode_utf8, valid_utf8};

verus! {

/// The JSON text of a string.
pub uninterp spec fn json_string_of(s: Seq<char>) -> Seq<u8>;

/// Whether no character of `s` needs an escape in JSON: no quote, no
/// backslash, no control character below U+0020.
pub open spec fn needs_no_escape(s: Seq<char>) -> bool {
    forall|i: int| 0 <= i < s.len() ==> s[i] != '"' && s[i] != '\\' && (s[i] as u32) >= 32
}

/// Relies on serde_json::to_vec: the JSON text of a string, quoted and
/// escaped; serde_json escapes only quotes, backslashes and the characters
/// below U+0020, and copies every other byte as it is. Writing a string into
/// a vector cannot fail.
#[verifier::external_body]
pub(crate) fn json_string(s: &str) -> (r: Vec<u8>)
    ensures
        r@ == json_string_of(s@),
        needs_no_escape(s@) ==> r@ == seq![34u8] + encode_utf8(s@) + seq![34u8],
{
    serde_json::to_vec(s).unwrap()
}

/// The string member `key` of the JSON object that `body` holds, if `body`
/// is JSON text of an object with such a member.
pub uninterp spec fn json_string_member(body: Seq<u8>, key: Seq<char>) -> Option<Seq<char>>;

/// Relies on serde_json::from_slice to read `body` as a serde_json::Value,
/// and on Value::get and Value::as_str to pick the string member `key`.
#[verifier::external_body]
pub(crate) fn string_member(body: &[u8], key: &str) -> (r: Option<String>)
    ensures
        match r {
            Some(s) => json_string_member(body@, key@) == Some(s@),
            None => json_string_member(body@, key@) is None,
        },
{
    let value: serde_json::Value = match serde_json::from_slice(body) {
        Ok(value) => value,
        Err(_) => return None,
    };
    match value.get(key) {
        Some(member) => member.as_str().map(String::from),
        None => None,
    }
}

/// The JSON text of member `key` of the JSON object that `body` holds, if
/// `body` is JSON text of an object with such a member.
pub uninterp spec fn json_member_of(body: Seq<u8>, key: Seq<char>) -> Option<Seq<u8>>;

/// Relies on serde_json::from_slice to read `body` as a serde_json::Value,
/// on Value::get to pick the member `key`, and on serde_json::to_vec to write
/// that member back as JSON text, which cannot fail for a Value.
#[verifier::external_body]
pub(crate) fn json_member(body: &[u8], key: &str) -> (r: Option<Vec<u8>>)
    ensures
        match r {
            Some(v) => json_member_of(body@, key@) == Some(v@),
            None => json_member_of(body@, key@) is None,
        },
{
    let value: serde_json::Value = match serde_json::from_slice(body) {
        Ok(value) => value,
        Err(_) => return None,
    };
    match value.get(key) {
        Some(member) => serde_json::to_vec(member).ok(),
        None => None,
    }
}

/// Relies on std::str::from_utf8: it accepts exactly the well-formed UTF-8
/// byte strings, and the text it gives holds the characters they encode.
#[verifier::external_body]
pub(crate) fn utf8_text(b: &[u8]) -> (r: Option<String>)
    ensures
        match r {
            Some(s) => valid_utf8(b@) && s@ == decode_utf8(b@),
            None => !valid_utf8(b@),
        },
{
    match std::str::from_utf8(b) {
        Ok(s) => Some(s.to_string()),
        Err(_) => None,
    }
}

} // verus!
