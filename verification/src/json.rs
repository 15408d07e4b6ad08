//! Reading a JSON object of string values, such as `{"net.core.somaxconn": "1024"}`.
use vstd::prelude::*;
use crate::string_map::{StringMap, entries_view, fold_pairs};

verus! {

#[verifier::external_type_specification]
#[verifier::external_body]
pub struct ExJsonError(serde_json::Error);

/// A JSON string body that needs no escape: no quote, no backslash, no control character.
pub open spec fn json_plain_string(s: Seq<char>) -> bool {
    forall|i: int| 0 <= i < s.len() ==> s[i] != '"' && s[i] != '\\' && (s[i] as int) >= 0x20
}

/// Keys and values that all need no escape.
pub open spec fn json_plain_entries(e: Seq<(Seq<char>, Seq<char>)>) -> bool {
    forall|i: int| 0 <= i < e.len() ==> json_plain_string(#[trigger] e[i].0) && json_plain_string(e[i].1)
}

/// JSON whitespace: spaces, tabs, line feeds and carriage returns.
pub open spec fn json_whitespace(ws: Seq<char>) -> bool {
    forall|i: int| 0 <= i < ws.len() ==> ws[i] == ' ' || ws[i] == '\t' || ws[i] == '\n' || ws[i] == '\r'
}

/// The JSON member `"key":<ws>"value"`.
pub open spec fn json_member(k: Seq<char>, v: Seq<char>, ws: Seq<char>) -> Seq<char> {
    seq!['"'] + k + seq!['"', ':'] + ws + seq!['"'] + v + seq!['"']
}

/// The members of `e`, in order, separated by `,<ws>`.
pub open spec fn json_members(e: Seq<(Seq<char>, Seq<char>)>, ws: Seq<char>) -> Seq<char>
    decreases e.len(),
{
    if e.len() == 0 {
        Seq::empty()
    } else if e.len() == 1 {
        json_member(e[0].0, e[0].1, ws)
    } else {
        json_members(e.drop_last(), ws) + seq![','] + ws + json_member(e.last().0, e.last().1, ws)
    }
}

/// The text of the JSON object whose members are the entries of `e`, in order, written
/// `{"k1":<ws>"v1",<ws>"k2":<ws>"v2"}` (for instance `{"a": "1", "b": "2"}` with one space).
pub open spec fn json_object_text(e: Seq<(Seq<char>, Seq<char>)>, ws: Seq<char>) -> Seq<char> {
    seq!['{'] + json_members(e, ws) + seq!['}']
}

/// The entries of the JSON object that `text` holds, in ascending key order, where `text`
/// is a JSON object whose values are all strings; `None` where it is not.
pub uninterp spec fn json_string_map(text: Seq<char>) -> Option<Seq<(Seq<char>, Seq<char>)>>;

/// Calls `serde_json::from_str` to read `text` as a `BTreeMap<String, String>` and hands
/// out the map's entries in the map's order. Claimed of it: the call succeeds exactly when
/// `json_string_map(text@)` is `Some`, and the entries are then that value; and, where
/// `text` is the text of an object whose keys and values need no escape, the call succeeds
/// and each key of the object comes out once, with the value of its last member (serde fills
/// the map by `insert`, one member after the other).
#[verifier::external_body]
fn parse_json_string_map(text: &str) -> (r: Result<Vec<(String, String)>, serde_json::Error>)
    ensures
        r is Ok <==> json_string_map(text@) is Some,
        r matches Ok(pairs) ==> json_string_map(text@) == Some(entries_view(pairs@)),
        r is Err ==> forall|e: Seq<(Seq<char>, Seq<char>)>, ws: Seq<char>|
            !(#[trigger] json_object_text(e, ws) == text@ && json_plain_entries(e) && json_whitespace(ws)),
        r matches Ok(pairs) ==> forall|e: Seq<(Seq<char>, Seq<char>)>, ws: Seq<char>|
            #[trigger] json_object_text(e, ws) == text@ && json_plain_entries(e) && json_whitespace(ws)
                ==> fold_pairs(entries_view(pairs@)) == fold_pairs(e),
{
    serde_json::from_str::<std::collections::BTreeMap<String, String>>(text).map(
        |m| m.into_iter().collect(),
    )
}

/// Why a text could not be read as a map of sysctls.
#[derive(Debug)]
pub enum SysctlsParseError {
    /// The text is not a JSON object whose values are all strings.
    Json(serde_json::Error),
}

/// Reads `text` as a JSON object of string values, such as
/// `{"net.ipv4.ip_local_port_range": "1024 65000"}`, into a map.
pub fn parse_sysctl_map(text: &str) -> (r: Result<StringMap, SysctlsParseError>)
    ensures
        r is Ok <==> json_string_map(text@) is Some,
        r matches Ok(m) ==> m@ == fold_pairs(json_string_map(text@)->0),
        forall|e: Seq<(Seq<char>, Seq<char>)>, ws: Seq<char>|
            #[trigger] json_object_text(e, ws) == text@ && json_plain_entries(e) && json_whitespace(ws)
                ==> (r matches Ok(m) && m@ == fold_pairs(e)),
{
    match parse_json_string_map(text) {
        Ok(pairs) => Ok(StringMap::from_pairs(&pairs)),
        Err(e) => Err(SysctlsParseError::Json(e)),
    }
}

} // verus!
