//! Reading single values out of JSON text.

use crate::text::views;
use vstd::prelude::*;

verus! {

/// The integer from 0 to 2^64 - 1 that `serde_json` finds under `name` in the JSON text `text`;
/// `None` if the text is not JSON, is not an object, or has no such integer there.
pub uninterp spec fn json_whole_of(text: Seq<char>, name: Seq<char>) -> Option<u64>;

/// The integer under `name` in the JSON object in `text`, by `serde_json::from_str`, `Value::get`
/// and `Value::as_u64`.
///
/// Trusted: that the result depends on the two texts alone. What it is for a given text is not
/// stated.
#[verifier::external_body]
pub(crate) fn json_whole(text: &str, name: &str) -> (r: Option<u64>)
    ensures
        r == json_whole_of(text@, name@),
{
    let value: serde_json::Value = serde_json::from_str(text).ok()?;
    value.get(name)?.as_u64()
}

/// The strings that `serde_json` reads from the JSON text `text`; `None` if the text is not a JSON
/// array of strings.
pub uninterp spec fn json_strings_of(text: Seq<char>) -> Option<Seq<Seq<char>>>;

/// The strings of the JSON array in `text`, by `serde_json::from_str`.
///
/// Trusted: that the result depends on the text alone. What it is for a given text is not stated.
#[verifier::external_body]
pub(crate) fn json_strings(text: &str) -> (r: Option<Vec<String>>)
    ensures
        (match r {
            Some(v) => Some(views(v@)),
            None => None,
        }) == json_strings_of(text@),
{
    serde_json::from_str::<Vec<String>>(text).ok()
}

} // verus!
