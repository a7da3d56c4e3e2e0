//! The boundary to `serde_json`: the tokens of a JSON text.
//!
//! Each of the three readers below hands a run of bytes to `serde_json` and
//! takes back one token. What comes back is a function of the bytes alone, and
//! each reader's contract says no more than that, by a name for the function.

use vstd::prelude::*;

verus! {

/// The JSON string at the start of `text`, decoded, and the number of bytes
/// that it takes up, white space before it included. `None` where `text`
/// does not begin, after white space, with a JSON string.
pub uninterp spec fn json_text(text: Seq<u8>) -> Option<(Seq<char>, int)>;

/// The number of bytes that the JSON value at the start of `text` takes up,
/// white space before it included. `None` where `text` does not begin, after
/// white space, with a JSON value, and where a number or one of `true`,
/// `false` and `null` is followed by a byte other than white space and the
/// marks `"`, `[`, `]`, `{`, `}`, `,` and `:`.
pub uninterp spec fn json_value_len(text: Seq<u8>) -> Option<int>;

/// The integer that `text` denotes, where `serde_json` reads `text` as an
/// `i64`: one JSON number with nothing but white space around it, written
/// without fraction and exponent, within the range of `i64`, and other than
/// `-0`, which `serde_json` holds as a float. `None` for every other text.
pub uninterp spec fn json_integer(text: Seq<u8>) -> Option<i64>;

/// `serde_json::Deserializer::from_slice`, made a `StreamDeserializer` of
/// `String` by `into_iter`, asked once with `next`, and then for its
/// `byte_offset`.
///
/// The contract claims that the outcome is a function of the bytes, the one
/// named `json_text`: the deserializer reads nothing but the slice.
#[verifier::external_body]
pub(crate) fn read_text(text: &[u8]) -> (r: Option<(String, usize)>)
    ensures
        match r {
            Some((decoded, used)) => json_text(text@) == Some((decoded@, used as int)),
            None => json_text(text@) is None,
        },
{
    let mut stream = serde_json::Deserializer::from_slice(text).into_iter::<String>();
    match stream.next() {
        Some(Ok(decoded)) => Some((decoded, stream.byte_offset())),
        _ => None,
    }
}

/// `serde_json::Deserializer::from_slice`, made a `StreamDeserializer` of
/// `serde::de::IgnoredAny` by `into_iter`, asked once with `next`, and then
/// for its `byte_offset`: the value is read through and passed over, not built.
///
/// The contract claims that the outcome is a function of the bytes, the one
/// named `json_value_len`.
#[verifier::external_body]
pub(crate) fn skip_value(text: &[u8]) -> (r: Option<usize>)
    ensures
        match r {
            Some(used) => json_value_len(text@) == Some(used as int),
            None => json_value_len(text@) is None,
        },
{
    let mut stream = serde_json::Deserializer::from_slice(text).into_iter::<serde::de::IgnoredAny>();
    match stream.next() {
        Some(Ok(_)) => Some(stream.byte_offset()),
        _ => None,
    }
}

/// `serde_json::from_slice` at the type `i64`.
///
/// The contract claims that the outcome is a function of the bytes, the one
/// named `json_integer`.
#[verifier::external_body]
pub(crate) fn read_integer(text: &[u8]) -> (r: Option<i64>)
    ensures
        r == json_integer(text@),
{
    serde_json::from_slice::<i64>(text).ok()
}

} // verus!
