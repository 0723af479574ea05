//! The calls into `serde_json` that turn a message into bytes and bytes into a message.
use vstd::prelude::*;
use vstd::utf8::valid_utf8;

verus! {

#[verifier::external_type_specification]
#[verifier::external_body]
pub struct ExJsonValue(serde_json::Value);

#[verifier::external_type_specification]
#[verifier::external_body]
pub struct ExJsonError(serde_json::Error);

/// What `serde_json::from_slice::<serde_json::Value>` returns on `bytes`: the
/// value of the one JSON text they hold, or the parser's error.
pub uninterp spec fn json_parse(bytes: Seq<u8>) -> Result<serde_json::Value, serde_json::Error>;

/// The bytes of the JSON text that `serde_json::to_vec` writes for `value`.
pub uninterp spec fn json_text(value: serde_json::Value) -> Seq<u8>;

/// Whether `serde_json` accepts `bytes` as one JSON text.
pub open spec fn json_accepts(bytes: Seq<u8>) -> bool {
    json_parse(bytes) is Ok
}

/// Calls `serde_json::from_slice::<serde_json::Value>`. The contract claims
/// that its result depends on the bytes alone: it is `json_parse` of them.
/// What that value or error is, is not stated here.
#[verifier::external_body]
pub(crate) fn json_from_slice(bytes: &[u8]) -> (r: Result<serde_json::Value, serde_json::Error>)
    ensures
        r == json_parse(bytes@),
{
    serde_json::from_slice::<serde_json::Value>(bytes)
}

/// Calls `serde_json::to_vec` on a `Value`. The contract claims that it
/// succeeds, that its bytes depend on the value alone (`json_text`), and what
/// the crate documents of its serialiser: it only produces valid UTF-8.
/// Success holds because a `Value`'s maps have string keys only and writing
/// into a `Vec` cannot fail, the two ways the crate's serialiser can fail.
/// Which bytes `json_text` gives is not stated here.
#[verifier::external_body]
pub(crate) fn json_to_vec(value: &serde_json::Value) -> (r: Result<Vec<u8>, serde_json::Error>)
    ensures
        r is Ok,
        r matches Ok(bytes) ==> bytes@ == json_text(*value) && valid_utf8(bytes@),
{
    serde_json::to_vec(value)
}

} // verus!
