//! The structured serializer, as far as responses use it.

use vstd::prelude::*;

verus! {

/// A JSON value of `serde_json`. Nothing of its contents is visible here:
/// a value is only handed on to the serializer.
#[verifier::external_type_specification]
#[verifier::external_body]
pub struct ExValue(serde_json::Value);

/// The error of `serde_json`. Nothing of its contents is visible here.
#[verifier::external_type_specification]
#[verifier::external_body]
pub struct ExError(serde_json::Error);

/// The JSON text that `serde_json::to_vec` writes for a value, or `None`
/// where it refuses the value. Nothing more is said of it than that it
/// depends on the value alone.
pub uninterp spec fn json_text(value: serde_json::Value) -> Option<Seq<u8>>;

/// Calls `serde_json::to_vec`. Not proved: that the call succeeds exactly
/// where `json_text` is `Some`, and then returns that text.
#[verifier::external_body]
pub(crate) fn to_vec(value: &serde_json::Value) -> (result: Result<Vec<u8>, serde_json::Error>)
    ensures
        match result {
            Ok(text) => json_text(*value) == Some(text@),
            Err(_) => json_text(*value) is None,
        },
{
    serde_json::to_vec(value)
}

} // verus!
