//! Framed responses: a body, the content type that names how the body was
//! produced, and the body's length.

use std::collections::HashMap;
use vstd::prelude::*;
use crate::http::{
    empty_response, held_body, held_length, held_media_type, media_type, media_type_text,
    with_body, with_content_length, with_content_type,
};
use crate::json::{json_text, to_vec};
use crate::tlv::encode::encode;
use crate::tlv::format::{encoding, entries};
use crate::tlv::views::payloads;

verus! {

/// How a response body was produced.
#[derive(Clone, Copy, Debug, PartialEq, Eq, Structural)]
pub enum HapContentType {
    /// The body is a type-length-value stream.
    PairingTLV8,
    /// The body is JSON text.
    HapJson,
}

impl HapContentType {
    /// The media type that names this content type on the wire.
    pub open spec fn designation(self) -> Seq<char> {
        match self {
            HapContentType::PairingTLV8 => "application/pairing+tlv8"@,
            HapContentType::HapJson => "application/hap+json"@,
        }
    }

    /// Returns the media type that names this content type on the wire.
    pub fn as_str(&self) -> (name: &'static str)
        ensures
            name@ == self.designation(),
    {
        match self {
            HapContentType::PairingTLV8 => "application/pairing+tlv8",
            HapContentType::HapJson => "application/hap+json",
        }
    }

    /// Returns this content type as a `Content-Type` header of `hyper`.
    pub fn for_hyper(&self) -> (header: hyper::header::ContentType)
        ensures
            media_type_text(header) == self.designation(),
    {
        media_type(self.as_str())
    }
}

/// The two content types have different media types.
pub proof fn lemma_designations_differ()
    ensures
        HapContentType::PairingTLV8.designation() != HapContentType::HapJson.designation(),
{
    reveal_strlit("application/pairing+tlv8");
    reveal_strlit("application/hap+json");
    assert(HapContentType::PairingTLV8.designation().len() == 24);
    assert(HapContentType::HapJson.designation().len() == 20);
}

/// What a response holds.
pub struct HapResponseView {
    pub body: Seq<u8>,
    pub content_type: HapContentType,
    pub content_length: nat,
}

/// The response that frames `body` as `content_type`: its content length is
/// the length of the body.
pub open spec fn framed(body: Seq<u8>, content_type: HapContentType) -> HapResponseView {
    HapResponseView { body, content_type, content_length: body.len() }
}

/// A response ready to be sent. Its content length is always the length of
/// its body.
#[derive(Debug)]
pub struct HapResponse {
    body: Vec<u8>,
    content_type: HapContentType,
    content_length: u64,
}

impl View for HapResponse {
    type V = HapResponseView;

    closed spec fn view(&self) -> HapResponseView {
        HapResponseView {
            body: self.body@,
            content_type: self.content_type,
            content_length: self.content_length as nat,
        }
    }
}

impl HapResponse {
    #[verifier::type_invariant]
    spec fn consistent(&self) -> bool {
        self.content_length == self.body@.len()
    }

    /// The body.
    pub fn body(&self) -> (body: &[u8])
        ensures
            body@ == self@.body,
    {
        self.body.as_slice()
    }

    /// The content type.
    pub fn content_type(&self) -> (content_type: HapContentType)
        ensures
            content_type == self@.content_type,
    {
        self.content_type
    }

    /// The content length, which is the length of the body.
    pub fn content_length(&self) -> (length: u64)
        ensures
            length == self@.content_length,
            length == self@.body.len(),
    {
        proof {
            use_type_invariant(self);
        }
        self.content_length
    }

    /// Hands the response to `hyper`: a response of its own with the
    /// content length and the content type as headers, and the body.
    pub fn into_hyper(self) -> (out: hyper::server::Response)
        ensures
            held_body(out) == Some(self@.body),
            held_length(out) == Some(self@.body.len() as u64),
            held_media_type(out) == Some(self@.content_type.designation()),
    {
        proof {
            use_type_invariant(&self);
        }
        let content_type = self.content_type.for_hyper();
        let head = with_content_type(
            with_content_length(empty_response(), self.content_length),
            content_type,
        );
        with_body(head, self.body)
    }
}

/// Why no response was built.
#[derive(Clone, Copy, Debug, PartialEq, Eq, Structural)]
pub enum ResponseError {
    /// The serializer could not represent the value.
    SerializationFailure,
}

/// Frames `body` as `content_type`.
pub fn response(body: Vec<u8>, content_type: HapContentType) -> (out: HapResponse)
    ensures
        out@ == framed(body@, content_type),
{
    let content_length = body.len() as u64;
    HapResponse { body, content_type, content_length }
}

/// Builds the response that carries a mapping of tags to payloads as a
/// type-length-value stream.
pub fn tlv_response(answer: HashMap<u8, Vec<u8>>) -> (out: HapResponse)
    ensures
        out@ == framed(encoding(entries(payloads(answer@))), HapContentType::PairingTLV8),
{
    let body = encode(answer);
    response(body, HapContentType::PairingTLV8)
}

/// The response for what the serializer made of a value, or the failure
/// where it made nothing of it.
pub open spec fn json_outcome(text: Option<Seq<u8>>) -> Result<HapResponseView, ResponseError> {
    match text {
        Some(body) => Ok(framed(body, HapContentType::HapJson)),
        None => Err(ResponseError::SerializationFailure),
    }
}

/// Builds the response for the outcome of serializing a value: the JSON
/// text as body where there is one, a serialization failure where there is
/// none.
pub fn json_response_from(serialized: Result<Vec<u8>, serde_json::Error>) -> (out: Result<
    HapResponse,
    ResponseError,
>)
    ensures
        match serialized {
            Ok(text) => out is Ok && out->Ok_0@ == framed(text@, HapContentType::HapJson),
            Err(_) => out is Err && out->Err_0 == ResponseError::SerializationFailure,
        },
{
    match serialized {
        Ok(text) => Ok(response(text, HapContentType::HapJson)),
        Err(_) => Err(ResponseError::SerializationFailure),
    }
}

/// Builds the response that carries a value as JSON text, or reports that
/// the serializer could not represent the value.
pub fn json_response(answer: serde_json::Value) -> (out: Result<HapResponse, ResponseError>)
    ensures
        match out {
            Ok(response) => json_outcome(json_text(answer)) == Ok::<_, ResponseError>(response@),
            Err(error) => json_outcome(json_text(answer)) == Err::<HapResponseView, _>(error),
        },
{
    json_response_from(to_vec(&answer))
}

} // verus!
