//! The HTTP library's response and header types, as far as responses are
//! handed to it.

use vstd::prelude::*;

verus! {

/// The response of `hyper`. Its fields are not visible here: what it holds
/// is read through `held_length`, `held_media_type` and `held_body`.
#[verifier::external_type_specification]
#[verifier::external_body]
#[verifier::reject_recursive_types(B)]
pub struct ExResponse<B>(hyper::server::Response<B>);

/// The body of a `hyper` response, which the response type is declared
/// over. Nothing of its contents is visible here.
#[verifier::external_type_specification]
#[verifier::external_body]
pub struct ExBody(hyper::Body);

/// The `Content-Type` header of `hyper`. Its field is not visible here: what
/// it holds is read through `media_type_text`.
#[verifier::external_type_specification]
#[verifier::external_body]
pub struct ExContentType(hyper::header::ContentType);

/// The media type of a `Content-Type` header, as the header writes it.
pub uninterp spec fn media_type_text(header: hyper::header::ContentType) -> Seq<char>;

/// The value of the `Content-Length` header of a response, if it has that
/// header: what `headers().get::<ContentLength>()` gives.
pub uninterp spec fn held_length(response: hyper::server::Response) -> Option<u64>;

/// The media type of the `Content-Type` header of a response, if it has that
/// header: what `headers().get::<ContentType>()` gives, as the header
/// writes it.
pub uninterp spec fn held_media_type(response: hyper::server::Response) -> Option<Seq<char>>;

/// The bytes of the body of a response, if a body was set.
pub uninterp spec fn held_body(response: hyper::server::Response) -> Option<Seq<u8>>;

/// Parses a media type with `mime`'s `FromStr` and wraps it in `hyper`'s
/// `Content-Type` header. Not proved: that the parser accepts the two media
/// types that `requires` admits, so that the call returns, and that the
/// header then writes the media type as it was given.
#[verifier::external_body]
pub(crate) fn media_type(name: &str) -> (header: hyper::header::ContentType)
    requires
        name@ == "application/pairing+tlv8"@ || name@ == "application/hap+json"@,
    ensures
        media_type_text(header) == name@,
{
    hyper::header::ContentType(name.parse().unwrap())
}

/// Calls `hyper::server::Response::new`. Not proved: that the new response
/// has neither of the two headers and no body.
#[verifier::external_body]
pub(crate) fn empty_response() -> (out: hyper::server::Response)
    ensures
        held_length(out) is None,
        held_media_type(out) is None,
        held_body(out) is None,
{
    hyper::server::Response::new()
}

/// Calls `hyper::server::Response::with_header` with a `Content-Length`
/// header. Not proved: that the response then has that header with the
/// length given, and its `Content-Type` header and its body as before.
#[verifier::external_body]
pub(crate) fn with_content_length(response: hyper::server::Response, length: u64) -> (out:
    hyper::server::Response)
    ensures
        held_length(out) == Some(length),
        held_media_type(out) == held_media_type(response),
        held_body(out) == held_body(response),
{
    response.with_header(hyper::header::ContentLength(length))
}

/// Calls `hyper::server::Response::with_header` with a `Content-Type`
/// header. Not proved: that the response then has that header, and its
/// `Content-Length` header and its body as before.
#[verifier::external_body]
pub(crate) fn with_content_type(
    response: hyper::server::Response,
    content_type: hyper::header::ContentType,
) -> (out: hyper::server::Response)
    ensures
        held_media_type(out) == Some(media_type_text(content_type)),
        held_length(out) == held_length(response),
        held_body(out) == held_body(response),
{
    response.with_header(content_type)
}

/// Calls `hyper::server::Response::with_body`. Not proved: that the
/// response then has the bytes given as its body, and its headers as before.
#[verifier::external_body]
pub(crate) fn with_body(response: hyper::server::Response, body: Vec<u8>) -> (out:
    hyper::server::Response)
    ensures
        held_body(out) == Some(body@),
        held_length(out) == held_length(response),
        held_media_type(out) == held_media_type(response),
{
    response.with_body(body)
}

} // verus!
