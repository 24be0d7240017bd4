//! Wire formats of an accessory-control protocol server: the numeric status
//! vocabulary, the chunked type-length-value codec used during pairing, and
//! the construction of framed responses.

pub mod http;
pub mod json;
pub mod response;
pub mod status;
pub mod tlv;
