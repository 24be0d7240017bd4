//! The chunked type-length-value codec.
//!
//! A stream is a run of chunks, each one a tag byte, a length byte and that
//! many value bytes. A payload longer than one length byte can express is
//! spread over consecutive chunks that share its tag.

pub mod decode;
pub mod encode;
pub mod format;
pub mod laws;
pub mod views;
