//! A permissive, recursive parser for MIME-formatted documents.
//!
//! The parser turns a raw document (an email message or similar multipart
//! container) into a tree of headers and body sections.  It tolerates
//! real-world deviations from the MIME specification — folded headers,
//! inconsistent casing, missing or malformed boundaries, nested multipart
//! structures — and degrades to best-effort structural output instead of
//! failing wherever it can.
//!
//! Every executable function is specified against a byte-level mathematical
//! model of the grammar (`Seq<u8>` obtained from the UTF-8 encoding of the
//! input) and verified against it.

#![allow(unused_imports)]

pub mod bytes;
pub mod scan;
pub mod text;
pub mod headers;
pub mod detect;
pub mod split;
pub mod section;
pub mod message;
pub mod render;
pub mod laws;
pub mod folding;

pub use headers::Header;
pub use message::Message;
pub use section::Section;

use vstd::prelude::*;

verus! {

/// Error type for a failed parse.
///
/// The parser is permissive and tries to parse input as best as it can, so
/// very few errors are possible.
#[derive(Debug, PartialEq, Eq, Clone, Copy, Structural)]
pub enum Error {
    /// Reserved catch-all; not raised by any normal path.
    Unknown,
    /// The document lacks the minimal structural shape expected: empty input,
    /// missing header/body separation, or a missing boundary declaration for
    /// a document classified as multipart.
    InvalidString,
    /// A boundary was declared but its value could not be extracted.
    ParseError,
}

impl Error {
    /// A human-readable description of the error.
    pub fn describe(&self) -> (r: &'static str)
        ensures
            *self == Error::Unknown ==> r@ == "Error parsing message: Unknown error"@,
            *self == Error::InvalidString ==> r@ == "Error parsing message: Invalid string"@,
            *self == Error::ParseError ==> r@ == "Error parsing message: Invalid document"@,
    {
        match self {
            Error::Unknown => "Error parsing message: Unknown error",
            Error::InvalidString => "Error parsing message: Invalid string",
            Error::ParseError => "Error parsing message: Invalid document",
        }
    }
}

} // verus!
