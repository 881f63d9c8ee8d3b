//! Error taxonomy of the transport layer.

use vstd::prelude::*;

verus! {

/// How a codec operation fails.
///
/// - `Truncated`: the input ended before a complete value was read; on a
///   stream this is the peer disconnecting mid-frame, an I/O-level fault,
///   never a statement about the bytes that did arrive.
/// - `Protocol`: structurally invalid data (wrong marker, a length field
///   inconsistent with what follows, a non-canonical integer encoding, an
///   unrecognized status byte). The stream is no longer framing-aligned.
/// - `Encoding`: a string that is not valid UTF-8 on decode, or a size
///   that overflows a fixed-width wire field on encode.
#[derive(Clone, Copy, Debug, PartialEq, Eq)]
pub enum CodecError {
    Truncated,
    Protocol,
    Encoding,
}

impl CodecError {
    /// A short description, for callers that report errors as text.
    pub fn message(&self) -> (r: &'static str)
        ensures
            *self is Truncated ==> r@ == "input ended before a complete value"@,
            *self is Protocol ==> r@ == "structurally invalid data"@,
            *self is Encoding ==> r@ == "invalid string or oversized field"@,
    {
        match self {
            CodecError::Truncated => "input ended before a complete value",
            CodecError::Protocol => "structurally invalid data",
            CodecError::Encoding => "invalid string or oversized field",
        }
    }
}

} // verus!
