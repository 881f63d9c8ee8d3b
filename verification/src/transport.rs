//! Fixed-header codec.
//!
//! Every frame opens with a constant-size header: a two-byte marker, a
//! big-endian total length, the request id, a status byte, the protocol
//! version, and the byte length of the variable-header section that
//! follows. The total length counts everything after its own field:
//! request id, status, version, the variable-header-size field, the
//! variable headers and the body.

use vstd::prelude::*;

use crate::endian::{
    be32_bytes, be32_value, be64_bytes, be64_value, encode_be32, encode_be64, lemma_be32_round_trip,
    lemma_be32_unparse, lemma_be64_round_trip, lemma_be64_unparse, read_be32, read_be64,
};
use crate::error::CodecError;
use crate::transport_status::{STATUS_COMPRESS, STATUS_ERROR, STATUS_HANDSHAKE, STATUS_REQRES};

verus! {

/// First marker byte, `'E'`.
pub const MARKER_FIRST: u8 = 0x45;

/// Second marker byte, `'S'`.
pub const MARKER_SECOND: u8 = 0x53;

/// Bytes of the header that the total length counts besides the variable
/// headers and the body: request id (8), status (1), version (4) and the
/// variable-header-size field (4).
pub const FIXED_CONTENT_SIZE: u32 = 17;

/// Total size of an encoded fixed header, marker and length field included.
pub const HEADER_SIZE: usize = 23;

/// The constant-size header that opens every frame.
#[derive(Clone, Copy, Debug, PartialEq, Eq, Structural)]
pub struct TransportTcpHeader {
    /// Bytes following this field on the wire: `17 + variable_header_size
    /// + body length`.
    pub message_length: u32,
    /// Caller-assigned correlation id, echoed verbatim in the response.
    pub request_id: u64,
    /// Status flag byte.
    pub status: u8,
    /// Protocol version, negotiated during the handshake.
    pub version: u32,
    /// Exact byte length of the serialized variable-header section.
    pub variable_header_size: u32,
}

/// True when `b` opens with the two marker bytes.
pub open spec fn marker_ok(b: Seq<u8>) -> bool {
    b.len() >= 2 && b[0] == MARKER_FIRST && b[1] == MARKER_SECOND
}

/// The 23 bytes of an encoded header.
pub open spec fn spec_header_bytes(h: TransportTcpHeader) -> Seq<u8> {
    seq![MARKER_FIRST, MARKER_SECOND] + be32_bytes(h.message_length) + be64_bytes(h.request_id)
        + seq![h.status] + be32_bytes(h.version) + be32_bytes(h.variable_header_size)
}

/// The header read from the front of `b`, when `b` is long enough and
/// opens with the marker.
pub open spec fn spec_parse_header(b: Seq<u8>) -> Option<TransportTcpHeader> {
    if b.len() >= HEADER_SIZE && marker_ok(b) {
        Some(
            TransportTcpHeader {
                message_length: be32_value(b.subrange(2, 6)),
                request_id: be64_value(b.subrange(6, 14)),
                status: b[14],
                version: be32_value(b.subrange(15, 19)),
                variable_header_size: be32_value(b.subrange(19, 23)),
            },
        )
    } else {
        None
    }
}

impl TransportTcpHeader {
    /// Build a header for a frame whose body is `content_size` bytes long
    /// and whose variable headers serialize to `variable_header_size`
    /// bytes. Fails with an encoding error when the total length does not
    /// fit the 32-bit wire field, rather than truncating.
    pub fn new(
        request_id: u64,
        status: u8,
        version: u32,
        content_size: u32,
        variable_header_size: u32,
    ) -> (r: Result<Self, CodecError>)
        ensures
            r matches Ok(h) ==> h == (TransportTcpHeader {
                message_length: (content_size + FIXED_CONTENT_SIZE + variable_header_size) as u32,
                request_id,
                status,
                version,
                variable_header_size,
            }),
            r is Ok <==> content_size + FIXED_CONTENT_SIZE + variable_header_size <= u32::MAX,
            r is Err ==> r == Err::<Self, CodecError>(CodecError::Encoding),
    {
        let total: u64 = content_size as u64 + FIXED_CONTENT_SIZE as u64
            + variable_header_size as u64;
        if total > u32::MAX as u64 {
            return Err(CodecError::Encoding);
        }
        Ok(
            TransportTcpHeader {
                message_length: total as u32,
                request_id,
                status,
                version,
                variable_header_size,
            },
        )
    }

    /// The frame is the opening handshake exchange.
    pub fn is_handshake(&self) -> (r: bool)
        ensures
            r == (self.status == STATUS_HANDSHAKE),
    {
        self.status == STATUS_HANDSHAKE
    }

    /// The frame carries an ordinary request or response.
    pub fn is_request_response(&self) -> (r: bool)
        ensures
            r == (self.status == STATUS_REQRES),
    {
        self.status == STATUS_REQRES
    }

    /// The frame reports a transport-level error.
    pub fn is_error(&self) -> (r: bool)
        ensures
            r == (self.status == STATUS_ERROR),
    {
        self.status == STATUS_ERROR
    }

    /// The frame's payload is compressed.
    pub fn is_compressed(&self) -> (r: bool)
        ensures
            r == (self.status == STATUS_COMPRESS),
    {
        self.status == STATUS_COMPRESS
    }

    /// Serialize the header: marker, then each field big-endian.
    pub fn encode(&self) -> (r: Vec<u8>)
        ensures
            r@ == spec_header_bytes(*self),
            r@.len() == HEADER_SIZE,
    {
        let mut out: Vec<u8> = Vec::new();
        out.push(MARKER_FIRST);
        out.push(MARKER_SECOND);
        encode_be32(self.message_length, &mut out);
        encode_be64(self.request_id, &mut out);
        out.push(self.status);
        encode_be32(self.version, &mut out);
        encode_be32(self.variable_header_size, &mut out);
        proof {
            assert(out@ =~= spec_header_bytes(*self));
        }
        out
    }

    /// Read a header from the front of `b`.
    ///
    /// Anything but the marker in the first two bytes is a protocol
    /// error, decided from those two bytes alone: the stream is no longer
    /// framing-aligned and nothing past the marker is consumed. An input
    /// that ends before the 23rd header byte is a truncation, the mark of
    /// a peer that disconnected mid-frame, never a protocol error.
    pub fn decode(b: &[u8]) -> (r: Result<Self, CodecError>)
        ensures
            r matches Ok(h) ==> spec_parse_header(b@) == Some(h),
            b@.len() >= 23 && marker_ok(b@) ==> (r matches Ok(h) && spec_parse_header(b@) == Some(
                h,
            )),
            r == Err::<Self, CodecError>(CodecError::Protocol) <==> b@.len() >= 2 && !marker_ok(
                b@,
            ),
            r == Err::<Self, CodecError>(CodecError::Truncated) <==> b@.len() < 2 || (marker_ok(b@)
                && b@.len() < 23),
    {
        if b.len() < 2 {
            return Err(CodecError::Truncated);
        }
        if b[0] != MARKER_FIRST || b[1] != MARKER_SECOND {
            return Err(CodecError::Protocol);
        }
        if b.len() < HEADER_SIZE {
            return Err(CodecError::Truncated);
        }
        let message_length = read_be32(b, 2);
        let request_id = read_be64(b, 6);
        let status = b[14];
        let version = read_be32(b, 15);
        let variable_header_size = read_be32(b, 19);
        Ok(TransportTcpHeader { message_length, request_id, status, version, variable_header_size })
    }
}

/// Round trip: parsing an encoded header gives back exactly the header
/// that was encoded, whatever its field values.
pub proof fn lemma_header_round_trip(h: TransportTcpHeader)
    ensures
        spec_parse_header(spec_header_bytes(h)) == Some(h),
{
    let b = spec_header_bytes(h);
    assert(b.len() == 23);
    assert(b.subrange(2, 6) =~= be32_bytes(h.message_length));
    assert(b.subrange(6, 14) =~= be64_bytes(h.request_id));
    assert(b[14] == h.status);
    assert(b.subrange(15, 19) =~= be32_bytes(h.version));
    assert(b.subrange(19, 23) =~= be32_bytes(h.variable_header_size));
    lemma_be32_round_trip(h.message_length);
    lemma_be64_round_trip(h.request_id);
    lemma_be32_round_trip(h.version);
    lemma_be32_round_trip(h.variable_header_size);
}

/// What a successful header parse read is exactly the encoding of the
/// header it returned: re-encoding reproduces the first 23 bytes.
pub proof fn lemma_header_bytes_of_parse(b: Seq<u8>)
    requires
        spec_parse_header(b) is Some,
    ensures
        b.subrange(0, HEADER_SIZE as int) == spec_header_bytes(spec_parse_header(b)->Some_0),
{
    let h = spec_parse_header(b)->Some_0;
    lemma_be32_unparse(b.subrange(2, 6));
    lemma_be64_unparse(b.subrange(6, 14));
    lemma_be32_unparse(b.subrange(15, 19));
    lemma_be32_unparse(b.subrange(19, 23));
    assert(b.subrange(0, HEADER_SIZE as int) =~= spec_header_bytes(h));
}

/// A parsed header depends only on the first 23 bytes: bytes past the
/// fixed header, variable headers or body, cannot change what it says.
pub proof fn lemma_parse_header_prefix(b: Seq<u8>, rest: Seq<u8>)
    requires
        b.len() >= 23,
    ensures
        spec_parse_header(b + rest) == spec_parse_header(b),
{
    let c = b + rest;
    assert(c.subrange(2, 6) =~= b.subrange(2, 6));
    assert(c.subrange(6, 14) =~= b.subrange(6, 14));
    assert(c[14] == b[14]);
    assert(c.subrange(15, 19) =~= b.subrange(15, 19));
    assert(c.subrange(19, 23) =~= b.subrange(19, 23));
}

} // verus!
