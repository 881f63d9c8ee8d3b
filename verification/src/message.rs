//! Message framer.
//!
//! Composes fixed header, variable headers and body into one wire-ready
//! byte sequence and reverses the process. The framer owns the
//! length-accounting invariant: on the wire, `message_length` equals
//! `17 + variable_header_size + body length`, and a header whose
//! `message_length` falls short of its declared parts is a protocol
//! error, never clamped to an empty body.

use vstd::prelude::*;
use vstd::slice::{slice_subrange, slice_to_vec};

use crate::error::CodecError;
use crate::transport::{
    lemma_header_bytes_of_parse, lemma_header_round_trip, lemma_parse_header_prefix, marker_ok,
    spec_header_bytes, spec_parse_header, TransportTcpHeader, FIXED_CONTENT_SIZE, HEADER_SIZE,
};
use crate::varheader::{
    decode_varheaders, encode_varheaders, lemma_varheaders_encode_of_parse,
    lemma_varheaders_round_trip, spec_parse_varheaders, varheaders_bytes, varheaders_err,
    VariableHeaders, VariableHeadersView,
};

verus! {

/// A complete frame: fixed header, variable headers, opaque body.
#[derive(Clone, Debug, PartialEq, Eq)]
pub struct TransportMessage {
    pub header: TransportTcpHeader,
    pub variable_headers: VariableHeaders,
    pub body: Vec<u8>,
}

/// Mathematical model of a frame.
#[verifier::ext_equal]
pub struct TransportMessageView {
    pub header: TransportTcpHeader,
    pub variable_headers: VariableHeadersView,
    pub body: Seq<u8>,
}

impl TransportMessageView {
    /// The length-accounting invariant: the header's two length fields
    /// agree with the variable headers and the body.
    pub open spec fn wf(self) -> bool {
        self.header.variable_header_size == varheaders_bytes(self.variable_headers).len()
            && self.header.message_length == FIXED_CONTENT_SIZE + varheaders_bytes(
            self.variable_headers,
        ).len() + self.body.len()
    }

    /// The frame's bytes: header, variable headers, body.
    pub open spec fn wire_bytes(self) -> Seq<u8> {
        spec_header_bytes(self.header) + varheaders_bytes(self.variable_headers) + self.body
    }
}

impl View for TransportMessage {
    type V = TransportMessageView;

    open spec fn view(&self) -> TransportMessageView {
        TransportMessageView {
            header: self.header,
            variable_headers: self.variable_headers@,
            body: self.body@,
        }
    }
}

/// The message built from its parts, with both length fields computed.
/// Meaningful when the lengths fit the wire's 32-bit fields.
pub open spec fn spec_build_message(
    request_id: u64,
    status: u8,
    version: u32,
    vh: VariableHeadersView,
    body: Seq<u8>,
) -> TransportMessageView {
    TransportMessageView {
        header: TransportTcpHeader {
            message_length: (FIXED_CONTENT_SIZE + varheaders_bytes(vh).len() + body.len()) as u32,
            request_id,
            status,
            version,
            variable_header_size: varheaders_bytes(vh).len() as u32,
        },
        variable_headers: vh,
        body,
    }
}

/// The two lengths of the frame fit their 32-bit wire fields.
pub open spec fn message_sizes_ok(vh: VariableHeadersView, body: Seq<u8>) -> bool {
    FIXED_CONTENT_SIZE + varheaders_bytes(vh).len() + body.len() <= u32::MAX
}

/// Strict parse of one whole frame: header, exactly the declared
/// variable-header bytes, and a body whose length the header accounts
/// for; the buffer must hold exactly one frame.
pub open spec fn spec_parse_message(b: Seq<u8>) -> Option<TransportMessageView> {
    match spec_parse_header(b) {
        None => None,
        Some(h) => {
            let vhs = h.variable_header_size as int;
            if HEADER_SIZE + vhs > b.len() {
                None
            } else {
                match spec_parse_varheaders(b.subrange(HEADER_SIZE as int, HEADER_SIZE + vhs)) {
                    None => None,
                    Some(vh) => {
                        if h.message_length < FIXED_CONTENT_SIZE + vhs {
                            None
                        } else {
                            let bl = h.message_length - FIXED_CONTENT_SIZE - vhs;
                            if b.len() == HEADER_SIZE + vhs + bl {
                                Some(
                                    TransportMessageView {
                                        header: h,
                                        variable_headers: vh,
                                        body: b.subrange(HEADER_SIZE + vhs, b.len() as int),
                                    },
                                )
                            } else {
                                None
                            }
                        }
                    },
                }
            }
        },
    }
}

/// The kind a failed frame parse reports, following the frame layout to
/// the first part that fails.
pub open spec fn message_err(b: Seq<u8>) -> CodecError {
    if b.len() < 2 || (marker_ok(b) && b.len() < HEADER_SIZE) {
        CodecError::Truncated
    } else if !marker_ok(b) {
        CodecError::Protocol
    } else {
        match spec_parse_header(b) {
            None => CodecError::Protocol,
            Some(h) => {
                let vhs = h.variable_header_size as int;
                if HEADER_SIZE + vhs > b.len() {
                    CodecError::Truncated
                } else {
                    match spec_parse_varheaders(b.subrange(HEADER_SIZE as int, HEADER_SIZE + vhs)) {
                        None => varheaders_err(b.subrange(HEADER_SIZE as int, HEADER_SIZE + vhs)),
                        Some(vh) => if h.message_length < FIXED_CONTENT_SIZE + vhs {
                            CodecError::Protocol
                        } else if b.len() < HEADER_SIZE + vhs + (h.message_length
                            - FIXED_CONTENT_SIZE - vhs) {
                            CodecError::Truncated
                        } else {
                            CodecError::Protocol
                        },
                    }
                }
            },
        }
    }
}

/// Body length the header accounts for: `message_length` minus the fixed
/// content and the variable headers. A header that would make it
/// negative is structurally invalid; the checked subtraction fails
/// rather than clamping to zero.
pub fn body_length(h: &TransportTcpHeader) -> (r: Result<u32, CodecError>)
    ensures
        r matches Ok(n) ==> h.message_length == FIXED_CONTENT_SIZE + h.variable_header_size + n,
        r is Ok <==> h.message_length >= FIXED_CONTENT_SIZE + h.variable_header_size,
        r is Err ==> r == Err::<u32, CodecError>(CodecError::Protocol),
{
    let declared: u64 = FIXED_CONTENT_SIZE as u64 + h.variable_header_size as u64;
    if (h.message_length as u64) < declared {
        return Err(CodecError::Protocol);
    }
    Ok(h.message_length - (declared as u32))
}

/// Serialize one frame from already-serialized variable-header bytes:
/// the computed header, the variable headers verbatim, the body
/// verbatim. Fails with an encoding error when a length overflows its
/// 32-bit wire field.
pub fn encode_frame(
    request_id: u64,
    status: u8,
    version: u32,
    vh_bytes: &[u8],
    body: &[u8],
) -> (r: Result<Vec<u8>, CodecError>)
    ensures
        r matches Ok(bytes) ==> bytes@ == spec_header_bytes(
            TransportTcpHeader {
                message_length: (FIXED_CONTENT_SIZE + vh_bytes@.len() + body@.len()) as u32,
                request_id,
                status,
                version,
                variable_header_size: vh_bytes@.len() as u32,
            },
        ) + vh_bytes@ + body@,
        r is Ok <==> FIXED_CONTENT_SIZE + vh_bytes@.len() + body@.len() <= u32::MAX,
        r is Err ==> r == Err::<Vec<u8>, CodecError>(CodecError::Encoding),
{
    let vh_len = vh_bytes.len();
    let body_len = body.len();
    let total: u128 = FIXED_CONTENT_SIZE as u128 + vh_len as u128 + body_len as u128;
    if total > u32::MAX as u128 {
        return Err(CodecError::Encoding);
    }
    let header = TransportTcpHeader {
        message_length: total as u32,
        request_id,
        status,
        version,
        variable_header_size: vh_len as u32,
    };
    let mut out = header.encode();
    out.extend_from_slice(vh_bytes);
    out.extend_from_slice(body);
    proof {
        assert(out@ =~= spec_header_bytes(header) + vh_bytes@ + body@);
    }
    Ok(out)
}

/// Serialize one frame from its structured parts.
pub fn encode_message(
    request_id: u64,
    status: u8,
    version: u32,
    vh: &VariableHeaders,
    body: &[u8],
) -> (r: Result<Vec<u8>, CodecError>)
    ensures
        r matches Ok(bytes) ==> bytes@ == spec_build_message(
            request_id,
            status,
            version,
            vh@,
            body@,
        ).wire_bytes(),
        r is Ok <==> message_sizes_ok(vh@, body@),
        r is Err ==> r == Err::<Vec<u8>, CodecError>(CodecError::Encoding),
{
    let vhb = encode_varheaders(vh);
    encode_frame(request_id, status, version, vhb.as_slice(), body)
}

impl TransportMessage {
    /// Serialize a frame whose header was already built. Fails with an
    /// encoding error when the header's length fields do not account for
    /// these variable headers and this body: such a frame would lie
    /// about its own layout.
    pub fn encode(&self) -> (r: Result<Vec<u8>, CodecError>)
        ensures
            r is Ok <==> self@.wf(),
            r matches Ok(bytes) ==> bytes@ == self@.wire_bytes(),
            r is Err ==> r == Err::<Vec<u8>, CodecError>(CodecError::Encoding),
    {
        let vhb = encode_varheaders(&self.variable_headers);
        let vh_len = vhb.len();
        let body_len = self.body.len();
        if (self.header.variable_header_size as u64) != vh_len as u64 {
            return Err(CodecError::Encoding);
        }
        if (self.header.message_length as u128) != FIXED_CONTENT_SIZE as u128 + vh_len as u128
            + body_len as u128 {
            return Err(CodecError::Encoding);
        }
        let mut out = self.header.encode();
        out.extend_from_slice(vhb.as_slice());
        out.extend_from_slice(self.body.as_slice());
        proof {
            assert(out@ =~= self@.wire_bytes());
        }
        Ok(out)
    }

    /// Parse one whole frame from `b`.
    ///
    /// The fixed header is read first; its `variable_header_size` selects
    /// the variable-header bytes and its `message_length` fixes the body
    /// length by checked subtraction. A buffer that ends early is a
    /// truncation; a header whose lengths disagree with the buffer, or
    /// bytes left over after the body, are protocol errors.
    pub fn decode(b: &[u8]) -> (r: Result<TransportMessage, CodecError>)
        ensures
            r matches Ok(m) ==> spec_parse_message(b@) == Some(m@),
            r is Err <==> spec_parse_message(b@) is None,
            b@.len() >= 2 && !marker_ok(b@) ==> r == Err::<TransportMessage, CodecError>(
                CodecError::Protocol,
            ),
            b@.len() < 2 || (marker_ok(b@) && b@.len() < HEADER_SIZE) ==> r == Err::<
                TransportMessage,
                CodecError,
            >(CodecError::Truncated),
            r matches Err(e) ==> e == message_err(b@),
    {
        let header = match TransportTcpHeader::decode(b) {
            Ok(h) => h,
            Err(e) => {
                return Err(e);
            },
        };
        let blen = b.len();
        let vhs = header.variable_header_size as usize;
        if vhs as u64 > (blen - HEADER_SIZE) as u64 {
            return Err(CodecError::Truncated);
        }
        let vh_slice = slice_subrange(b, HEADER_SIZE, HEADER_SIZE + vhs);
        let variable_headers = match decode_varheaders(vh_slice) {
            Ok(v) => v,
            Err(e) => {
                return Err(e);
            },
        };
        let bl = match body_length(&header) {
            Ok(n) => n,
            Err(e) => {
                return Err(e);
            },
        };
        let after_vh = HEADER_SIZE + vhs;
        if (bl as u64) > (blen - after_vh) as u64 {
            return Err(CodecError::Truncated);
        }
        if (bl as u64) < (blen - after_vh) as u64 {
            return Err(CodecError::Protocol);
        }
        let body = slice_to_vec(slice_subrange(b, after_vh, after_vh + bl as usize));
        let m = TransportMessage { header, variable_headers, body };
        proof {
            assert(m@ =~= spec_parse_message(b@)->Some_0);
        }
        Ok(m)
    }
}

/// Length invariant of every encoded message: the header's
/// `message_length`, as a decoder reads it back, equals `17 +
/// variable_header_size + body length`.
pub proof fn lemma_message_length_invariant(
    request_id: u64,
    status: u8,
    version: u32,
    vh: VariableHeadersView,
    body: Seq<u8>,
)
    requires
        message_sizes_ok(vh, body),
    ensures
        spec_parse_header(
            spec_build_message(request_id, status, version, vh, body).wire_bytes(),
        ) matches Some(h) && h.message_length == FIXED_CONTENT_SIZE + h.variable_header_size
            + body.len() && h.variable_header_size == varheaders_bytes(vh).len(),
{
    let m = spec_build_message(request_id, status, version, vh, body);
    lemma_header_round_trip(m.header);
    lemma_parse_header_prefix(spec_header_bytes(m.header), varheaders_bytes(vh) + body);
    assert(spec_header_bytes(m.header) + (varheaders_bytes(vh) + body) =~= m.wire_bytes());
}

/// Frame round trip: a message built from any parts whose lengths fit
/// the wire parses back to exactly those parts.
pub proof fn lemma_message_round_trip(
    request_id: u64,
    status: u8,
    version: u32,
    vh: VariableHeadersView,
    body: Seq<u8>,
)
    requires
        message_sizes_ok(vh, body),
    ensures
        spec_parse_message(spec_build_message(request_id, status, version, vh, body).wire_bytes())
            == Some(spec_build_message(request_id, status, version, vh, body)),
{
    let m = spec_build_message(request_id, status, version, vh, body);
    let b = m.wire_bytes();
    let vhb = varheaders_bytes(vh);
    lemma_header_round_trip(m.header);
    lemma_parse_header_prefix(spec_header_bytes(m.header), vhb + body);
    assert(spec_header_bytes(m.header) + (vhb + body) =~= b);
    assert(spec_parse_header(b) == Some(m.header));
    assert(b.subrange(HEADER_SIZE as int, HEADER_SIZE + vhb.len()) =~= vhb);
    lemma_varheaders_round_trip(vh);
    assert(b.subrange(HEADER_SIZE + vhb.len(), b.len() as int) =~= body);
    assert(spec_parse_message(b) == Some(
        TransportMessageView { header: m.header, variable_headers: vh, body },
    ));
}

/// A parsed frame is well-formed and re-encodes byte-for-byte: decoding
/// never accepts a frame whose lengths lie, and what was decoded can be
/// written back out unchanged.
pub proof fn lemma_message_encode_of_parse(b: Seq<u8>)
    requires
        spec_parse_message(b) is Some,
    ensures
        spec_parse_message(b)->Some_0.wf(),
        spec_parse_message(b)->Some_0.wire_bytes() == b,
{
    let m = spec_parse_message(b)->Some_0;
    let h = spec_parse_header(b)->Some_0;
    let vhs = h.variable_header_size as int;
    lemma_header_bytes_of_parse(b);
    lemma_varheaders_encode_of_parse(b.subrange(HEADER_SIZE as int, HEADER_SIZE + vhs));
    assert(varheaders_bytes(m.variable_headers) == b.subrange(HEADER_SIZE as int, HEADER_SIZE
        + vhs));
    assert(m.wire_bytes() =~= b);
}

} // verus!
