//! Request objects and the byte-level serialization interface.
//!
//! A `Request` pairs a message-intent classification with a payload
//! string; on the wire it is the intent's flag byte followed by the
//! payload's UTF-8 bytes.

use vstd::prelude::*;
use vstd::slice::{slice_subrange, slice_to_vec};
use vstd::string::StrSliceExecFns;
use vstd::utf8::{encode_utf8, encode_utf8_decode_utf8, valid_utf8};

use crate::error::CodecError;
use crate::strings::bytes_to_string;
use crate::transport_status::{STATUS_COMPRESS, STATUS_ERROR, STATUS_HANDSHAKE, STATUS_REQRES};

verus! {

/// Serialize to wire-ready bytes.
pub trait Serialize {
    /// The bytes this value serializes to.
    spec fn wire_bytes(&self) -> Seq<u8>;

    /// Produce exactly those bytes.
    fn serialize(&self) -> (r: Vec<u8>)
        ensures
            r@ == self.wire_bytes(),
    ;
}

/// Deserialize from received bytes.
pub trait Deserialize {
    type Output;

    /// Read a value back from bytes; the impl's contract says when this
    /// succeeds and what comes back.
    fn deserialize(b: &[u8]) -> Result<Self::Output, CodecError>;
}

/// A request object: one intent classification carrying a payload.
#[derive(Clone, Debug, PartialEq, Eq)]
pub enum Request {
    RequestResponse(String),
    TransportError(String),
    Compress(String),
    Handshake(String),
}

/// The single flag byte of a request's intent.
pub open spec fn spec_request_byte(req: Request) -> u8 {
    match req {
        Request::RequestResponse(_) => STATUS_REQRES,
        Request::TransportError(_) => STATUS_ERROR,
        Request::Compress(_) => STATUS_COMPRESS,
        Request::Handshake(_) => STATUS_HANDSHAKE,
    }
}

/// A request's payload.
pub open spec fn spec_request_payload(req: Request) -> Seq<char> {
    match req {
        Request::RequestResponse(s) => s@,
        Request::TransportError(s) => s@,
        Request::Compress(s) => s@,
        Request::Handshake(s) => s@,
    }
}

/// The wire form of a request: its flag byte, then the payload's UTF-8
/// bytes.
pub open spec fn spec_request_bytes(req: Request) -> Seq<u8> {
    seq![spec_request_byte(req)] + encode_utf8(spec_request_payload(req))
}

/// The request wire format is lossless: equal bytes mean the same intent
/// and the same payload, so what `deserialize` accepts is unambiguous.
pub proof fn lemma_request_bytes_injective(q1: Request, q2: Request)
    requires
        spec_request_bytes(q1) == spec_request_bytes(q2),
    ensures
        spec_request_byte(q1) == spec_request_byte(q2),
        spec_request_payload(q1) == spec_request_payload(q2),
{
    let b1 = spec_request_bytes(q1);
    let b2 = spec_request_bytes(q2);
    assert(b1[0] == spec_request_byte(q1) && b2[0] == spec_request_byte(q2));
    assert(b1.subrange(1, b1.len() as int) =~= encode_utf8(spec_request_payload(q1)));
    assert(b2.subrange(1, b2.len() as int) =~= encode_utf8(spec_request_payload(q2)));
    encode_utf8_decode_utf8(spec_request_payload(q1));
    encode_utf8_decode_utf8(spec_request_payload(q2));
}

impl<'a> From<&'a Request> for u8 {
    /// The intent's flag byte, as long as intents stay under 255 kinds.
    fn from(req: &'a Request) -> (r: u8)
        ensures
            r == spec_request_byte(*req),
    {
        match req {
            Request::RequestResponse(_) => STATUS_REQRES,
            Request::TransportError(_) => STATUS_ERROR,
            Request::Compress(_) => STATUS_COMPRESS,
            Request::Handshake(_) => STATUS_HANDSHAKE,
        }
    }
}

impl<'a> vstd::std_specs::convert::FromSpecImpl<&'a Request> for u8 {
    open spec fn obeys_from_spec() -> bool {
        true
    }

    open spec fn from_spec(req: &'a Request) -> u8 {
        spec_request_byte(*req)
    }
}

impl Serialize for Request {
    open spec fn wire_bytes(&self) -> Seq<u8> {
        spec_request_bytes(*self)
    }

    fn serialize(&self) -> (r: Vec<u8>)
        ensures
            r@ == self.wire_bytes(),
    {
        let mut out: Vec<u8> = Vec::new();
        let byte: u8 = match self {
            Request::RequestResponse(_) => STATUS_REQRES,
            Request::TransportError(_) => STATUS_ERROR,
            Request::Compress(_) => STATUS_COMPRESS,
            Request::Handshake(_) => STATUS_HANDSHAKE,
        };
        out.push(byte);
        let mut payload = match self {
            Request::RequestResponse(s) => s.as_str().as_bytes_vec(),
            Request::TransportError(s) => s.as_str().as_bytes_vec(),
            Request::Compress(s) => s.as_str().as_bytes_vec(),
            Request::Handshake(s) => s.as_str().as_bytes_vec(),
        };
        out.append(&mut payload);
        proof {
            assert(out@ =~= spec_request_bytes(*self));
        }
        out
    }
}

impl Deserialize for Request {
    type Output = Request;

    /// Read a request back: the flag byte picks the intent, the rest is
    /// the payload. Succeeds exactly on a recognized flag byte followed
    /// by valid UTF-8; an empty input is a truncation, an unrecognized
    /// flag a protocol error, malformed UTF-8 an encoding error.
    fn deserialize(b: &[u8]) -> (r: Result<Request, CodecError>)
        ensures
            r matches Ok(q) ==> b@ == spec_request_bytes(q),
            r == Err::<Request, CodecError>(CodecError::Truncated) <==> b@.len() == 0,
            r == Err::<Request, CodecError>(CodecError::Protocol) <==> b@.len() >= 1 && b@[0]
                != STATUS_REQRES && b@[0] != STATUS_ERROR && b@[0] != STATUS_COMPRESS && b@[0]
                != STATUS_HANDSHAKE,
            r == Err::<Request, CodecError>(CodecError::Encoding) <==> b@.len() >= 1 && (b@[0]
                == STATUS_REQRES || b@[0] == STATUS_ERROR || b@[0] == STATUS_COMPRESS || b@[0]
                == STATUS_HANDSHAKE) && !valid_utf8(b@.subrange(1, b@.len() as int)),
    {
        if b.len() == 0 {
            return Err(CodecError::Truncated);
        }
        let byte = b[0];
        if byte != STATUS_REQRES && byte != STATUS_ERROR && byte != STATUS_COMPRESS && byte
            != STATUS_HANDSHAKE {
            return Err(CodecError::Protocol);
        }
        let rest = slice_to_vec(slice_subrange(b, 1, b.len()));
        let payload = match bytes_to_string(rest) {
            Some(s) => s,
            None => {
                return Err(CodecError::Encoding);
            },
        };
        let q = if byte == STATUS_REQRES {
            Request::RequestResponse(payload)
        } else if byte == STATUS_ERROR {
            Request::TransportError(payload)
        } else if byte == STATUS_COMPRESS {
            Request::Compress(payload)
        } else {
            Request::Handshake(payload)
        };
        proof {
            assert(b@ =~= seq![b@[0]] + b@.subrange(1, b@.len() as int));
            assert(b@ == spec_request_bytes(q));
        }
        Ok(q)
    }
}

} // verus!
