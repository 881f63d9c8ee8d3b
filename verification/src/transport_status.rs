//! Status flags: the single byte in the fixed header classifying a
//! frame's intent. Each recognized kind occupies a distinct bit so that
//! kinds could later be combined, though classification today treats
//! them as mutually exclusive values.

use vstd::prelude::*;

verus! {

/// Bit 0: an ordinary request or response.
pub const STATUS_REQRES: u8 = 0x01;

/// Bit 1: a transport-level error.
pub const STATUS_ERROR: u8 = 0x02;

/// Bit 2: the payload is compressed.
pub const STATUS_COMPRESS: u8 = 0x04;

/// Bit 3: the opening handshake exchange.
pub const STATUS_HANDSHAKE: u8 = 0x08;

/// A frame's intent, decided once from the status byte and then
/// pattern-matched, instead of re-testing raw bits at each call site.
#[derive(Clone, Copy, Debug, PartialEq, Eq)]
pub enum Status {
    RequestResponse,
    TransportError,
    Compressed,
    Handshake,
    Unknown(u8),
}

/// `s` is what classification can return: `Unknown` never carries one of
/// the four recognized byte values.
pub open spec fn status_canonical(s: Status) -> bool {
    s matches Status::Unknown(b) ==> b != STATUS_REQRES && b != STATUS_ERROR && b
        != STATUS_COMPRESS && b != STATUS_HANDSHAKE
}

/// The canonical wire byte of a classification.
pub open spec fn spec_status_byte(s: Status) -> u8 {
    match s {
        Status::RequestResponse => STATUS_REQRES,
        Status::TransportError => STATUS_ERROR,
        Status::Compressed => STATUS_COMPRESS,
        Status::Handshake => STATUS_HANDSHAKE,
        Status::Unknown(b) => b,
    }
}

/// The kind a received status byte denotes.
pub open spec fn spec_classify(b: u8) -> Status {
    if b == STATUS_REQRES {
        Status::RequestResponse
    } else if b == STATUS_ERROR {
        Status::TransportError
    } else if b == STATUS_COMPRESS {
        Status::Compressed
    } else if b == STATUS_HANDSHAKE {
        Status::Handshake
    } else {
        Status::Unknown(b)
    }
}

/// Classify a received status byte into exactly one kind.
pub fn classify(b: u8) -> (s: Status)
    ensures
        s == spec_classify(b),
        status_canonical(s),
        spec_status_byte(s) == b,
{
    if b == STATUS_REQRES {
        Status::RequestResponse
    } else if b == STATUS_ERROR {
        Status::TransportError
    } else if b == STATUS_COMPRESS {
        Status::Compressed
    } else if b == STATUS_HANDSHAKE {
        Status::Handshake
    } else {
        Status::Unknown(b)
    }
}

/// The canonical single-byte representation of a classification.
pub fn status_byte(s: &Status) -> (b: u8)
    ensures
        b == spec_status_byte(*s),
{
    match s {
        Status::RequestResponse => STATUS_REQRES,
        Status::TransportError => STATUS_ERROR,
        Status::Compressed => STATUS_COMPRESS,
        Status::Handshake => STATUS_HANDSHAKE,
        Status::Unknown(b) => *b,
    }
}

/// Classifying a canonical classification's byte gives it back: the
/// status codec loses nothing.
pub proof fn lemma_status_round_trip(s: Status)
    requires
        status_canonical(s),
    ensures
        spec_classify(spec_status_byte(s)) == s,
{
}

} // verus!
