//! Binary wire-protocol codec and handshake layer for a request/response
//! transport between an extension process and a host search engine.
//!
//! A frame on the wire is a fixed header (marker, lengths, request id,
//! status, version), an extensible variable-header section, and an opaque
//! body. The modules below follow that structure: a variable-length
//! integer sub-codec, length-prefixed strings, the fixed-header codec,
//! the variable-header codec, the message framer, and the handshake
//! negotiator. Every codec states on which inputs it succeeds and what
//! bytes it produces or consumes.

pub mod endian;
pub mod error;
pub mod handshake;
pub mod interface;
pub mod message;
pub mod proto;
pub mod strings;
pub mod transport;
pub mod transport_status;
pub mod varheader;
pub mod varint;
