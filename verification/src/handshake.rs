//! Handshake negotiator.
//!
//! Each connection starts awaiting a handshake. On a frame classified as
//! handshake, the negotiator answers with a frame that echoes the
//! request id, carries the negotiated version, handshake status,
//! zero-length variable headers and an empty body, and the connection is
//! handshake-complete. Any other frame leaves the state unchanged and
//! draws no response: pre-handshake traffic is tolerated, the policy for
//! rejecting it belongs to the dispatch layer.

use vstd::prelude::*;

use crate::message::TransportMessage;
use crate::transport::{TransportTcpHeader, FIXED_CONTENT_SIZE};
use crate::transport_status::{spec_classify, Status, STATUS_HANDSHAKE};
use crate::varheader::VariableHeaders;

verus! {

/// Where a connection stands in the opening negotiation.
#[derive(Clone, Copy, Debug, PartialEq, Eq, Structural)]
pub enum HandshakeState {
    AwaitingHandshake,
    HandshakeComplete,
}

/// The response to a handshake request: the same request id, the
/// negotiated version, handshake status, no variable headers, no body.
pub fn handshake_response(request_id: u64, version: u32) -> (m: TransportMessage)
    ensures
        m.header.request_id == request_id,
        m.header.version == version,
        m.header.status == STATUS_HANDSHAKE,
        spec_classify(m.header.status) == Status::Handshake,
        m.header.variable_header_size == 0,
        m.header.message_length == FIXED_CONTENT_SIZE,
        m@.variable_headers.is_empty(),
        m.body@.len() == 0,
        m@.wf(),
{
    let header = TransportTcpHeader {
        message_length: FIXED_CONTENT_SIZE,
        request_id,
        status: STATUS_HANDSHAKE,
        version,
        variable_header_size: 0,
    };
    TransportMessage { header, variable_headers: VariableHeaders::empty(), body: Vec::new() }
}

/// One step of the negotiation: given the state of a connection and the
/// header of an inbound frame, the next state and the frame to send
/// back, if any. Only a handshake frame while awaiting one produces a
/// response and completes the negotiation.
pub fn handshake_step(state: HandshakeState, incoming: &TransportTcpHeader) -> (r: (
    HandshakeState,
    Option<TransportMessage>,
))
    ensures
        state is AwaitingHandshake && incoming.status == STATUS_HANDSHAKE ==> (r.0
            is HandshakeComplete && (r.1 matches Some(m) && m.header.request_id
            == incoming.request_id && m.header.version == incoming.version && m.header.status
            == STATUS_HANDSHAKE && m@.wf())),
        !(state is AwaitingHandshake && incoming.status == STATUS_HANDSHAKE) ==> (r.0 == state
            && r.1 is None),
{
    match state {
        HandshakeState::AwaitingHandshake => {
            if incoming.is_handshake() {
                let response = handshake_response(incoming.request_id, incoming.version);
                (HandshakeState::HandshakeComplete, Some(response))
            } else {
                (HandshakeState::AwaitingHandshake, None)
            }
        },
        HandshakeState::HandshakeComplete => (HandshakeState::HandshakeComplete, None),
    }
}

} // verus!
