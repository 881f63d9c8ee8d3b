use opensearch_sdk_rs::error::CodecError;
use opensearch_sdk_rs::handshake::{handshake_step, handshake_response, HandshakeState};
use opensearch_sdk_rs::message::{body_length, encode_message, TransportMessage};
use opensearch_sdk_rs::transport::TransportTcpHeader;
use opensearch_sdk_rs::transport_status::{
    classify, status_byte, Status, STATUS_COMPRESS, STATUS_ERROR, STATUS_HANDSHAKE, STATUS_REQRES,
};
use opensearch_sdk_rs::varheader::{decode_varheaders, encode_varheaders, VariableHeaders};
use opensearch_sdk_rs::varint::{decode_varint, encode_varint};

fn empty_varheaders() -> VariableHeaders {
    VariableHeaders { thread_context: Vec::new(), features: Vec::new(), action: None }
}

#[test]
fn header_round_trip() {
    let h = TransportTcpHeader::new(42, STATUS_REQRES, 1, 3, 0).unwrap();
    assert_eq!(h.message_length, 20);
    let bytes = h.encode();
    assert_eq!(bytes.len(), 23);
    assert_eq!(&bytes[0..2], b"ES");
    let back = TransportTcpHeader::decode(&bytes).unwrap();
    assert_eq!(back, h);
}

#[test]
fn header_fields_on_the_wire() {
    let h = TransportTcpHeader::new(
        0x0102030405060708,
        STATUS_HANDSHAKE,
        0x0a0b0c0d,
        0,
        0x00000005,
    )
    .unwrap();
    let bytes = h.encode();
    // marker, message_length 17 + 5, request id, status, version, vh size
    assert_eq!(bytes[0], 0x45);
    assert_eq!(bytes[1], 0x53);
    assert_eq!(&bytes[2..6], &[0, 0, 0, 22]);
    assert_eq!(&bytes[6..14], &[1, 2, 3, 4, 5, 6, 7, 8]);
    assert_eq!(bytes[14], STATUS_HANDSHAKE);
    assert_eq!(&bytes[15..19], &[0x0a, 0x0b, 0x0c, 0x0d]);
    assert_eq!(&bytes[19..23], &[0, 0, 0, 5]);
}

#[test]
fn header_overflow_is_encoding_error() {
    let r = TransportTcpHeader::new(7, STATUS_REQRES, 1, u32::MAX, u32::MAX);
    assert_eq!(r.unwrap_err(), CodecError::Encoding);
}

#[test]
fn marker_rejection_is_protocol_error() {
    // Any two leading bytes other than the marker fail, however much
    // data follows.
    let mut bad = vec![0x45u8, 0x54];
    bad.extend_from_slice(&[0u8; 30]);
    assert_eq!(TransportTcpHeader::decode(&bad).unwrap_err(), CodecError::Protocol);
    assert_eq!(TransportTcpHeader::decode(&[0x00, 0x00]).unwrap_err(), CodecError::Protocol);
    assert_eq!(TransportTcpHeader::decode(b"SE").unwrap_err(), CodecError::Protocol);
}

#[test]
fn truncated_header_is_io_style_error() {
    // A stream that closes after fewer than 23 bytes of a valid frame is
    // a truncation, never a protocol error, and never panics.
    let h = TransportTcpHeader::new(9, STATUS_REQRES, 2, 0, 0).unwrap();
    let bytes = h.encode();
    for n in 0..23 {
        let r = TransportTcpHeader::decode(&bytes[0..n]);
        assert_eq!(r.unwrap_err(), CodecError::Truncated, "prefix length {}", n);
    }
}

#[test]
fn status_classification() {
    assert_eq!(classify(STATUS_REQRES), Status::RequestResponse);
    assert_eq!(classify(STATUS_ERROR), Status::TransportError);
    assert_eq!(classify(STATUS_COMPRESS), Status::Compressed);
    assert_eq!(classify(STATUS_HANDSHAKE), Status::Handshake);
    assert_eq!(classify(0x10), Status::Unknown(0x10));
    assert_eq!(status_byte(&Status::Handshake), STATUS_HANDSHAKE);
    assert_eq!(status_byte(&Status::Unknown(0x7f)), 0x7f);
    assert_eq!(classify(status_byte(&Status::Compressed)), Status::Compressed);
}

#[test]
fn header_flag_methods() {
    let h = TransportTcpHeader::new(1, STATUS_HANDSHAKE, 1, 0, 0).unwrap();
    assert!(h.is_handshake());
    assert!(!h.is_request_response());
    assert!(!h.is_error());
    assert!(!h.is_compressed());
    let h = TransportTcpHeader::new(1, STATUS_ERROR, 1, 0, 0).unwrap();
    assert!(h.is_error());
    assert!(!h.is_handshake());
}

#[test]
fn varint_exact_encodings() {
    let cases: &[(u64, &[u8])] = &[
        (0, &[0x00]),
        (1, &[0x01]),
        (127, &[0x7f]),
        (128, &[0x80, 0x01]),
        (300, &[0xac, 0x02]),
        (u64::MAX, &[0xff, 0xff, 0xff, 0xff, 0xff, 0xff, 0xff, 0xff, 0xff, 0x01]),
    ];
    for (value, expected) in cases {
        let mut out = Vec::new();
        encode_varint(*value, &mut out);
        assert_eq!(&out, expected, "encoding of {}", value);
        let (back, end) = decode_varint(&out, 0).unwrap();
        assert_eq!(back, *value);
        assert_eq!(end, out.len());
    }
}

#[test]
fn varint_rejects_overlong_and_oversized() {
    // Overlong encoding of zero.
    assert_eq!(decode_varint(&[0x80, 0x00], 0).unwrap_err(), CodecError::Protocol);
    // One past u64::MAX.
    let too_big = [0x80, 0x80, 0x80, 0x80, 0x80, 0x80, 0x80, 0x80, 0x80, 0x02];
    assert_eq!(decode_varint(&too_big, 0).unwrap_err(), CodecError::Protocol);
    // Continuation mark with nothing after it.
    assert_eq!(decode_varint(&[0x80], 0).unwrap_err(), CodecError::Truncated);
    assert_eq!(decode_varint(&[], 0).unwrap_err(), CodecError::Truncated);
}

#[test]
fn empty_varheaders_cost_nothing() {
    let vh = empty_varheaders();
    let bytes = encode_varheaders(&vh);
    assert_eq!(bytes.len(), 0);
    let back = decode_varheaders(&bytes).unwrap();
    assert!(back.thread_context.is_empty());
    assert!(back.features.is_empty());
    assert!(back.action.is_none());
}

#[test]
fn varheaders_round_trip() {
    let vh = VariableHeaders {
        thread_context: vec![
            ("trace".to_string(), "abc123".to_string()),
            ("tenant".to_string(), "blue".to_string()),
        ],
        features: vec!["search".to_string(), "ingest".to_string()],
        action: Some("internal:discovery".to_string()),
    };
    let bytes = encode_varheaders(&vh);
    let back = decode_varheaders(&bytes).unwrap();
    assert_eq!(back, vh);
    // Re-encoding what was decoded reproduces the bytes exactly.
    assert_eq!(encode_varheaders(&back), bytes);
}

#[test]
fn varheaders_exact_bytes_non_ascii() {
    let vh = VariableHeaders {
        thread_context: Vec::new(),
        features: Vec::new(),
        action: Some("\u{e9}".to_string()),
    };
    let bytes = encode_varheaders(&vh);
    assert_eq!(bytes, vec![0x00, 0x00, 0x01, 0x02, 0xc3, 0xa9]);
    let back = decode_varheaders(&bytes).unwrap();
    assert_eq!(back.action.as_deref(), Some("\u{e9}"));
}

#[test]
fn varheaders_reject_malformed_utf8() {
    // count 0 pairs, count 1 feature of length 1 holding an invalid byte.
    let bytes = vec![0x00, 0x01, 0x01, 0xff, 0x00];
    assert_eq!(decode_varheaders(&bytes).unwrap_err(), CodecError::Encoding);
}

#[test]
fn varheaders_reject_size_mismatch() {
    // A trailing byte after the action indicator: consumption disagrees
    // with the declared size.
    let bytes = vec![0x00, 0x00, 0x00, 0x99];
    assert_eq!(decode_varheaders(&bytes).unwrap_err(), CodecError::Protocol);
    // The three-byte encoding of the empty structure is non-canonical:
    // the empty structure travels as zero bytes.
    assert_eq!(decode_varheaders(&[0x00, 0x00, 0x00]).unwrap_err(), CodecError::Protocol);
    // A pair count that promises more than the section holds.
    assert_eq!(decode_varheaders(&[0x02, 0x00]).unwrap_err(), CodecError::Truncated);
}

#[test]
fn message_scenario() {
    // request_id 42, request/response status, version 1, empty variable
    // headers, three body bytes: message_length must be 17 + 0 + 3 = 20.
    let vh = empty_varheaders();
    let bytes = encode_message(42, STATUS_REQRES, 1, &vh, &[0x01, 0x02, 0x03]).unwrap();
    assert_eq!(bytes.len(), 23 + 3);
    let m = TransportMessage::decode(&bytes).unwrap();
    assert_eq!(m.header.message_length, 20);
    assert_eq!(m.header.request_id, 42);
    assert_eq!(m.header.status, STATUS_REQRES);
    assert_eq!(m.header.version, 1);
    assert_eq!(m.header.variable_header_size, 0);
    assert_eq!(m.body, vec![0x01, 0x02, 0x03]);
    assert!(m.variable_headers.thread_context.is_empty());
}

#[test]
fn message_length_accounts_for_every_part() {
    let vh = VariableHeaders {
        thread_context: vec![("k".to_string(), "v".to_string())],
        features: vec!["f".to_string()],
        action: None,
    };
    let body = [9u8; 11];
    let bytes = encode_message(7, STATUS_REQRES, 3, &vh, &body).unwrap();
    let m = TransportMessage::decode(&bytes).unwrap();
    assert_eq!(
        m.header.message_length as usize,
        8 + 1 + 4 + 4 + m.header.variable_header_size as usize + m.body.len()
    );
    assert_eq!(body_length(&m.header).unwrap() as usize, body.len());
}

#[test]
fn message_round_trip_with_varheaders() {
    let vh = VariableHeaders {
        thread_context: vec![("a".to_string(), "b".to_string())],
        features: vec![],
        action: Some("act".to_string()),
    };
    let bytes = encode_message(5, STATUS_COMPRESS, 2, &vh, b"payload").unwrap();
    let m = TransportMessage::decode(&bytes).unwrap();
    assert_eq!(m.variable_headers, vh);
    assert_eq!(m.body, b"payload");
    // A decoded message re-encodes to the same frame.
    assert_eq!(m.encode().unwrap(), bytes);
}

#[test]
fn message_rejects_inconsistent_lengths() {
    // message_length smaller than its mandatory parts: the body length
    // would be negative; a protocol error, not an empty body.
    let h = TransportTcpHeader {
        message_length: 16,
        request_id: 1,
        status: STATUS_REQRES,
        version: 1,
        variable_header_size: 0,
    };
    assert_eq!(body_length(&h).unwrap_err(), CodecError::Protocol);
    let bytes = h.encode();
    assert_eq!(TransportMessage::decode(&bytes).unwrap_err(), CodecError::Protocol);
}

#[test]
fn message_rejects_trailing_bytes() {
    let vh = empty_varheaders();
    let mut bytes = encode_message(1, STATUS_REQRES, 1, &vh, b"xy").unwrap();
    bytes.push(0xee);
    assert_eq!(TransportMessage::decode(&bytes).unwrap_err(), CodecError::Protocol);
}

#[test]
fn message_truncated_body_is_truncation() {
    let vh = empty_varheaders();
    let bytes = encode_message(1, STATUS_REQRES, 1, &vh, b"xyz").unwrap();
    let r = TransportMessage::decode(&bytes[0..bytes.len() - 1]);
    assert_eq!(r.unwrap_err(), CodecError::Truncated);
}

#[test]
fn handshake_echo() {
    let m = handshake_response(0xDEAD_BEEF_0000_0042, 136357827);
    assert_eq!(m.header.request_id, 0xDEAD_BEEF_0000_0042);
    assert_eq!(m.header.version, 136357827);
    assert!(m.header.is_handshake());
    assert_eq!(m.header.variable_header_size, 0);
    assert_eq!(m.header.message_length, 17);
    assert!(m.body.is_empty());
    // The response is a well-formed frame: it survives the wire.
    let bytes = m.encode().unwrap();
    let back = TransportMessage::decode(&bytes).unwrap();
    assert_eq!(back.header, m.header);
}

#[test]
fn handshake_state_machine() {
    let req = TransportTcpHeader::new(11, STATUS_HANDSHAKE, 9, 0, 0).unwrap();
    let (state, response) = handshake_step(HandshakeState::AwaitingHandshake, &req);
    assert_eq!(state, HandshakeState::HandshakeComplete);
    let response = response.unwrap();
    assert_eq!(response.header.request_id, 11);
    assert_eq!(response.header.version, 9);
    assert!(response.header.is_handshake());

    // A non-handshake frame while awaiting is tolerated and unanswered.
    let other = TransportTcpHeader::new(12, STATUS_REQRES, 9, 0, 0).unwrap();
    let (state, response) = handshake_step(HandshakeState::AwaitingHandshake, &other);
    assert_eq!(state, HandshakeState::AwaitingHandshake);
    assert!(response.is_none());

    // After completion, further handshakes draw no response.
    let (state, response) = handshake_step(HandshakeState::HandshakeComplete, &req);
    assert_eq!(state, HandshakeState::HandshakeComplete);
    assert!(response.is_none());
}

#[test]
fn error_messages_name_each_kind() {
    assert_eq!(CodecError::Truncated.message(), "input ended before a complete value");
    assert_eq!(CodecError::Protocol.message(), "structurally invalid data");
    assert_eq!(CodecError::Encoding.message(), "invalid string or oversized field");
}
