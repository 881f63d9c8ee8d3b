use opensearch_sdk_rs::error::CodecError;
use opensearch_sdk_rs::interface::{Deserialize, Request, Serialize};
use opensearch_sdk_rs::proto::{
    parse_extension_identity, parse_extension_request, parse_register_rest_actions,
    serialize_extension_identity, serialize_extension_request, serialize_register_rest_actions,
    ExtensionIdentity, ExtensionRequest, RegisterRestActions,
};
use opensearch_sdk_rs::transport_status::{STATUS_ERROR, STATUS_HANDSHAKE, STATUS_REQRES};

#[test]
fn identity_round_trip() {
    let id = ExtensionIdentity { unique_id: "hello-world".to_string() };
    let bytes = serialize_extension_identity(&id);
    assert_eq!(bytes[0], 0x0a);
    assert_eq!(bytes[1], 11);
    assert_eq!(&bytes[2..], b"hello-world");
    let back = parse_extension_identity(&bytes).unwrap();
    assert_eq!(back, id);
}

#[test]
fn empty_identity_costs_nothing() {
    let id = ExtensionIdentity { unique_id: String::new() };
    let bytes = serialize_extension_identity(&id);
    assert!(bytes.is_empty());
    let back = parse_extension_identity(&bytes).unwrap();
    assert_eq!(back, id);
}

#[test]
fn identity_rejects_wrong_tag_and_trailing_bytes() {
    assert_eq!(parse_extension_identity(&[0x12, 0x01, 0x61]).unwrap_err(), CodecError::Protocol);
    let mut bytes = serialize_extension_identity(&ExtensionIdentity {
        unique_id: "x".to_string(),
    });
    bytes.push(0x00);
    assert_eq!(parse_extension_identity(&bytes).unwrap_err(), CodecError::Protocol);
}

#[test]
fn extension_request_round_trip() {
    let req = ExtensionRequest {
        request_type: 3,
        identity: Some(ExtensionIdentity { unique_id: "ext-a".to_string() }),
    };
    let bytes = serialize_extension_request(&req);
    assert_eq!(bytes[0], 0x08);
    assert_eq!(bytes[1], 3);
    assert_eq!(bytes[2], 0x12);
    let back = parse_extension_request(&bytes).unwrap();
    assert_eq!(back, req);
}

#[test]
fn extension_request_defaults_travel_empty() {
    let req = ExtensionRequest { request_type: 0, identity: None };
    let bytes = serialize_extension_request(&req);
    assert!(bytes.is_empty());
    let back = parse_extension_request(&bytes).unwrap();
    assert_eq!(back, req);
}

#[test]
fn extension_request_rejects_garbage() {
    assert_eq!(parse_extension_request(&[0x99]).unwrap_err(), CodecError::Protocol);
}

#[test]
fn register_rest_actions_round_trip() {
    let msg = RegisterRestActions {
        identity: Some(ExtensionIdentity { unique_id: "ext-b".to_string() }),
        rest_actions: vec!["GET /hello".to_string(), "PUT /hello/{name}".to_string()],
    };
    let bytes = serialize_register_rest_actions(&msg);
    let back = parse_register_rest_actions(&bytes).unwrap();
    assert_eq!(back, msg);
    assert_eq!(serialize_register_rest_actions(&back), bytes);
}

#[test]
fn register_without_identity() {
    let msg = RegisterRestActions {
        identity: None,
        rest_actions: vec!["POST /items".to_string()],
    };
    let bytes = serialize_register_rest_actions(&msg);
    assert_eq!(bytes[0], 0x12);
    let back = parse_register_rest_actions(&bytes).unwrap();
    assert_eq!(back, msg);
}

#[test]
fn register_rejects_bad_action_tag() {
    // identity omitted, then a byte that is no action tag
    assert_eq!(parse_register_rest_actions(&[0x0b]).unwrap_err(), CodecError::Protocol);
}

#[test]
fn request_serializes_kind_byte_then_payload() {
    let req = Request::Handshake("hi".to_string());
    let bytes = req.serialize();
    assert_eq!(bytes[0], STATUS_HANDSHAKE);
    assert_eq!(&bytes[1..], b"hi");
    assert_eq!(u8::from(&req), STATUS_HANDSHAKE);
    assert_eq!(u8::from(&Request::TransportError(String::new())), STATUS_ERROR);
}

#[test]
fn request_round_trip() {
    let req = Request::RequestResponse("body text".to_string());
    let bytes = req.serialize();
    let back = Request::deserialize(&bytes).unwrap();
    assert_eq!(back, req);
}

#[test]
fn request_rejects_bad_inputs() {
    assert_eq!(Request::deserialize(&[]).unwrap_err(), CodecError::Truncated);
    assert_eq!(Request::deserialize(&[0x40, 0x61]).unwrap_err(), CodecError::Protocol);
    assert_eq!(
        Request::deserialize(&[STATUS_REQRES, 0xff, 0xfe]).unwrap_err(),
        CodecError::Encoding
    );
}
