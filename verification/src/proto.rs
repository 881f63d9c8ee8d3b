//! Extension-registration payload codec.
//!
//! The bodies exchanged during extension registration: the extension's
//! identity, a typed extension request, and the registration of REST
//! actions. Each travels in a canonical tagged, length-delimited
//! encoding built from the same varint and string sub-codecs as the
//! variable headers: a one-byte field tag, then the field's value, with
//! fields in fixed order and default values omitted, so every message
//! has exactly one encoding.

use vstd::prelude::*;
use vstd::slice::slice_subrange;

use crate::error::CodecError;
use crate::strings::{
    decode_string, encode_string, lemma_parse_string_of_encoding, spec_parse_string, string_bytes,
    string_err,
};
use crate::varheader::strings_view;
use crate::varint::{
    decode_varint, encode_varint, lemma_parse_of_encoding, lemma_parse_varint_bounds,
    spec_parse_varint, varint_bytes, varint_truncated,
};

verus! {

/// Tag of the first length-delimited field of a message.
pub const TAG_FIELD1_LEN: u8 = 0x0a;

/// Tag of the first varint field of a message.
pub const TAG_FIELD1_VARINT: u8 = 0x08;

/// Tag of the second length-delimited field of a message.
pub const TAG_FIELD2_LEN: u8 = 0x12;

/// Who an extension is: its unique identifier.
#[derive(Clone, Debug, PartialEq, Eq)]
pub struct ExtensionIdentity {
    pub unique_id: String,
}

/// A typed request addressed to an extension.
#[derive(Clone, Debug, PartialEq, Eq)]
pub struct ExtensionRequest {
    /// Numeric request-type code; zero is the default and travels as an
    /// omitted field.
    pub request_type: u64,
    pub identity: Option<ExtensionIdentity>,
}

/// Registration of an extension's REST actions.
#[derive(Clone, Debug, PartialEq, Eq)]
pub struct RegisterRestActions {
    pub identity: Option<ExtensionIdentity>,
    pub rest_actions: Vec<String>,
}

/// The identity seen through its field values.
pub open spec fn identity_option_view(o: Option<ExtensionIdentity>) -> Option<Seq<char>> {
    match o {
        None => None,
        Some(m) => Some(m.unique_id@),
    }
}

/// Wire form of an identity: its unique id as a tagged string, nothing
/// when the id is empty.
pub open spec fn identity_bytes(s: Seq<char>) -> Seq<u8> {
    if s.len() == 0 {
        Seq::empty()
    } else {
        seq![TAG_FIELD1_LEN] + string_bytes(s)
    }
}

/// Strict parse of an identity from exactly `b`.
pub open spec fn spec_parse_identity(b: Seq<u8>) -> Option<Seq<char>> {
    if b.len() == 0 {
        Some(Seq::empty())
    } else if b[0] == TAG_FIELD1_LEN {
        match spec_parse_string(b, 1) {
            None => None,
            Some((s, end)) => if end == b.len() && s.len() > 0 {
                Some(s)
            } else {
                None
            },
        }
    } else {
        None
    }
}

/// Wire form of an embedded identity: tag, byte length, then the
/// identity's own encoding.
pub open spec fn embedded_identity_bytes(tag: u8, s: Seq<char>) -> Seq<u8> {
    seq![tag] + varint_bytes(identity_bytes(s).len()) + identity_bytes(s)
}

/// Wire form of an extension request: the type code as a tagged varint
/// when nonzero, then the identity as an embedded message when present.
pub open spec fn extension_request_bytes(rt: nat, id: Option<Seq<char>>) -> Seq<u8> {
    (if rt == 0 {
        Seq::empty()
    } else {
        seq![TAG_FIELD1_VARINT] + varint_bytes(rt)
    }) + (match id {
        None => Seq::empty(),
        Some(s) => embedded_identity_bytes(TAG_FIELD2_LEN, s),
    })
}

/// Parse the optional embedded identity that ends an extension request.
pub open spec fn spec_parse_request_identity(b: Seq<u8>, p: int, rt: nat) -> Option<
    (nat, Option<Seq<char>>),
> {
    if p == b.len() {
        Some((rt, None))
    } else if 0 <= p < b.len() && b[p] == TAG_FIELD2_LEN {
        match spec_parse_varint(b, p + 1) {
            None => None,
            Some((n, p2)) => if p2 + n == b.len() {
                match spec_parse_identity(b.subrange(p2, p2 + n)) {
                    None => None,
                    Some(s) => Some((rt, Some(s))),
                }
            } else {
                None
            },
        }
    } else {
        None
    }
}

/// Strict parse of an extension request from exactly `b`.
pub open spec fn spec_parse_extension_request(b: Seq<u8>) -> Option<(nat, Option<Seq<char>>)> {
    if b.len() > 0 && b[0] == TAG_FIELD1_VARINT {
        match spec_parse_varint(b, 1) {
            None => None,
            Some((rt, p)) => if rt == 0 || rt > u64::MAX {
                None
            } else {
                spec_parse_request_identity(b, p, rt)
            },
        }
    } else {
        spec_parse_request_identity(b, 0, 0)
    }
}

/// Wire form of a REST-action list: one tagged string per action.
pub open spec fn actions_bytes(a: Seq<Seq<char>>) -> Seq<u8>
    decreases a.len(),
{
    if a.len() == 0 {
        Seq::empty()
    } else {
        seq![TAG_FIELD2_LEN] + string_bytes(a[0]) + actions_bytes(a.drop_first())
    }
}

/// Strict parse of tagged action strings from `pos` to the end of `b`.
pub open spec fn spec_parse_actions(b: Seq<u8>, pos: int) -> Option<Seq<Seq<char>>>
    decreases b.len() - pos,
{
    if pos == b.len() {
        Some(Seq::empty())
    } else if 0 <= pos < b.len() && b[pos] == TAG_FIELD2_LEN {
        match spec_parse_string(b, pos + 1) {
            None => None,
            Some((s, e)) => if pos + 1 < e <= b.len() {
                match spec_parse_actions(b, e) {
                    None => None,
                    Some(rest) => Some(seq![s] + rest),
                }
            } else {
                None
            },
        }
    } else {
        None
    }
}

/// Wire form of a REST-action registration: the identity as an embedded
/// message when present, then the actions.
pub open spec fn register_bytes(id: Option<Seq<char>>, a: Seq<Seq<char>>) -> Seq<u8> {
    (match id {
        None => Seq::empty(),
        Some(s) => embedded_identity_bytes(TAG_FIELD1_LEN, s),
    }) + actions_bytes(a)
}

/// Strict parse of a REST-action registration from exactly `b`.
pub open spec fn spec_parse_register(b: Seq<u8>) -> Option<(Option<Seq<char>>, Seq<Seq<char>>)> {
    if b.len() > 0 && b[0] == TAG_FIELD1_LEN {
        match spec_parse_varint(b, 1) {
            None => None,
            Some((n, p2)) => if p2 + n <= b.len() {
                match spec_parse_identity(b.subrange(p2, p2 + n)) {
                    None => None,
                    Some(s) => match spec_parse_actions(b, p2 + n) {
                        None => None,
                        Some(acts) => Some((Some(s), acts)),
                    },
                }
            } else {
                None
            },
        }
    } else {
        match spec_parse_actions(b, 0) {
            None => None,
            Some(acts) => Some((None, acts)),
        }
    }
}

/// The kind a failed identity parse reports.
pub open spec fn identity_err(b: Seq<u8>) -> CodecError {
    if b.len() > 0 && b[0] == TAG_FIELD1_LEN {
        match spec_parse_string(b, 1) {
            None => string_err(b, 1),
            Some(_) => CodecError::Protocol,
        }
    } else {
        CodecError::Protocol
    }
}

/// The kind a failed parse of a request's embedded identity reports.
pub open spec fn request_identity_err(b: Seq<u8>, p: int) -> CodecError {
    if 0 <= p < b.len() && b[p] == TAG_FIELD2_LEN {
        if varint_truncated(b, p + 1) {
            CodecError::Truncated
        } else {
            match spec_parse_varint(b, p + 1) {
                None => CodecError::Protocol,
                Some((n, p2)) => if p2 + n != b.len() {
                    CodecError::Protocol
                } else {
                    match spec_parse_identity(b.subrange(p2, p2 + n)) {
                        None => identity_err(b.subrange(p2, p2 + n)),
                        Some(_) => CodecError::Protocol,
                    }
                },
            }
        }
    } else {
        CodecError::Protocol
    }
}

/// The kind a failed extension-request parse reports.
pub open spec fn extension_request_err(b: Seq<u8>) -> CodecError {
    if b.len() > 0 && b[0] == TAG_FIELD1_VARINT {
        if varint_truncated(b, 1) {
            CodecError::Truncated
        } else {
            match spec_parse_varint(b, 1) {
                None => CodecError::Protocol,
                Some((rt, p)) => if rt == 0 || rt > u64::MAX {
                    CodecError::Protocol
                } else {
                    request_identity_err(b, p)
                },
            }
        }
    } else {
        request_identity_err(b, 0)
    }
}

/// The kind a failed action-list parse reports: that of the first action
/// that fails.
pub open spec fn actions_err(b: Seq<u8>, pos: int) -> CodecError
    decreases b.len() - pos,
{
    if 0 <= pos < b.len() && b[pos] == TAG_FIELD2_LEN {
        match spec_parse_string(b, pos + 1) {
            None => string_err(b, pos + 1),
            Some((s, e)) => if pos + 1 < e <= b.len() {
                actions_err(b, e)
            } else {
                CodecError::Protocol
            },
        }
    } else {
        CodecError::Protocol
    }
}

/// The kind a failed registration parse reports.
pub open spec fn register_err(b: Seq<u8>) -> CodecError {
    if b.len() > 0 && b[0] == TAG_FIELD1_LEN {
        if varint_truncated(b, 1) {
            CodecError::Truncated
        } else {
            match spec_parse_varint(b, 1) {
                None => CodecError::Protocol,
                Some((n, p2)) => if n > u64::MAX {
                    CodecError::Protocol
                } else if p2 + n > b.len() {
                    CodecError::Truncated
                } else {
                    match spec_parse_identity(b.subrange(p2, p2 + n)) {
                        None => identity_err(b.subrange(p2, p2 + n)),
                        Some(_) => actions_err(b, p2 + n),
                    }
                },
            }
        }
    } else {
        actions_err(b, 0)
    }
}

/// Round trip: parsing an encoded identity gives back exactly the
/// identity that was encoded.
pub proof fn lemma_identity_round_trip(s: Seq<char>)
    ensures
        spec_parse_identity(identity_bytes(s)) == Some(s),
{
    if s.len() > 0 {
        let b = identity_bytes(s);
        let sb = string_bytes(s);
        assert(b.subrange(1, 1 + sb.len() as int) =~= sb);
        lemma_parse_string_of_encoding(b, 1, s);
    }
}

/// A buffer holding the wire form of an embedded identity at `start`,
/// running to the end of the buffer, parses back to the identity.
proof fn lemma_parse_embedded_identity(b: Seq<u8>, start: int, tag: u8, s: Seq<char>)
    requires
        0 <= start,
        start + embedded_identity_bytes(tag, s).len() <= b.len(),
        b.subrange(start, start + embedded_identity_bytes(tag, s).len())
            == embedded_identity_bytes(tag, s),
    ensures
        b[start] == tag,
        ({
            let ib = identity_bytes(s);
            let vb = varint_bytes(ib.len());
            spec_parse_varint(b, start + 1) == Some((ib.len(), start + 1 + vb.len()))
                && b.subrange(start + 1 + vb.len(), start + 1 + vb.len() + ib.len()) == ib
                && start + embedded_identity_bytes(tag, s).len() == start + 1 + vb.len() + ib.len()
        }),
{
    let e = embedded_identity_bytes(tag, s);
    let ib = identity_bytes(s);
    let vb = varint_bytes(ib.len());
    assert(e == seq![tag] + vb + ib);
    assert(b[start] == e[0]);
    assert(b.subrange(start + 1, start + 1 + vb.len() as int) =~= vb) by {
        assert(forall|j: int|
            0 <= j < vb.len() ==> #[trigger] b.subrange(start + 1, start + 1 + vb.len() as int)[j]
                == b.subrange(start, start + e.len())[1 + j]);
    }
    lemma_parse_of_encoding(b, start + 1, ib.len());
    let p2 = start + 1 + vb.len();
    assert(b.subrange(p2, p2 + ib.len() as int) =~= ib) by {
        assert(forall|j: int|
            0 <= j < ib.len() ==> #[trigger] b.subrange(p2, p2 + ib.len() as int)[j]
                == b.subrange(start, start + e.len())[1 + vb.len() + j]);
    }
}

/// Round trip: parsing an encoded extension request gives back exactly
/// the fields that were encoded.
pub proof fn lemma_extension_request_round_trip(rt: nat, id: Option<Seq<char>>)
    requires
        rt <= u64::MAX,
    ensures
        spec_parse_extension_request(extension_request_bytes(rt, id)) == Some((rt, id)),
{
    let b = extension_request_bytes(rt, id);
    let idpart = match id {
        None => Seq::<u8>::empty(),
        Some(s) => embedded_identity_bytes(TAG_FIELD2_LEN, s),
    };
    if rt == 0 {
        assert(b =~= idpart);
        match id {
            None => {},
            Some(s) => {
                assert(b.subrange(0, b.len() as int) =~= b);
                lemma_parse_embedded_identity(b, 0, TAG_FIELD2_LEN, s);
                lemma_identity_round_trip(s);
                assert(b[0] != TAG_FIELD1_VARINT);
            },
        }
    } else {
        let vb = varint_bytes(rt);
        assert(b == (seq![TAG_FIELD1_VARINT] + vb) + idpart);
        assert(b.subrange(1, 1 + vb.len() as int) =~= vb);
        lemma_parse_of_encoding(b, 1, rt);
        let p = 1 + vb.len() as int;
        match id {
            None => {
                assert(p == b.len());
            },
            Some(s) => {
                assert(b.subrange(p, p + idpart.len() as int) =~= idpart);
                lemma_parse_embedded_identity(b, p, TAG_FIELD2_LEN, s);
                lemma_identity_round_trip(s);
            },
        }
    }
}

/// A buffer holding the wire form of `a` from `pos` to its end parses
/// back to exactly `a`.
proof fn lemma_parse_actions_of_encoding(b: Seq<u8>, pos: int, a: Seq<Seq<char>>)
    requires
        0 <= pos,
        pos + actions_bytes(a).len() == b.len(),
        b.subrange(pos, b.len() as int) == actions_bytes(a),
    ensures
        spec_parse_actions(b, pos) == Some(a),
    decreases a.len(),
{
    if a.len() == 0 {
    } else {
        let e = actions_bytes(a);
        let sb = string_bytes(a[0]);
        let rest = actions_bytes(a.drop_first());
        assert(e == seq![TAG_FIELD2_LEN] + sb + rest);
        assert(b[pos] == e[0]);
        assert(b.subrange(pos + 1, pos + 1 + sb.len() as int) =~= sb) by {
            assert(forall|j: int|
                0 <= j < sb.len() ==> #[trigger] b.subrange(pos + 1, pos + 1 + sb.len() as int)[j]
                    == b.subrange(pos, b.len() as int)[1 + j]);
        }
        lemma_parse_string_of_encoding(b, pos + 1, a[0]);
        let e1 = pos + 1 + sb.len() as int;
        assert(b.subrange(e1, b.len() as int) =~= rest) by {
            assert(forall|j: int|
                0 <= j < rest.len() ==> #[trigger] b.subrange(e1, b.len() as int)[j] == b.subrange(
                    pos,
                    b.len() as int,
                )[1 + sb.len() + j]);
        }
        lemma_parse_actions_of_encoding(b, e1, a.drop_first());
        assert(seq![a[0]] + a.drop_first() =~= a);
    }
}

/// Round trip: parsing an encoded REST-action registration gives back
/// exactly the fields that were encoded.
pub proof fn lemma_register_round_trip(id: Option<Seq<char>>, a: Seq<Seq<char>>)
    ensures
        spec_parse_register(register_bytes(id, a)) == Some((id, a)),
{
    let b = register_bytes(id, a);
    match id {
        None => {
            assert(b =~= actions_bytes(a));
            assert(b.subrange(0, b.len() as int) =~= b);
            if a.len() > 0 {
                assert(b[0] == TAG_FIELD2_LEN);
            }
            lemma_parse_actions_of_encoding(b, 0, a);
        },
        Some(s) => {
            let idpart = embedded_identity_bytes(TAG_FIELD1_LEN, s);
            assert(b.subrange(0, idpart.len() as int) =~= idpart);
            lemma_parse_embedded_identity(b, 0, TAG_FIELD1_LEN, s);
            lemma_identity_round_trip(s);
            let p = idpart.len() as int;
            assert(b.subrange(p, b.len() as int) =~= actions_bytes(a));
            lemma_parse_actions_of_encoding(b, p, a);
        },
    }
}

/// Parse an extension identity from its serialized bytes.
pub fn parse_extension_identity(bytes: &[u8]) -> (r: Result<ExtensionIdentity, CodecError>)
    ensures
        r matches Ok(m) ==> spec_parse_identity(bytes@) == Some(m.unique_id@),
        r is Err <==> spec_parse_identity(bytes@) is None,
        r matches Err(e) ==> e == identity_err(bytes@),
{
    if bytes.len() == 0 {
        return Ok(ExtensionIdentity { unique_id: String::new() });
    }
    if bytes[0] != TAG_FIELD1_LEN {
        return Err(CodecError::Protocol);
    }
    let (s, end) = match decode_string(bytes, 1) {
        Ok(v) => v,
        Err(e) => {
            return Err(e);
        },
    };
    if end != bytes.len() {
        return Err(CodecError::Protocol);
    }
    if s.as_str().is_empty() {
        return Err(CodecError::Protocol);
    }
    Ok(ExtensionIdentity { unique_id: s })
}

/// Parse an extension request from its serialized bytes.
pub fn parse_extension_request(bytes: &[u8]) -> (r: Result<ExtensionRequest, CodecError>)
    ensures
        r matches Ok(m) ==> spec_parse_extension_request(bytes@) == Some(
            (m.request_type as nat, identity_option_view(m.identity)),
        ),
        r is Err <==> spec_parse_extension_request(bytes@) is None,
        r matches Err(e) ==> e == extension_request_err(bytes@),
{
    let blen = bytes.len();
    let (rt, p) = if blen > 0 && bytes[0] == TAG_FIELD1_VARINT {
        match decode_varint(bytes, 1) {
            Ok((v, p)) => {
                if v == 0 {
                    return Err(CodecError::Protocol);
                }
                (v, p)
            },
            Err(e) => {
                return Err(e);
            },
        }
    } else {
        (0u64, 0usize)
    };
    if p == blen {
        return Ok(ExtensionRequest { request_type: rt, identity: None });
    }
    if bytes[p] != TAG_FIELD2_LEN {
        return Err(CodecError::Protocol);
    }
    let (n, p2) = match decode_varint(bytes, p + 1) {
        Ok(v) => v,
        Err(e) => {
            proof {
                if spec_parse_varint(bytes@, p as int + 1) is Some {
                    lemma_parse_varint_bounds(bytes@, p as int + 1);
                }
            }
            return Err(e);
        },
    };
    if n != (blen - p2) as u64 {
        return Err(CodecError::Protocol);
    }
    let sub = slice_subrange(bytes, p2, p2 + n as usize);
    let id = match parse_extension_identity(sub) {
        Ok(m) => m,
        Err(e) => {
            return Err(e);
        },
    };
    Ok(ExtensionRequest { request_type: rt, identity: Some(id) })
}

/// Parse a REST-action registration from its serialized bytes.
pub fn parse_register_rest_actions(bytes: &[u8]) -> (r: Result<RegisterRestActions, CodecError>)
    ensures
        r matches Ok(m) ==> spec_parse_register(bytes@) == Some(
            (identity_option_view(m.identity), strings_view(m.rest_actions@)),
        ),
        r is Err <==> spec_parse_register(bytes@) is None,
        r matches Err(e) ==> e == register_err(bytes@),
{
    let blen = bytes.len();
    let (identity, start) = if blen > 0 && bytes[0] == TAG_FIELD1_LEN {
        let (n, p2) = match decode_varint(bytes, 1) {
            Ok(v) => v,
            Err(e) => {
                proof {
                    if spec_parse_varint(bytes@, 1) is Some {
                        lemma_parse_varint_bounds(bytes@, 1);
                    }
                }
                return Err(e);
            },
        };
        if n > (blen - p2) as u64 {
            return Err(CodecError::Truncated);
        }
        let sub = slice_subrange(bytes, p2, p2 + n as usize);
        let id = match parse_extension_identity(sub) {
            Ok(m) => m,
            Err(e) => {
                return Err(e);
            },
        };
        (Some(id), p2 + n as usize)
    } else {
        (None, 0usize)
    };
    let mut acts: Vec<String> = Vec::new();
    let mut pos = start;
    proof {
        assert(strings_view(acts@) =~= Seq::<Seq<char>>::empty());
    }
    while pos < blen
        invariant
            start <= pos <= blen,
            blen == bytes@.len(),
            spec_parse_actions(bytes@, pos as int) matches Some(rest) ==> spec_parse_actions(
                bytes@,
                start as int,
            ) == Some(strings_view(acts@) + rest),
            spec_parse_actions(bytes@, pos as int) is None ==> spec_parse_actions(
                bytes@,
                start as int,
            ) is None,
            spec_parse_actions(bytes@, start as int) is None ==> spec_parse_register(
                bytes@,
            ) is None,
            spec_parse_actions(bytes@, start as int) matches Some(acts2) ==> spec_parse_register(
                bytes@,
            ) == Some((identity_option_view(identity), acts2)),
            spec_parse_actions(bytes@, pos as int) is None ==> actions_err(bytes@, start as int)
                == actions_err(bytes@, pos as int),
            spec_parse_actions(bytes@, start as int) is None ==> register_err(bytes@)
                == actions_err(bytes@, start as int),
        decreases blen - pos,
    {
        if bytes[pos] != TAG_FIELD2_LEN {
            return Err(CodecError::Protocol);
        }
        let (s, e) = match decode_string(bytes, pos + 1) {
            Ok(v) => v,
            Err(e) => {
                return Err(e);
            },
        };
        let ghost old_acc = acts@;
        let ghost sv = s@;
        acts.push(s);
        proof {
            assert(strings_view(acts@) =~= strings_view(old_acc) + seq![sv]);
            match spec_parse_actions(bytes@, e as int) {
                Some(rest) => {
                    assert(spec_parse_actions(bytes@, pos as int) == Some(seq![sv] + rest));
                    assert(strings_view(old_acc) + (seq![sv] + rest) =~= strings_view(acts@)
                        + rest);
                },
                None => {},
            }
        }
        pos = e;
    }
    proof {
        assert(strings_view(acts@) + Seq::<Seq<char>>::empty() =~= strings_view(acts@));
    }
    Ok(RegisterRestActions { identity, rest_actions: acts })
}

/// Serialize an extension identity.
pub fn serialize_extension_identity(msg: &ExtensionIdentity) -> (r: Vec<u8>)
    ensures
        r@ == identity_bytes(msg.unique_id@),
{
    let mut out: Vec<u8> = Vec::new();
    if msg.unique_id.as_str().is_empty() {
        return out;
    }
    out.push(TAG_FIELD1_LEN);
    encode_string(msg.unique_id.as_str(), &mut out);
    proof {
        assert(out@ =~= identity_bytes(msg.unique_id@));
    }
    out
}

/// Serialize an extension request.
pub fn serialize_extension_request(msg: &ExtensionRequest) -> (r: Vec<u8>)
    ensures
        r@ == extension_request_bytes(
            msg.request_type as nat,
            identity_option_view(msg.identity),
        ),
{
    let mut out: Vec<u8> = Vec::new();
    if msg.request_type != 0 {
        out.push(TAG_FIELD1_VARINT);
        encode_varint(msg.request_type, &mut out);
    }
    match &msg.identity {
        None => {},
        Some(id) => {
            let idb = serialize_extension_identity(id);
            out.push(TAG_FIELD2_LEN);
            encode_varint(idb.len() as u64, &mut out);
            out.extend_from_slice(idb.as_slice());
        },
    }
    proof {
        assert(out@ =~= extension_request_bytes(
            msg.request_type as nat,
            identity_option_view(msg.identity),
        ));
    }
    out
}

/// Appending one action appends its wire form.
proof fn lemma_actions_bytes_snoc(a: Seq<Seq<char>>)
    requires
        a.len() > 0,
    ensures
        actions_bytes(a) == actions_bytes(a.drop_last()) + (seq![TAG_FIELD2_LEN] + string_bytes(
            a.last(),
        )),
    decreases a.len(),
{
    if a.len() == 1 {
        assert(a.drop_last() =~= Seq::empty());
        assert(a.drop_first() =~= Seq::empty());
        assert(actions_bytes(a) =~= actions_bytes(a.drop_last()) + (seq![TAG_FIELD2_LEN]
            + string_bytes(a.last())));
    } else {
        lemma_actions_bytes_snoc(a.drop_first());
        assert(a.drop_first().drop_last() =~= a.drop_last().drop_first());
        assert(a.drop_first().last() == a.last());
        assert(a.drop_last()[0] == a[0]);
        assert(actions_bytes(a) =~= actions_bytes(a.drop_last()) + (seq![TAG_FIELD2_LEN]
            + string_bytes(a.last())));
    }
}

/// Serialize a REST-action registration.
pub fn serialize_register_rest_actions(msg: &RegisterRestActions) -> (r: Vec<u8>)
    ensures
        r@ == register_bytes(identity_option_view(msg.identity), strings_view(msg.rest_actions@)),
{
    let mut out: Vec<u8> = Vec::new();
    match &msg.identity {
        None => {},
        Some(id) => {
            let idb = serialize_extension_identity(id);
            out.push(TAG_FIELD1_LEN);
            encode_varint(idb.len() as u64, &mut out);
            out.extend_from_slice(idb.as_slice());
        },
    }
    let ghost m = strings_view(msg.rest_actions@);
    let ghost head = out@;
    let mut i: usize = 0;
    proof {
        assert(m.take(0) =~= Seq::<Seq<char>>::empty());
        assert(out@ =~= head + actions_bytes(m.take(0)));
    }
    while i < msg.rest_actions.len()
        invariant
            i <= msg.rest_actions.len(),
            m == strings_view(msg.rest_actions@),
            out@ == head + actions_bytes(m.take(i as int)),
        decreases msg.rest_actions.len() - i,
    {
        out.push(TAG_FIELD2_LEN);
        encode_string(msg.rest_actions[i].as_str(), &mut out);
        proof {
            lemma_actions_bytes_snoc(m.take(i as int + 1));
            assert(m.take(i as int + 1).drop_last() =~= m.take(i as int));
            assert(m.take(i as int + 1).last() == m[i as int]);
            assert(out@ =~= head + actions_bytes(m.take(i as int + 1)));
        }
        i = i + 1;
    }
    proof {
        assert(m.take(m.len() as int) =~= m);
        assert(out@ =~= register_bytes(
            identity_option_view(msg.identity),
            strings_view(msg.rest_actions@),
        ));
    }
    out
}

} // verus!
