//! Length-prefixed string codec.
//!
//! A string travels as a varint byte count followed by that many UTF-8
//! bytes. Decoding validates the bytes: malformed UTF-8 is an encoding
//! error, a count that runs past the input is a truncation.

use vstd::prelude::*;
use vstd::slice::{slice_subrange, slice_to_vec};
use vstd::string::StrSliceExecFns;
use vstd::utf8::{decode_utf8, decode_utf8_encode_utf8, encode_utf8, encode_utf8_decode_utf8,
    encode_utf8_valid_utf8, valid_utf8};

use crate::error::CodecError;
use crate::varint::{
    decode_varint, encode_varint, lemma_encoding_of_parse, lemma_parse_of_encoding,
    lemma_parse_varint_bounds, lemma_truncated_parse_none, spec_parse_varint, varint_bytes,
    varint_truncated,
};

verus! {

/// The wire form of a string: varint byte count, then the UTF-8 bytes.
pub open spec fn string_bytes(s: Seq<char>) -> Seq<u8> {
    varint_bytes(encode_utf8(s).len()) + encode_utf8(s)
}

/// Strict parse of a length-prefixed string at `start`.
pub open spec fn spec_parse_string(b: Seq<u8>, start: int) -> Option<(Seq<char>, int)> {
    match spec_parse_varint(b, start) {
        None => None,
        Some((n, p)) => if p + n <= b.len() && valid_utf8(b.subrange(p, p + n)) {
            Some((decode_utf8(b.subrange(p, p + n)), p + n))
        } else {
            None
        },
    }
}

/// The parse at `start` fails only because the input ends too soon: the
/// count itself is cut off, or it promises more bytes than remain.
pub open spec fn string_truncated(b: Seq<u8>, start: int) -> bool {
    varint_truncated(b, start) || (spec_parse_varint(b, start) matches Some((n, p)) && n
        <= u64::MAX && p + n > b.len())
}

/// The kind a failed string parse reports: truncation when the input
/// ends too soon, an encoding error on malformed UTF-8, otherwise a
/// protocol error.
pub open spec fn string_err(b: Seq<u8>, start: int) -> CodecError {
    if string_truncated(b, start) {
        CodecError::Truncated
    } else if spec_parse_varint(b, start) matches Some((n, p)) && n <= u64::MAX && p + n <= b.len()
        && !valid_utf8(b.subrange(p, p + n)) {
        CodecError::Encoding
    } else {
        CodecError::Protocol
    }
}

/// Relies on `String::from_utf8`: succeeds exactly on valid UTF-8, and
/// the returned string holds exactly the given bytes.
#[verifier::external_body]
pub(crate) fn bytes_to_string(bytes: Vec<u8>) -> (r: Option<String>)
    ensures
        r matches Some(s) ==> encode_utf8(s@) == bytes@ && valid_utf8(bytes@),
        r is None ==> !valid_utf8(bytes@),
{
    String::from_utf8(bytes).ok()
}

/// Append the wire form of `s` to `out`.
pub fn encode_string(s: &str, out: &mut Vec<u8>)
    ensures
        final(out)@ == old(out)@ + string_bytes(s@),
{
    let mut bytes = s.as_bytes_vec();
    let n = bytes.len();
    encode_varint(n as u64, out);
    out.append(&mut bytes);
    proof {
        assert(final(out)@ =~= old(out)@ + string_bytes(s@));
    }
}

/// Decode a length-prefixed string at `b[start..]`.
///
/// Succeeds exactly when a canonical count sits at `start` and that many
/// bytes of valid UTF-8 follow; `Truncated` when the input ends first,
/// `Encoding` when the bytes are not UTF-8, `Protocol` on a malformed
/// count.
pub fn decode_string(b: &[u8], start: usize) -> (r: Result<(String, usize), CodecError>)
    requires
        start <= b@.len(),
    ensures
        r matches Ok(p) ==> spec_parse_string(b@, start as int) == Some((p.0@, p.1 as int))
            && start < p.1 <= b@.len(),
        r is Err <==> spec_parse_string(b@, start as int) is None,
        r == Err::<(String, usize), CodecError>(CodecError::Truncated) <==> string_truncated(
            b@,
            start as int,
        ),
        r == Err::<(String, usize), CodecError>(CodecError::Encoding) <==> (spec_parse_varint(
            b@,
            start as int,
        ) matches Some((n, p)) && n <= u64::MAX && p + n <= b@.len() && !valid_utf8(
            b@.subrange(p, p + n),
        )),
        r matches Err(e) ==> e == string_err(b@, start as int),
{
    proof {
        if varint_truncated(b@, start as int) {
            lemma_truncated_parse_none(b@, start as int);
        }
    }
    let blen = b.len();
    let (n, p) = match decode_varint(b, start) {
        Ok(v) => v,
        Err(e) => {
            proof {
                if spec_parse_varint(b@, start as int) is Some {
                    lemma_parse_varint_bounds(b@, start as int);
                }
            }
            return Err(e);
        },
    };
    let remaining = blen - p;
    if n > remaining as u64 {
        return Err(CodecError::Truncated);
    }
    let n_usize = n as usize;
    let sub = slice_subrange(b, p, p + n_usize);
    let bytes = slice_to_vec(sub);
    match bytes_to_string(bytes) {
        None => Err(CodecError::Encoding),
        Some(s) => {
            proof {
                encode_utf8_decode_utf8(s@);
            }
            Ok((s, p + n_usize))
        },
    }
}

/// What a successful parse consumed is exactly the wire form of the
/// string it returned: re-encoding reproduces the bytes.
pub proof fn lemma_encoding_of_parse_string(b: Seq<u8>, start: int)
    requires
        0 <= start,
        spec_parse_string(b, start) is Some,
    ensures
        b.subrange(start, spec_parse_string(b, start)->Some_0.1) == string_bytes(
            spec_parse_string(b, start)->Some_0.0,
        ),
{
    let (s, end) = spec_parse_string(b, start)->Some_0;
    let (n, p) = spec_parse_varint(b, start)->Some_0;
    lemma_parse_varint_bounds(b, start);
    lemma_encoding_of_parse(b, start);
    let sub = b.subrange(p, p + n);
    decode_utf8_encode_utf8(sub);
    assert(encode_utf8(s) == sub);
    assert(string_bytes(s) == varint_bytes(n) + sub);
    assert(b.subrange(start, end) =~= b.subrange(start, p) + sub);
}

/// A buffer holding the wire form of `s` at `start` parses to exactly
/// `s`, ending right after it.
pub proof fn lemma_parse_string_of_encoding(b: Seq<u8>, start: int, s: Seq<char>)
    requires
        0 <= start,
        start + string_bytes(s).len() <= b.len(),
        b.subrange(start, start + string_bytes(s).len()) == string_bytes(s),
    ensures
        spec_parse_string(b, start) == Some((s, start + string_bytes(s).len())),
{
    let u = encode_utf8(s);
    let v = varint_bytes(u.len());
    let e = string_bytes(s);
    assert(e == v + u);
    assert(b.subrange(start, start + v.len()) =~= v) by {
        assert(forall|j: int|
            0 <= j < v.len() ==> b.subrange(start, start + v.len())[j] == b[start + j] && b[start
                + j] == e[j] && e[j] == v[j]);
    }
    lemma_parse_of_encoding(b, start, u.len());
    let p = start + v.len();
    assert(b.subrange(p, p + u.len()) =~= u) by {
        assert(forall|j: int|
            0 <= j < u.len() ==> b.subrange(p, p + u.len())[j] == b[p + j] && b[p + j] == e[v.len()
                + j] && e[v.len() + j] == u[j]);
    }
    encode_utf8_valid_utf8(s);
    encode_utf8_decode_utf8(s);
}

} // verus!
