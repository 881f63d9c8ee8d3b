//! Variable-header codec.
//!
//! The extensible section of a frame: thread-context key/value pairs, a
//! feature list, and an optional action name, in a self-describing,
//! length-prefixed encoding. A varint gives the pair count, then the
//! pairs; a varint gives the feature count, then the features; one
//! presence byte introduces the optional action. The empty structure
//! encodes to zero bytes, and a declared size of zero decodes to the
//! empty structure without consuming anything.

use vstd::prelude::*;

use crate::error::CodecError;
use crate::strings::{
    decode_string, encode_string, lemma_encoding_of_parse_string, lemma_parse_string_of_encoding,
    spec_parse_string, string_bytes, string_err,
};
use crate::varint::{
    decode_varint, encode_varint, lemma_encoding_of_parse, lemma_parse_of_encoding,
    lemma_parse_varint_bounds, spec_parse_varint, varint_bytes, varint_truncated,
};

verus! {

/// The structured form of the variable-header section.
#[derive(Clone, Debug, PartialEq, Eq)]
pub struct VariableHeaders {
    /// Key/value pairs, in wire order: insertion order is irrelevant on
    /// read, but entries re-encode byte-for-byte as they were decoded.
    pub thread_context: Vec<(String, String)>,
    /// Ordered feature names.
    pub features: Vec<String>,
    /// Optional action name.
    pub action: Option<String>,
}

/// Mathematical model of a variable-header section.
#[verifier::ext_equal]
pub struct VariableHeadersView {
    pub thread_context: Seq<(Seq<char>, Seq<char>)>,
    pub features: Seq<Seq<char>>,
    pub action: Option<Seq<char>>,
}

impl VariableHeadersView {
    /// No pairs, no features, no action.
    pub open spec fn is_empty(self) -> bool {
        self.thread_context.len() == 0 && self.features.len() == 0 && self.action is None
    }
}

/// The character sequences of a pair list.
pub open spec fn pairs_view(s: Seq<(String, String)>) -> Seq<(Seq<char>, Seq<char>)> {
    s.map_values(|p: (String, String)| (p.0@, p.1@))
}

/// The character sequences of a string list.
pub open spec fn strings_view(s: Seq<String>) -> Seq<Seq<char>> {
    s.map_values(|x: String| x@)
}

impl View for VariableHeaders {
    type V = VariableHeadersView;

    open spec fn view(&self) -> VariableHeadersView {
        VariableHeadersView {
            thread_context: pairs_view(self.thread_context@),
            features: strings_view(self.features@),
            action: match self.action {
                Some(s) => Some(s@),
                None => None,
            },
        }
    }
}

impl VariableHeaders {
    /// The empty structure.
    pub fn empty() -> (r: VariableHeaders)
        ensures
            r@.is_empty(),
    {
        let r = VariableHeaders { thread_context: Vec::new(), features: Vec::new(), action: None };
        proof {
            assert(r@.thread_context =~= Seq::<(Seq<char>, Seq<char>)>::empty());
            assert(r@.features =~= Seq::<Seq<char>>::empty());
        }
        r
    }
}

/// Wire form of the thread-context pairs, each key before its value.
pub open spec fn pairs_bytes(tc: Seq<(Seq<char>, Seq<char>)>) -> Seq<u8>
    decreases tc.len(),
{
    if tc.len() == 0 {
        Seq::empty()
    } else {
        string_bytes(tc[0].0) + string_bytes(tc[0].1) + pairs_bytes(tc.drop_first())
    }
}

/// Wire form of a string list.
pub open spec fn strings_bytes(fs: Seq<Seq<char>>) -> Seq<u8>
    decreases fs.len(),
{
    if fs.len() == 0 {
        Seq::empty()
    } else {
        string_bytes(fs[0]) + strings_bytes(fs.drop_first())
    }
}

/// Wire form of the optional action: a presence byte, then the string.
pub open spec fn action_bytes(a: Option<Seq<char>>) -> Seq<u8> {
    match a {
        None => seq![0u8],
        Some(s) => seq![1u8] + string_bytes(s),
    }
}

/// Wire form of a whole variable-header section. The empty structure is
/// the empty byte sequence, so an empty section costs nothing on the wire.
pub open spec fn varheaders_bytes(m: VariableHeadersView) -> Seq<u8> {
    if m.is_empty() {
        Seq::empty()
    } else {
        varint_bytes(m.thread_context.len()) + pairs_bytes(m.thread_context) + varint_bytes(
            m.features.len(),
        ) + strings_bytes(m.features) + action_bytes(m.action)
    }
}

/// Strict parse of `n` key/value pairs at `start`.
pub open spec fn spec_parse_pairs(b: Seq<u8>, start: int, n: nat) -> Option<
    (Seq<(Seq<char>, Seq<char>)>, int),
>
    decreases n,
{
    if n == 0 {
        Some((Seq::empty(), start))
    } else {
        match spec_parse_string(b, start) {
            None => None,
            Some((k, p1)) => match spec_parse_string(b, p1) {
                None => None,
                Some((v, p2)) => match spec_parse_pairs(b, p2, (n - 1) as nat) {
                    None => None,
                    Some((rest, end)) => Some((seq![(k, v)] + rest, end)),
                },
            },
        }
    }
}

/// Strict parse of `n` strings at `start`.
pub open spec fn spec_parse_strings(b: Seq<u8>, start: int, n: nat) -> Option<(Seq<Seq<char>>, int)>
    decreases n,
{
    if n == 0 {
        Some((Seq::empty(), start))
    } else {
        match spec_parse_string(b, start) {
            None => None,
            Some((s, p1)) => match spec_parse_strings(b, p1, (n - 1) as nat) {
                None => None,
                Some((rest, end)) => Some((seq![s] + rest, end)),
            },
        }
    }
}

/// Strict parse of the optional action at `start`.
pub open spec fn spec_parse_action(b: Seq<u8>, start: int) -> Option<(Option<Seq<char>>, int)> {
    if start < 0 || start >= b.len() {
        None
    } else if b[start] == 0 {
        Some((None, start + 1))
    } else if b[start] == 1 {
        match spec_parse_string(b, start + 1) {
            None => None,
            Some((s, end)) => Some((Some(s), end)),
        }
    } else {
        None
    }
}

/// Strict parse of a whole variable-header section: the buffer is
/// exactly the declared section, must be consumed exactly, and only the
/// empty byte sequence denotes the empty structure.
pub open spec fn spec_parse_varheaders(b: Seq<u8>) -> Option<VariableHeadersView> {
    if b.len() == 0 {
        Some(VariableHeadersView { thread_context: Seq::empty(), features: Seq::empty(), action: None })
    } else {
        match spec_parse_varint(b, 0) {
            None => None,
            Some((n1, p1)) => match spec_parse_pairs(b, p1, n1) {
                None => None,
                Some((tc, p2)) => match spec_parse_varint(b, p2) {
                    None => None,
                    Some((n2, p3)) => match spec_parse_strings(b, p3, n2) {
                        None => None,
                        Some((fs, p4)) => match spec_parse_action(b, p4) {
                            None => None,
                            Some((a, p5)) => {
                                let m = VariableHeadersView {
                                    thread_context: tc,
                                    features: fs,
                                    action: a,
                                };
                                if p5 == b.len() && !m.is_empty() {
                                    Some(m)
                                } else {
                                    None
                                }
                            },
                        },
                    },
                },
            },
        }
    }
}

/// Serialize a variable-header section; the result's length is the value
/// the fixed header's `variable_header_size` field must carry.
pub fn encode_varheaders(v: &VariableHeaders) -> (r: Vec<u8>)
    ensures
        r@ == varheaders_bytes(v@),
{
    let mut out: Vec<u8> = Vec::new();
    if v.thread_context.len() == 0 && v.features.len() == 0 && v.action.is_none() {
        proof {
            assert(v@.is_empty());
        }
        return out;
    }
    let ghost m = v@;
    encode_varint(v.thread_context.len() as u64, &mut out);
    let mut i: usize = 0;
    while i < v.thread_context.len()
        invariant
            i <= v.thread_context.len(),
            m == v@,
            out@ == varint_bytes(m.thread_context.len()) + pairs_bytes(
                m.thread_context.take(i as int),
            ),
        decreases v.thread_context.len() - i,
    {
        let pair = &v.thread_context[i];
        encode_string(pair.0.as_str(), &mut out);
        encode_string(pair.1.as_str(), &mut out);
        proof {
            lemma_pairs_bytes_snoc(m.thread_context.take(i as int + 1));
            assert(m.thread_context.take(i as int + 1).drop_last() =~= m.thread_context.take(
                i as int,
            ));
            assert(m.thread_context.take(i as int + 1).last() == m.thread_context[i as int]);
            assert(out@ =~= varint_bytes(m.thread_context.len()) + pairs_bytes(
                m.thread_context.take(i as int + 1),
            ));
        }
        i = i + 1;
    }
    proof {
        assert(m.thread_context.take(m.thread_context.len() as int) =~= m.thread_context);
    }
    encode_varint(v.features.len() as u64, &mut out);
    let ghost mid = out@;
    let mut j: usize = 0;
    while j < v.features.len()
        invariant
            j <= v.features.len(),
            m == v@,
            mid == varint_bytes(m.thread_context.len()) + pairs_bytes(m.thread_context)
                + varint_bytes(m.features.len()),
            out@ == mid + strings_bytes(m.features.take(j as int)),
        decreases v.features.len() - j,
    {
        encode_string(v.features[j].as_str(), &mut out);
        proof {
            lemma_strings_bytes_snoc(m.features.take(j as int + 1));
            assert(m.features.take(j as int + 1).drop_last() =~= m.features.take(j as int));
            assert(m.features.take(j as int + 1).last() == m.features[j as int]);
            assert(out@ =~= mid + strings_bytes(m.features.take(j as int + 1)));
        }
        j = j + 1;
    }
    proof {
        assert(m.features.take(m.features.len() as int) =~= m.features);
    }
    match &v.action {
        None => {
            out.push(0u8);
        },
        Some(s) => {
            out.push(1u8);
            encode_string(s.as_str(), &mut out);
        },
    }
    proof {
        assert(out@ =~= varheaders_bytes(m));
    }
    out
}

/// The kind a failed pair parse reports: that of the first string that
/// fails.
pub open spec fn pairs_err(b: Seq<u8>, start: int, n: nat) -> CodecError
    decreases n,
{
    if n == 0 {
        CodecError::Protocol
    } else {
        match spec_parse_string(b, start) {
            None => string_err(b, start),
            Some((k, p1)) => match spec_parse_string(b, p1) {
                None => string_err(b, p1),
                Some((v, p2)) => pairs_err(b, p2, (n - 1) as nat),
            },
        }
    }
}

/// The kind a failed string-list parse reports: that of the first string
/// that fails.
pub open spec fn string_list_err(b: Seq<u8>, start: int, n: nat) -> CodecError
    decreases n,
{
    if n == 0 {
        CodecError::Protocol
    } else {
        match spec_parse_string(b, start) {
            None => string_err(b, start),
            Some((s, p1)) => string_list_err(b, p1, (n - 1) as nat),
        }
    }
}

/// The kind a failed variable-header parse reports, following the wire
/// layout to the first field that fails: truncations where the input
/// ends too soon, encoding errors inside a string, protocol errors for
/// everything structural.
pub open spec fn varheaders_err(b: Seq<u8>) -> CodecError {
    if varint_truncated(b, 0) {
        CodecError::Truncated
    } else {
        match spec_parse_varint(b, 0) {
            None => CodecError::Protocol,
            Some((n1, p1)) => if n1 > u64::MAX {
                CodecError::Protocol
            } else {
                match spec_parse_pairs(b, p1, n1) {
                    None => pairs_err(b, p1, n1),
                    Some((tc, p2)) => if varint_truncated(b, p2) {
                        CodecError::Truncated
                    } else {
                        match spec_parse_varint(b, p2) {
                            None => CodecError::Protocol,
                            Some((n2, p3)) => if n2 > u64::MAX {
                                CodecError::Protocol
                            } else {
                                match spec_parse_strings(b, p3, n2) {
                                    None => string_list_err(b, p3, n2),
                                    Some((fs, p4)) => if p4 >= b.len() {
                                        CodecError::Truncated
                                    } else if b[p4] == 1 {
                                        match spec_parse_string(b, p4 + 1) {
                                            None => string_err(b, p4 + 1),
                                            Some(_) => CodecError::Protocol,
                                        }
                                    } else {
                                        CodecError::Protocol
                                    },
                                }
                            },
                        }
                    },
                }
            },
        }
    }
}

/// A successfully parsed string takes at least one byte and stays inside
/// the buffer.
pub proof fn lemma_parse_string_bounds(b: Seq<u8>, start: int)
    requires
        0 <= start,
        spec_parse_string(b, start) is Some,
    ensures
        start < spec_parse_string(b, start)->Some_0.1 <= b.len(),
{
    lemma_parse_varint_bounds(b, start);
}

/// `n` parsed pairs take at least two bytes each, stay inside the
/// buffer, and yield exactly `n` entries.
pub proof fn lemma_parse_pairs_bounds(b: Seq<u8>, start: int, n: nat)
    requires
        0 <= start <= b.len(),
        spec_parse_pairs(b, start, n) is Some,
    ensures
        start + 2 * n <= spec_parse_pairs(b, start, n)->Some_0.1 <= b.len(),
        spec_parse_pairs(b, start, n)->Some_0.0.len() == n,
    decreases n,
{
    if n > 0 {
        lemma_parse_string_bounds(b, start);
        let p1 = spec_parse_string(b, start)->Some_0.1;
        lemma_parse_string_bounds(b, p1);
        let p2 = spec_parse_string(b, p1)->Some_0.1;
        lemma_parse_pairs_bounds(b, p2, (n - 1) as nat);
    }
}

/// `n` parsed strings take at least one byte each, stay inside the
/// buffer, and yield exactly `n` entries.
pub proof fn lemma_parse_strings_bounds(b: Seq<u8>, start: int, n: nat)
    requires
        0 <= start <= b.len(),
        spec_parse_strings(b, start, n) is Some,
    ensures
        start + n <= spec_parse_strings(b, start, n)->Some_0.1 <= b.len(),
        spec_parse_strings(b, start, n)->Some_0.0.len() == n,
    decreases n,
{
    if n > 0 {
        lemma_parse_string_bounds(b, start);
        let p1 = spec_parse_string(b, start)->Some_0.1;
        lemma_parse_strings_bounds(b, p1, (n - 1) as nat);
    }
}

/// Decode `n` key/value pairs at `b[start..]`.
fn decode_pairs(b: &[u8], start: usize, n: u64) -> (r: Result<
    (Vec<(String, String)>, usize),
    CodecError,
>)
    requires
        start <= b@.len(),
    ensures
        r matches Ok(p) ==> spec_parse_pairs(b@, start as int, n as nat) == Some(
            (pairs_view(p.0@), p.1 as int),
        ) && start <= p.1 <= b@.len(),
        r is Err <==> spec_parse_pairs(b@, start as int, n as nat) is None,
        r matches Err(e) ==> e == pairs_err(b@, start as int, n as nat),
{
    let mut acc: Vec<(String, String)> = Vec::new();
    let mut pos = start;
    let mut i: u64 = 0;
    proof {
        assert(pairs_view(acc@) =~= Seq::<(Seq<char>, Seq<char>)>::empty());
    }
    while i < n
        invariant
            start <= pos <= b@.len(),
            i <= n,
            spec_parse_pairs(b@, pos as int, (n - i) as nat) matches Some(q)
                ==> spec_parse_pairs(b@, start as int, n as nat) == Some(
                (pairs_view(acc@) + q.0, q.1),
            ),
            spec_parse_pairs(b@, pos as int, (n - i) as nat) is None ==> spec_parse_pairs(
                b@,
                start as int,
                n as nat,
            ) is None,
            spec_parse_pairs(b@, pos as int, (n - i) as nat) is None ==> pairs_err(
                b@,
                start as int,
                n as nat,
            ) == pairs_err(b@, pos as int, (n - i) as nat),
        decreases n - i,
    {
        let k = match decode_string(b, pos) {
            Ok(v) => v,
            Err(e) => {
                return Err(e);
            },
        };
        let v = match decode_string(b, k.1) {
            Ok(v) => v,
            Err(e) => {
                return Err(e);
            },
        };
        let ghost old_acc = acc@;
        let ghost kv = (k.0@, v.0@);
        let p2 = v.1;
        acc.push((k.0, v.0));
        proof {
            assert(pairs_view(acc@) =~= pairs_view(old_acc) + seq![kv]);
            match spec_parse_pairs(b@, p2 as int, (n - i - 1) as nat) {
                Some(q) => {
                    assert(spec_parse_pairs(b@, pos as int, (n - i) as nat) == Some(
                        (seq![kv] + q.0, q.1),
                    ));
                    assert(pairs_view(old_acc) + (seq![kv] + q.0) =~= pairs_view(acc@) + q.0);
                },
                None => {},
            }
        }
        pos = p2;
        i = i + 1;
    }
    proof {
        assert(spec_parse_pairs(b@, pos as int, 0) == Some(
            (Seq::<(Seq<char>, Seq<char>)>::empty(), pos as int),
        ));
        assert(pairs_view(acc@) + Seq::<(Seq<char>, Seq<char>)>::empty() =~= pairs_view(acc@));
    }
    Ok((acc, pos))
}

/// Decode `n` strings at `b[start..]`.
fn decode_string_list(b: &[u8], start: usize, n: u64) -> (r: Result<
    (Vec<String>, usize),
    CodecError,
>)
    requires
        start <= b@.len(),
    ensures
        r matches Ok(p) ==> spec_parse_strings(b@, start as int, n as nat) == Some(
            (strings_view(p.0@), p.1 as int),
        ) && start <= p.1 <= b@.len(),
        r is Err <==> spec_parse_strings(b@, start as int, n as nat) is None,
        r matches Err(e) ==> e == string_list_err(b@, start as int, n as nat),
{
    let mut acc: Vec<String> = Vec::new();
    let mut pos = start;
    let mut i: u64 = 0;
    proof {
        assert(strings_view(acc@) =~= Seq::<Seq<char>>::empty());
    }
    while i < n
        invariant
            start <= pos <= b@.len(),
            i <= n,
            spec_parse_strings(b@, pos as int, (n - i) as nat) matches Some(q)
                ==> spec_parse_strings(b@, start as int, n as nat) == Some(
                (strings_view(acc@) + q.0, q.1),
            ),
            spec_parse_strings(b@, pos as int, (n - i) as nat) is None ==> spec_parse_strings(
                b@,
                start as int,
                n as nat,
            ) is None,
            spec_parse_strings(b@, pos as int, (n - i) as nat) is None ==> string_list_err(
                b@,
                start as int,
                n as nat,
            ) == string_list_err(b@, pos as int, (n - i) as nat),
        decreases n - i,
    {
        let s = match decode_string(b, pos) {
            Ok(v) => v,
            Err(e) => {
                return Err(e);
            },
        };
        let ghost old_acc = acc@;
        let ghost sv = s.0@;
        let p1 = s.1;
        acc.push(s.0);
        proof {
            assert(strings_view(acc@) =~= strings_view(old_acc) + seq![sv]);
            match spec_parse_strings(b@, p1 as int, (n - i - 1) as nat) {
                Some(q) => {
                    assert(spec_parse_strings(b@, pos as int, (n - i) as nat) == Some(
                        (seq![sv] + q.0, q.1),
                    ));
                    assert(strings_view(old_acc) + (seq![sv] + q.0) =~= strings_view(acc@) + q.0);
                },
                None => {},
            }
        }
        pos = p1;
        i = i + 1;
    }
    proof {
        assert(spec_parse_strings(b@, pos as int, 0) == Some(
            (Seq::<Seq<char>>::empty(), pos as int),
        ));
        assert(strings_view(acc@) + Seq::<Seq<char>>::empty() =~= strings_view(acc@));
    }
    Ok((acc, pos))
}

/// Decode a whole variable-header section from exactly `b`.
///
/// `b` is the slice the fixed header declared: an empty slice is the
/// empty structure; otherwise the counts, pairs, features and action are
/// read and the slice must be consumed exactly. Consuming more or fewer
/// bytes than declared, or a non-canonical encoding of the empty
/// structure, is a protocol error; an input that ends mid-value is a
/// truncation; malformed UTF-8 is an encoding error.
pub fn decode_varheaders(b: &[u8]) -> (r: Result<VariableHeaders, CodecError>)
    ensures
        r matches Ok(v) ==> spec_parse_varheaders(b@) == Some(v@),
        r is Err <==> spec_parse_varheaders(b@) is None,
        r matches Err(e) ==> e == varheaders_err(b@),
{
    if b.len() == 0 {
        let v = VariableHeaders::empty();
        proof {
            assert(v@ =~= VariableHeadersView {
                thread_context: Seq::empty(),
                features: Seq::empty(),
                action: None,
            });
        }
        return Ok(v);
    }
    let (n1, p1) = match decode_varint(b, 0) {
        Ok(v) => v,
        Err(e) => {
            proof {
                match spec_parse_varint(b@, 0) {
                    Some((n, p)) => {
                        lemma_parse_varint_bounds(b@, 0);
                        if spec_parse_pairs(b@, p, n) is Some {
                            lemma_parse_pairs_bounds(b@, p, n);
                        }
                    },
                    None => {},
                }
            }
            return Err(e);
        },
    };
    let (tc, p2) = match decode_pairs(b, p1, n1) {
        Ok(v) => v,
        Err(e) => {
            return Err(e);
        },
    };
    let (n2, p3) = match decode_varint(b, p2) {
        Ok(v) => v,
        Err(e) => {
            proof {
                match spec_parse_varint(b@, p2 as int) {
                    Some((n, p)) => {
                        lemma_parse_varint_bounds(b@, p2 as int);
                        if spec_parse_strings(b@, p, n) is Some {
                            lemma_parse_strings_bounds(b@, p, n);
                        }
                    },
                    None => {},
                }
            }
            return Err(e);
        },
    };
    let (fs, p4) = match decode_string_list(b, p3, n2) {
        Ok(v) => v,
        Err(e) => {
            return Err(e);
        },
    };
    let (action, p5) = if p4 >= b.len() {
        return Err(CodecError::Truncated);
    } else if b[p4] == 0 {
        (None, p4 + 1)
    } else if b[p4] == 1 {
        match decode_string(b, p4 + 1) {
            Ok(v) => (Some(v.0), v.1),
            Err(e) => {
                return Err(e);
            },
        }
    } else {
        return Err(CodecError::Protocol);
    };
    if p5 != b.len() {
        return Err(CodecError::Protocol);
    }
    if tc.len() == 0 && fs.len() == 0 && action.is_none() {
        return Err(CodecError::Protocol);
    }
    let v = VariableHeaders { thread_context: tc, features: fs, action };
    Ok(v)
}

/// Appending one pair appends its wire form.
proof fn lemma_pairs_bytes_snoc(tc: Seq<(Seq<char>, Seq<char>)>)
    requires
        tc.len() > 0,
    ensures
        pairs_bytes(tc) == pairs_bytes(tc.drop_last()) + string_bytes(tc.last().0) + string_bytes(
            tc.last().1,
        ),
    decreases tc.len(),
{
    if tc.len() == 1 {
        assert(tc.drop_last() =~= Seq::empty());
        assert(tc.drop_first() =~= Seq::empty());
        assert(pairs_bytes(tc) =~= pairs_bytes(tc.drop_last()) + string_bytes(tc.last().0)
            + string_bytes(tc.last().1));
    } else {
        lemma_pairs_bytes_snoc(tc.drop_first());
        assert(tc.drop_first().drop_last() =~= tc.drop_last().drop_first());
        assert(tc.drop_first().last() == tc.last());
        assert(tc.drop_last()[0] == tc[0]);
        assert(pairs_bytes(tc) =~= pairs_bytes(tc.drop_last()) + string_bytes(tc.last().0)
            + string_bytes(tc.last().1));
    }
}

/// Appending one string appends its wire form.
proof fn lemma_strings_bytes_snoc(fs: Seq<Seq<char>>)
    requires
        fs.len() > 0,
    ensures
        strings_bytes(fs) == strings_bytes(fs.drop_last()) + string_bytes(fs.last()),
    decreases fs.len(),
{
    if fs.len() == 1 {
        assert(fs.drop_last() =~= Seq::empty());
        assert(fs.drop_first() =~= Seq::empty());
        assert(strings_bytes(fs) =~= strings_bytes(fs.drop_last()) + string_bytes(fs.last()));
    } else {
        lemma_strings_bytes_snoc(fs.drop_first());
        assert(fs.drop_first().drop_last() =~= fs.drop_last().drop_first());
        assert(fs.drop_first().last() == fs.last());
        assert(fs.drop_last()[0] == fs[0]);
        assert(strings_bytes(fs) =~= strings_bytes(fs.drop_last()) + string_bytes(fs.last()));
    }
}

/// A sub-sequence of a segment of `b` is itself a segment of `b`.
proof fn lemma_segment(b: Seq<u8>, start: int, e: Seq<u8>, off: int, sub: Seq<u8>)
    requires
        0 <= start,
        start + e.len() <= b.len(),
        b.subrange(start, start + e.len()) == e,
        0 <= off,
        off + sub.len() <= e.len(),
        e.subrange(off, off + sub.len()) == sub,
    ensures
        b.subrange(start + off, start + off + sub.len()) == sub,
{
    assert(b.subrange(start + off, start + off + sub.len()) =~= sub) by {
        assert(forall|j: int|
            0 <= j < sub.len() ==> #[trigger] b.subrange(start + off, start + off + sub.len())[j]
                == b[start + off + j] && b[start + off + j] == b.subrange(
                start,
                start + e.len(),
            )[off + j] && e[off + j] == e.subrange(off, off + sub.len())[j]);
    }
}

/// A buffer holding the wire form of `tc` at `start` parses to exactly
/// `tc`.
proof fn lemma_parse_pairs_of_encoding(b: Seq<u8>, start: int, tc: Seq<(Seq<char>, Seq<char>)>)
    requires
        0 <= start,
        start + pairs_bytes(tc).len() <= b.len(),
        b.subrange(start, start + pairs_bytes(tc).len()) == pairs_bytes(tc),
    ensures
        spec_parse_pairs(b, start, tc.len()) == Some((tc, start + pairs_bytes(tc).len())),
    decreases tc.len(),
{
    if tc.len() > 0 {
        let e = pairs_bytes(tc);
        let k = string_bytes(tc[0].0);
        let v = string_bytes(tc[0].1);
        let rest = pairs_bytes(tc.drop_first());
        assert(e == k + v + rest);
        assert(e.subrange(0, k.len() as int) =~= k);
        lemma_segment(b, start, e, 0, k);
        lemma_parse_string_of_encoding(b, start, tc[0].0);
        assert(e.subrange(k.len() as int, k.len() + v.len() as int) =~= v);
        lemma_segment(b, start, e, k.len() as int, v);
        lemma_parse_string_of_encoding(b, start + k.len(), tc[0].1);
        assert(e.subrange(k.len() + v.len() as int, e.len() as int) =~= rest);
        lemma_segment(b, start, e, k.len() + v.len() as int, rest);
        lemma_parse_pairs_of_encoding(b, start + k.len() + v.len(), tc.drop_first());
        assert(seq![(tc[0].0, tc[0].1)] + tc.drop_first() =~= tc);
    }
}

/// A buffer holding the wire form of `fs` at `start` parses to exactly
/// `fs`.
proof fn lemma_parse_strings_of_encoding(b: Seq<u8>, start: int, fs: Seq<Seq<char>>)
    requires
        0 <= start,
        start + strings_bytes(fs).len() <= b.len(),
        b.subrange(start, start + strings_bytes(fs).len()) == strings_bytes(fs),
    ensures
        spec_parse_strings(b, start, fs.len()) == Some((fs, start + strings_bytes(fs).len())),
    decreases fs.len(),
{
    if fs.len() > 0 {
        let e = strings_bytes(fs);
        let s = string_bytes(fs[0]);
        let rest = strings_bytes(fs.drop_first());
        assert(e == s + rest);
        assert(e.subrange(0, s.len() as int) =~= s);
        lemma_segment(b, start, e, 0, s);
        lemma_parse_string_of_encoding(b, start, fs[0]);
        assert(e.subrange(s.len() as int, e.len() as int) =~= rest);
        lemma_segment(b, start, e, s.len() as int, rest);
        lemma_parse_strings_of_encoding(b, start + s.len(), fs.drop_first());
        assert(seq![fs[0]] + fs.drop_first() =~= fs);
    }
}

/// Round trip: parsing an encoded variable-header section gives back
/// exactly the structure that was encoded. In particular the empty
/// structure costs zero bytes and comes back empty.
#[verifier::rlimit(50)]
pub proof fn lemma_varheaders_round_trip(m: VariableHeadersView)
    ensures
        spec_parse_varheaders(varheaders_bytes(m)) == Some(m),
{
    let b = varheaders_bytes(m);
    if m.is_empty() {
        assert(m =~= VariableHeadersView {
            thread_context: Seq::empty(),
            features: Seq::empty(),
            action: None,
        });
    } else {
        let c1 = varint_bytes(m.thread_context.len());
        let tb = pairs_bytes(m.thread_context);
        let c2 = varint_bytes(m.features.len());
        let fb = strings_bytes(m.features);
        let ab = action_bytes(m.action);
        assert(b == c1 + tb + c2 + fb + ab);
        assert(b.len() >= 1);
        assert(b.subrange(0, b.len() as int) =~= b);
        assert(b.subrange(0, c1.len() as int) =~= c1);
        lemma_parse_of_encoding(b, 0, m.thread_context.len());
        let p1 = c1.len() as int;
        assert(b.subrange(p1, p1 + tb.len()) =~= tb);
        lemma_parse_pairs_of_encoding(b, p1, m.thread_context);
        let p2 = p1 + tb.len();
        assert(b.subrange(p2, p2 + c2.len()) =~= c2);
        lemma_parse_of_encoding(b, p2, m.features.len());
        let p3 = p2 + c2.len();
        assert(b.subrange(p3, p3 + fb.len()) =~= fb);
        lemma_parse_strings_of_encoding(b, p3, m.features);
        let p4 = p3 + fb.len();
        match m.action {
            None => {
                assert(b[p4] == 0);
                assert(spec_parse_action(b, p4) == Some((None::<Seq<char>>, p4 + 1)));
                assert(p4 + 1 == b.len());
            },
            Some(s) => {
                assert(b[p4] == 1);
                let sb = string_bytes(s);
                assert(ab == seq![1u8] + sb);
                assert(ab.subrange(1, 1 + sb.len() as int) =~= sb);
                assert(b.subrange(p4, p4 + ab.len()) =~= ab);
                lemma_segment(b, p4, ab, 1, sb);
                lemma_parse_string_of_encoding(b, p4 + 1, s);
                assert(spec_parse_action(b, p4) == Some((Some(s), p4 + 1 + sb.len())));
                assert(p4 + 1 + sb.len() == b.len());
            },
        }
        assert(spec_parse_varheaders(b) == Some(VariableHeadersView {
            thread_context: m.thread_context,
            features: m.features,
            action: m.action,
        }));
        assert(VariableHeadersView {
            thread_context: m.thread_context,
            features: m.features,
            action: m.action,
        } =~= m);
    }
}

/// What a successful pair parse consumed is exactly the wire form of the
/// pairs it returned.
proof fn lemma_encoding_of_parse_pairs(b: Seq<u8>, start: int, n: nat)
    requires
        0 <= start <= b.len(),
        spec_parse_pairs(b, start, n) is Some,
    ensures
        b.subrange(start, spec_parse_pairs(b, start, n)->Some_0.1) == pairs_bytes(
            spec_parse_pairs(b, start, n)->Some_0.0,
        ),
    decreases n,
{
    let (tc, end) = spec_parse_pairs(b, start, n)->Some_0;
    if n == 0 {
        assert(b.subrange(start, start) =~= pairs_bytes(tc));
    } else {
        let (k, p1) = spec_parse_string(b, start)->Some_0;
        let (v, p2) = spec_parse_string(b, p1)->Some_0;
        lemma_parse_string_bounds(b, start);
        lemma_parse_string_bounds(b, p1);
        lemma_encoding_of_parse_string(b, start);
        lemma_encoding_of_parse_string(b, p1);
        lemma_parse_pairs_bounds(b, p2, (n - 1) as nat);
        lemma_encoding_of_parse_pairs(b, p2, (n - 1) as nat);
        let rest = spec_parse_pairs(b, p2, (n - 1) as nat)->Some_0.0;
        assert(tc == seq![(k, v)] + rest);
        assert(tc[0] == (k, v));
        assert(tc.drop_first() =~= rest);
        assert(pairs_bytes(tc) == string_bytes(k) + string_bytes(v) + pairs_bytes(rest));
        assert(b.subrange(start, end) =~= b.subrange(start, p1) + b.subrange(p1, p2) + b.subrange(
            p2,
            end,
        ));
    }
}

/// What a successful string-list parse consumed is exactly the wire form
/// of the strings it returned.
proof fn lemma_encoding_of_parse_strings(b: Seq<u8>, start: int, n: nat)
    requires
        0 <= start <= b.len(),
        spec_parse_strings(b, start, n) is Some,
    ensures
        b.subrange(start, spec_parse_strings(b, start, n)->Some_0.1) == strings_bytes(
            spec_parse_strings(b, start, n)->Some_0.0,
        ),
    decreases n,
{
    let (fs, end) = spec_parse_strings(b, start, n)->Some_0;
    if n == 0 {
        assert(b.subrange(start, start) =~= strings_bytes(fs));
    } else {
        let (s, p1) = spec_parse_string(b, start)->Some_0;
        lemma_parse_string_bounds(b, start);
        lemma_encoding_of_parse_string(b, start);
        lemma_parse_strings_bounds(b, p1, (n - 1) as nat);
        lemma_encoding_of_parse_strings(b, p1, (n - 1) as nat);
        let rest = spec_parse_strings(b, p1, (n - 1) as nat)->Some_0.0;
        assert(fs == seq![s] + rest);
        assert(fs[0] == s);
        assert(fs.drop_first() =~= rest);
        assert(strings_bytes(fs) == string_bytes(s) + strings_bytes(rest));
        assert(b.subrange(start, end) =~= b.subrange(start, p1) + b.subrange(p1, end));
    }
}

/// Re-encoding what was decoded reproduces the input byte-for-byte: the
/// decoded entries round-trip exactly, in their wire order.
#[verifier::rlimit(50)]
pub proof fn lemma_varheaders_encode_of_parse(b: Seq<u8>)
    requires
        spec_parse_varheaders(b) is Some,
    ensures
        varheaders_bytes(spec_parse_varheaders(b)->Some_0) == b,
{
    let m = spec_parse_varheaders(b)->Some_0;
    if b.len() == 0 {
        assert(varheaders_bytes(m) =~= b);
    } else {
        let (n1, p1) = spec_parse_varint(b, 0)->Some_0;
        lemma_parse_varint_bounds(b, 0);
        lemma_encoding_of_parse(b, 0);
        let (tc, p2) = spec_parse_pairs(b, p1, n1)->Some_0;
        lemma_parse_pairs_bounds(b, p1, n1);
        lemma_encoding_of_parse_pairs(b, p1, n1);
        let (n2, p3) = spec_parse_varint(b, p2)->Some_0;
        lemma_parse_varint_bounds(b, p2);
        lemma_encoding_of_parse(b, p2);
        let (fs, p4) = spec_parse_strings(b, p3, n2)->Some_0;
        lemma_parse_strings_bounds(b, p3, n2);
        lemma_encoding_of_parse_strings(b, p3, n2);
        let (a, p5) = spec_parse_action(b, p4)->Some_0;
        assert(p5 == b.len());
        match a {
            None => {
                assert(b[p4] == 0);
                assert(b.subrange(p4, p5) =~= action_bytes(a));
            },
            Some(s) => {
                assert(b[p4] == 1);
                lemma_parse_string_bounds(b, p4 + 1);
                lemma_encoding_of_parse_string(b, p4 + 1);
                assert(b.subrange(p4, p5) =~= seq![1u8] + b.subrange(p4 + 1, p5));
            },
        }
        assert(!m.is_empty());
        assert(varheaders_bytes(m) == varint_bytes(n1) + pairs_bytes(tc) + varint_bytes(n2)
            + strings_bytes(fs) + action_bytes(a));
        assert(varheaders_bytes(m) =~= b) by {
            assert(b =~= b.subrange(0, p1) + b.subrange(p1, p2) + b.subrange(p2, p3) + b.subrange(
                p3,
                p4,
            ) + b.subrange(p4, p5));
        }
    }
}

/// The empty structure encodes to zero bytes, and zero declared bytes
/// decode to the empty structure.
pub proof fn lemma_empty_varheaders_round_trip()
    ensures
        varheaders_bytes(
            VariableHeadersView { thread_context: Seq::empty(), features: Seq::empty(), action: None },
        ).len() == 0,
        spec_parse_varheaders(Seq::empty()) == Some(
            VariableHeadersView { thread_context: Seq::empty(), features: Seq::empty(), action: None },
        ),
{
}

} // verus!
