//! Variable-length unsigned integer sub-codec.
//!
//! An integer is encoded 7 bits per byte, least-significant group first;
//! every byte except the last carries a continuation mark in its top bit.
//! The encoding is canonical: the final byte is never zero unless it is
//! the only byte, so each value has exactly one encoding and the decoder
//! rejects overlong forms.

use vstd::arithmetic::div_mod::lemma_fundamental_div_mod_converse;
use vstd::arithmetic::power::{lemma_pow0, lemma_pow1, lemma_pow_adds, lemma_pow_increases, lemma_pow_positive, pow};
use vstd::prelude::*;

use crate::error::CodecError;

verus! {

/// The canonical encoding of `n`: low 7-bit group first, continuation
/// mark (`0x80`) on every byte but the last.
pub open spec fn varint_bytes(n: nat) -> Seq<u8>
    decreases n,
{
    if n < 0x80 {
        seq![n as u8]
    } else {
        seq![(n % 0x80 + 0x80) as u8] + varint_bytes(n / 0x80)
    }
}

/// Strict parse of a varint beginning at `start`: `Some((value, end))`
/// when a canonical varint sits there, `None` on an overlong form or
/// when the input ends first.
pub open spec fn spec_parse_varint(b: Seq<u8>, start: int) -> Option<(nat, int)>
    decreases b.len() - start,
{
    if start < 0 || start >= b.len() {
        None
    } else if b[start] < 0x80 {
        Some((b[start] as nat, start + 1))
    } else {
        match spec_parse_varint(b, start + 1) {
            None => None,
            Some((v, end)) => if v == 0 {
                None
            } else {
                Some((((b[start] - 0x80) + v * 0x80) as nat, end))
            },
        }
    }
}

/// True when the bytes from `start` on are a proper prefix of a varint:
/// every byte present carries the continuation mark and the input ends
/// before a final byte arrives.
pub open spec fn varint_truncated(b: Seq<u8>, start: int) -> bool
    decreases b.len() - start,
{
    if start < 0 {
        false
    } else if start >= b.len() {
        true
    } else if b[start] < 0x80 {
        false
    } else {
        varint_truncated(b, start + 1)
    }
}

/// Value of the 7-bit groups held by `b[i..end]`, low group first.
pub open spec fn group_value(b: Seq<u8>, i: int, end: int) -> nat
    decreases end - i,
{
    if i < 0 || i >= end || end > b.len() {
        0
    } else {
        ((b[i] % 0x80) + group_value(b, i + 1, end) * 0x80) as nat
    }
}

proof fn lemma_pow128_values()
    ensures
        pow(0x80, 8) == 0x100000000000000,
        pow(0x80, 9) == 0x8000000000000000,
        pow(0x80, 10) == 0x400000000000000000,
{
    assert(pow(0x80, 0) == 1) by {
        reveal_with_fuel(pow, 1);
    }
    assert(pow(0x80, 1) == 0x80 * pow(0x80, 0)) by {
        reveal_with_fuel(pow, 2);
    }
    assert(pow(0x80, 2) == 0x80 * pow(0x80, 1)) by {
        reveal_with_fuel(pow, 2);
    }
    assert(pow(0x80, 3) == 0x80 * pow(0x80, 2)) by {
        reveal_with_fuel(pow, 2);
    }
    assert(pow(0x80, 4) == 0x80 * pow(0x80, 3)) by {
        reveal_with_fuel(pow, 2);
    }
    assert(pow(0x80, 5) == 0x80 * pow(0x80, 4)) by {
        reveal_with_fuel(pow, 2);
    }
    assert(pow(0x80, 6) == 0x80 * pow(0x80, 5)) by {
        reveal_with_fuel(pow, 2);
    }
    assert(pow(0x80, 7) == 0x80 * pow(0x80, 6)) by {
        reveal_with_fuel(pow, 2);
    }
    assert(pow(0x80, 8) == 0x80 * pow(0x80, 7)) by {
        reveal_with_fuel(pow, 2);
    }
    assert(pow(0x80, 9) == 0x80 * pow(0x80, 8)) by {
        reveal_with_fuel(pow, 2);
    }
    assert(pow(0x80, 10) == 0x80 * pow(0x80, 9)) by {
        reveal_with_fuel(pow, 2);
    }
}

proof fn lemma_group_value_pos(b: Seq<u8>, i: int, end: int)
    requires
        0 <= i < end <= b.len(),
        b[end - 1] % 0x80 != 0,
    ensures
        group_value(b, i, end) > 0,
    decreases end - i,
{
    if i == end - 1 {
    } else {
        lemma_group_value_pos(b, i + 1, end);
        assert(group_value(b, i + 1, end) * 0x80 >= 0x80) by (nonlinear_arith)
            requires group_value(b, i + 1, end) >= 1;
    }
}

proof fn lemma_group_value_upper(b: Seq<u8>, i: int, end: int)
    requires
        0 <= i < end <= b.len(),
    ensures
        group_value(b, i, end) <= (b[end - 1] + 1) * pow(0x80, (end - 1 - i) as nat) - 1,
    decreases end - i,
{
    if i == end - 1 {
        lemma_pow0(0x80);
    } else {
        lemma_group_value_upper(b, i + 1, end);
        let rest = group_value(b, i + 1, end);
        let k = (end - 1 - (i + 1)) as nat;
        lemma_pow1(0x80);
        lemma_pow_adds(0x80, 1, k);
        assert(pow(0x80, k + 1) == 0x80 * pow(0x80, k));
        assert(rest * 0x80 <= ((b[end - 1] + 1) * pow(0x80, k) - 1) * 0x80) by (nonlinear_arith)
            requires rest <= (b[end - 1] + 1) * pow(0x80, k) - 1;
        assert(((b[end - 1] + 1) * pow(0x80, k) - 1) * 0x80 == (b[end - 1] + 1) * (0x80 * pow(
            0x80,
            k,
        )) - 0x80) by (nonlinear_arith);
        assert((end - 1 - i) as nat == k + 1);
        assert(group_value(b, i, end) == (b[i] % 0x80) + rest * 0x80);
        assert(rest * 0x80 <= (b[end - 1] + 1) * pow(0x80, k + 1) - 0x80);
    }
}

proof fn lemma_group_value_lower(b: Seq<u8>, i: int, end: int)
    requires
        0 <= i < end <= b.len(),
        b[end - 1] < 0x80,
    ensures
        group_value(b, i, end) >= b[end - 1] * pow(0x80, (end - 1 - i) as nat),
    decreases end - i,
{
    if i == end - 1 {
        lemma_pow0(0x80);
    } else {
        lemma_group_value_lower(b, i + 1, end);
        let rest = group_value(b, i + 1, end);
        let k = (end - 1 - (i + 1)) as nat;
        lemma_pow1(0x80);
        lemma_pow_adds(0x80, 1, k);
        assert(pow(0x80, k + 1) == 0x80 * pow(0x80, k));
        assert(rest * 0x80 >= (b[end - 1] * pow(0x80, k)) * 0x80) by (nonlinear_arith)
            requires rest >= b[end - 1] * pow(0x80, k);
        assert((b[end - 1] * pow(0x80, k)) * 0x80 == b[end - 1] * (0x80 * pow(0x80, k)))
            by (nonlinear_arith);
    }
}

/// A run of continuation bytes closed by one final byte parses to the
/// flat group value, or to nothing when the form is overlong.
proof fn lemma_parse_flat(b: Seq<u8>, start: int, end: int)
    requires
        0 <= start < end <= b.len(),
        forall|j: int| start <= j < end - 1 ==> b[j] >= 0x80,
        b[end - 1] < 0x80,
    ensures
        spec_parse_varint(b, start) == (if end - 1 > start && b[end - 1] == 0 {
            None::<(nat, int)>
        } else {
            Some((group_value(b, start, end), end))
        }),
        !varint_truncated(b, start),
    decreases end - start,
{
    if start == end - 1 {
        assert(group_value(b, start, end) == (b[start] % 0x80) as nat);
    } else {
        lemma_parse_flat(b, start + 1, end);
        if !(end - 1 > start + 1 && b[end - 1] == 0) && b[end - 1] != 0 {
            lemma_group_value_pos(b, start + 1, end);
        }
    }
}

proof fn lemma_all_continuation_truncated(b: Seq<u8>, start: int)
    requires
        0 <= start,
        forall|j: int| start <= j < b.len() ==> b[j] >= 0x80,
    ensures
        varint_truncated(b, start),
        spec_parse_varint(b, start) is None,
    decreases b.len() - start,
{
    if start < b.len() {
        lemma_all_continuation_truncated(b, start + 1);
    }
}

/// An input that ends mid-varint parses to nothing.
pub proof fn lemma_truncated_parse_none(b: Seq<u8>, start: int)
    requires
        varint_truncated(b, start),
    ensures
        spec_parse_varint(b, start) is None,
    decreases b.len() - start,
{
    if 0 <= start < b.len() && b[start] >= 0x80 {
        lemma_truncated_parse_none(b, start + 1);
    }
}

/// A successful parse always consumes at least one byte and stays inside
/// the buffer.
pub proof fn lemma_parse_varint_bounds(b: Seq<u8>, start: int)
    requires
        0 <= start,
        spec_parse_varint(b, start) is Some,
    ensures
        start < spec_parse_varint(b, start)->Some_0.1 <= b.len(),
    decreases b.len() - start,
{
    if start < b.len() && b[start] >= 0x80 {
        lemma_parse_varint_bounds(b, start + 1);
    }
}

/// A buffer holding the canonical encoding of `v` at `start` parses to
/// exactly `v`, ending right after the encoding.
pub proof fn lemma_parse_of_encoding(b: Seq<u8>, start: int, v: nat)
    requires
        0 <= start,
        start + varint_bytes(v).len() <= b.len(),
        b.subrange(start, start + varint_bytes(v).len()) == varint_bytes(v),
    ensures
        spec_parse_varint(b, start) == Some((v, start + varint_bytes(v).len())),
    decreases v,
{
    let e = varint_bytes(v);
    assert(b[start] == e[0]);
    if v < 0x80 {
        assert(spec_parse_varint(b, start) == Some((b[start] as nat, start + 1)));
    } else {
        let rest = varint_bytes(v / 0x80);
        assert(e == seq![(v % 0x80 + 0x80) as u8] + rest);
        assert(b.subrange(start + 1, start + 1 + rest.len()) =~= rest) by {
            assert(forall|j: int|
                0 <= j < rest.len() ==> b.subrange(start + 1, start + 1 + rest.len())[j] == b[start
                    + 1 + j] && b[start + 1 + j] == e[1 + j] && e[1 + j] == rest[j]);
        }
        lemma_parse_of_encoding(b, start + 1, v / 0x80);
        assert(v / 0x80 > 0);
        assert(b[start] == (v % 0x80 + 0x80) as u8);
        assert((b[start] - 0x80) + (v / 0x80) * 0x80 == v) by (nonlinear_arith)
            requires b[start] == v % 0x80 + 0x80;
    }
}

/// What a successful parse consumed is exactly the canonical encoding of
/// the value it returned: re-encoding reproduces the bytes.
pub proof fn lemma_encoding_of_parse(b: Seq<u8>, start: int)
    requires
        0 <= start,
        spec_parse_varint(b, start) is Some,
    ensures
        b.subrange(start, spec_parse_varint(b, start)->Some_0.1) == varint_bytes(
            spec_parse_varint(b, start)->Some_0.0,
        ),
    decreases b.len() - start,
{
    let (v, end) = spec_parse_varint(b, start)->Some_0;
    if b[start] < 0x80 {
        assert(b.subrange(start, start + 1) =~= seq![b[start]]);
    } else {
        lemma_encoding_of_parse(b, start + 1);
        lemma_parse_varint_bounds(b, start + 1);
        let (v2, _) = spec_parse_varint(b, start + 1)->Some_0;
        assert(v == (b[start] - 0x80) + v2 * 0x80);
        assert(v >= 0x80) by (nonlinear_arith)
            requires v == (b[start] - 0x80) + v2 * 0x80, v2 >= 1, b[start] >= 0x80;
        lemma_fundamental_div_mod_converse(v as int, 0x80, v2 as int, (b[start] - 0x80) as int);
    assert(varint_bytes(v) == seq![(v % 0x80 + 0x80) as u8] + varint_bytes(v / 0x80));
        assert(b.subrange(start, end) =~= seq![b[start]] + b.subrange(start + 1, end));
    }
}

/// Assemble the value of the groups in `b[i..end]`; the caller has shown
/// that the value fits in a `u64`.
fn assemble_groups(b: &[u8], i: usize, end: usize) -> (v: u64)
    requires
        i < end <= b@.len(),
        forall|j: int| i <= j < end - 1 ==> b@[j] >= 0x80,
        b@[end - 1] < 0x80,
        group_value(b@, i as int, end as int) <= u64::MAX,
    ensures
        v as nat == group_value(b@, i as int, end as int),
    decreases end - i,
{
    let c = b[i];
    if i + 1 == end {
        c as u64
    } else {
        proof {
            let rest = group_value(b@, i as int + 1, end as int);
            assert(rest <= rest * 0x80) by (nonlinear_arith)
                requires rest >= 0;
        }
        let rest = assemble_groups(b, i + 1, end);
        (c % 0x80) as u64 + rest * 0x80
    }
}

/// Decode a varint at `b[start..]`.
///
/// Succeeds exactly when a canonical varint whose value fits in a `u64`
/// begins at `start`; `Truncated` when the input ends mid-varint,
/// `Protocol` on an overlong form or a value past `u64::MAX`.
pub fn decode_varint(b: &[u8], start: usize) -> (r: Result<(u64, usize), CodecError>)
    requires
        start <= b@.len(),
    ensures
        r matches Ok(p) ==> spec_parse_varint(b@, start as int) == Some((p.0 as nat, p.1 as int))
            && start < p.1 <= b@.len(),
        r is Err ==> (spec_parse_varint(b@, start as int) is None || spec_parse_varint(
            b@,
            start as int,
        )->Some_0.0 > u64::MAX),
        r == Err::<(u64, usize), CodecError>(CodecError::Truncated) <==> varint_truncated(
            b@,
            start as int,
        ),
        r is Err && !varint_truncated(b@, start as int) ==> r == Err::<
            (u64, usize),
            CodecError,
        >(CodecError::Protocol),
{
    let len = b.len();
    let mut end = start;
    while end < len && b[end] >= 0x80
        invariant
            start <= end <= len,
            len == b@.len(),
            forall|j: int| start <= j < end ==> b@[j] >= 0x80,
        decreases len - end,
    {
        end = end + 1;
    }
    if end == len {
        proof {
            lemma_all_continuation_truncated(b@, start as int);
        }
        return Err(CodecError::Truncated);
    }
    let last = b[end];
    let end1 = end + 1;
    proof {
        lemma_parse_flat(b@, start as int, end1 as int);
    }
    let k = end - start;
    if k > 0 && last == 0 {
        return Err(CodecError::Protocol);
    }
    if k >= 10 {
        proof {
            lemma_group_value_lower(b@, start as int, end1 as int);
            lemma_pow_increases(0x80, 10, k as nat);
            lemma_pow128_values();
            lemma_pow_positive(0x80, k as nat);
            assert(last * pow(0x80, k as nat) >= 1 * pow(0x80, k as nat)) by (nonlinear_arith)
                requires last >= 1, pow(0x80, k as nat) >= 0;
        }
        return Err(CodecError::Protocol);
    }
    if k == 9 && last >= 2 {
        proof {
            lemma_group_value_lower(b@, start as int, end1 as int);
            lemma_pow128_values();
            lemma_pow_positive(0x80, 9);
            assert(last * pow(0x80, 9) >= 2 * pow(0x80, 9)) by (nonlinear_arith)
                requires last >= 2, pow(0x80, 9) >= 0;
        }
        return Err(CodecError::Protocol);
    }
    proof {
        lemma_group_value_upper(b@, start as int, end1 as int);
        if k == 9 {
            lemma_pow128_values();
            lemma_pow_positive(0x80, 9);
            assert((last + 1) * pow(0x80, 9) <= 2 * pow(0x80, 9)) by (nonlinear_arith)
                requires last + 1 <= 2, pow(0x80, 9) >= 0;
        } else {
            lemma_pow_increases(0x80, k as nat, 8);
            lemma_pow128_values();
            lemma_pow_positive(0x80, k as nat);
            assert((last + 1) * pow(0x80, k as nat) <= 0x80 * pow(0x80, 8)) by (nonlinear_arith)
                requires last + 1 <= 0x80, 0 <= pow(0x80, k as nat) <= pow(0x80, 8);
        }
    }
    let v = assemble_groups(b, start, end1);
    Ok((v, end1))
}

/// Append the canonical encoding of `n` to `out`.
pub fn encode_varint(n: u64, out: &mut Vec<u8>)
    ensures
        final(out)@ == old(out)@ + varint_bytes(n as nat),
{
    let mut cur = n;
    let ghost mut acc: Seq<u8> = Seq::empty();
    proof {
        assert(out@ =~= old(out)@ + acc);
        assert(varint_bytes(n as nat) =~= acc + varint_bytes(cur as nat));
    }
    while cur >= 0x80
        invariant
            out@ == old(out)@ + acc,
            varint_bytes(n as nat) == acc + varint_bytes(cur as nat),
        decreases cur,
    {
        let byte = (cur % 0x80 + 0x80) as u8;
        out.push(byte);
        proof {
            assert(varint_bytes(cur as nat) == seq![byte] + varint_bytes((cur / 0x80) as nat));
            acc = acc + seq![byte];
            assert(out@ =~= old(out)@ + acc);
            assert(varint_bytes(n as nat) =~= acc + varint_bytes((cur / 0x80) as nat));
        }
        cur = cur / 0x80;
    }
    out.push(cur as u8);
    proof {
        assert(varint_bytes(cur as nat) =~= seq![cur as u8]);
        assert(out@ =~= old(out)@ + varint_bytes(n as nat));
    }
}

} // verus!
