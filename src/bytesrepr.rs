//! The binary encoding of values: little-endian integers and length-prefixed byte fields.

use vstd::prelude::*;
use vstd::utf8::*;

verus! {

/// Why a value could not be encoded or decoded.
#[derive(Debug, Clone, Copy, PartialEq, Eq, Structural)]
pub enum BytesReprError {
    /// The input ended before the value did.
    EarlyEndOfStream,
    /// The input does not encode a value of the type.
    Formatting,
    /// A length does not fit the 32 bits of its prefix.
    NotRepresentable,
    /// The encoding would be longer than the largest buffer allowed.
    OutOfMemory,
}

pub open spec fn u32_le_bytes(n: u32) -> Seq<u8> {
    seq![n as u8, (n >> 8u32) as u8, (n >> 16u32) as u8, (n >> 24u32) as u8]
}

pub open spec fn u64_le_bytes(n: u64) -> Seq<u8> {
    seq![
        n as u8,
        (n >> 8u64) as u8,
        (n >> 16u64) as u8,
        (n >> 24u64) as u8,
        (n >> 32u64) as u8,
        (n >> 40u64) as u8,
        (n >> 48u64) as u8,
        (n >> 56u64) as u8,
    ]
}

/// A byte field: its length as a `u32`, then the bytes.
pub open spec fn field_bytes(b: Seq<u8>) -> Seq<u8> {
    u32_le_bytes(b.len() as u32) + b
}

/// Appends the encoding of `n` to `out`.
pub fn write_u32(out: &mut Vec<u8>, n: u32)
    ensures
        final(out)@ == old(out)@ + u32_le_bytes(n),
{
    out.push(n as u8);
    out.push((n >> 8u32) as u8);
    out.push((n >> 16u32) as u8);
    out.push((n >> 24u32) as u8);
    proof {
        assert(final(out)@ =~= old(out)@ + u32_le_bytes(n));
    }
}

/// Appends the encoding of `n` to `out`.
pub fn write_u64(out: &mut Vec<u8>, n: u64)
    ensures
        final(out)@ == old(out)@ + u64_le_bytes(n),
{
    out.push(n as u8);
    out.push((n >> 8u64) as u8);
    out.push((n >> 16u64) as u8);
    out.push((n >> 24u64) as u8);
    out.push((n >> 32u64) as u8);
    out.push((n >> 40u64) as u8);
    out.push((n >> 48u64) as u8);
    out.push((n >> 56u64) as u8);
    proof {
        assert(final(out)@ =~= old(out)@ + u64_le_bytes(n));
    }
}

/// Appends `b` to `out`.
pub fn write_raw(out: &mut Vec<u8>, b: &[u8])
    ensures
        final(out)@ == old(out)@ + b@,
{
    let mut i: usize = 0;
    while i < b.len()
        invariant
            0 <= i <= b@.len(),
            out@ == old(out)@ + b@.subrange(0, i as int),
        decreases b@.len() - i,
    {
        out.push(b[i]);
        proof {
            assert(b@.subrange(0, i + 1) =~= b@.subrange(0, i as int).push(b@[i as int]));
        }
        i = i + 1;
    }
    proof {
        assert(b@.subrange(0, i as int) =~= b@);
    }
}

/// Appends `b` to `out` as a byte field.
pub fn write_field(out: &mut Vec<u8>, b: &[u8])
    requires
        b@.len() <= u32::MAX,
    ensures
        final(out)@ == old(out)@ + field_bytes(b@),
{
    write_u32(out, b.len() as u32);
    write_raw(out, b);
    proof {
        assert(final(out)@ =~= old(out)@ + field_bytes(b@));
    }
}

/// Decodes a `u32` from the front of `bytes`; returns it and what follows it.
pub fn read_u32(bytes: &[u8]) -> (r: Result<(u32, &[u8]), BytesReprError>)
    ensures
        bytes@.len() < 4 ==> r == Err::<(u32, &[u8]), BytesReprError>(BytesReprError::EarlyEndOfStream),
        bytes@.len() >= 4 ==> (r matches Ok((n, rest)) && u32_le_bytes(n) == bytes@.subrange(0, 4)
            && n == u32_from_le(bytes@)
            && rest@ == bytes@.subrange(4, bytes@.len() as int)),
{
    if bytes.len() < 4 {
        return Err(BytesReprError::EarlyEndOfStream);
    }
    let b0 = bytes[0];
    let b1 = bytes[1];
    let b2 = bytes[2];
    let b3 = bytes[3];
    let n: u32 = (b0 as u32) | ((b1 as u32) << 8u32) | ((b2 as u32) << 16u32) | ((b3 as u32) << 24u32);
    proof {
        assert(n as u8 == b0 && (n >> 8u32) as u8 == b1 && (n >> 16u32) as u8 == b2 && (n >> 24u32) as u8 == b3) by (bit_vector)
            requires
                n == (b0 as u32) | ((b1 as u32) << 8u32) | ((b2 as u32) << 16u32) | ((b3 as u32) << 24u32);
        assert(u32_le_bytes(n) =~= bytes@.subrange(0, 4));
    }
    let (_, rest) = bytes.split_at(4);
    Ok((n, rest))
}

/// Decodes a `u64` from the front of `bytes`; returns it and what follows it.
pub fn read_u64(bytes: &[u8]) -> (r: Result<(u64, &[u8]), BytesReprError>)
    ensures
        bytes@.len() < 8 ==> r == Err::<(u64, &[u8]), BytesReprError>(BytesReprError::EarlyEndOfStream),
        bytes@.len() >= 8 ==> (r matches Ok((n, rest)) && u64_le_bytes(n) == bytes@.subrange(0, 8)
            && rest@ == bytes@.subrange(8, bytes@.len() as int)),
{
    if bytes.len() < 8 {
        return Err(BytesReprError::EarlyEndOfStream);
    }
    let (lo_bytes, hi_bytes) = bytes.split_at(4);
    let (lo, _) = match read_u32(lo_bytes) {
        Ok(v) => v,
        Err(e) => return Err(e),
    };
    let (hi, rest) = match read_u32(hi_bytes) {
        Ok(v) => v,
        Err(e) => return Err(e),
    };
    let n: u64 = (lo as u64) | ((hi as u64) << 32u64);
    proof {
        assert(n as u8 == lo as u8 && (n >> 8u64) as u8 == (lo >> 8u32) as u8
            && (n >> 16u64) as u8 == (lo >> 16u32) as u8 && (n >> 24u64) as u8 == (lo >> 24u32) as u8
            && (n >> 32u64) as u8 == hi as u8 && (n >> 40u64) as u8 == (hi >> 8u32) as u8
            && (n >> 48u64) as u8 == (hi >> 16u32) as u8 && (n >> 56u64) as u8 == (hi >> 24u32) as u8) by (bit_vector)
            requires
                n == (lo as u64) | ((hi as u64) << 32u64);
        assert(u64_le_bytes(n) =~= bytes@.subrange(0, 8));
        assert(rest@ =~= bytes@.subrange(8, bytes@.len() as int));
    }
    Ok((n, rest))
}

/// Splits `n` bytes off the front of `bytes`.
pub fn read_raw(bytes: &[u8], n: usize) -> (r: Result<(&[u8], &[u8]), BytesReprError>)
    ensures
        bytes@.len() < n ==> r == Err::<(&[u8], &[u8]), BytesReprError>(BytesReprError::EarlyEndOfStream),
        bytes@.len() >= n ==> (r matches Ok((b, rest)) && b@ == bytes@.subrange(0, n as int)
            && rest@ == bytes@.subrange(n as int, bytes@.len() as int)),
{
    if bytes.len() < n {
        return Err(BytesReprError::EarlyEndOfStream);
    }
    Ok(bytes.split_at(n))
}

/// The `u32` that the first four bytes of `s` encode.
pub open spec fn u32_from_le(s: Seq<u8>) -> u32 {
    (s[0] as u32) | ((s[1] as u32) << 8u32) | ((s[2] as u32) << 16u32) | ((s[3] as u32) << 24u32)
}

/// `bytes` starts with a whole byte field.
pub open spec fn starts_with_field(bytes: Seq<u8>) -> bool {
    bytes.len() >= 4 && bytes.len() - 4 >= u32_from_le(bytes)
}

/// Decodes a byte field from the front of `bytes`; returns its bytes and what follows it.
pub fn read_field(bytes: &[u8]) -> (r: Result<(&[u8], &[u8]), BytesReprError>)
    ensures
        starts_with_field(bytes@) ==> (r matches Ok((b, rest)) && bytes@ == field_bytes(b@) + rest@
            && b@.len() == u32_from_le(bytes@)),
        !starts_with_field(bytes@) ==> r == Err::<(&[u8], &[u8]), BytesReprError>(BytesReprError::EarlyEndOfStream),
{
    let (n, after) = match read_u32(bytes) {
        Ok(v) => v,
        Err(e) => {
            return Err(e);
        },
    };
    match read_raw(after, n as usize) {
        Ok((b, rest)) => {
            proof {
                assert(bytes@ =~= field_bytes(b@) + rest@);
            }
            Ok((b, rest))
        },
        Err(e) => Err(e),
    }
}

/// The encoding of the `u32` that four bytes encode is those bytes.
pub proof fn lemma_u32_from_le_bytes(s: Seq<u8>)
    requires
        s.len() >= 4,
    ensures
        u32_le_bytes(u32_from_le(s)) == s.subrange(0, 4),
{
    let (b0, b1, b2, b3) = (s[0], s[1], s[2], s[3]);
    let n = u32_from_le(s);
    assert(n as u8 == b0 && (n >> 8u32) as u8 == b1 && (n >> 16u32) as u8 == b2 && (n >> 24u32) as u8 == b3) by (bit_vector)
        requires
            n == (b0 as u32) | ((b1 as u32) << 8u32) | ((b2 as u32) << 16u32) | ((b3 as u32) << 24u32);
    assert(u32_le_bytes(n) =~= s.subrange(0, 4));
}

/// Different `u32`s have different encodings.
pub proof fn lemma_u32_le_bytes_injective(a: u32, b: u32)
    requires
        u32_le_bytes(a) == u32_le_bytes(b),
    ensures
        a == b,
{
    assert(u32_le_bytes(a)[0] == u32_le_bytes(b)[0]);
    assert(u32_le_bytes(a)[1] == u32_le_bytes(b)[1]);
    assert(u32_le_bytes(a)[2] == u32_le_bytes(b)[2]);
    assert(u32_le_bytes(a)[3] == u32_le_bytes(b)[3]);
    assert(a == b) by (bit_vector)
        requires
            a as u8 == b as u8,
            (a >> 8u32) as u8 == (b >> 8u32) as u8,
            (a >> 16u32) as u8 == (b >> 16u32) as u8,
            (a >> 24u32) as u8 == (b >> 24u32) as u8;
}

/// Different `u64`s have different encodings.
pub proof fn lemma_u64_le_bytes_injective(a: u64, b: u64)
    requires
        u64_le_bytes(a) == u64_le_bytes(b),
    ensures
        a == b,
{
    assert(u64_le_bytes(a)[0] == u64_le_bytes(b)[0]);
    assert(u64_le_bytes(a)[1] == u64_le_bytes(b)[1]);
    assert(u64_le_bytes(a)[2] == u64_le_bytes(b)[2]);
    assert(u64_le_bytes(a)[3] == u64_le_bytes(b)[3]);
    assert(u64_le_bytes(a)[4] == u64_le_bytes(b)[4]);
    assert(u64_le_bytes(a)[5] == u64_le_bytes(b)[5]);
    assert(u64_le_bytes(a)[6] == u64_le_bytes(b)[6]);
    assert(u64_le_bytes(a)[7] == u64_le_bytes(b)[7]);
    assert(a == b) by (bit_vector)
        requires
            a as u8 == b as u8,
            (a >> 8u64) as u8 == (b >> 8u64) as u8,
            (a >> 16u64) as u8 == (b >> 16u64) as u8,
            (a >> 24u64) as u8 == (b >> 24u64) as u8,
            (a >> 32u64) as u8 == (b >> 32u64) as u8,
            (a >> 40u64) as u8 == (b >> 40u64) as u8,
            (a >> 48u64) as u8 == (b >> 48u64) as u8,
            (a >> 56u64) as u8 == (b >> 56u64) as u8;
}

/// A byte sequence starts with at most one byte field.
pub proof fn lemma_field_prefix_unique(s: Seq<u8>, b1: Seq<u8>, r1: Seq<u8>, b2: Seq<u8>, r2: Seq<u8>)
    requires
        b1.len() <= u32::MAX,
        b2.len() <= u32::MAX,
        s == field_bytes(b1) + r1,
        s == field_bytes(b2) + r2,
    ensures
        b1 == b2,
        r1 == r2,
{
    assert(s.subrange(0, 4) =~= u32_le_bytes(b1.len() as u32));
    assert(s.subrange(0, 4) =~= u32_le_bytes(b2.len() as u32));
    lemma_u32_le_bytes_injective(b1.len() as u32, b2.len() as u32);
    assert(b1 =~= s.subrange(4, 4 + b1.len() as int));
    assert(b2 =~= s.subrange(4, 4 + b2.len() as int));
    assert(r1 =~= s.subrange(4 + b1.len() as int, s.len() as int));
    assert(r2 =~= s.subrange(4 + b2.len() as int, s.len() as int));
}

/// Relies on `String::from_utf8`: succeeds exactly on valid UTF-8, and the string then
/// holds those very bytes.
#[verifier::external_body]
pub(crate) fn string_from_utf8(b: Vec<u8>) -> (r: Option<String>)
    ensures
        r is Some <==> valid_utf8(b@),
        r matches Some(s) ==> encode_utf8(s@) == b@,
{
    String::from_utf8(b).ok()
}

/// Copies 32 bytes into an array.
pub fn to_array32(b: &[u8]) -> (r: [u8; 32])
    requires
        b@.len() == 32,
    ensures
        r@ == b@,
{
    let mut a = [0u8; 32];
    let mut i: usize = 0;
    while i < 32
        invariant
            0 <= i <= 32,
            b@.len() == 32,
            forall|j: int| 0 <= j < i ==> a@[j] == b@[j],
        decreases 32 - i,
    {
        a[i] = b[i];
        i = i + 1;
    }
    proof {
        assert(a@ =~= b@);
    }
    a
}

/// `bytes` is the encoding of the string `name`, as a byte field of its UTF-8, followed by
/// `rest`.
pub open spec fn encodes_string(bytes: Seq<u8>, name: Seq<char>, rest: Seq<u8>) -> bool {
    &&& bytes == field_bytes(encode_utf8(name)) + rest
    &&& encode_utf8(name).len() <= u32::MAX
}

/// Decodes a string from the front of `bytes`; returns it and what follows it.
pub fn read_string(bytes: &[u8]) -> (r: Result<(String, &[u8]), BytesReprError>)
    ensures
        r matches Ok((s, rest)) ==> bytes@ == field_bytes(encode_utf8(s@)) + rest@,
        forall|name: Seq<char>, rest: Seq<u8>| #[trigger] encodes_string(bytes@, name, rest)
            ==> (r matches Ok((s, r2)) && s@ == name && r2@ == rest),
{
    let (name_bytes, rest) = match read_field(bytes) {
        Ok(v) => v,
        Err(e) => {
            proof {
                assert forall|name: Seq<char>, r: Seq<u8>| !#[trigger] encodes_string(bytes@, name, r) by {
                    if encodes_string(bytes@, name, r) {
                        let c = encode_utf8(name);
                        assert(bytes@.subrange(0, 4) =~= u32_le_bytes(c.len() as u32));
                        lemma_u32_from_le_bytes(bytes@);
                        lemma_u32_le_bytes_injective(u32_from_le(bytes@), c.len() as u32);
                    }
                }
            }
            return Err(e);
        },
    };
    let mut raw: Vec<u8> = Vec::new();
    write_raw(&mut raw, name_bytes);
    match string_from_utf8(raw) {
        Some(s) => {
            proof {
                assert forall|name: Seq<char>, r: Seq<u8>| #[trigger] encodes_string(bytes@, name, r)
                    implies s@ == name && rest@ == r by {
                    lemma_field_prefix_unique(bytes@, encode_utf8(name), r, name_bytes@, rest@);
                    encode_utf8_decode_utf8(name);
                    encode_utf8_decode_utf8(s@);
                }
            }
            Ok((s, rest))
        },
        None => {
            proof {
                assert forall|name: Seq<char>, r: Seq<u8>| !#[trigger] encodes_string(bytes@, name, r) by {
                    if encodes_string(bytes@, name, r) {
                        lemma_field_prefix_unique(bytes@, encode_utf8(name), r, name_bytes@, rest@);
                        encode_utf8_valid_utf8(name);
                    }
                }
            }
            Err(BytesReprError::Formatting)
        },
    }
}

} // verus!
