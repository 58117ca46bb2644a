//! Base-16 text for bytes.

use vstd::prelude::*;
use crate::crypto::{blake2b, blake2b_256};

verus! {

#[verifier::external_type_specification]
#[verifier::external_body]
pub struct ExDecodeError(base16::DecodeError);

/// The lower-case digit for `n < 16`.
pub open spec fn lower_digit(n: int) -> char {
    seq!['0', '1', '2', '3', '4', '5', '6', '7', '8', '9', 'a', 'b', 'c', 'd', 'e', 'f'][n]
}

/// `b` in base 16, two lower-case digits for each byte, the high nibble first.
pub open spec fn hex_lower(b: Seq<u8>) -> Seq<char> {
    Seq::new(
        2 * b.len(),
        |i: int| lower_digit(if i % 2 == 0 { b[i / 2] as int / 16 } else { b[i / 2] as int % 16 }),
    )
}

/// The value of the base-16 digit `c`, or -1 if `c` is none.
pub open spec fn digit_value(c: u8) -> int {
    if 48 <= c <= 57 {
        c - 48
    } else if 97 <= c <= 102 {
        c - 87
    } else if 65 <= c <= 70 {
        c - 55
    } else {
        -1
    }
}

/// `s` is base-16 text: an even number of digits, of either case.
pub open spec fn is_hex(s: Seq<u8>) -> bool {
    &&& s.len() % 2 == 0
    &&& forall|i: int| 0 <= i < s.len() ==> digit_value(#[trigger] s[i]) >= 0
}

/// The bytes that the base-16 text `s` stands for.
pub open spec fn hex_decoded(s: Seq<u8>) -> Seq<u8> {
    Seq::new(s.len() / 2, |i: int| (digit_value(s[2 * i]) * 16 + digit_value(s[2 * i + 1])) as u8)
}

/// Relies on base16::encode_lower: two lower-case digits for each byte, high nibble first.
#[verifier::external_body]
pub(crate) fn encode_lower(b: &[u8]) -> (r: String)
    ensures
        r@ == hex_lower(b@),
{
    base16::encode_lower(b)
}

/// Relies on base16::decode: fails unless the text has an even length and only the digits
/// `0-9`, `a-f`, `A-F`; otherwise each pair of digits gives a byte, high nibble first.
#[verifier::external_body]
pub(crate) fn decode(s: &[u8]) -> (r: Result<Vec<u8>, base16::DecodeError>)
    ensures
        r is Ok <==> is_hex(s@),
        r matches Ok(b) ==> b@ == hex_decoded(s@),
{
    base16::decode(s)
}

/// Inputs of at most this many bytes carry a checksum in the case of their letters.
pub const SMALL_BYTES_COUNT: usize = 75;

pub open spec fn is_hex_letter(c: u8) -> bool {
    (97 <= c <= 102) || (65 <= c <= 70)
}

pub open spec fn is_upper_letter(c: u8) -> bool {
    65 <= c <= 70
}

/// No two letters of `s` differ in case.
pub open spec fn same_case(s: Seq<u8>) -> bool {
    forall|i: int, j: int|
        0 <= i < s.len() && 0 <= j < s.len() && is_hex_letter(#[trigger] s[i]) && is_hex_letter(#[trigger] s[j])
            ==> is_upper_letter(s[i]) == is_upper_letter(s[j])
}

/// Nibble `i` of `b`, the high nibble of each byte first.
pub open spec fn nibble(b: Seq<u8>, i: int) -> u8 {
    if i % 2 == 0 {
        b[i / 2] >> 4u8
    } else {
        b[i / 2] & 15u8
    }
}

/// How many of the first `i` nibbles of `b` are written as letters.
pub open spec fn letters_before(b: Seq<u8>, i: int) -> int
    decreases i,
{
    if i <= 0 {
        0
    } else {
        letters_before(b, i - 1) + if nibble(b, i - 1) >= 10 { 1int } else { 0int }
    }
}

/// Bit `j` of `hash`, read from the least significant bit of each byte, over and over.
pub open spec fn hash_bit(hash: Seq<u8>, j: int) -> bool {
    (hash[(j / 8) % (hash.len() as int)] >> ((j % 8) as u8)) & 1u8 == 1u8
}

/// Digit `i` of `b` in checksummed base 16: letter number `k` is upper case when bit `k` of
/// `hash` is set.
pub open spec fn cased_digit(b: Seq<u8>, hash: Seq<u8>, i: int) -> u8 {
    let n = nibble(b, i);
    if n < 10 {
        (48 + n) as u8
    } else if hash_bit(hash, letters_before(b, i)) {
        (55 + n) as u8
    } else {
        (87 + n) as u8
    }
}

/// `b` in checksummed base 16 under `hash`.
pub open spec fn checksum_cased(b: Seq<u8>, hash: Seq<u8>) -> Seq<u8> {
    Seq::new(2 * b.len(), |i: int| cased_digit(b, hash, i))
}

/// The text that checksummed decoding accepts: base-16 text that is long, or of one case, or
/// cased by the digest of the bytes it stands for.
pub open spec fn accepted_checksummed(s: Seq<u8>) -> bool {
    let b = hex_decoded(s);
    &&& is_hex(s)
    &&& (b.len() > SMALL_BYTES_COUNT || same_case(s) || s == checksum_cased(b, blake2b_256(b)))
}

/// Whether no two letters of `s` differ in case.
pub fn is_same_case(s: &[u8]) -> (r: bool)
    ensures
        r == same_case(s@),
{
    let mut first: usize = 0;
    while first < s.len() && !(97 <= s[first] && s[first] <= 102) && !(65 <= s[first] && s[first] <= 70)
        invariant
            0 <= first <= s@.len(),
            forall|k: int| 0 <= k < first ==> !is_hex_letter(#[trigger] s@[k]),
        decreases s@.len() - first,
    {
        first = first + 1;
    }
    if first == s.len() {
        return true;
    }
    let upper = 65 <= s[first] && s[first] <= 70;
    let mut i: usize = first + 1;
    while i < s.len()
        invariant
            first < i <= s@.len(),
            is_hex_letter(s@[first as int]),
            upper == is_upper_letter(s@[first as int]),
            forall|k: int| 0 <= k < first ==> !is_hex_letter(#[trigger] s@[k]),
            forall|k: int| first <= k < i && is_hex_letter(#[trigger] s@[k]) ==> is_upper_letter(s@[k]) == upper,
        decreases s@.len() - i,
    {
        let c = s[i];
        if ((97 <= c && c <= 102) || (65 <= c && c <= 70)) && ((65 <= c && c <= 70) != upper) {
            assert(is_hex_letter(s@[first as int]) && is_hex_letter(s@[i as int]));
            return false;
        }
        i = i + 1;
    }
    true
}

/// Whether `text` is `bytes` in checksummed base 16 under `hash`.
pub fn matches_checksum(text: &[u8], bytes: &[u8], hash: &[u8]) -> (r: bool)
    requires
        hash@.len() > 0,
    ensures
        r == (text@ == checksum_cased(bytes@, hash@)),
{
    if text.len() % 2 != 0 || text.len() / 2 != bytes.len() {
        proof {
            if text@ == checksum_cased(bytes@, hash@) {
                assert(text@.len() == 2 * bytes@.len());
            }
        }
        return false;
    }
    let mut i: usize = 0;
    let mut letters: usize = 0;
    while i < text.len()
        invariant
            0 <= i <= text@.len(),
            text@.len() == 2 * bytes@.len(),
            hash@.len() > 0,
            letters as int == letters_before(bytes@, i as int),
            letters <= i,
            forall|k: int| 0 <= k < i ==> text@[k] == #[trigger] cased_digit(bytes@, hash@, k),
        decreases text@.len() - i,
    {
        let byte = bytes[i / 2];
        let n: u8 = if i % 2 == 0 { byte >> 4u8 } else { byte & 15u8 };
        assert(n == nibble(bytes@, i as int));
        assert(n < 16) by (bit_vector)
            requires
                n == byte >> 4u8 || n == byte & 15u8;
        let expected: u8 = if n < 10 {
            48 + n
        } else if (hash[(letters / 8) % hash.len()] >> ((letters % 8) as u8)) & 1u8 == 1u8 {
            55 + n
        } else {
            87 + n
        };
        assert(expected == cased_digit(bytes@, hash@, i as int));
        if text[i] != expected {
            return false;
        }
        if n >= 10 {
            letters = letters + 1;
        }
        i = i + 1;
    }
    proof {
        assert(text@ =~= checksum_cased(bytes@, hash@));
    }
    true
}

/// Decodes base-16 text. Short text whose letters are of both cases must be cased by the
/// digest of the bytes it stands for.
pub fn decode_checksummed(input: &[u8]) -> (r: Option<Vec<u8>>)
    ensures
        r is Some <==> accepted_checksummed(input@),
        r matches Some(b) ==> b@ == hex_decoded(input@),
{
    let bytes = match decode(input) {
        Ok(b) => b,
        Err(_) => return None,
    };
    if bytes.len() > SMALL_BYTES_COUNT || is_same_case(input) {
        return Some(bytes);
    }
    let hash = blake2b(bytes.as_slice());
    if matches_checksum(input, bytes.as_slice(), hash.as_slice()) {
        Some(bytes)
    } else {
        None
    }
}

} // verus!
