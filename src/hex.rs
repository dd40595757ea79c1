//! Hexadecimal rendering and reading of hashes.

use vstd::prelude::*;
use vstd::string::*;
use crate::object::{ObjectError, ObjectStorage, Sha};
use crate::text::push_bytes;

verus! {

broadcast use vstd::string::group_string_axioms;

/// The lowercase ASCII hex digit for a nibble `v < 16`.
pub open spec fn hex_digit(v: int) -> u8 {
    if v < 10 {
        (48 + v) as u8
    } else {
        (87 + v) as u8
    }
}

/// Two lowercase hex digits per byte, high nibble first.
pub open spec fn hex_lower(b: Seq<u8>) -> Seq<u8> {
    Seq::new(
        2 * b.len(),
        |i: int|
            if i % 2 == 0 {
                hex_digit(b[i / 2] as int / 16)
            } else {
                hex_digit(b[i / 2] as int % 16)
            },
    )
}

/// ASCII bytes read as characters.
pub open spec fn as_chars(b: Seq<u8>) -> Seq<char> {
    b.map_values(|c: u8| c as char)
}

/// Whether `c` is a hex digit, in either case.
pub open spec fn is_hex_digit(c: u8) -> bool {
    (48 <= c <= 57) || (65 <= c <= 70) || (97 <= c <= 102)
}

/// The value of a hex digit of either case.
pub open spec fn hex_value(c: u8) -> int {
    if 48 <= c <= 57 {
        c - 48
    } else if 65 <= c <= 70 {
        c - 55
    } else {
        c - 87
    }
}

/// Whether every byte of `s` is a hex digit.
pub open spec fn is_hex(s: Seq<u8>) -> bool {
    forall|i: int| 0 <= i < s.len() ==> is_hex_digit(#[trigger] s[i])
}

/// Whether the hex text `s` denotes the bytes `h`, high nibble first.
pub open spec fn hex_decodes_to(s: Seq<u8>, h: Seq<u8>) -> bool {
    &&& s.len() == 2 * h.len()
    &&& forall|i: int|
        0 <= i < h.len() ==> #[trigger] h[i] == hex_value(s[2 * i]) * 16 + hex_value(s[2 * i + 1])
}

/// Lowercase hex text reads back as the bytes it renders.
pub proof fn lemma_hex_round_trip(h: Seq<u8>)
    ensures
        is_hex(hex_lower(h)),
        hex_decodes_to(hex_lower(h), h),
{
    let s = hex_lower(h);
    assert forall|i: int| 0 <= i < s.len() implies is_hex_digit(#[trigger] s[i]) by {
        let b = h[i / 2] as int;
        assert(0 <= b / 16 < 16 && 0 <= b % 16 < 16);
    }
    assert forall|i: int| 0 <= i < h.len() implies #[trigger] h[i] == hex_value(s[2 * i]) * 16
        + hex_value(s[2 * i + 1]) by {
        let b = h[i] as int;
        assert((2 * i) / 2 == i && (2 * i + 1) / 2 == i);
        assert((2 * i) % 2 == 0 && (2 * i + 1) % 2 == 1);
        assert(hex_value(hex_digit(b / 16)) == b / 16);
        assert(hex_value(hex_digit(b % 16)) == b % 16);
    }
}

/// Relies on base16ct::lower::encode_string: two lowercase hex digits per
/// input byte, high nibble first (it panics on inputs over `usize::MAX / 2`).
#[verifier::external_body]
fn encode_lower_hex(bytes: &[u8]) -> (r: String)
    requires
        bytes@.len() <= usize::MAX / 2,
    ensures
        r@ == as_chars(hex_lower(bytes@)),
{
    base16ct::lower::encode_string(bytes)
}

/// Relies on base16ct::mixed::decode into a 20-byte buffer: on 40 input bytes
/// it succeeds exactly when each is a hex digit of either case, and then fills
/// the buffer with their value, high nibble first.
#[verifier::external_body]
fn decode_mixed_hex(src: &[u8]) -> (r: Option<Sha>)
    requires
        src@.len() == 40,
    ensures
        r is Some <==> is_hex(src@),
        r matches Some(h) ==> hex_decodes_to(src@, h@),
{
    let mut sha = [0u8; 20];
    match base16ct::mixed::decode(src, &mut sha) {
        Ok(_) => Some(sha),
        Err(_) => None,
    }
}

/// The lowercase hex rendering of a hash, as bytes.
pub fn hex_bytes(sha: &Sha) -> (r: Vec<u8>)
    ensures
        r@ == hex_lower(sha@),
{
    let s = encode_lower_hex(sha.as_slice());
    let text = s.as_str();
    proof {
        assert forall|i: int| 0 <= i < text@.len() implies '\0' <= #[trigger] text@[i] <= '\u{7f}' by {
            assert(text@[i] == hex_lower(sha@)[i] as char);
        }
        assert(is_ascii(text));
    }
    let mut r: Vec<u8> = Vec::new();
    push_bytes(&mut r, text.as_bytes());
    proof {
        assert(r@ =~= hex_lower(sha@));
    }
    r
}

/// Reads 40 hex digits, of either case, as a hash.
pub fn hex_to_sha(src: &[u8]) -> (r: Result<Sha, ObjectError>)
    ensures
        r is Ok <==> src@.len() == 40 && is_hex(src@),
        r matches Ok(h) ==> hex_decodes_to(src@, h@),
        r matches Err(e) ==> e == ObjectError::InvalidHashEncoding,
{
    if src.len() != 40 {
        return Err(ObjectError::InvalidHashEncoding);
    }
    match decode_mixed_hex(src) {
        Some(h) => Ok(h),
        None => Err(ObjectError::InvalidHashEncoding),
    }
}

impl ObjectStorage {
    /// The 40-character lowercase hex rendering of a hash.
    pub fn sha_to_hex_string(sha: &Sha) -> (r: String)
        ensures
            r@ == as_chars(hex_lower(sha@)),
    {
        encode_lower_hex(sha.as_slice())
    }

    /// Reads a hash from 40 hex digits of either case; any other text is
    /// rejected with `InvalidHashEncoding`.
    pub fn hex_string_to_sha(hex_str: &str) -> (r: Result<Sha, ObjectError>)
        ensures
            r is Ok <==> hex_str.spec_bytes().len() == 40 && is_hex(hex_str.spec_bytes()),
            r matches Ok(h) ==> hex_decodes_to(hex_str.spec_bytes(), h@),
            r matches Err(e) ==> e == ObjectError::InvalidHashEncoding,
    {
        hex_to_sha(hex_str.as_bytes())
    }
}

} // verus!
