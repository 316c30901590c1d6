//! Hex-string decoding for object identifiers.
//!
//! An object identifier is a hex string; tree payloads embed the *raw binary*
//! form of a referenced identifier, so the hex string must be decoded to bytes
//! before it is concatenated into the payload.

use vstd::prelude::*;

verus! {

/// True of a byte that is an ASCII hex digit, either case.
pub open spec fn is_hex_digit(b: u8) -> bool {
    (48 <= b <= 57) || (97 <= b <= 102) || (65 <= b <= 70)
}

/// Numeric value of an ASCII hex digit.
pub open spec fn hex_digit_val(b: u8) -> u8
    recommends
        is_hex_digit(b),
{
    if 48 <= b <= 57 {
        (b - 48) as u8
    } else if 97 <= b <= 102 {
        (b - 87) as u8
    } else {
        (b - 55) as u8
    }
}

/// True of the byte strings that decode successfully: an even number of
/// ASCII hex digits.
pub open spec fn hex_ok(s: Seq<u8>) -> bool {
    s.len() % 2 == 0 && (forall|i: int| 0 <= i < s.len() ==> is_hex_digit(#[trigger] s[i]))
}

/// The bytes denoted by a hex string: each pair of digits is one byte,
/// high digit first.
pub open spec fn hex_decode_spec(s: Seq<u8>) -> Seq<u8>
    recommends
        hex_ok(s),
    decreases s.len(),
{
    if s.len() < 2 {
        Seq::empty()
    } else {
        seq![(hex_digit_val(s[0]) * 16 + hex_digit_val(s[1])) as u8] + hex_decode_spec(s.skip(2))
    }
}

/// Relies on `hex::decode`: it accepts exactly the even-length strings of
/// ASCII hex digits (upper or lower case) and turns each digit pair into one
/// byte, high digit first; an odd length or a non-digit byte is an error.
#[verifier::external_body]
pub(crate) fn hex_decode(s: &[u8]) -> (r: Option<Vec<u8>>)
    ensures
        r is Some <==> hex_ok(s@),
        r matches Some(v) ==> v@ == hex_decode_spec(s@),
{
    match hex::decode(s) {
        Ok(v) => Some(v),
        Err(_) => None,
    }
}

} // verus!
