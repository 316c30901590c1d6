//! Content hashing: an object's identifier is the lowercase-hex SHA-256
//! digest of `"<type> <len>\0" + payload`.

use vstd::prelude::*;
use vstd::utf8::encode_utf8;
use crate::hexcodec::is_hex_digit;

verus! {

/// The lowercase-hex SHA-256 digest of a byte sequence; it depends on the
/// bytes alone.
pub uninterp spec fn sha256_hex_of(bytes: Seq<u8>) -> Seq<char>;

/// True of a lowercase ASCII hex digit character.
pub open spec fn is_lower_hex_char(c: char) -> bool {
    ('0' <= c && c <= '9') || ('a' <= c && c <= 'f')
}

/// True of identifier strings: 64 lowercase hex characters.
pub open spec fn is_id_chars(s: Seq<char>) -> bool {
    s.len() == 64 && (forall|i: int| 0 <= i < s.len() ==> is_lower_hex_char(#[trigger] s[i]))
}

/// Relies on `sha256::digest` (for `&Vec<u8>`): the SHA-256 digest of the
/// input bytes, rendered by `hex::encode` as 64 lowercase hex characters; the
/// result is a function of the bytes alone.
#[verifier::external_body]
pub(crate) fn sha256_hex(bytes: &Vec<u8>) -> (r: String)
    ensures
        r@ == sha256_hex_of(bytes@),
        is_id_chars(r@),
{
    sha256::digest(bytes)
}

/// The ASCII decimal digits of `n`, most significant first.
pub open spec fn dec_bytes(n: nat) -> Seq<u8>
    decreases n,
{
    if n < 10 {
        seq![(48 + n) as u8]
    } else {
        dec_bytes(n / 10) + seq![(48 + n % 10) as u8]
    }
}

/// Render `n` in decimal ASCII.
pub fn u64_dec(n: u64) -> (r: Vec<u8>)
    ensures
        r@ == dec_bytes(n as nat),
    decreases n,
{
    if n < 10 {
        let mut r: Vec<u8> = Vec::new();
        r.push(48 + (n as u8));
        assert(r@ =~= dec_bytes(n as nat));
        r
    } else {
        let mut r = u64_dec(n / 10);
        r.push(48 + ((n % 10) as u8));
        assert(r@ =~= dec_bytes(n as nat));
        r
    }
}

/// The canonical object header `"<type> <len>\0"` as bytes.
pub open spec fn header_spec(tag: Seq<char>, payload_len: nat) -> Seq<u8> {
    encode_utf8(tag) + seq![32u8] + dec_bytes(payload_len) + seq![0u8]
}

/// The bytes that are hashed and stored: header followed by payload.
pub open spec fn encoded_object_spec(tag: Seq<char>, payload: Seq<u8>) -> Seq<u8> {
    header_spec(tag, payload.len()) + payload
}

/// An object's identifier: the digest of its canonical encoding.  Identical
/// `(type, payload)` pairs always yield the identical identifier.
pub open spec fn object_id_spec(tag: Seq<char>, payload: Seq<u8>) -> Seq<char> {
    sha256_hex_of(encoded_object_spec(tag, payload))
}

/// Copy all of `src` onto the end of `out`.
pub fn push_all(out: &mut Vec<u8>, src: &[u8])
    ensures
        final(out)@ == old(out)@ + src@,
{
    let mut i: usize = 0;
    while i < src.len()
        invariant
            i <= src@.len(),
            out@ == old(out)@ + src@.take(i as int),
        decreases src@.len() - i,
    {
        out.push(src[i]);
        i = i + 1;
        assert(out@ =~= old(out)@ + src@.take(i as int));
    }
    assert(out@ =~= old(out)@ + src@);
}

/// Build the canonical encoding `"<type> <len>\0" + payload`.
pub fn encode_object(tag: &str, payload: &Vec<u8>) -> (r: Vec<u8>)
    ensures
        r@ == encoded_object_spec(tag@, payload@),
{
    let mut out = tag.as_bytes_vec();
    out.push(32);
    let mut len_digits = u64_dec(payload.len() as u64);
    out.append(&mut len_digits);
    out.push(0);
    push_all(&mut out, payload.as_slice());
    assert(out@ =~= encoded_object_spec(tag@, payload@));
    out
}

/// Hash an object: the identifier of `(type, payload)`.  Calling this twice
/// on the same pair yields the identical identifier, since the result equals
/// `object_id_spec(tag, payload)` exactly.
pub fn hash_object(tag: &str, payload: &Vec<u8>) -> (r: String)
    ensures
        r@ == object_id_spec(tag@, payload@),
        is_id_chars(r@),
{
    let buf = encode_object(tag, payload);
    sha256_hex(&buf)
}

/// Identifier characters are ASCII, and their UTF-8 bytes are hex digits.
pub proof fn lemma_id_chars_bytes(s: Seq<char>)
    requires
        forall|i: int| 0 <= i < s.len() ==> is_lower_hex_char(#[trigger] s[i]),
    ensures
        vstd::utf8::is_ascii_chars(s),
        encode_utf8(s).len() == s.len(),
        forall|i: int| 0 <= i < s.len() ==> #[trigger] encode_utf8(s)[i] == s[i] as u8,
        forall|i: int| 0 <= i < s.len() ==> is_hex_digit(#[trigger] encode_utf8(s)[i]),
{
    assert(vstd::utf8::is_ascii_chars(s));
    vstd::utf8::is_ascii_chars_encode_utf8(s);
    assert forall|i: int| 0 <= i < s.len() implies is_hex_digit(#[trigger] encode_utf8(s)[i]) by {
        assert(encode_utf8(s)[i] == s[i] as u8);
        assert(is_lower_hex_char(s[i]));
    }
}

} // verus!
