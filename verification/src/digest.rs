//! SHA-256 digests in their canonical lowercase hexadecimal form.
use vstd::prelude::*;
use vstd::string::StringSliceAdditionalSpecFns;
use sha2::{Digest, Sha256};
use crate::text::{hex_lower, hex_spec, is_hex_char};
use vstd::utf8::{encode_utf8, is_ascii_chars, is_ascii_chars_encode_utf8};

verus! {

/// The SHA-256 digest of a byte sequence.
pub uninterp spec fn sha256_spec(bytes: Seq<u8>) -> Seq<u8>;

/// Calls `sha2::Sha256::digest`; the contract claims only that the result is
/// the SHA-256 function of the input bytes and, as the algorithm fixes, 32 bytes long.
#[verifier::external_body]
fn sha256_raw(bytes: &[u8]) -> (r: Vec<u8>)
    ensures
        r@ == sha256_spec(bytes@),
        r@.len() == 32,
{
    Sha256::digest(bytes).to_vec()
}

/// Lowercase hexadecimal SHA-256 of a byte slice.
pub fn sha256_hex(bytes: &[u8]) -> (s: String)
    ensures
        s@ == hex_spec(sha256_spec(bytes@)),
        s@.len() == 64,
{
    let digest = sha256_raw(bytes);
    hex_lower(digest.as_slice())
}

/// A lowercase hexadecimal digit byte.
pub open spec fn is_hex_digit_byte(b: u8) -> bool {
    (0x30 <= b && b <= 0x39) || (0x61 <= b && b <= 0x66)
}

/// Exactly 64 lowercase hexadecimal digits.
pub open spec fn is_sha256_bytes(s: Seq<u8>) -> bool {
    s.len() == 64 && forall|i: int| 0 <= i < s.len() ==> is_hex_digit_byte(#[trigger] s[i])
}

/// Whether a string is a canonical lowercase SHA-256 digest.
pub fn is_sha256(value: &str) -> (r: bool)
    ensures
        r == is_sha256_bytes(value.spec_bytes()),
{
    let bytes = value.as_bytes();
    if bytes.len() != 64 {
        return false;
    }
    let mut i: usize = 0;
    while i < bytes.len()
        invariant
            bytes@ == value.spec_bytes(),
            bytes@.len() == 64,
            i <= 64,
            forall|j: int| 0 <= j < i ==> is_hex_digit_byte(#[trigger] bytes@[j]),
        decreases 64 - i,
    {
        let b = bytes[i];
        if !((0x30 <= b && b <= 0x39) || (0x61 <= b && b <= 0x66)) {
            return false;
        }
        i += 1;
    }
    true
}

/// A 64-character lowercase hexadecimal rendering is canonical digest text.
pub proof fn lemma_hex_is_sha_text(digest: Seq<u8>)
    requires
        hex_spec(digest).len() == 64,
    ensures
        is_sha256_bytes(encode_utf8(hex_spec(digest))),
{
    let h = hex_spec(digest);
    crate::text::lemma_hex_spec_digits(digest);
    assert(is_ascii_chars(h)) by {
        assert forall|i: int| 0 <= i < h.len() implies '\0' <= #[trigger] h[i] <= '\u{7f}' by {
            assert(is_hex_char(h[i]));
        }
    }
    is_ascii_chars_encode_utf8(h);
    let b = encode_utf8(h);
    assert forall|i: int| 0 <= i < b.len() implies is_hex_digit_byte(#[trigger] b[i]) by {
        assert(is_hex_char(h[i]));
        assert(h[i] as u8 == b[i]);
    }
}

} // verus!
