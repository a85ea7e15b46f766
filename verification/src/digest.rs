//! BLAKE3 digests.
use crate::text;
use vstd::prelude::*;

verus! {

/// The BLAKE3 digest of a byte string.
pub uninterp spec fn blake3_of(input: Seq<u8>) -> Seq<u8>;

/// `blake3::hash`: the digest of the input, 32 bytes. Hashing parts one
/// after the other with a `blake3::Hasher` is hashing them as one input.
#[verifier::external_body]
pub(crate) fn blake3_digest(input: &[u8]) -> (r: [u8; 32])
    ensures
        r@ == blake3_of(input@),
{
    *blake3::hash(input).as_bytes()
}

/// `blake3::Hash::to_hex`: two lower-case hexadecimal digits for each byte.
#[verifier::external_body]
pub(crate) fn hash_to_hex(digest: [u8; 32]) -> (r: String)
    ensures
        r@ == text::hex_of(digest@),
{
    blake3::Hash::from_bytes(digest).to_hex().to_string()
}

/// The hexadecimal BLAKE3 digest of a byte string.
pub open spec fn hex_digest(input: Seq<u8>) -> Seq<char> {
    text::hex_of(blake3_of(input))
}

/// The hexadecimal digest of the content, 64 digits.
pub fn content_digest(input: &[u8]) -> (r: String)
    ensures
        r@ == hex_digest(input@),
        r@.len() == 64,
{
    let digest = blake3_digest(input);
    proof {
        text::hex_is_ascii(digest@);
    }
    hash_to_hex(digest)
}

/// The first four bytes of the digest, the least significant first.
pub open spec fn seed_in(digest: Seq<u8>) -> nat {
    (digest[0] + digest[1] * 0x100 + digest[2] * 0x1_0000 + digest[3] * 0x100_0000) as nat
}

/// The number in the first four bytes of a digest.
pub fn seed_of(digest: &[u8; 32]) -> (r: u32)
    ensures
        r == seed_in(digest@),
{
    (digest[0] as u32) + (digest[1] as u32) * 0x100 + (digest[2] as u32) * 0x1_0000 + (
    digest[3] as u32) * 0x100_0000
}

} // verus!
