//! The Keccak-256 hash and the two digests that mark what is empty.

use vstd::prelude::*;
use sha3::Digest;

verus! {

/// The Keccak-256 digest of `data`: Keccak as it was submitted, with its own
/// padding, which is not that of SHA3-256.
pub uninterp spec fn keccak256_digest(data: Seq<u8>) -> Seq<u8>;

/// The root of a trie without entries: the digest of the single byte `0x80`.
pub const EMPTY_ROOT_HASH: [u8; 32] = [
    0x56, 0xe8, 0x1f, 0x17, 0x1b, 0xcc, 0x55, 0xa6, 0xff, 0x83, 0x45, 0xe6, 0x92, 0xc0, 0xf8, 0x6e,
    0x5b, 0x48, 0xe0, 0x1b, 0x99, 0x6c, 0xad, 0xc0, 0x01, 0x62, 0x2f, 0xb5, 0xe3, 0x63, 0xb4, 0x21,
];

/// The code hash of an account without code: the digest of no bytes.
pub const EMPTY_CODE_HASH: [u8; 32] = [
    0xc5, 0xd2, 0x46, 0x01, 0x86, 0xf7, 0x23, 0x3c, 0x92, 0x7e, 0x7d, 0xb2, 0xdc, 0xc7, 0x03, 0xc0,
    0xe5, 0x00, 0xb6, 0x53, 0xca, 0x82, 0x27, 0x3b, 0x7b, 0xfa, 0xd8, 0x04, 0x5d, 0x85, 0xa4, 0x70,
];

/// Calls `sha3::Keccak256::digest`. Trusted: the 32 bytes that come back are
/// the Keccak-256 digest of `data`, a function of `data` alone.
#[verifier::external_body]
fn sha3_keccak256(data: &[u8]) -> (hash: [u8; 32])
    ensures
        hash@ == keccak256_digest(data@),
{
    sha3::Keccak256::digest(data).into()
}

/// Hashes `data` with Keccak-256.
pub fn keccak256(data: &[u8]) -> (hash: [u8; 32])
    ensures
        hash@ == keccak256_digest(data@),
{
    sha3_keccak256(data)
}

} // verus!
