//! Content fingerprints.
//!
//! A fingerprint is the SHA-256 digest of a file's bytes, rendered as a
//! 64-character lowercase hexadecimal string. It identifies file content
//! independently of modification times.

use sha2::Digest;
use vstd::prelude::*;

verus! {

/// A well-formed fingerprint: exactly 64 characters.
pub open spec fn valid_hash(h: Seq<char>) -> bool {
    h.len() == 64
}

/// A lowercase hexadecimal digit.
pub open spec fn is_hex_char(c: char) -> bool {
    ('0' <= c && c <= '9') || ('a' <= c && c <= 'f')
}

/// Errors reported by the library.
#[derive(Clone, Copy, PartialEq, Eq, Structural, Debug)]
pub enum Error {
    /// A file or directory could not be read or written.
    Io,
    /// A fingerprint string of a length other than 64 was supplied.
    HashLengthInvalid,
}

/// The SHA-256 digest of a byte sequence, rendered in lowercase hex.
pub uninterp spec fn sha256_hex_of(data: Seq<u8>) -> Seq<char>;

/// Relies on sha2's `Sha256` and generic-array's lower-hex rendering: the
/// digest is a function of the input bytes alone, is 32 bytes long, and is
/// rendered as two lowercase hexadecimal characters per byte.
#[verifier::external_body]
fn sha256_hex(data: &[u8]) -> (r: String)
    ensures
        r@ == sha256_hex_of(data@),
        r@.len() == 64,
        forall|i: int| 0 <= i < r@.len() ==> is_hex_char(#[trigger] r@[i]),
{
    format!("{:x}", sha2::Sha256::digest(data))
}

/// Computes the content fingerprint of a file's bytes: a deterministic,
/// 64-character lowercase hex digest of exactly the given bytes.
pub fn fingerprint(data: &[u8]) -> (r: String)
    ensures
        r@ == sha256_hex_of(data@),
        valid_hash(r@),
        forall|i: int| 0 <= i < r@.len() ==> is_hex_char(#[trigger] r@[i]),
{
    sha256_hex(data)
}

/// Fingerprint determinism: hashing the same byte content twice yields the
/// same fingerprint, since the fingerprint is a function of the bytes alone.
pub proof fn lemma_fingerprint_deterministic(a: Seq<u8>, b: Seq<u8>)
    requires
        a == b,
    ensures
        sha256_hex_of(a) == sha256_hex_of(b),
{
}

} // verus!
