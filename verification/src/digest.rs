//! Content fingerprints.

use vstd::prelude::*;

verus! {

/// The SHA-256 fingerprint of `content`, written as the hexadecimal text that
/// `sha256::digest` returns for these bytes.
pub uninterp spec fn sha256_hex(content: Seq<u8>) -> Seq<char>;

/// Calls `sha256::digest` on a byte slice.
///
/// Trusted: the call returns for every slice, and the text that it returns
/// depends on the bytes alone, so it is the fingerprint named by
/// [`sha256_hex`]. Nothing else is claimed of it.
#[verifier::external_body]
pub(crate) fn hex_digest(content: &[u8]) -> (digest: String)
    ensures
        digest@ == sha256_hex(content@),
{
    sha256::digest(content)
}

} // verus!
