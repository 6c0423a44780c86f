use sha2::Digest;
use vstd::prelude::*;
use vstd::utf8::encode_utf8;

verus! {

/// Width in bytes of a SHA-256 digest, and so of a stored password digest.
pub const SHA256_NUM_BYTES: usize = 32;

/// The SHA-256 digest of a byte string.
pub uninterp spec fn sha256(bytes: Seq<u8>) -> Seq<u8>;

/// The digest under which a password is stored.
pub open spec fn password_digest(password: Seq<char>) -> Seq<u8> {
    sha256(encode_utf8(password))
}

/// Calls `sha2::Sha256::digest`. Trusted: the 32 bytes returned are the
/// SHA-256 digest of `bytes`, which depends on `bytes` alone.
#[verifier::external_body]
pub(crate) fn sha256_hash(bytes: &[u8]) -> (digest: [u8; 32])
    ensures
        digest@ == sha256(bytes@),
{
    sha2::Sha256::digest(bytes).into()
}

/// Whether two digests hold the same bytes.
///
/// The comparison reads all of both digests.
pub(crate) fn same_digest(a: &[u8; 32], b: &[u8; 32]) -> (same: bool)
    ensures
        same == (a@ == b@),
{
    let mut i: usize = 0;
    while i < SHA256_NUM_BYTES
        invariant
            i <= SHA256_NUM_BYTES,
            forall|j: int| 0 <= j < i ==> a@[j] == b@[j],
        decreases SHA256_NUM_BYTES - i,
    {
        if a[i] != b[i] {
            return false;
        }
        i += 1;
    }
    assert(a@ =~= b@);
    true
}

} // verus!
