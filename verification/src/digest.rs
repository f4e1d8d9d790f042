//! SHA-1.

use crate::types::Sha1Hash;
use sha1::Digest;
use vstd::prelude::*;

verus! {

/// The SHA-1 digest of a byte string.
pub uninterp spec fn sha1_digest(data: Seq<u8>) -> Seq<u8>;

/// Calls `sha1::Sha1::digest`. Its twenty output bytes are a function of the
/// input alone, which [`sha1_digest`] names; nothing else is said of them.
#[verifier::external_body]
pub(crate) fn sha1(data: &[u8]) -> (r: Sha1Hash)
    ensures
        r.bytes@ == sha1_digest(data@),
{
    Sha1Hash { bytes: sha1::Sha1::digest(data).into() }
}

} // verus!
