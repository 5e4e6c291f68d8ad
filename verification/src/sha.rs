//! The SHA-1 primitive, taken from the `sha1` crate.  The digest itself is
//! not restated here: `sha1_of` names the function the crate computes, and
//! contracts elsewhere speak of that name.

use vstd::prelude::*;
use sha1::Digest;

verus! {

/// The 20-byte SHA-1 digest of a byte string, as the `sha1` crate computes
/// it.  The digest depends on the input bytes alone.
pub uninterp spec fn sha1_of(data: Seq<u8>) -> Seq<u8>;

/// Relies on `sha1::Sha1::digest`: the one-shot SHA-1 of the input, always
/// 20 bytes, a function of the input bytes alone.
#[verifier::external_body]
pub fn sha1_digest(data: &[u8]) -> (r: Vec<u8>)
    ensures
        r@ == sha1_of(data@),
        r@.len() == 20,
{
    sha1::Sha1::digest(data).to_vec()
}

} // verus!
