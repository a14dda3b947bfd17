//! The SHA-1 digest used to verify pieces and to derive the info-hash.
//! The digest itself is computed by an outside crate; this library names
//! its result and reasons about everything around it.

use vstd::prelude::*;

verus! {

/// The 20-byte SHA-1 digest of a byte string; a function of the bytes alone.
pub uninterp spec fn sha1_of(data: Seq<u8>) -> Seq<u8>;

/// Relies on `crypto::sha1::Sha1` through `crypto::digest::Digest`:
/// `input` feeds the whole message, `result` writes the 160-bit (20-byte)
/// digest, and the digest depends on the message bytes alone.
#[verifier::external_body]
pub(crate) fn sha1(data: &[u8]) -> (r: Vec<u8>)
    ensures
        r@ == sha1_of(data@),
        r@.len() == 20,
{
    let mut hash = [0u8; 20];
    let mut hasher = crypto::sha1::Sha1::new();
    crypto::digest::Digest::input(&mut hasher, data);
    crypto::digest::Digest::result(&mut hasher, &mut hash);
    hash.to_vec()
}

} // verus!
