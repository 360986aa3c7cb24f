//! The SHA-1 digest used for content addressing. The digest itself is
//! computed by an outside crate; its value is given a name that the
//! contracts of the codecs speak of.

use sha1::Digest;
use vstd::prelude::*;

verus! {

/// The SHA-1 digest of a byte string: 20 bytes, a function of the
/// input alone.
pub uninterp spec fn sha1_of(s: Seq<u8>) -> Seq<u8>;

/// Relies on `sha1::Sha1` (via the `Digest` trait): the 20-byte SHA-1
/// digest of the input, depending on the input alone.
#[verifier::external_body]
pub fn sha1_digest(data: &[u8]) -> (r: Vec<u8>)
    ensures
        r@ == sha1_of(data@),
        r@.len() == 20,
{
    let mut hasher = sha1::Sha1::new();
    hasher.update(data);
    hasher.finalize().to_vec()
}

} // verus!
