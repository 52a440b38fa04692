use vstd::prelude::*;

verus! {

/// The 32-byte cryptographic digest of `data`. The digest depends on the
/// bytes alone, so the result is named rather than spelled out.
pub uninterp spec fn hash_of(data: Seq<u8>) -> Seq<u8>;

/// Relies on blake3::hash: a 32-byte digest that is a deterministic function
/// of the input bytes alone.
#[verifier::external_body]
pub fn digest(data: &[u8]) -> (r: Vec<u8>)
    ensures
        r@ == hash_of(data@),
        r@.len() == 32,
{
    blake3::hash(data).as_bytes().to_vec()
}

} // verus!
