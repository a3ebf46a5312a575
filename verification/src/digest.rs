use vstd::prelude::*;

verus! {

/// The digest a record's content address derives from: a function of the
/// signature bytes alone.
pub uninterp spec fn sha256_of(data: Seq<u8>) -> Seq<u8>;

/// Relies on arweave_rs::crypto::hash::sha256: a SHA-256 digest, 32 bytes,
/// determined by the input bytes alone.
#[verifier::external_body]
pub(crate) fn sha256_digest(data: &Vec<u8>) -> (r: Vec<u8>)
    ensures
        r@ == sha256_of(data@),
        r@.len() == 32,
{
    arweave_rs::crypto::hash::sha256(data.as_slice()).to_vec()
}

} // verus!
