//! The hash function of the ledger.

use vstd::prelude::*;
use blake2::digest::consts::U32;
use blake2::{Blake2b, Digest};

verus! {

/// The BLAKE2b digest, 32 bytes long, of `data`.
pub uninterp spec fn blake2b_256(data: Seq<u8>) -> Seq<u8>;

/// Relies on blake2's `Blake2b<U32>::digest`: the 32-byte BLAKE2b digest of `data`, which
/// depends on `data` alone.
#[verifier::external_body]
pub(crate) fn blake2b(data: &[u8]) -> (r: [u8; 32])
    ensures
        r@ == blake2b_256(data@),
        r@.len() == 32,
{
    Blake2b::<U32>::digest(data).into()
}

} // verus!
