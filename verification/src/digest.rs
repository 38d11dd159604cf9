//! The hash function, taken from `blake2`.

use vstd::prelude::*;
use blake2::{Blake2b512, Digest};

verus! {

/// BLAKE2b with 64 bytes of output, as a function of its input.
pub uninterp spec fn blake2b512(input: Seq<u8>) -> Seq<u8>;

/// `blake2::Blake2b512::digest`: the 64-byte hash of a byte string. The
/// contract names the result and claims nothing else of it.
#[verifier::external_body]
pub(crate) fn blake2b512_digest(input: &Vec<u8>) -> (r: [u8; 64])
    ensures
        r@ == blake2b512(input@),
{
    let digest = Blake2b512::digest(input);
    let mut out = [0u8; 64];
    out.copy_from_slice(&digest);
    out
}

} // verus!
