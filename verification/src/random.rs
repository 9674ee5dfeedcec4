//! Sources of randomness. Nothing is promised about the values they give.

use vstd::prelude::*;

use rand::RngCore;

verus! {

/// `n` bytes from the thread-local generator of the `rand` crate
/// (`rand::thread_rng().fill_bytes`). Only the length is stated.
#[verifier::external_body]
pub(crate) fn thread_random_bytes(n: usize) -> (r: Vec<u8>)
    ensures
        r@.len() == n,
{
    let mut bytes = vec![0u8; n];
    rand::thread_rng().fill_bytes(&mut bytes);
    bytes
}

} // verus!
