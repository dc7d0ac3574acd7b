//! The hash by which text is spread over shards.

use std::hash::Hasher;
use vstd::prelude::*;

verus! {

/// The 64-bit FNV-1a hash: from the offset basis on, each byte is mixed in by an exclusive or
/// and a multiplication by the FNV prime, modulo 2^64.
pub open spec fn fnv1a(bytes: Seq<u8>) -> u64
    decreases bytes.len(),
{
    if bytes.len() == 0 {
        0xcbf29ce484222325
    } else {
        let mixed = fnv1a(bytes.drop_last()) ^ (bytes.last() as u64);
        ((mixed * 0x100000001b3) % 0x1_0000_0000_0000_0000) as u64
    }
}

/// Runs a fresh `fnv::FnvHasher` over `bytes`. What is claimed of `FnvHasher::default`, `write`
/// and `finish` together: the result is the 64-bit FNV-1a hash of the bytes.
#[verifier::external_body]
pub(crate) fn fnv_hash(bytes: &[u8]) -> (res: u64)
    ensures
        res == fnv1a(bytes@),
{
    let mut hasher = fnv::FnvHasher::default();
    hasher.write(bytes);
    hasher.finish()
}

} // verus!
