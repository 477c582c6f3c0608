//! The hash family of the filters: `gxhash32` under seeds 0, 1, 2, ...
use vstd::prelude::*;

verus! {

/// The 32-bit gxhash of `bytes` under `seed`.
pub uninterp spec fn gxhash32_of(bytes: Seq<u8>, seed: int) -> u32;

/// Relies on `gxhash::gxhash32`: a hash of the bytes under the seed that
/// depends on the two alone; the crate documents its hashes as the same on
/// every supported platform for a given version.
#[verifier::external_body]
pub(crate) fn seeded_hash(bytes: &[u8], seed: u32) -> (r: u32)
    ensures
        r == gxhash32_of(bytes@, seed as int),
{
    gxhash::gxhash32(bytes, seed as i64)
}

/// Probe hash `seed` of a key: its gxhash under that seed.
pub fn key_hash(bytes: &[u8], seed: u32) -> (r: u32)
    ensures
        r == gxhash32_of(bytes@, seed as int),
{
    seeded_hash(bytes, seed)
}

} // verus!
