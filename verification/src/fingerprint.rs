//! The fingerprint that identifies a hyperedge: a fixed-seed 64-bit hash of
//! its node sequence, stable for a given build across process runs.

use std::hash::{BuildHasher, Hash, Hasher};
use vstd::prelude::*;

verus! {

/// The fingerprint of a node sequence.  Order-sensitive: two sequences that
/// are permutations of one another get different fingerprints (with
/// overwhelming probability) and are treated as distinct hyperedges.
pub uninterp spec fn edge_id_of(nodes: Seq<i64>) -> u64;

/// Seeds for the keyed hash behind [`edge_id_of`].
pub const SEED1: u64 = 0x243F6A8885A308D3;
pub const SEED2: u64 = 0x13198A2E03707344;
pub const SEED3: u64 = 0xA4093822299F31D0;
pub const SEED4: u64 = 0x082EFA98EC4E6C89;

/// Relies on `ahash::RandomState::with_seeds` and the standard `Hash`
/// implementation for `Vec<i64>`: with fixed seeds the resulting hash is a
/// deterministic function of the node sequence alone.
#[verifier::external_body]
pub(crate) fn compute_edge_id(edge: &Vec<i64>) -> (r: u64)
    ensures
        r == edge_id_of(edge@),
{
    let hasher_factory = ahash::RandomState::with_seeds(SEED1, SEED2, SEED3, SEED4);
    let mut hasher = hasher_factory.build_hasher();
    edge.hash(&mut hasher);
    hasher.finish()
}

} // verus!
