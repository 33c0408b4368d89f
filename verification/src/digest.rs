//! The trusted boundary to the hash capability.
//!
//! A ring is generic over a build-hasher capability; everything the ring
//! computes from it is a 64-bit digest. The three functions here make those
//! calls into the standard library's hashing machinery. No value is promised
//! of a digest: which number comes back is the capability's own affair, and
//! the ring's verified logic holds for every outcome. That the capability is
//! deterministic and stable across calls is the documented demand on the
//! caller, exactly as for the keys of a hash map.

use vstd::prelude::*;

use core::hash::BuildHasher;
use core::hash::BuildHasherDefault;
use core::hash::Hash;
use core::hash::Hasher;
use std::collections::hash_map::DefaultHasher;

verus! {

#[verifier::external_type_specification]
#[verifier::external_body]
#[verifier::reject_recursive_types(H)]
pub struct ExBuildHasherDefault<H>(BuildHasherDefault<H>);

/// Relies on `BuildHasherDefault::default`: builds the capability handing
/// out the standard library's default hashers, the one a plain ring uses.
#[verifier::external_body]
pub(crate) fn default_build_hasher() -> BuildHasherDefault<DefaultHasher> {
    BuildHasherDefault::default()
}

/// Relies on `BuildHasher::build_hasher`, `Hash::hash`, `Hasher::write_u64`
/// and `Hasher::finish`: the digest of `(node, index)` — the ring position
/// of one virtual node — under the given hash capability.
#[verifier::external_body]
pub(crate) fn vnode_digest<B: BuildHasher, N: Hash>(builder: &B, node: &N, index: u64) -> u64 {
    let mut hasher = builder.build_hasher();
    node.hash(&mut hasher);
    hasher.write_u64(index);
    hasher.finish()
}

/// Relies on `BuildHasher::build_hasher`, `Hash::hash` and `Hasher::finish`:
/// the digest of a bare key under the given hash capability.
#[verifier::external_body]
pub(crate) fn key_digest<B: BuildHasher, K: Hash>(builder: &B, key: &K) -> u64 {
    let mut hasher = builder.build_hasher();
    key.hash(&mut hasher);
    hasher.finish()
}

} // verus!
