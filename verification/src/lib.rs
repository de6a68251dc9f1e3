//! Verified core of a repository history viewer: a commit-graph builder
//! that orders history for rendering, and a versioned, fingerprint-keyed
//! cache of the staged-file index with a deterministic binary encoding.

use vstd::prelude::*;

pub mod bytes;
pub mod cache;
pub mod codec;
pub mod fingerprint;
pub mod graph;
pub mod repo;
pub mod index_entry;

verus! {

/// Schema version stamped into every encoded cache payload; a stored
/// record with any other version is treated as a cache miss.
pub const CACHE_VERSION: u32 = 1;

/// Byte-exact copy of a byte vector.
pub fn clone_bytes(v: &Vec<u8>) -> (r: Vec<u8>)
    ensures
        r@ == v@,
{
    vstd::slice::slice_to_vec(v.as_slice())
}

} // verus!
