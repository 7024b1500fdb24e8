//! Storage partitioning: column families, and the routing of keys to shards.

use vstd::prelude::*;
use crate::outside::default_hash;

verus! {

/// Column family of the store.
#[derive(Clone, Copy, Debug)]
pub enum Cf {
    /// Append-only event log.
    Events,
    /// Workflow state snapshots.
    State,
    /// Signed attestation records.
    Attestations,
}

impl Cf {
    /// The column family's name in the database.
    pub fn as_str(&self) -> (r: &'static str)
        ensures
            r@ == match self {
                Cf::Events => "events"@,
                Cf::State => "state"@,
                Cf::Attestations => "attestations"@,
            },
    {
        match self {
            Cf::Events => "events",
            Cf::State => "state",
            Cf::Attestations => "attestations",
        }
    }
}

/// The shard a key hash is routed to: the hash (as a `usize`) modulo the
/// number of shards.
pub fn shard_index(key_hash: u64, shards: usize) -> (r: usize)
    requires
        shards > 0,
    ensures
        r == (key_hash as usize) % shards,
        r < shards,
{
    (key_hash as usize) % shards
}

/// The shard for `key` among `shards` shards: the key's hash by the standard
/// library's default hasher, routed by [`shard_index`]. The hash itself
/// depends on the machine and the std release, so only the range is stated.
pub fn shard_for_key(key: &[u8], shards: usize) -> (r: usize)
    requires
        shards > 0,
    ensures
        r < shards,
{
    shard_index(default_hash(key), shards)
}

} // verus!
