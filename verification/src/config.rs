//! Sector and challenge parameters.

use crate::field::Fr;
use vstd::prelude::*;

verus! {

/// The depth of the sealed-sector Merkle tree (hashes from a leaf to the root).
pub const MERKLE_DEPTH: usize = 23;

/// The number of shards challenged per epoch.
pub const NUM_CHALLENGES: usize = 460;

/// The size of one shard in bytes.
pub const SHARD_SIZE_BYTES: usize = 4096;

/// Sector geometry and challenge schedule.
#[derive(Clone, Debug)]
pub struct EngramConfig {
    pub sector_size_bytes: usize,
    pub chunk_size_bytes: usize,
    pub tree_height: usize,
    pub challenges_per_epoch: usize,
    pub epochs_per_window: usize,
}

impl EngramConfig {
    /// The configuration for simulations and attack scenarios: a 32 MiB
    /// sector of 8192 chunks of 4 KiB, a tree of height 13, 10 challenges
    /// per epoch and 5 epochs per window.
    pub fn mock_dev() -> (r: EngramConfig)
        ensures
            r.sector_size_bytes == 32 * 1024 * 1024,
            r.chunk_size_bytes == 4096,
            r.tree_height == 13,
            r.challenges_per_epoch == 10,
            r.epochs_per_window == 5,
    {
        EngramConfig {
            sector_size_bytes: 32 * 1024 * 1024,
            chunk_size_bytes: 4096,
            tree_height: 13,
            challenges_per_epoch: 10,
            epochs_per_window: 5,
        }
    }

    /// The production configuration: a 32 GiB sector of 4 KiB chunks, a
    /// tree of height 23, 100 challenges per epoch and 48 epochs per window.
    pub fn production() -> (r: EngramConfig)
        requires
            usize::BITS == 64,
        ensures
            r.sector_size_bytes == 32 * 1024 * 1024 * 1024,
            r.chunk_size_bytes == 4096,
            r.tree_height == 23,
            r.challenges_per_epoch == 100,
            r.epochs_per_window == 48,
    {
        EngramConfig {
            sector_size_bytes: 32 * 1024 * 1024 * 1024,
            chunk_size_bytes: 4096,
            tree_height: 23,
            challenges_per_epoch: 100,
            epochs_per_window: 48,
        }
    }
}

/// A placeholder Merkle path of `MERKLE_DEPTH` zero siblings, used to size
/// the proving parameters.
pub fn dummy_path_elements() -> (r: Vec<Fr>)
    ensures
        r@.len() == MERKLE_DEPTH,
        forall|i: int| 0 <= i < r@.len() ==> #[trigger] r@[i]@ == 0,
{
    let mut r: Vec<Fr> = Vec::new();
    for i in 0..MERKLE_DEPTH
        invariant
            r@.len() == i,
            forall|k: int| 0 <= k < r@.len() ==> #[trigger] r@[k]@ == 0,
    {
        r.push(Fr::zero());
    }
    r
}

/// Placeholder Merkle direction indices: `MERKLE_DEPTH` zeros.
pub fn dummy_path_indices() -> (r: Vec<Fr>)
    ensures
        r@.len() == MERKLE_DEPTH,
        forall|i: int| 0 <= i < r@.len() ==> #[trigger] r@[i]@ == 0,
{
    dummy_path_elements()
}

} // verus!
