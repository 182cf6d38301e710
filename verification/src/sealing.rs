//! Sealing a sector: each raw chunk `D_i` is encoded into a replica chunk
//! `R_i = H4(D_i, S_{i-1}, i, replica_id)` and chained into the state
//! `S_i = H(S_{i-1}, R_i)`, starting from `S_0 = replica_id`; the pairs
//! `(R_i, S_i)` are then committed in a Merkle tree. Chunks are absorbed one
//! at a time, so the raw data never has to be held in memory.

use crate::bits::is_power_of_two;
use crate::config::EngramConfig;
use crate::encoding::{bytes_to_fr, bytes_value};
use crate::field::Fr;
use crate::merkle_tree::{leaf_hash, leaves_of, merkle_root, MerkleTree};
use crate::poseidon2::{hash2, hash4, values_of, Poseidon2};
use crate::storage::ProverStorage;
use std::path::PathBuf;
use vstd::prelude::*;

verus! {

/// The field value of a raw chunk: its length, then its 31-byte windows,
/// folded by the compression function.
pub fn chunk_to_fr(p: &Poseidon2, chunk: &[u8]) -> (r: Fr)
    requires
        p.wf(),
    ensures
        r@ == bytes_value(*p, chunk@),
{
    bytes_to_fr(p, chunk)
}

/// The state `S_k` after sealing the chunks whose values are `ds[..k]`,
/// starting from `S_0 = replica_id`.
pub open spec fn sealed_state(p: Poseidon2, replica_id: nat, ds: Seq<nat>, k: nat) -> nat
    decreases k,
{
    if k == 0 {
        replica_id
    } else {
        let prev = sealed_state(p, replica_id, ds, (k - 1) as nat);
        hash2(p, prev, hash4(p, ds[k - 1], prev, k, replica_id))
    }
}

/// The replica chunk `R_k` for `k >= 1`.
pub open spec fn sealed_replica(p: Poseidon2, replica_id: nat, ds: Seq<nat>, k: nat) -> nat {
    hash4(p, ds[k - 1], sealed_state(p, replica_id, ds, (k - 1) as nat), k, replica_id)
}

/// The Merkle leaves `H(R_k, S_k)` for `k = 1..=n`.
pub open spec fn sealed_leaves(p: Poseidon2, replica_id: nat, ds: Seq<nat>) -> Seq<nat> {
    Seq::new(
        ds.len(),
        |i: int|
            leaf_hash(
                p,
                sealed_replica(p, replica_id, ds, (i + 1) as nat),
                sealed_state(p, replica_id, ds, (i + 1) as nat),
            ),
    )
}

/// Storage holding the first `done` links of the sealing chain of `ds`
/// (out of `n` chunk slots): `S_0..S_done` and `R_1..R_done` are stored and
/// every later slot is empty.
pub open spec fn holds_chain(st: ProverStorage, p: Poseidon2, replica_id: nat, ds: Seq<nat>, done: nat, n: nat) -> bool {
    &&& st.num_chunks == n
    &&& st.states@.len() == n + 1
    &&& st.replicas@.len() == n + 1
    &&& done <= n
    &&& done <= ds.len()
    &&& forall|i: int|
        0 <= i <= n ==> match #[trigger] st.states@[i] {
            Some(x) => i <= done && x@ == sealed_state(p, replica_id, ds, i as nat),
            None => i > done,
        }
    &&& forall|i: int|
        0 <= i <= n ==> match #[trigger] st.replicas@[i] {
            Some(x) => 1 <= i <= done && x@ == sealed_replica(p, replica_id, ds, i as nat),
            None => i == 0 || i > done,
        }
}

/// What a sealed sector's storage holds: the whole chain of `ds`, the raw
/// data file, no dropped chunk, and the Merkle tree over the sealed leaves.
pub open spec fn sealed_storage(st: ProverStorage, p: Poseidon2, replica_id: nat, ds: Seq<nat>, chunk_size: usize) -> bool {
    &&& holds_chain(st, p, replica_id, ds, ds.len(), ds.len())
    &&& st.chunk_size == chunk_size
    &&& st.raw_data_path is Some
    &&& st.dropped_raw_indices@ == Set::<usize>::empty()
    &&& st.merkle_tree matches Some(t) && t.wf(p) && values_of(t.leaves@) == sealed_leaves(p, replica_id, ds)
        && t.root@ == merkle_root(p, sealed_leaves(p, replica_id, ds))
}

/// Seals sectors of the configured geometry.
pub struct Sealer {
    config: EngramConfig,
}

/// A sealing in progress: the storage being filled, the last state, the
/// sealed pairs so far, and the values of the chunks absorbed.
pub struct SealingSession {
    storage: ProverStorage,
    replica_id: Fr,
    s_prev: Fr,
    next_index: usize,
    sealed_pairs: Vec<(Fr, Fr)>,
    chunk_values: Ghost<Seq<nat>>,
}

impl Sealer {
    /// A sealer for the given configuration.
    pub fn new(config: EngramConfig) -> (r: Sealer)
        ensures
            r.config() == config,
    {
        Sealer { config }
    }

    /// The configuration.
    pub closed spec fn config(&self) -> EngramConfig {
        self.config
    }

    /// The number of chunks in a sector.
    pub closed spec fn num_chunks(&self) -> nat {
        (self.config.sector_size_bytes / self.config.chunk_size_bytes) as nat
    }

    /// Starts sealing a sector read from `raw_data_path`: fresh storage for
    /// `sector_size / chunk_size` chunks, the raw data file recorded, and
    /// `S_0 = replica_id` stored.
    pub fn begin_sealing(&self, replica_id: Fr, raw_data_path: PathBuf) -> (s: SealingSession)
        requires
            self.config().chunk_size_bytes > 0,
            self.config().sector_size_bytes / self.config().chunk_size_bytes < usize::MAX,
        ensures
            forall|p: Poseidon2| #[trigger] s.wf(p),
            s.chunk_values() == Seq::<nat>::empty(),
            s.num_chunks() == self.num_chunks(),
            s.chunk_size() == self.config().chunk_size_bytes,
            s.replica_id() == replica_id@,
            s.raw_data_path() == Some(raw_data_path),
    {
        let chunk_size = self.config.chunk_size_bytes;
        let num_chunks = self.config.sector_size_bytes / chunk_size;
        let mut storage = ProverStorage::with_capacity(num_chunks, chunk_size);
        storage.set_raw_data_path(raw_data_path);
        storage.insert_state(0, replica_id);
        let s = SealingSession {
            storage,
            replica_id,
            s_prev: replica_id,
            next_index: 1,
            sealed_pairs: Vec::new(),
            chunk_values: Ghost(Seq::empty()),
        };
        proof {
            assert forall|p: Poseidon2| #[trigger] s.wf(p) by {
                let st = s.storage;
                assert forall|i: int| 0 <= i <= num_chunks implies match #[trigger] st.states@[i] {
                    Some(x) => i <= 0 && x@ == sealed_state(p, replica_id@, Seq::empty(), i as nat),
                    None => i > 0,
                } by {}
            }
        }
        s
    }
}

impl SealingSession {
    /// The values of the chunks absorbed so far.
    pub closed spec fn chunk_values(&self) -> Seq<nat> {
        self.chunk_values@
    }

    /// The number of chunks of the sector.
    pub closed spec fn num_chunks(&self) -> nat {
        self.storage.num_chunks as nat
    }

    /// The chunk size of the sector.
    pub closed spec fn chunk_size(&self) -> usize {
        self.storage.chunk_size
    }

    /// The replica id.
    pub closed spec fn replica_id(&self) -> nat {
        self.replica_id@
    }

    /// The raw data file recorded for the sector.
    pub closed spec fn raw_data_path(&self) -> Option<PathBuf> {
        self.storage.raw_data_path
    }

    /// The storage holds the chain of the absorbed chunks, the last state is
    /// `S_k` and the sealed pairs are `(R_1, S_1)..(R_k, S_k)`.
    pub closed spec fn wf(&self, p: Poseidon2) -> bool {
        let ds = self.chunk_values@;
        let k = ds.len();
        &&& holds_chain(self.storage, p, self.replica_id@, ds, k, self.storage.num_chunks as nat)
        &&& self.storage.num_chunks < usize::MAX
        &&& self.storage.raw_data_path is Some
        &&& self.storage.dropped_raw_indices@ == Set::<usize>::empty()
        &&& self.storage.merkle_tree is None
        &&& self.next_index == k + 1
        &&& self.s_prev@ == sealed_state(p, self.replica_id@, ds, k)
        &&& self.sealed_pairs@.len() == k
        &&& forall|i: int|
            0 <= i < k ==> (#[trigger] self.sealed_pairs@[i]).0@ == sealed_replica(p, self.replica_id@, ds, (i + 1) as nat)
                && self.sealed_pairs@[i].1@ == sealed_state(p, self.replica_id@, ds, (i + 1) as nat)
    }

    /// Absorbs the next raw chunk `D_i`: its field value `d_i` gives
    /// `R_i = H4(d_i, S_{i-1}, i, replica_id)` and `S_i = H(S_{i-1}, R_i)`,
    /// both stored.
    pub fn absorb_chunk(&mut self, p: &Poseidon2, chunk: &[u8])
        requires
            p.wf(),
            old(self).wf(*p),
            old(self).chunk_values().len() < old(self).num_chunks(),
        ensures
            final(self).wf(*p),
            final(self).chunk_values() == old(self).chunk_values().push(bytes_value(*p, chunk@)),
            final(self).num_chunks() == old(self).num_chunks(),
            final(self).chunk_size() == old(self).chunk_size(),
            final(self).replica_id() == old(self).replica_id(),
            final(self).raw_data_path() == old(self).raw_data_path(),
    {
        let ghost ds0 = self.chunk_values@;
        let i = self.next_index;
        let d_i = chunk_to_fr(p, chunk);
        let r_i = p.poseidon2_hash_4(&d_i, &self.s_prev, &Fr::from_u64(i as u64), &self.replica_id);
        let s_i = p.hash_2(&self.s_prev, &r_i);
        self.storage.insert_replica(i, r_i);
        self.storage.insert_state(i, s_i);
        self.sealed_pairs.push((r_i, s_i));
        self.s_prev = s_i;
        self.next_index = i + 1;
        self.chunk_values = Ghost(ds0.push(d_i@));
        proof {
            let ds = ds0.push(d_i@);
            let rid = self.replica_id@;
            let n = self.storage.num_chunks as nat;
            assert forall|k: nat| k <= ds0.len() implies sealed_state(*p, rid, ds, k) == sealed_state(
                *p,
                rid,
                ds0,
                k,
            ) by {
                lemma_chain_prefix(*p, rid, ds0, ds, k);
            }
            assert(sealed_state(*p, rid, ds, i as nat) == s_i@);
            assert(sealed_replica(*p, rid, ds, i as nat) == r_i@);
            let st = self.storage;
            assert forall|j: int| 0 <= j <= n implies match #[trigger] st.states@[j] {
                Some(x) => j <= i && x@ == sealed_state(*p, rid, ds, j as nat),
                None => j > i,
            } by {
                if j < i {
                    assert(st.states@[j] == old(self).storage.states@[j]);
                }
            }
            assert forall|j: int| 0 <= j <= n implies match #[trigger] st.replicas@[j] {
                Some(x) => 1 <= j <= i && x@ == sealed_replica(*p, rid, ds, j as nat),
                None => j == 0 || j > i,
            } by {
                if j < i && j >= 1 {
                    assert(st.replicas@[j] == old(self).storage.replicas@[j]);
                    assert(sealed_replica(*p, rid, ds, j as nat) == sealed_replica(*p, rid, ds0, j as nat));
                }
            }
            assert forall|j: int| 0 <= j < i implies (#[trigger] self.sealed_pairs@[j]).0@ == sealed_replica(
                *p,
                rid,
                ds,
                (j + 1) as nat,
            ) && self.sealed_pairs@[j].1@ == sealed_state(*p, rid, ds, (j + 1) as nat) by {
                if j < i - 1 {
                    assert(self.sealed_pairs@[j] == old(self).sealed_pairs@[j]);
                    assert(sealed_replica(*p, rid, ds, (j + 1) as nat) == sealed_replica(*p, rid, ds0, (j + 1) as nat));
                }
            }
        }
    }

    /// Absorbs the next chunk as read into a buffer of the chunk size: the
    /// `bytes_read` bytes read are kept and the rest of the buffer is
    /// zeroed, as at the end of the raw data.
    pub fn absorb_read(&mut self, p: &Poseidon2, buf: &mut Vec<u8>, bytes_read: usize)
        requires
            p.wf(),
            old(self).wf(*p),
            old(self).chunk_values().len() < old(self).num_chunks(),
            bytes_read <= old(buf)@.len(),
        ensures
            final(self).wf(*p),
            final(buf)@ == old(buf)@.take(bytes_read as int) + Seq::new(
                (old(buf)@.len() - bytes_read) as nat,
                |i: int| 0u8,
            ),
            final(self).chunk_values() == old(self).chunk_values().push(bytes_value(*p, final(buf)@)),
            final(self).num_chunks() == old(self).num_chunks(),
            final(self).chunk_size() == old(self).chunk_size(),
            final(self).replica_id() == old(self).replica_id(),
            final(self).raw_data_path() == old(self).raw_data_path(),
    {
        let n = buf.len();
        let mut i = bytes_read;
        while i < n
            invariant
                bytes_read <= i <= n,
                n == buf@.len(),
                n == old(buf)@.len(),
                forall|k: int| 0 <= k < bytes_read ==> buf@[k] == old(buf)@[k],
                forall|k: int| bytes_read <= k < i ==> buf@[k] == 0u8,
            decreases n - i,
        {
            buf.set(i, 0u8);
            i = i + 1;
        }
        proof {
            assert(buf@ =~= old(buf)@.take(bytes_read as int) + Seq::new((n - bytes_read) as nat, |i: int| 0u8));
        }
        self.absorb_chunk(p, buf.as_slice());
    }

    /// Finishes sealing once every chunk is absorbed: the Merkle tree over
    /// the sealed pairs is built and stored, and the storage is handed back.
    pub fn finish(self, p: &Poseidon2) -> (st: ProverStorage)
        requires
            p.wf(),
            self.wf(*p),
            self.chunk_values().len() == self.num_chunks(),
            is_power_of_two(self.num_chunks()),
        ensures
            sealed_storage(st, *p, self.replica_id(), self.chunk_values(), self.chunk_size()),
            st.raw_data_path == self.raw_data_path(),
    {
        let ghost ds = self.chunk_values@;
        let ghost rid = self.replica_id@;
        let tree = MerkleTree::build(p, self.sealed_pairs.as_slice());
        proof {
            assert(leaves_of(*p, self.sealed_pairs@) =~= sealed_leaves(*p, rid, ds));
        }
        let mut storage = self.storage;
        storage.merkle_tree = Some(tree);
        storage
    }
}

/// Extending the chunk values leaves the earlier states unchanged.
proof fn lemma_chain_prefix(p: Poseidon2, replica_id: nat, ds0: Seq<nat>, ds: Seq<nat>, k: nat)
    requires
        ds0.len() <= ds.len(),
        forall|i: int| 0 <= i < ds0.len() ==> ds0[i] == ds[i],
        k <= ds0.len(),
    ensures
        sealed_state(p, replica_id, ds, k) == sealed_state(p, replica_id, ds0, k),
    decreases k,
{
    if k > 0 {
        lemma_chain_prefix(p, replica_id, ds0, ds, (k - 1) as nat);
    }
}

} // verus!
