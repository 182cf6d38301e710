//! The client-side sealing of a sector: the replica id is derived from the
//! deal's identity, each chunk value `D_i` (counted from 1) is encoded into
//! `R_i = H4(D_i, S_{i-1}, i, replica_id)` and chained into
//! `S_i = H(S_{i-1}, R_i)` from `S_0 = replica_id`, and the replica
//! chunks are committed by their Merkle root.

use crate::field::Fr;
use crate::merkle::{compute_merkle_root, sealed_root};
use crate::poseidon2::{chain, hash2, hash4, lemma_values_push, values_of, Poseidon2};
use crate::types::ReplicaId;
use vstd::prelude::*;

verus! {

/// The replica id of a deal identity: the chain hash of its five fields.
pub open spec fn replica_id_value(p: Poseidon2, meta: ReplicaId) -> nat {
    chain(p, seq![meta.client_id@, meta.deal_id@, meta.sector_id@, meta.copy_index@, meta.nonce@])
}

/// The state `S_k` after sealing the first `k` chunk values, chunk `D_i`
/// sitting at position `i` counted from 1.
pub open spec fn client_state(p: Poseidon2, rid: nat, ds: Seq<nat>, k: nat) -> nat
    decreases k,
{
    if k == 0 {
        rid
    } else {
        let prev = client_state(p, rid, ds, (k - 1) as nat);
        hash2(p, prev, hash4(p, ds[k - 1], prev, k, rid))
    }
}

/// The replica chunk `R_{k+1}` of the chunk value stored at `ds[k]`, whose
/// position is `k + 1`.
pub open spec fn client_replica(p: Poseidon2, rid: nat, ds: Seq<nat>, k: nat) -> nat {
    hash4(p, ds[k as int], client_state(p, rid, ds, k), k + 1, rid)
}

/// Seals the chunk values of a sector for a deal: the replica chunks, the
/// Merkle root over them, and the states `S_1..S_n` kept as witnesses.
pub fn seal_sector(p: &Poseidon2, data: &[Fr], meta: &ReplicaId) -> (r: (Vec<Fr>, Fr, Vec<Fr>))
    requires
        p.wf(),
    ensures
        ({
            let rid = replica_id_value(*p, *meta);
            let ds = values_of(data@);
            &&& values_of(r.0@) == Seq::new(ds.len(), |k: int| client_replica(*p, rid, ds, k as nat))
            &&& r.1@ == sealed_root(*p, values_of(r.0@))
            &&& values_of(r.2@) == Seq::new(ds.len(), |k: int| client_state(*p, rid, ds, (k + 1) as nat))
        }),
{
    let ids = [meta.client_id, meta.deal_id, meta.sector_id, meta.copy_index, meta.nonce];
    let replica_id = p.poseidon2_chain(ids.as_slice());
    let ghost rid = replica_id_value(*p, *meta);
    let ghost ds = values_of(data@);
    proof {
        assert(values_of(ids@) =~= seq![meta.client_id@, meta.deal_id@, meta.sector_id@, meta.copy_index@, meta.nonce@]);
    }
    let mut s_prev = replica_id;
    let mut sealed_chunks: Vec<Fr> = Vec::new();
    let mut aux_data: Vec<Fr> = Vec::new();
    for i in 0..data.len()
        invariant
            p.wf(),
            replica_id@ == rid,
            ds == values_of(data@),
            s_prev@ == client_state(*p, rid, ds, i as nat),
            values_of(sealed_chunks@) == Seq::new(i as nat, |k: int| client_replica(*p, rid, ds, k as nat)),
            values_of(aux_data@) == Seq::new(i as nat, |k: int| client_state(*p, rid, ds, (k + 1) as nat)),
    {
        let index = Fr::from_u64((i + 1) as u64);
        let r_i = p.poseidon2_hash_4(&data[i], &s_prev, &index, &replica_id);
        let s_i = p.hash_2(&s_prev, &r_i);
        let ghost prev_r = sealed_chunks@;
        let ghost prev_s = aux_data@;
        sealed_chunks.push(r_i);
        aux_data.push(s_i);
        proof {
            lemma_values_push(prev_r, r_i);
            lemma_values_push(prev_s, s_i);
            assert(values_of(sealed_chunks@) =~= Seq::new((i + 1) as nat, |k: int| client_replica(*p, rid, ds, k as nat)));
            assert(values_of(aux_data@) =~= Seq::new(
                (i + 1) as nat,
                |k: int| client_state(*p, rid, ds, (k + 1) as nat),
            ));
        }
        s_prev = s_i;
    }
    let root = compute_merkle_root(p, sealed_chunks.as_slice());
    (sealed_chunks, root, aux_data)
}

} // verus!
