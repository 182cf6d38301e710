//! Deriving the replica id from deal metadata, the per-epoch beacon, the
//! challenged chunk indices, and the public inputs of an epoch's proof.

use crate::encoding::{bytes_value, string_to_fr};
use crate::field::{value_mod, Fr};
use crate::poseidon2::{chain, values_of, Poseidon2};
use vstd::prelude::*;
use vstd::string::StringSliceAdditionalSpecFns;

verus! {

/// Deal metadata that identifies one replica of a sector.
pub struct MockMetadata {
    pub client_id: String,
    pub deal_id: String,
    pub sector_id: u64,
    pub copy_index: u8,
    pub nonce: u64,
}

/// The seed of challenge `challenge_no` of an epoch: the chain hash of the
/// beacon, the sector id, the epoch and the challenge number.
pub open spec fn challenge_seed(p: Poseidon2, beacon: nat, sector_id: nat, epoch: nat, challenge_no: nat) -> nat {
    chain(p, seq![beacon, sector_id, epoch, challenge_no])
}

/// The challenged chunk: the seed reduced modulo the number of chunks, plus
/// one (chunks are numbered from 1).
pub open spec fn challenge_index(seed: nat, num_chunks: nat) -> nat {
    seed % num_chunks + 1
}

/// Derives the replica id from deal metadata.
pub fn derive_replica_id(p: &Poseidon2, metadata: &MockMetadata) -> (r: Fr)
    requires
        p.wf(),
    ensures
        r@ == chain(
            *p,
            seq![
                bytes_value(*p, vstd::utf8::encode_utf8(metadata.client_id@)),
                bytes_value(*p, vstd::utf8::encode_utf8(metadata.deal_id@)),
                metadata.sector_id as nat,
                metadata.copy_index as nat,
                metadata.nonce as nat,
            ],
        ),
{
    let client_id = string_to_fr(p, metadata.client_id.as_str());
    let deal_id = string_to_fr(p, metadata.deal_id.as_str());
    let sector_id = Fr::from_u64(metadata.sector_id);
    let copy_index = Fr::from_u64(metadata.copy_index as u64);
    let nonce = Fr::from_u64(metadata.nonce);
    let values = [client_id, deal_id, sector_id, copy_index, nonce];
    let r = p.poseidon2_chain(values.as_slice());
    proof {
        assert(values_of(values@) =~= seq![
            bytes_value(*p, vstd::utf8::encode_utf8(metadata.client_id@)),
            bytes_value(*p, vstd::utf8::encode_utf8(metadata.deal_id@)),
            metadata.sector_id as nat,
            metadata.copy_index as nat,
            metadata.nonce as nat,
        ]);
    }
    r
}

/// The beacon hash of an epoch: the known hashes are used in turn, and a
/// fixed fallback stands in when none is known.
pub fn select_epoch_hash(hashes: &[String], epoch: usize) -> (r: String)
    ensures
        hashes@.len() == 0 ==> r@ == "fallback-epoch-hash"@,
        hashes@.len() > 0 ==> r@ == hashes@[(epoch as int) % (hashes@.len() as int)]@,
{
    if hashes.len() == 0 {
        return "fallback-epoch-hash".to_owned();
    }
    hashes[epoch % hashes.len()].clone()
}

/// Derives the index of challenge `challenge_no` of an epoch from the
/// beacon text, the sector id and the epoch.
pub fn derive_challenge_index(
    p: &Poseidon2,
    beacon: &str,
    sector_id: u64,
    epoch: usize,
    challenge_no: usize,
    num_chunks: usize,
) -> (r: usize)
    requires
        p.wf(),
        num_chunks > 0,
    ensures
        r == challenge_index(
            challenge_seed(*p, bytes_value(*p, beacon.spec_bytes()), sector_id as nat, epoch as nat, challenge_no as nat),
            num_chunks as nat,
        ),
{
    let beacon_fr = string_to_fr(p, beacon);
    let sector_fr = Fr::from_u64(sector_id);
    let epoch_fr = Fr::from_u64(epoch as u64);
    let challenge_fr = Fr::from_u64(challenge_no as u64);
    let values = [beacon_fr, sector_fr, epoch_fr, challenge_fr];
    let seed = p.poseidon2_chain(values.as_slice());
    proof {
        assert(values_of(values@) =~= seq![beacon_fr@, sector_id as nat, epoch as nat, challenge_no as nat]);
    }
    let r = value_mod(&seed, num_chunks as u64);
    (r as usize) + 1
}

/// The public input `z_0` of an epoch's proof: the epoch, a zero step
/// counter, the sector id, the sealed root, the beacon, and the replica id
/// twice (the second copy starts the accumulator).
pub fn public_input_for_epoch(epoch: usize, sector_id: Fr, sealed_root: Fr, beacon: Fr, replica_id: Fr) -> (r: Vec<Fr>)
    ensures
        values_of(r@) == seq![epoch as nat, 0, sector_id@, sealed_root@, beacon@, replica_id@, replica_id@],
{
    let mut r: Vec<Fr> = Vec::new();
    r.push(Fr::from_u64(epoch as u64));
    r.push(Fr::zero());
    r.push(sector_id);
    r.push(sealed_root);
    r.push(beacon);
    r.push(replica_id);
    r.push(replica_id);
    proof {
        assert(values_of(r@) =~= seq![epoch as nat, 0, sector_id@, sealed_root@, beacon@, replica_id@, replica_id@]);
    }
    r
}

/// A name folded into 64 bits: `acc * 131 + b` over its bytes, wrapping.
pub open spec fn name_fold(bytes: Seq<u8>) -> u64
    decreases bytes.len(),
{
    if bytes.len() == 0 {
        0
    } else {
        (((name_fold(bytes.drop_last()) as nat * 131 + bytes.last() as nat) % 0x1_0000_0000_0000_0000nat)) as u64
    }
}

/// The seed of the random-drop attack for one run of a scenario:
/// `epoch * 1_000_003 + run + fold(name)`, wrapping at 64 bits.
pub fn scenario_seed(proof_epoch: usize, run: usize, name: &str) -> (r: u64)
    ensures
        r as nat == ((proof_epoch as nat * 1_000_003) % 0x1_0000_0000_0000_0000nat + run as nat
            + name_fold(name.spec_bytes()) as nat) % 0x1_0000_0000_0000_0000nat,
{
    let bytes = name.as_bytes();
    let mut acc: u64 = 0;
    for i in 0..bytes.len()
        invariant
            acc == name_fold(bytes@.take(i as int)),
    {
        proof {
            assert(bytes@.take(i + 1).drop_last() =~= bytes@.take(i as int));
        }
        acc = acc.wrapping_mul(131).wrapping_add(bytes[i] as u64);
        proof {
            let m = 0x1_0000_0000_0000_0000nat;
            let a = name_fold(bytes@.take(i as int)) as nat;
            vstd::arithmetic::div_mod::lemma_add_mod_noop((a * 131) as int, bytes@[i as int] as int, m as int);
            vstd::arithmetic::div_mod::lemma_small_mod(bytes@[i as int] as nat, m);
        }
    }
    proof {
        assert(bytes@.take(bytes@.len() as int) =~= bytes@);
    }
    let x = (proof_epoch as u64).wrapping_mul(1_000_003);
    let y = x.wrapping_add(run as u64);
    let r = y.wrapping_add(acc);
    proof {
        let m = 0x1_0000_0000_0000_0000nat;
        vstd::arithmetic::div_mod::lemma_add_mod_noop(x as int + run as int, acc as int, m as int);
        vstd::arithmetic::div_mod::lemma_add_mod_noop(x as int, run as int, m as int);
        vstd::arithmetic::div_mod::lemma_small_mod(run as nat, m);
        vstd::arithmetic::div_mod::lemma_small_mod(acc as nat, m);
        vstd::arithmetic::div_mod::lemma_small_mod(x as nat, m);
    }
    r
}


/// A challenged chunk is one of chunks `1..=num_chunks`.
pub proof fn lemma_challenge_index_in_range(seed: nat, num_chunks: nat)
    requires
        num_chunks > 0,
    ensures
        1 <= challenge_index(seed, num_chunks) <= num_chunks,
{
    vstd::arithmetic::div_mod::lemma_mod_bound(seed as int, num_chunks as int);
}

/// With `2^h` chunks, the chunk challenged from a seed is the one the step
/// circuit's binding expects: one more than the seed's low `h` binary digits.
pub proof fn lemma_host_index_matches_binding(seed: nat, h: nat)
    ensures
        challenge_index(seed, crate::bits::pow2(h)) == seed % crate::bits::pow2(h) + 1,
{
}

} // verus!
