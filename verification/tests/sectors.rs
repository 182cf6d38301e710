use engram::cbc_sector::{self, evaluate_steps, CbcFailure};
use engram::encoding::shard_text_to_field;
use engram::field::Fr;
use engram::poseidon2::Poseidon2;
use engram::sector::{clamp_challenge_count, next_power_of_two, DataSector, PoStFailure, PoStStepCircuit};

fn params() -> Poseidon2 {
    let f = Fr::from_u64;
    let mat_full = [[f(2), f(1), f(1)], [f(1), f(2), f(1)], [f(1), f(1), f(2)]];
    let mat_partial = [[f(2), f(1), f(1)], [f(1), f(2), f(1)], [f(1), f(1), f(3)]];
    let mut round_constants = Vec::new();
    for r in 0..64u64 {
        round_constants.push([f(3 * r + 1), f(3 * r + 2), f(3 * r + 3)]);
    }
    Poseidon2 { mat_full, mat_partial, round_constants, full_rounds: 8, partial_rounds: 56 }
}

fn shards(n: usize) -> Vec<String> {
    (0..n).map(|i| format!("shard text {}", i)).collect()
}

#[test]
fn powers_of_two_and_batch_sizes() {
    assert_eq!(next_power_of_two(0), 1);
    assert_eq!(next_power_of_two(1), 1);
    assert_eq!(next_power_of_two(3), 4);
    assert_eq!(next_power_of_two(8), 8);
    assert_eq!(next_power_of_two(9), 16);
    assert_eq!(clamp_challenge_count(0, 10), 1);
    assert_eq!(clamp_challenge_count(4, 10), 4);
    assert_eq!(clamp_challenge_count(40, 10), 10);
    assert_eq!(clamp_challenge_count(0, 0), 0);
}

#[test]
fn sector_pads_values_and_commits_leaves() {
    let p = params();
    let s = DataSector::new(&p, shards(3));
    assert_eq!(s.raw_data.len(), 8);
    assert_eq!(s.leaves.len(), 8);
    assert_eq!(s.raw_data[1], shard_text_to_field("shard text 1"));
    assert_eq!(s.raw_data[3], Fr::zero());
    assert_eq!(s.raw_data[7], Fr::zero());
    assert_eq!(s.leaves[2], p.hash_2(&s.raw_data[2], &Fr::zero()));
    let l1: Vec<Fr> = (0..4).map(|i| p.hash_2(&s.leaves[2 * i], &s.leaves[2 * i + 1])).collect();
    let a = p.hash_2(&l1[0], &l1[1]);
    let b = p.hash_2(&l1[2], &l1[3]);
    assert_eq!(s.commitment_root, p.hash_2(&a, &b));
    assert_eq!(s.tree.len(), 4);
    let two = DataSector::new(&p, shards(2));
    assert_eq!(two.raw_data.len(), 8);
    assert_eq!(two.tree.len(), 4);
    let many = DataSector::new(&p, shards(9));
    assert_eq!(many.raw_data.len(), 16);
    assert_eq!(many.tree.len(), 5);
}

#[test]
fn every_opening_is_accepted_and_bound_to_its_index() {
    let p = params();
    let s = DataSector::new(&p, shards(5));
    let z = vec![Fr::from_u64(3), s.commitment_root];
    let steps = s.challenge_steps(&[0, 5, 7]);
    for (k, idx) in [0usize, 5, 7].iter().enumerate() {
        let (data, path, dirs) = s.get_proof(*idx);
        assert_eq!(data, s.raw_data[*idx]);
        assert_eq!(path.len(), 3);
        assert_eq!(dirs[0], if idx % 2 == 1 { Fr::one() } else { Fr::zero() });
        assert_eq!(steps[k].challenge_index, Fr::from_u64(*idx as u64));
        let next = steps[k].native_step(&p, &z).unwrap();
        assert_eq!(next, vec![Fr::from_u64(4), s.commitment_root]);
    }
    let wrong_index = PoStStepCircuit {
        raw_data: steps[1].raw_data,
        challenge_index: Fr::from_u64(4),
        path_elements: steps[1].path_elements.clone(),
        path_indices: steps[1].path_indices.clone(),
    };
    assert_eq!(wrong_index.native_step(&p, &z), Err(PoStFailure::ChallengeIndex));
    let mut dirs = steps[1].path_indices.clone();
    dirs[0] = Fr::from_u64(2);
    let non_boolean = PoStStepCircuit {
        raw_data: steps[1].raw_data,
        challenge_index: steps[1].challenge_index,
        path_elements: steps[1].path_elements.clone(),
        path_indices: dirs,
    };
    assert_eq!(non_boolean.native_step(&p, &z), Err(PoStFailure::NonBooleanIndex));
    let wrong_data = PoStStepCircuit {
        raw_data: Fr::from_u64(99),
        challenge_index: steps[1].challenge_index,
        path_elements: steps[1].path_elements.clone(),
        path_indices: steps[1].path_indices.clone(),
    };
    assert_eq!(wrong_data.native_step(&p, &z), Err(PoStFailure::MerkleRoot));
}

#[test]
fn short_texts_fill_eight_leaves() {
    let p = params();
    let s = DataSector::from_short_texts(&p, &["ab", "this text is longer than thirty-one bytes"]);
    assert_eq!(s.raw_data.len(), 8);
    assert_eq!(s.raw_data[0], Fr::from_u64(0x6261));
    let mut repr = [0u8; 32];
    repr[..31].copy_from_slice(&b"this text is longer than thirty-one bytes"[..31]);
    assert_eq!(s.raw_data[1], Fr::from_repr(repr).unwrap());
    assert_eq!(s.raw_data[7], Fr::zero());
    let (data, path, _) = s.get_proof(6);
    assert_eq!(data, Fr::zero());
    assert_eq!(path.len(), 3);
}

#[test]
fn chain_sealed_sector_links_leaves() {
    let p = params();
    let prover = Fr::from_u64(11);
    let epoch = Fr::from_u64(2);
    let s = cbc_sector::DataSector::new_with_depth(&p, shards(5), prover, epoch, 3);
    assert_eq!(s.raw_data.len(), 5);
    assert_eq!(s.leaves.len(), 8);
    assert_eq!(s.leaves[0], p.hash_3(&epoch, &s.raw_data[0], &prover));
    assert_eq!(s.leaves[4], p.hash_3(&s.leaves[3], &s.raw_data[4], &prover));
    assert_eq!(s.leaves[6], p.hash_3(&s.leaves[5], &Fr::zero(), &prover));
    assert_ne!(p.hash_3(&epoch, &s.raw_data[0], &prover), p.hash_2(&epoch, &s.raw_data[0]));
    let other = cbc_sector::DataSector::new_with_depth(&p, shards(5), Fr::from_u64(12), epoch, 3);
    assert_ne!(other.commitment_root, s.commitment_root);
    assert_eq!(s.tree.len(), 4);
    assert_eq!(s.tree[3][0], s.commitment_root);
}

#[test]
fn chain_sealed_openings_hold_at_every_step() {
    let p = params();
    let s = cbc_sector::DataSector::new_with_depth(&p, shards(5), Fr::from_u64(11), Fr::from_u64(2), 3);
    let challenges = [0usize, 4, 7, 2];
    let steps = s.challenge_steps(&p, &challenges);
    let z0 = vec![Fr::zero(), s.commitment_root];
    let zf = evaluate_steps(&p, &steps, &z0).unwrap();
    assert_eq!(zf, vec![Fr::from_u64(4), s.commitment_root]);
    let (data, prev, _, _) = s.get_proof(&p, 0);
    assert_eq!(data, s.raw_data[0]);
    assert_eq!(prev, s.epoch);
    assert_eq!(steps[0].prover_id, s.prover_id);
    let (data7, prev7, _, _) = s.get_proof(&p, 7);
    assert_eq!(data7, Fr::zero());
    assert_eq!(prev7, s.leaves[6]);
    let (_, _, path8, _) = s.get_proof(&p, 8);
    assert_eq!(path8[0], Fr::zero());
}

#[test]
fn chain_sealed_step_rejects_tampering() {
    let p = params();
    let s = cbc_sector::DataSector::new_with_depth(&p, shards(3), Fr::from_u64(11), Fr::from_u64(2), 2);
    let z = vec![Fr::zero(), s.commitment_root];
    let (raw, prev, path, dirs) = s.get_proof(&p, 1);
    let tampered = cbc_sector::PoStStepCircuit {
        raw_data: raw.add(&Fr::one()),
        prev_s: prev,
        prover_id: s.prover_id,
        challenge_index: Fr::one(),
        path_elements: path.clone(),
        path_indices: dirs.clone(),
    };
    assert_eq!(tampered.native_step(&p, &z), Err(CbcFailure::MerkleRoot));
    let mut bad_dirs = dirs.clone();
    bad_dirs[1] = Fr::from_u64(3);
    let non_boolean = cbc_sector::PoStStepCircuit {
        raw_data: raw,
        prev_s: prev,
        prover_id: s.prover_id,
        challenge_index: Fr::one(),
        path_elements: path.clone(),
        path_indices: bad_dirs,
    };
    assert_eq!(non_boolean.native_step(&p, &z), Err(CbcFailure::NonBooleanIndex));
    let steps = vec![tampered];
    assert_eq!(evaluate_steps(&p, &steps, &z), Err((0, CbcFailure::MerkleRoot)));
}
