use engram::challenge::{derive_challenge_index, public_input_for_epoch};
use engram::circuit::{evaluate_epoch, EngramStepCircuit, StepFailure};
use engram::config::EngramConfig;
use engram::encoding::{bytes_to_fr, string_to_fr};
use engram::field::{value_mod, Fr};
use engram::poseidon2::Poseidon2;
use engram::report::{
    challenge_seed_text, drop_targets_text, epoch_status, indices_text, prover_failed_status, verify_status,
};
use engram::scenario::{
    apply_attack, build_challenges, build_reference_challenge, derive_challenge_indices, state_targets, ChallengeFailure,
    ScenarioAttack, StepContext,
};
use engram::sealing::Sealer;
use engram::storage::ProverStorage;
use std::path::PathBuf;

fn params() -> Poseidon2 {
    let f = Fr::from_u64;
    let mat_full = [[f(2), f(1), f(1)], [f(1), f(2), f(1)], [f(1), f(1), f(2)]];
    let mat_partial = [[f(2), f(1), f(1)], [f(1), f(2), f(1)], [f(1), f(1), f(3)]];
    let mut round_constants = Vec::new();
    for r in 0..64u64 {
        round_constants.push([f(3 * r + 1), f(3 * r + 2), f(3 * r + 3)]);
    }
    Poseidon2 { mat_full, mat_partial, round_constants, full_rounds: 8, partial_rounds: 56 }
}

/// A witness built as an honest prover would, with a path of zero siblings
/// and the index derived from the low digits of the challenge seed.
fn honest_step(p: &Poseidon2, epoch: usize, counter: u64, height: usize) -> (EngramStepCircuit, Vec<Fr>) {
    let beacon = string_to_fr(p, "test_beacon_1234567890");
    let sector = Fr::from_u64(1000);
    let seed = p.poseidon2_chain(&[beacon, sector, Fr::from_u64(epoch as u64), Fr::from_u64(counter + 1)]);
    let j_i = value_mod(&seed, 1 << height) as usize + 1;
    let d = Fr::from_u64(5);
    let s_prev = Fr::from_u64(6);
    let rid = Fr::from_u64(7);
    let r = p.poseidon2_hash_4(&d, &s_prev, &Fr::from_u64(j_i as u64), &rid);
    let s = p.hash_2(&s_prev, &r);
    let dirs: Vec<bool> = (0..height).map(|b| ((j_i - 1) >> b) & 1 == 1).collect();
    let mut current = p.hash_2(&r, &s);
    for &right in &dirs {
        current = if right { p.hash_2(&Fr::zero(), &current) } else { p.hash_2(&current, &Fr::zero()) };
    }
    let c = EngramStepCircuit {
        epoch,
        sector_id: sector,
        sealed_root: current,
        beacon,
        j_i,
        d_ji: d,
        s_ji_minus_1: s_prev,
        s_ji: s,
        replica_id: rid,
        path_ji_siblings: vec![Fr::zero(); height],
        path_ji_indices: dirs,
        tree_height: height,
    };
    let mut z = public_input_for_epoch(epoch, sector, current, beacon, rid);
    z[1] = Fr::from_u64(counter);
    (c, z)
}

fn accumulate(p: &Poseidon2, c: &EngramStepCircuit, acc: &Fr) -> Fr {
    let r = p.poseidon2_hash_4(&c.d_ji, &c.s_ji_minus_1, &Fr::from_u64(c.j_i as u64), &c.replica_id);
    let inner = p.poseidon2_hash_4(&Fr::from_u64(c.j_i as u64), &c.s_ji, &r, &Fr::zero());
    p.hash_2(acc, &inner)
}

#[test]
fn honest_step_advances_the_state() {
    let p = params();
    let (c, z) = honest_step(&p, 0, 0, 18);
    let next = c.native_step(&p, &z).unwrap();
    assert_eq!(next[0], z[0]);
    assert_eq!(next[1], Fr::one());
    assert_eq!(&next[2..6], &z[2..6]);
    assert_eq!(next[6], accumulate(&p, &c, &z[6]));
}

#[test]
fn each_violated_constraint_is_reported() {
    let p = params();
    let (c, z) = honest_step(&p, 0, 0, 5);
    let mut bad = z.clone();
    bad[0] = Fr::from_u64(1);
    assert_eq!(c.native_step(&p, &bad), Err(StepFailure::EpochBinding));
    let mut bad = z.clone();
    bad[2] = Fr::from_u64(1);
    assert_eq!(c.native_step(&p, &bad), Err(StepFailure::SectorIdBinding));
    let mut bad = z.clone();
    bad[3] = Fr::from_u64(1);
    assert_eq!(c.native_step(&p, &bad), Err(StepFailure::SealedRootBinding));
    let mut bad = z.clone();
    bad[4] = Fr::from_u64(1);
    assert_eq!(c.native_step(&p, &bad), Err(StepFailure::BeaconBinding));
    let mut bad = z.clone();
    bad[5] = Fr::from_u64(1);
    assert_eq!(c.native_step(&p, &bad), Err(StepFailure::ReplicaIdBinding));
    let mut t = c.clone();
    t.s_ji = Fr::from_u64(1);
    assert_eq!(t.native_step(&p, &z), Err(StepFailure::StateTransition));
    let mut bad = z.clone();
    bad[1] = Fr::from_u64(1);
    let other = c.native_step(&p, &bad);
    let (c1, _) = honest_step(&p, 0, 1, 5);
    if c1.j_i != c.j_i {
        assert_eq!(other, Err(StepFailure::ChallengeBinding));
    }
    let mut t = c.clone();
    t.path_ji_indices[0] = !t.path_ji_indices[0];
    assert_eq!(t.native_step(&p, &z), Err(StepFailure::MerkleBitBinding));
    let mut t = c.clone();
    t.path_ji_siblings[1] = Fr::one();
    assert_eq!(t.native_step(&p, &z), Err(StepFailure::MerkleRoot));
}

#[test]
fn an_epoch_evaluates_step_by_step() {
    let p = params();
    let (c0, z0) = honest_step(&p, 0, 0, 4);
    let (c1, _) = honest_step(&p, 0, 1, 4);
    let steps = vec![c0.clone(), c1.clone()];
    if c1.sealed_root == c0.sealed_root {
        let zf = evaluate_epoch(&p, &steps, &z0).unwrap();
        assert_eq!(zf[1], Fr::from_u64(2));
    } else {
        assert_eq!(evaluate_epoch(&p, &steps, &z0), Err((1, StepFailure::SealedRootBinding)));
    }
    let one = evaluate_epoch(&p, &steps[..1], &z0).unwrap();
    assert_eq!(one[6], accumulate(&p, &c0, &z0[6]));
    assert_eq!(evaluate_epoch(&p, &[], &z0).unwrap(), z0);
}

#[test]
fn proof_for_another_epoch_is_rejected() {
    let p = params();
    let (c, z) = honest_step(&p, 0, 0, 4);
    let verify_z0 = public_input_for_epoch(1, z[2], z[3], z[4], z[5]);
    assert_eq!(evaluate_epoch(&p, &[c], &verify_z0), Err((0, StepFailure::EpochBinding)));
}

fn small_config() -> EngramConfig {
    EngramConfig { sector_size_bytes: 32, chunk_size_bytes: 8, tree_height: 2, challenges_per_epoch: 2, epochs_per_window: 1 }
}

fn chunk(i: usize) -> Vec<u8> {
    (0..8u8).map(|k| i as u8 * 16 + k).collect()
}

fn sealed(p: &Poseidon2, rid: Fr) -> ProverStorage {
    let sealer = Sealer::new(small_config());
    let mut session = sealer.begin_sealing(rid, PathBuf::from("raw.bin"));
    for i in 1..=4 {
        session.absorb_chunk(p, &chunk(i));
    }
    session.finish(p)
}

fn context(p: &Poseidon2, rid: Fr) -> StepContext {
    StepContext { epoch: 0, sector_id: 1000, beacon: string_to_fr(p, "hash0"), replica_id: rid, tree_height: 2 }
}

#[test]
fn honest_storage_builds_every_step() {
    let p = params();
    let rid = Fr::from_u64(77);
    let master = sealed(&p, rid);
    let scenario = master.clone_for_attack();
    let indices = [1usize, 3, 4];
    let raws: Vec<Option<Vec<u8>>> = indices.iter().map(|&j| Some(chunk(j))).collect();
    let steps = build_challenges(&p, &scenario, &master, &indices, &raws, context(&p, rid)).unwrap();
    assert_eq!(steps.len(), 3);
    let root = master.merkle_tree.as_ref().unwrap().root;
    for (k, step) in steps.iter().enumerate() {
        let j = indices[k];
        assert_eq!(step.j_i, j);
        assert_eq!(step.d_ji, bytes_to_fr(&p, &chunk(j)));
        assert_eq!(Some(&step.s_ji_minus_1), master.get_state(j - 1));
        assert_eq!(Some(&step.s_ji), master.get_state(j));
        assert_eq!(step.sealed_root, root);
        let mut z = public_input_for_epoch(0, Fr::from_u64(1000), root, string_to_fr(&p, "hash0"), rid);
        z[1] = Fr::from_u64(k as u64);
        let seed = p.poseidon2_chain(&[string_to_fr(&p, "hash0"), Fr::from_u64(1000), Fr::zero(), Fr::from_u64(k as u64 + 1)]);
        let bound = value_mod(&seed, 4) as usize + 1;
        match step.native_step(&p, &z) {
            Ok(_) => assert_eq!(j, bound),
            Err(e) => {
                assert_eq!(e, StepFailure::ChallengeBinding);
                assert_ne!(j, bound);
            },
        }
    }
}

#[test]
fn lost_raw_chunk_stops_the_run() {
    let p = params();
    let rid = Fr::from_u64(77);
    let master = sealed(&p, rid);
    let mut scenario = master.clone_for_attack();
    scenario.attack_drop_raw_chunks_at(&[3]);
    let indices = [1usize, 3, 2];
    let raws: Vec<Option<Vec<u8>>> = vec![Some(chunk(1)), None, Some(chunk(2))];
    let err = build_challenges(&p, &scenario, &master, &indices, &raws, context(&p, rid)).unwrap_err();
    assert_eq!(err, ChallengeFailure::MissingRaw(3));
    assert_eq!(err.reason(), "missing_D_at_3");
    assert_eq!(prover_failed_status(&err), "Prover_Failed(missing_D_at_3)");
}

#[test]
fn lost_state_stops_the_run() {
    let p = params();
    let rid = Fr::from_u64(77);
    let master = sealed(&p, rid);
    let mut scenario = master.clone_for_attack();
    let indices = [2usize, 4];
    let targets = state_targets(&indices);
    assert_eq!(targets, vec![1, 3]);
    scenario.attack_drop_states_at(&targets);
    let raws: Vec<Option<Vec<u8>>> = indices.iter().map(|&j| Some(chunk(j))).collect();
    let err = build_challenges(&p, &scenario, &master, &indices, &raws, context(&p, rid)).unwrap_err();
    assert_eq!(err, ChallengeFailure::MissingState(1));
    assert_eq!(err.reason(), "missing_S_at_1");
    assert_eq!(state_targets(&[0, 5]), vec![0, 4]);
}

#[test]
fn lost_replica_and_bad_opening_stop_the_run() {
    let p = params();
    let rid = Fr::from_u64(77);
    let mut master = sealed(&p, rid);
    let scenario = master.clone_for_attack();
    master.replicas[2] = None;
    let raws: Vec<Option<Vec<u8>>> = vec![Some(chunk(2))];
    let err = build_challenges(&p, &scenario, &master, &[2], &raws, context(&p, rid)).unwrap_err();
    assert_eq!(err, ChallengeFailure::MissingReplica(2));
    assert_eq!(err.reason(), "missing_R_at_2");
    let mut master = sealed(&p, rid);
    let scenario = master.clone_for_attack();
    master.states[2] = Some(Fr::from_u64(1));
    let err = build_challenges(&p, &scenario, &master, &[2], &raws, context(&p, rid)).unwrap_err();
    assert_eq!(err, ChallengeFailure::InvalidMerkle(2));
    assert_eq!(err.reason(), "invalid_merkle_at_2");
}

#[test]
fn reference_challenge_uses_challenge_one() {
    let p = params();
    let rid = Fr::from_u64(77);
    let master = sealed(&p, rid);
    let j = derive_challenge_index(&p, "hash0", 1000, 0, 1, 4);
    let with_raw = build_reference_challenge(&p, &master, "hash0", 0, 4, 1000, rid, Some(chunk(j)), 2);
    assert_eq!(with_raw.j_i, j);
    assert_eq!(with_raw.d_ji, bytes_to_fr(&p, &chunk(j)));
    assert_eq!(with_raw.beacon, string_to_fr(&p, "hash0"));
    assert_eq!(Some(&with_raw.s_ji), master.get_state(j));
    let without = build_reference_challenge(&p, &master, "hash0", 0, 4, 1000, rid, None, 2);
    assert_eq!(without.d_ji, Fr::zero());
    let all = derive_challenge_indices(&p, "hash0", 1000, 0, 3, 4);
    assert_eq!(all.len(), 3);
    assert_eq!(all[0], j);
    assert_eq!(all[2], derive_challenge_index(&p, "hash0", 1000, 0, 3, 4));
}

#[test]
fn report_texts() {
    assert_eq!(indices_text(&[3, 17, 5]), "3;17;5");
    assert_eq!(indices_text(&[]), "");
    assert_eq!(drop_targets_text(&[2, 10], &[]), "R2;R10");
    assert_eq!(drop_targets_text(&[2], &[1, 0]), "R2;S1;S0");
    assert_eq!(drop_targets_text(&[], &[7]), "S7");
    assert_eq!(challenge_seed_text("abc", 1000, 0), "beacon:abc|sector:1000|epoch:0");
    assert_eq!(epoch_status(0, 0), "Epoch_Valid");
    assert_eq!(epoch_status(0, 1), "Epoch_Mismatch");
    assert_eq!(verify_status(true), "Valid");
    assert_eq!(verify_status(false), "Invalid");
    assert_eq!(ChallengeFailure::MissingState(1234567).reason(), "missing_S_at_1234567");
}

#[test]
fn step_output_keeps_its_layout_on_any_witness() {
    let p = params();
    let c = EngramStepCircuit {
        epoch: 9,
        sector_id: Fr::from_u64(2),
        sealed_root: Fr::from_u64(3),
        beacon: Fr::from_u64(4),
        j_i: 1,
        d_ji: Fr::zero(),
        s_ji_minus_1: Fr::zero(),
        s_ji: Fr::zero(),
        replica_id: Fr::from_u64(5),
        path_ji_siblings: vec![],
        path_ji_indices: vec![],
        tree_height: 0,
    };
    let z: Vec<Fr> = [9u64, 6, 2, 3, 4, 5, 5].iter().map(|&v| Fr::from_u64(v)).collect();
    let out = c.step_output(&p, &z);
    assert_eq!(out.len(), 7);
    let expected: Vec<Fr> = [9u64, 7, 2, 3, 4, 5].iter().map(|&v| Fr::from_u64(v)).collect();
    assert_eq!(&out[..6], &expected[..]);
    let r = p.poseidon2_hash_4(&Fr::zero(), &Fr::zero(), &Fr::one(), &Fr::from_u64(5));
    let inner = p.poseidon2_hash_4(&Fr::one(), &Fr::zero(), &r, &Fr::zero());
    assert_eq!(out[6], p.hash_2(&z[6], &inner));
    assert!(c.native_step(&p, &z).is_err());
}

#[test]
fn scenario_attacks_drop_what_they_name() {
    let mut storage = ProverStorage::with_capacity(8, 4);
    let untouched = apply_attack(&mut storage, ScenarioAttack::Untouched, &[3, 5]);
    assert!(untouched.is_empty());
    assert!(storage.dropped_raw_indices.is_empty());
    let one = apply_attack(&mut storage, ScenarioAttack::DropRawOneChallenge, &[5, 3]);
    assert_eq!(one, vec![5]);
    assert!(storage.dropped_raw_indices.contains(&5) && !storage.dropped_raw_indices.contains(&3));
    let all = apply_attack(&mut storage, ScenarioAttack::DropRawAtChallenges, &[2, 9, 7]);
    assert_eq!(all, vec![2, 7]);
    let mut fresh = ProverStorage::with_capacity(8, 4);
    fresh.insert_state(2, Fr::one());
    fresh.insert_state(0, Fr::one());
    let states = apply_attack(&mut fresh, ScenarioAttack::DropStatesAtChallengePrev, &[3, 1]);
    assert_eq!(states, vec![2, 0]);
    assert!(fresh.get_state(2).is_none());
    let mut random = ProverStorage::with_capacity(10, 4);
    let picked = apply_attack(&mut random, ScenarioAttack::DropRawRandom(3, 42), &[]);
    assert_eq!(picked, engram::storage::deterministic_drop_random_count(3, 42, 10));
}
