use engram::challenge::{
    derive_challenge_index, derive_replica_id, public_input_for_epoch, scenario_seed, select_epoch_hash, MockMetadata,
};
use engram::config::{dummy_path_elements, dummy_path_indices, EngramConfig, MERKLE_DEPTH};
use engram::encoding::{bytes_to_fr, string_to_fr};
use engram::field::{value_mod, Fr};
use engram::merkle_tree::verify_merkle_proof;
use engram::poseidon2::Poseidon2;
use engram::sealing::{chunk_to_fr, Sealer};
use engram::storage::{deterministic_drop_random_count, lcg_next, ProverStorage};
use std::path::PathBuf;

fn params() -> Poseidon2 {
    let f = Fr::from_u64;
    let mat_full = [[f(2), f(1), f(1)], [f(1), f(2), f(1)], [f(1), f(1), f(2)]];
    let mat_partial = [[f(2), f(1), f(1)], [f(1), f(2), f(1)], [f(1), f(1), f(3)]];
    let mut round_constants = Vec::new();
    for r in 0..64u64 {
        round_constants.push([f(3 * r + 1), f(3 * r + 2), f(3 * r + 3)]);
    }
    Poseidon2 { mat_full, mat_partial, round_constants, full_rounds: 8, partial_rounds: 56 }
}

fn small_config() -> EngramConfig {
    EngramConfig {
        sector_size_bytes: 32,
        chunk_size_bytes: 8,
        tree_height: 2,
        challenges_per_epoch: 2,
        epochs_per_window: 1,
    }
}

fn chunk(i: u8) -> Vec<u8> {
    (0..8u8).map(|k| i * 16 + k).collect()
}

fn sealed(p: &Poseidon2, rid: Fr) -> ProverStorage {
    let sealer = Sealer::new(small_config());
    let mut session = sealer.begin_sealing(rid, PathBuf::from("raw.bin"));
    for i in 1..=4u8 {
        session.absorb_chunk(p, &chunk(i));
    }
    session.finish(p)
}

#[test]
fn configurations() {
    let dev = EngramConfig::mock_dev();
    assert_eq!(dev.sector_size_bytes / dev.chunk_size_bytes, 8192);
    assert_eq!(dev.tree_height, 13);
    assert_eq!(dev.challenges_per_epoch, 10);
    assert_eq!(dev.epochs_per_window, 5);
    let prod = EngramConfig::production();
    assert_eq!(prod.sector_size_bytes, 32 * 1024 * 1024 * 1024);
    assert_eq!(prod.tree_height, 23);
    assert_eq!(prod.challenges_per_epoch, 100);
    assert_eq!(prod.epochs_per_window, 48);
    assert_eq!(dummy_path_elements(), vec![Fr::zero(); MERKLE_DEPTH]);
    assert_eq!(dummy_path_indices(), vec![Fr::zero(); MERKLE_DEPTH]);
}

#[test]
fn generator_steps() {
    let mut state = 0u64;
    assert_eq!(lcg_next(&mut state), 1442695040888963407);
    assert_eq!(state, 1442695040888963407);
    let mut s2 = 1u64;
    let expected = 6364136223846793005u64.wrapping_add(1442695040888963407);
    assert_eq!(lcg_next(&mut s2), expected);
}

#[test]
fn storage_slots() {
    let mut st = ProverStorage::with_capacity(4, 8);
    assert_eq!(st.states.len(), 5);
    assert_eq!(st.replicas.len(), 5);
    assert!(!st.has_raw_chunk(1));
    st.set_raw_data_path(PathBuf::from("raw.bin"));
    assert!(st.has_raw_chunk(1));
    assert!(st.has_raw_chunk(4));
    assert!(!st.has_raw_chunk(0));
    assert!(!st.has_raw_chunk(5));
    assert_eq!(st.raw_chunk_location(3), Some((16, 8)));
    st.insert_state(2, Fr::from_u64(9));
    st.insert_state(9, Fr::from_u64(9));
    assert_eq!(st.get_state(2), Some(&Fr::from_u64(9)));
    assert_eq!(st.get_state(3), None);
    assert_eq!(st.get_state(9), None);
    st.insert_replica(1, Fr::from_u64(5));
    assert_eq!(st.get_replica(1), Some(&Fr::from_u64(5)));
    assert_eq!(st.get_replica(7), None);
    let empty = ProverStorage::new();
    assert_eq!(empty.num_chunks, 0);
    assert!(empty.states.is_empty());
}

#[test]
fn attacks_on_storage() {
    let mut st = ProverStorage::with_capacity(4, 8);
    st.set_raw_data_path(PathBuf::from("raw.bin"));
    for i in 0..=4u64 {
        st.insert_state(i as usize, Fr::from_u64(i));
    }
    let removed = st.attack_drop_raw_chunks_at(&[2, 0, 9, 4]);
    assert_eq!(removed, vec![2, 4]);
    assert!(!st.has_raw_chunk(2));
    assert!(st.has_raw_chunk(3));
    assert_eq!(st.raw_chunk_location(2), None);
    let dropped = st.attack_drop_states_at(&[1, 1, 7]);
    assert_eq!(dropped, vec![1]);
    assert_eq!(st.get_state(1), None);
    let fresh = st.clone_for_attack();
    assert!(fresh.dropped_raw_indices.is_empty());
    assert!(fresh.has_raw_chunk(2));
    assert_eq!(fresh.get_state(1), None);
    assert_eq!(fresh.num_chunks, 4);
}

fn reference_random_drop(n: usize, count: usize, seed: u64) -> Vec<usize> {
    let mut keys: Vec<usize> = (1..=n).collect();
    let mut rng = seed.wrapping_add(0x9E3779B97F4A7C15);
    for i in (1..keys.len()).rev() {
        rng = rng.wrapping_mul(6364136223846793005).wrapping_add(1442695040888963407);
        let r = (rng as usize) % (i + 1);
        keys.swap(i, r);
    }
    let mut out: Vec<usize> = keys.into_iter().take(count.min(n)).collect();
    out.sort();
    out
}

#[test]
fn random_drop_is_the_seeded_shuffle() {
    let mut st = ProverStorage::with_capacity(20, 8);
    st.set_raw_data_path(PathBuf::from("raw.bin"));
    let removed = st.attack_drop_raw_chunks_random_count(5, 1234);
    assert_eq!(removed, reference_random_drop(20, 5, 1234));
    assert_eq!(removed.len(), 5);
    for j in &removed {
        assert!(!st.has_raw_chunk(*j));
    }
    let mut again = ProverStorage::with_capacity(20, 8);
    assert_eq!(again.attack_drop_raw_chunks_random_count(50, 1234).len(), 20);
}

#[test]
fn sealing_chains_states_and_commits_pairs() {
    let p = params();
    let rid = Fr::from_u64(77);
    let st = sealed(&p, rid);
    assert_eq!(st.num_chunks, 4);
    assert_eq!(st.get_state(0), Some(&rid));
    let mut s_prev = rid;
    for i in 1..=4u64 {
        let d = bytes_to_fr(&p, &chunk(i as u8));
        let r = p.poseidon2_hash_4(&d, &s_prev, &Fr::from_u64(i), &rid);
        let s = p.hash_2(&s_prev, &r);
        assert_eq!(st.get_replica(i as usize), Some(&r));
        assert_eq!(st.get_state(i as usize), Some(&s));
        s_prev = s;
    }
    let tree = st.merkle_tree.as_ref().unwrap();
    for i in 1..=4usize {
        let proof = tree.generate_proof(i - 1);
        assert!(verify_merkle_proof(&p, &tree.root, st.get_replica(i).unwrap(), st.get_state(i).unwrap(), &proof));
    }
}

#[test]
fn short_last_read_is_zero_padded() {
    let p = params();
    let sealer = Sealer::new(small_config());
    let rid = Fr::from_u64(3);
    let mut a = sealer.begin_sealing(rid, PathBuf::from("raw.bin"));
    let mut buf = vec![9u8; 8];
    a.absorb_read(&p, &mut buf, 3);
    assert_eq!(buf, vec![9, 9, 9, 0, 0, 0, 0, 0]);
    let mut b = sealer.begin_sealing(rid, PathBuf::from("raw.bin"));
    b.absorb_chunk(&p, &[9, 9, 9, 0, 0, 0, 0, 0]);
    for _ in 0..3 {
        a.absorb_chunk(&p, &[1u8; 8]);
        b.absorb_chunk(&p, &[1u8; 8]);
    }
    let sa = a.finish(&p);
    let sb = b.finish(&p);
    assert_eq!(sa.merkle_tree.unwrap().root, sb.merkle_tree.unwrap().root);
}

#[test]
fn epoch_hash_selection() {
    assert_eq!(select_epoch_hash(&[], 7), "fallback-epoch-hash");
    let hashes = vec!["aa".to_string(), "bb".to_string()];
    assert_eq!(select_epoch_hash(&hashes, 3), "bb");
    assert_eq!(select_epoch_hash(&hashes, 4), "aa");
}

#[test]
fn challenge_index_from_the_whole_seed() {
    let p = params();
    let beacon = string_to_fr(&p, "beacon");
    let seed = p.poseidon2_chain(&[beacon, Fr::from_u64(1000), Fr::from_u64(2), Fr::from_u64(3)]);
    let expected = value_mod(&seed, 100) as usize + 1;
    assert_eq!(derive_challenge_index(&p, "beacon", 1000, 2, 3, 100), expected);
    let j = derive_challenge_index(&p, "beacon", 1000, 2, 3, 8192);
    let mut low13 = 0usize;
    let repr = seed.to_repr();
    for bit in 0..13 {
        if (repr[bit / 8] >> (bit % 8)) & 1 == 1 {
            low13 |= 1 << bit;
        }
    }
    assert_eq!(j, low13 + 1);
    assert_eq!(derive_challenge_index(&p, "beacon", 1000, 2, 3, 1), 1);
}

#[test]
fn replica_id_and_public_input() {
    let p = params();
    let meta = MockMetadata {
        client_id: "client".to_string(),
        deal_id: "deal".to_string(),
        sector_id: 1000,
        copy_index: 1,
        nonce: 42,
    };
    let expected = p.poseidon2_chain(&[
        string_to_fr(&p, "client"),
        string_to_fr(&p, "deal"),
        Fr::from_u64(1000),
        Fr::from_u64(1),
        Fr::from_u64(42),
    ]);
    assert_eq!(derive_replica_id(&p, &meta), expected);
    let z0 = public_input_for_epoch(5, Fr::from_u64(1000), Fr::from_u64(8), Fr::from_u64(9), expected);
    assert_eq!(z0, vec![Fr::from_u64(5), Fr::zero(), Fr::from_u64(1000), Fr::from_u64(8), Fr::from_u64(9), expected, expected]);
}

#[test]
fn scenario_seed_formula() {
    let fold = "KB1a".bytes().fold(0u64, |acc, b| acc.wrapping_mul(131).wrapping_add(b as u64));
    assert_eq!(scenario_seed(0, 1, "KB1a"), 1u64.wrapping_add(fold));
    assert_eq!(scenario_seed(3, 2, ""), 3_000_009 + 2);
    assert_eq!(scenario_seed(usize::MAX, 0, ""), (usize::MAX as u64).wrapping_mul(1_000_003));
}

fn reference_shuffle_pick(drop_count: usize, seed: u64, num_chunks: usize) -> Vec<usize> {
    let mut keys: Vec<usize> = (1..=num_chunks).collect();
    let mut state = seed.wrapping_add(0x9E3779B97F4A7C15);
    for i in (1..keys.len()).rev() {
        state = state.wrapping_mul(6364136223846793005).wrapping_add(1442695040888963407);
        let r = (state as usize) % (i + 1);
        keys.swap(i, r);
    }
    let mut removed: Vec<usize> = keys.into_iter().take(drop_count.min(num_chunks)).collect();
    removed.sort_unstable();
    removed
}

#[test]
fn drop_selection_matches_the_seeded_shuffle() {
    assert!(deterministic_drop_random_count(5, 7, 0).is_empty());
    assert!(deterministic_drop_random_count(0, 7, 20).is_empty());
    for seed in [0u64, 1, 42, 0xffff_ffff_ffff_ffff] {
        let picked = deterministic_drop_random_count(4, seed, 20);
        assert_eq!(picked, reference_shuffle_pick(4, seed, 20));
        assert_eq!(picked.len(), 4);
        assert!(picked.windows(2).all(|w| w[0] < w[1]));
        assert!(picked.iter().all(|&i| (1..=20).contains(&i)));
    }
    assert_eq!(deterministic_drop_random_count(50, 3, 6), vec![1, 2, 3, 4, 5, 6]);
}

#[test]
fn chunk_value_folds_like_bytes() {
    let p = params();
    let chunk = vec![7u8; 70];
    assert_eq!(chunk_to_fr(&p, &chunk), bytes_to_fr(&p, &chunk));
    assert_ne!(chunk_to_fr(&p, &chunk), chunk_to_fr(&p, &chunk[..69]));
}
