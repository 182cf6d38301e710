use engram::api::{ApiError, DealRegistry, StringTable};
use engram::beacon::parse_epoch_hashes;
use engram::benchmark::{elapsed_ms, normalize_memory_kib, PeakMemoryTracker};
use engram::client::seal_sector;
use engram::encoding::bytes_to_fr;
use engram::field::{value_mod, Fr};
use engram::groth16::Groth16Wrapper;
use engram::merkle::compute_merkle_root;
use engram::poseidon2::Poseidon2;
use engram::sampling::{add_distinct, challenge_seed_bytes, draw_challenge_batch, select_challenges};
use engram::types::{ChallengeQuery, DealMetadata, DealRequest, Proof, ReplicaId, VerifyRequest};
use rand::{Rng, SeedableRng};
use sha2::{Digest, Sha256};
use std::time::Instant;

fn params() -> Poseidon2 {
    let f = Fr::from_u64;
    let mat_full = [[f(2), f(1), f(1)], [f(1), f(2), f(1)], [f(1), f(1), f(2)]];
    let mat_partial = [[f(2), f(1), f(1)], [f(1), f(2), f(1)], [f(1), f(1), f(3)]];
    let mut round_constants = Vec::new();
    for r in 0..64u64 {
        round_constants.push([f(3 * r + 1), f(3 * r + 2), f(3 * r + 3)]);
    }
    Poseidon2 { mat_full, mat_partial, round_constants, full_rounds: 8, partial_rounds: 56 }
}

fn query(sector: &str) -> ChallengeQuery {
    ChallengeQuery { epoch: "epoch_10".to_string(), beacon: "random_beacon_hex".to_string(), sector_id: sector.to_string() }
}

#[test]
fn unknown_sector_is_refused() {
    let p = params();
    let registry = DealRegistry::new();
    assert_eq!(registry.get_challenge(&p, &query("sector_100"), 1 << 20).unwrap_err(), ApiError::NotFound);
    assert_eq!(registry.sealed_commitment(&"sector_100".to_string()).unwrap_err(), ApiError::NotFound);
}

#[test]
fn registered_sector_is_challenged_and_read_back() {
    let p = params();
    let mut registry = DealRegistry::new();
    let meta = DealMetadata::new("client_01", "deal_001", "sector_100", 1, 12345);
    assert_eq!(meta.sector_id, "sector_100");
    registry.create_deal(DealRequest { r_sealed: vec![1, 2, 3], metadata: meta.clone() });
    let resp = registry.get_challenge(&p, &query("sector_100"), 1 << 20).unwrap();
    assert_eq!(resp.challenges.len(), 10);
    for (i, &j) in resp.challenges.iter().enumerate() {
        assert!(j < 1 << 20);
        let inputs = [
            bytes_to_fr(&p, b"random_beacon_hex"),
            bytes_to_fr(&p, b"sector_100"),
            bytes_to_fr(&p, b"epoch_10"),
            bytes_to_fr(&p, &[i as u8]),
        ];
        assert_eq!(j, value_mod(&p.poseidon2_chain(&inputs), 1 << 20));
    }
    assert_eq!(registry.sealed_commitment(&"sector_100".to_string()).unwrap(), &vec![1, 2, 3]);
    registry.create_deal(DealRequest { r_sealed: vec![9], metadata: meta });
    assert_eq!(registry.sealed_commitment(&"sector_100".to_string()).unwrap(), &vec![9]);
    assert!(registry.get_challenge(&p, &query("sector_200"), 7).is_err());
}

#[test]
fn table_insert_and_get() {
    let mut t: StringTable<u32> = StringTable::new();
    t.insert("a".to_string(), 1);
    t.insert("b".to_string(), 2);
    t.insert("a".to_string(), 3);
    assert_eq!(t.get(&"a".to_string()), Some(&3));
    assert_eq!(t.get(&"b".to_string()), Some(&2));
    assert_eq!(t.get(&"c".to_string()), None);
}

#[test]
fn memory_readings() {
    assert_eq!(normalize_memory_kib(Some(2048)), 2048);
    assert_eq!(normalize_memory_kib(Some(10_000_000)), 10_000_000);
    assert_eq!(normalize_memory_kib(Some(20_480_000)), 20_000);
    assert_eq!(normalize_memory_kib(None), 0);
    let mut t = PeakMemoryTracker::new(100);
    assert_eq!(t.peak_kib(), 100);
    t.sample(50);
    assert_eq!(t.peak_kib(), 100);
    t.sample(300);
    assert_eq!(t.peak_kib(), 300);
    let start = Instant::now();
    assert!(elapsed_ms(start) < 20_000);
}

#[test]
fn placeholder_wrapper_proof() {
    let proof = Groth16Wrapper::mock_prove();
    assert_eq!(proof.pi_a, [1u8; 64]);
    assert_eq!(proof.pi_b, [2u8; 128]);
    assert_eq!(proof.pi_c, [3u8; 64]);
}

#[test]
fn client_sealing_chains_from_the_replica_id() {
    let p = params();
    let meta = ReplicaId {
        client_id: Fr::from_u64(1),
        deal_id: Fr::from_u64(2),
        sector_id: Fr::from_u64(3),
        copy_index: Fr::from_u64(4),
        nonce: Fr::from_u64(5),
    };
    let data = [Fr::from_u64(10), Fr::from_u64(20), Fr::from_u64(30)];
    let (sealed, root, aux) = seal_sector(&p, &data, &meta);
    let rid = p.poseidon2_chain(&[meta.client_id, meta.deal_id, meta.sector_id, meta.copy_index, meta.nonce]);
    let r0 = p.poseidon2_hash_4(&data[0], &rid, &Fr::one(), &rid);
    let s0 = p.hash_2(&rid, &r0);
    let r1 = p.poseidon2_hash_4(&data[1], &s0, &Fr::from_u64(2), &rid);
    assert_eq!(sealed[0], r0);
    assert_eq!(aux[0], s0);
    assert_eq!(sealed[1], r1);
    assert_eq!(sealed.len(), 3);
    assert_eq!(aux.len(), 3);
    assert_eq!(root, compute_merkle_root(&p, &sealed));
}

#[test]
fn seeded_challenges_are_distinct_and_reproducible() {
    let id = Fr::from_u64(42);
    let a = select_challenges("00000000000000000002a7c4", &id, 20, 64);
    let b = select_challenges("00000000000000000002a7c4", &id, 20, 64);
    assert_eq!(a, b);
    assert_eq!(a.len(), 20);
    let mut sorted = a.clone();
    sorted.sort();
    sorted.dedup();
    assert_eq!(sorted.len(), 20);
    assert!(a.iter().all(|&x| x < 64));
    let seed = challenge_seed_bytes("ab", &id);
    assert_ne!(seed, challenge_seed_bytes("ab", &Fr::from_u64(43)));
    let batch = draw_challenge_batch(10, 4);
    assert_eq!(batch.len(), 4);
    assert!(batch.windows(2).all(|w| w[0] < w[1]));
    assert!(batch.iter().all(|&x| x < 10));
}

#[test]
fn request_values() {
    let v = VerifyRequest { sector_id: "s".to_string(), proof: Proof { pi: vec![1, 2] } };
    assert_eq!(v.proof.pi.len(), 2);
}

#[test]
fn seeded_challenges_follow_the_generator() {
    let hash = "00000000000000000001f2e3";
    let id = Fr::from_u64(7);
    let mut hasher = Sha256::new();
    hasher.update(hash.as_bytes());
    hasher.update(id.to_repr());
    let digest: [u8; 32] = hasher.finalize().into();
    assert_eq!(challenge_seed_bytes(hash, &id), digest);
    let mut prng = rand_chacha::ChaCha8Rng::from_seed(digest);
    let mut expected: Vec<usize> = vec![];
    while expected.len() < 30 {
        let r = prng.gen_range(0..100usize);
        if !expected.contains(&r) {
            expected.push(r);
        }
    }
    assert_eq!(select_challenges(hash, &id, 30, 100), expected);
    assert_eq!(select_challenges(hash, &id, 0, 100), Vec::<usize>::new());
    assert_eq!(select_challenges(hash, &id, 5, 5).len(), 5);
}

#[test]
fn repeated_draws_are_skipped() {
    let mut chosen = vec![3, 9];
    add_distinct(&mut chosen, 9);
    assert_eq!(chosen, vec![3, 9]);
    add_distinct(&mut chosen, 4);
    assert_eq!(chosen, vec![3, 9, 4]);
    let mut empty: Vec<usize> = vec![];
    add_distinct(&mut empty, 0);
    assert_eq!(empty, vec![0]);
}

#[test]
fn random_batches_have_the_requested_size() {
    assert_eq!(draw_challenge_batch(5, 5), vec![0, 1, 2, 3, 4]);
    assert!(draw_challenge_batch(5, 0).is_empty());
    for _ in 0..20 {
        let batch = draw_challenge_batch(7, 3);
        assert_eq!(batch.len(), 3);
        assert!(batch.windows(2).all(|w| w[0] < w[1]));
        assert!(batch.iter().all(|&x| x < 7));
    }
}

#[test]
fn epoch_hashes_are_read_and_trimmed() {
    let text = "block 1: 00aa\nno colon here\nblock 2:\t\u{3000}00bb\u{a0} \r\nblock 3: x: y\n";
    let hashes = parse_epoch_hashes(text.as_bytes());
    let expected: Vec<Vec<u8>> = text
        .lines()
        .filter_map(|line| line.split_once(':').map(|(_, hash)| hash.trim().as_bytes().to_vec()))
        .collect();
    assert_eq!(hashes, expected);
    assert_eq!(hashes, vec![b"00aa".to_vec(), b"00bb".to_vec(), b"x: y".to_vec()]);
    assert!(parse_epoch_hashes(b"").is_empty());
    let spaced = " a :\u{2003}\u{2028}\u{1680} ";
    assert_eq!(parse_epoch_hashes(spaced.as_bytes()), vec![Vec::<u8>::new()]);
}

#[test]
fn milliseconds_of_a_duration() {
    assert_eq!(engram::benchmark::millis_of(0, 0), 0);
    assert_eq!(engram::benchmark::millis_of(2, 999_999_999), 2999);
    assert_eq!(engram::benchmark::millis_of(5, 1_500_000), 5001);
    assert_eq!(engram::benchmark::millis_of(u64::MAX, 0), u64::MAX as u128 * 1000);
}
