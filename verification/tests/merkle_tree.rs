use engram::field::Fr;
use engram::merkle::{compute_merkle_root, verify_merkle_path, MerklePath};
use engram::merkle_tree::{verify_merkle_proof, MerkleTree};
use engram::poseidon2::Poseidon2;

fn params() -> Poseidon2 {
    let f = Fr::from_u64;
    let mat_full = [[f(2), f(1), f(1)], [f(1), f(2), f(1)], [f(1), f(1), f(2)]];
    let mat_partial = [[f(2), f(1), f(1)], [f(1), f(2), f(1)], [f(1), f(1), f(3)]];
    let mut round_constants = Vec::new();
    for r in 0..64u64 {
        round_constants.push([f(3 * r + 1), f(3 * r + 2), f(3 * r + 3)]);
    }
    Poseidon2 { mat_full, mat_partial, round_constants, full_rounds: 8, partial_rounds: 56 }
}

fn sample_tree(p: &Poseidon2) -> MerkleTree {
    MerkleTree::build(
        p,
        &[
            (Fr::from_u64(1), Fr::from_u64(10)),
            (Fr::from_u64(2), Fr::from_u64(20)),
            (Fr::from_u64(3), Fr::from_u64(30)),
            (Fr::from_u64(4), Fr::from_u64(40)),
        ],
    )
}

#[test]
fn merkle_proof_verifies_for_matching_leaf_index() {
    let p = params();
    let tree = sample_tree(&p);
    let proof = tree.generate_proof(2);
    assert!(verify_merkle_proof(&p, &tree.root, &Fr::from_u64(3), &Fr::from_u64(30), &proof));
}

#[test]
fn merkle_proof_rejects_tampered_index_binding() {
    let p = params();
    let tree = sample_tree(&p);
    let mut proof = tree.generate_proof(2);
    proof.leaf_index = 1;
    assert!(!verify_merkle_proof(&p, &tree.root, &Fr::from_u64(3), &Fr::from_u64(30), &proof));
}

#[test]
fn every_generated_proof_verifies_and_no_other_pair_does() {
    let p = params();
    let tree = sample_tree(&p);
    for i in 0..4u64 {
        let proof = tree.generate_proof(i as usize);
        assert_eq!(proof.leaf_index, i as usize);
        assert_eq!(proof.siblings.len(), 2);
        assert_eq!(proof.path_indices, vec![i % 2 == 1, (i / 2) % 2 == 1]);
        assert!(verify_merkle_proof(&p, &tree.root, &Fr::from_u64(i + 1), &Fr::from_u64(10 * (i + 1)), &proof));
        assert!(!verify_merkle_proof(&p, &tree.root, &Fr::from_u64(i + 1), &Fr::from_u64(10 * (i + 1) + 1), &proof));
    }
}

#[test]
fn tree_root_is_the_hash_of_the_pair_levels() {
    let p = params();
    let tree = sample_tree(&p);
    let l: Vec<Fr> = (1..=4u64).map(|i| p.hash_2(&Fr::from_u64(i), &Fr::from_u64(10 * i))).collect();
    let left = p.hash_2(&l[0], &l[1]);
    let right = p.hash_2(&l[2], &l[3]);
    assert_eq!(tree.root, p.hash_2(&left, &right));
    assert_eq!(tree.leaves, l);
    assert_eq!(tree.nodes.len(), 3);
}

#[test]
fn proof_with_unequal_lengths_is_rejected() {
    let p = params();
    let tree = sample_tree(&p);
    let mut proof = tree.generate_proof(0);
    proof.path_indices.push(false);
    assert!(!verify_merkle_proof(&p, &tree.root, &Fr::from_u64(1), &Fr::from_u64(10), &proof));
}

#[test]
fn single_leaf_tree_has_the_leaf_as_root() {
    let p = params();
    let tree = MerkleTree::build(&p, &[(Fr::from_u64(7), Fr::from_u64(70))]);
    assert_eq!(tree.root, p.hash_2(&Fr::from_u64(7), &Fr::from_u64(70)));
    let proof = tree.generate_proof(0);
    assert!(proof.siblings.is_empty());
    assert!(verify_merkle_proof(&p, &tree.root, &Fr::from_u64(7), &Fr::from_u64(70), &proof));
}

#[test]
fn root_over_an_odd_level_duplicates_the_last_node() {
    let p = params();
    let leaves = [Fr::from_u64(5), Fr::from_u64(6), Fr::from_u64(7)];
    let a = p.hash_2(&leaves[0], &leaves[1]);
    let b = p.hash_2(&leaves[2], &leaves[2]);
    assert_eq!(compute_merkle_root(&p, &leaves), p.hash_2(&a, &b));
    assert_eq!(compute_merkle_root(&p, &[]), Fr::zero());
    assert_eq!(compute_merkle_root(&p, &[Fr::from_u64(9)]), Fr::from_u64(9));
}

#[test]
fn merkle_path_hashes_by_direction() {
    let p = params();
    let leaf = Fr::from_u64(11);
    let s0 = Fr::from_u64(12);
    let s1 = Fr::from_u64(13);
    let up = p.hash_2(&s0, &leaf);
    let root = p.hash_2(&up, &s1);
    let path = MerklePath { siblings: vec![s0, s1], indices: vec![true, false] };
    assert!(verify_merkle_path(&p, &root, &leaf, &path));
    let wrong = MerklePath { siblings: vec![s0, s1], indices: vec![false, false] };
    assert!(!verify_merkle_path(&p, &root, &leaf, &wrong));
}
