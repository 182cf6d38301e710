//! The sealed-sector root over any number of leaves (an odd node is paired
//! with itself) and the check of a Merkle inclusion path.

use crate::field::{elements_to_vec, Fr};
use crate::merkle_tree::fold_path;
use crate::poseidon2::{hash2, lemma_values_push, values_of, Poseidon2};
use vstd::prelude::*;

verus! {

/// The level above `s`, where a last unpaired node is hashed with itself.
pub open spec fn dup_level(p: Poseidon2, s: Seq<nat>) -> Seq<nat> {
    Seq::new(
        ((s.len() + 1) / 2) as nat,
        |i: int|
            if 2 * i + 1 < s.len() {
                hash2(p, s[2 * i], s[2 * i + 1])
            } else {
                hash2(p, s[2 * i], s[2 * i])
            },
    )
}

/// The root over a non-empty level.
pub open spec fn dup_root(p: Poseidon2, s: Seq<nat>) -> nat
    decreases s.len(),
{
    if s.len() <= 1 {
        s[0]
    } else {
        dup_root(p, dup_level(p, s))
    }
}

/// The sealed root `R_sealed` of `leaves`: zero when there are none.
pub open spec fn sealed_root(p: Poseidon2, leaves: Seq<nat>) -> nat {
    if leaves.len() == 0 {
        0
    } else {
        dup_root(p, leaves)
    }
}

/// A Merkle inclusion path: the siblings from the leaf up, and for each
/// step whether the running node is the right child.
#[derive(Clone, Debug)]
pub struct MerklePath {
    pub siblings: Vec<Fr>,
    pub indices: Vec<bool>,
}

/// Computes the sealed root of `leaves`, pairing a last odd node with itself
/// on each level.
pub fn compute_merkle_root(p: &Poseidon2, leaves: &[Fr]) -> (r: Fr)
    requires
        p.wf(),
    ensures
        r@ == sealed_root(*p, values_of(leaves@)),
{
    if leaves.len() == 0 {
        return Fr::zero();
    }
    let mut current_level: Vec<Fr> = elements_to_vec(leaves);
    assert(values_of(current_level@) == values_of(leaves@));
    while current_level.len() > 1
        invariant
            p.wf(),
            current_level@.len() >= 1,
            dup_root(*p, values_of(current_level@)) == dup_root(*p, values_of(leaves@)),
        decreases current_level.len(),
    {
        let mut next_level: Vec<Fr> = Vec::new();
        let n = current_level.len();
        let count = n / 2 + n % 2;
        for j in 0..count
            invariant
                p.wf(),
                n == current_level@.len(),
                count == n / 2 + n % 2,
                next_level@.len() == j,
                values_of(next_level@) == dup_level(*p, values_of(current_level@)).take(j as int),
        {
            let i = 2 * j;
            let h = if i + 1 < n {
                p.hash_2(&current_level[i], &current_level[i + 1])
            } else {
                p.hash_2(&current_level[i], &current_level[i])
            };
            let ghost prev = next_level@;
            next_level.push(h);
            proof {
                lemma_values_push(prev, h);
                assert(values_of(next_level@) =~= dup_level(*p, values_of(current_level@)).take(j + 1));
            }
        }
        proof {
            assert(values_of(next_level@) =~= dup_level(*p, values_of(current_level@)));
        }
        current_level = next_level;
    }
    current_level[0]
}

/// Checks `MerkleVerify(root, leaf, path)`: the leaf hashed up along the
/// path (as far as both the siblings and the direction bits reach) must
/// equal `root`.
pub fn verify_merkle_path(p: &Poseidon2, root: &Fr, leaf: &Fr, path: &MerklePath) -> (r: bool)
    requires
        p.wf(),
    ensures
        r == (fold_path(
            *p,
            leaf@,
            values_of(path.siblings@),
            path.indices@,
            if path.siblings@.len() <= path.indices@.len() {
                path.siblings@.len()
            } else {
                path.indices@.len()
            },
        ) == root@),
{
    let steps = if path.siblings.len() <= path.indices.len() {
        path.siblings.len()
    } else {
        path.indices.len()
    };
    let mut current_hash = *leaf;
    for k in 0..steps
        invariant
            p.wf(),
            steps <= path.siblings@.len(),
            steps <= path.indices@.len(),
            current_hash@ == fold_path(*p, leaf@, values_of(path.siblings@), path.indices@, k as nat),
    {
        let sibling = &path.siblings[k];
        if path.indices[k] {
            current_hash = p.hash_2(sibling, &current_hash);
        } else {
            current_hash = p.hash_2(&current_hash, sibling);
        }
    }
    current_hash.equals(root)
}

} // verus!
