//! The Merkle commitment over sealed `(R_i, S_i)` pairs: a complete binary
//! tree whose leaves are `H(R_i, S_i)`, index-bound inclusion proofs, and
//! their verification.

use crate::bits::{
    is_power_of_two, lemma_low_bits_injective, lemma_power_of_two_half, lemma_shr_succ, low_bits, pow2, shr,
};
use crate::field::{elements_to_vec, Fr};
use crate::poseidon2::{hash2, lemma_values_push, values_of, Poseidon2};
use vstd::prelude::*;

verus! {

/// The level above `s`: each adjacent pair hashed together.
pub open spec fn pair_level(p: Poseidon2, s: Seq<nat>) -> Seq<nat> {
    Seq::new(s.len() / 2, |i: int| hash2(p, s[2 * i], s[2 * i + 1]))
}

/// Every level of the tree over `s`, from the leaves up to the single root.
pub open spec fn levels(p: Poseidon2, s: Seq<nat>) -> Seq<Seq<nat>>
    decreases s.len(),
{
    if s.len() <= 1 {
        seq![s]
    } else {
        seq![s] + levels(p, pair_level(p, s))
    }
}

/// The root of the tree over `s`.
pub open spec fn merkle_root(p: Poseidon2, s: Seq<nat>) -> nat {
    levels(p, s).last()[0]
}

/// The leaf committed for a sealed pair.
pub open spec fn leaf_hash(p: Poseidon2, r: nat, s: nat) -> nat {
    hash2(p, r, s)
}

/// The leaves committed for a sequence of sealed pairs.
pub open spec fn leaves_of(p: Poseidon2, pairs: Seq<(Fr, Fr)>) -> Seq<nat> {
    Seq::new(pairs.len(), |i: int| leaf_hash(p, pairs[i].0@, pairs[i].1@))
}

/// The position of the sibling of node `j` within its level.
pub open spec fn sibling_index(j: nat) -> nat {
    if j % 2 == 1 {
        (j - 1) as nat
    } else {
        j + 1
    }
}

/// The siblings met on the way from leaf `i` to the root.
pub open spec fn path_siblings(lv: Seq<Seq<nat>>, i: nat) -> Seq<nat> {
    Seq::new((lv.len() - 1) as nat, |k: int| lv[k][sibling_index(shr(i, k as nat)) as int])
}

/// The hash reached after the first `k` steps of a path starting at `leaf`,
/// where `dirs[l]` tells that the running hash is the right child at level `l`.
pub open spec fn fold_path(p: Poseidon2, leaf: nat, sibs: Seq<nat>, dirs: Seq<bool>, k: nat) -> nat
    decreases k,
{
    if k == 0 {
        leaf
    } else {
        let prev = fold_path(p, leaf, sibs, dirs, (k - 1) as nat);
        if dirs[k - 1] {
            hash2(p, sibs[k - 1], prev)
        } else {
            hash2(p, prev, sibs[k - 1])
        }
    }
}

/// What `verify_merkle_proof` accepts: a path whose direction bits are the
/// binary digits of the claimed leaf index and which hashes the leaf
/// `H(leaf_r, leaf_s)` up to `root`.
pub open spec fn proof_accepts(
    p: Poseidon2,
    root: nat,
    leaf_r: nat,
    leaf_s: nat,
    leaf_index: nat,
    sibs: Seq<nat>,
    dirs: Seq<bool>,
) -> bool {
    &&& sibs.len() == dirs.len()
    &&& dirs == low_bits(leaf_index, dirs.len())
    &&& fold_path(p, leaf_hash(p, leaf_r, leaf_s), sibs, dirs, dirs.len()) == root
}

/// A complete binary tree of sealed-pair leaves.
pub struct MerkleTree {
    pub leaves: Vec<Fr>,
    pub nodes: Vec<Vec<Fr>>,
    pub root: Fr,
}

/// An inclusion proof: the claimed leaf index, the siblings from the leaf
/// level up, and for each level whether the running node is a right child.
#[derive(Clone, Debug)]
pub struct MerkleProof {
    pub leaf_index: usize,
    pub siblings: Vec<Fr>,
    pub path_indices: Vec<bool>,
}

impl MerkleTree {
    /// The levels stored in the tree, as values.
    pub open spec fn level_values(&self) -> Seq<Seq<nat>> {
        self.nodes@.map_values(|v: Vec<Fr>| values_of(v@))
    }

    /// The stored levels are those of the tree over the stored leaves,
    /// whose number is a power of two, and the root is the top node.
    pub open spec fn wf(&self, p: Poseidon2) -> bool {
        &&& is_power_of_two(self.leaves@.len())
        &&& self.level_values() == levels(p, values_of(self.leaves@))
        &&& self.root@ == merkle_root(p, values_of(self.leaves@))
    }

    /// The number of levels between the leaves and the root.
    pub open spec fn depth(&self) -> nat {
        (self.nodes@.len() - 1) as nat
    }
}

impl Clone for MerkleTree {
    /// A copy of the tree.
    fn clone(&self) -> (r: Self)
        ensures
            r.leaves@ == self.leaves@,
            r.nodes@.len() == self.nodes@.len(),
            forall|k: int| 0 <= k < self.nodes@.len() ==> #[trigger] r.nodes@[k]@ == self.nodes@[k]@,
            r.root == self.root,
    {
        let mut nodes: Vec<Vec<Fr>> = Vec::new();
        for k in 0..self.nodes.len()
            invariant
                nodes@.len() == k,
                forall|m: int| 0 <= m < k ==> #[trigger] nodes@[m]@ == self.nodes@[m]@,
        {
            nodes.push(elements_to_vec(self.nodes[k].as_slice()));
        }
        MerkleTree { leaves: elements_to_vec(self.leaves.as_slice()), nodes, root: self.root }
    }
}

impl MerkleTree {
    /// A copy keeps the levels, the leaves and the root.
    pub proof fn lemma_copy_keeps_levels(&self, other: &MerkleTree)
        requires
            other.leaves@ == self.leaves@,
            other.nodes@.len() == self.nodes@.len(),
            forall|k: int| 0 <= k < self.nodes@.len() ==> #[trigger] other.nodes@[k]@ == self.nodes@[k]@,
            other.root == self.root,
        ensures
            other.level_values() == self.level_values(),
            forall|p: Poseidon2| self.wf(p) ==> other.wf(p),
    {
        assert(other.level_values() =~= self.level_values());
    }
}

/// The shape of the tree over a power-of-two number of leaves: each level
/// halves the one below it, only the top level has a single node, and the
/// top level sits `log2(n)` levels up.
pub proof fn lemma_levels_shape(p: Poseidon2, s: Seq<nat>)
    requires
        is_power_of_two(s.len()),
    ensures
        levels(p, s).len() >= 1,
        levels(p, s)[0] == s,
        levels(p, s).last().len() == 1,
        s.len() == pow2((levels(p, s).len() - 1) as nat),
        forall|k: int| 0 <= k < levels(p, s).len() ==> is_power_of_two(#[trigger] levels(p, s)[k].len()),
        forall|k: int|
            0 <= k < levels(p, s).len() - 1 ==> levels(p, s)[k + 1] == pair_level(
                p,
                #[trigger] levels(p, s)[k],
            ) && levels(p, s)[k].len() >= 2,
    decreases s.len(),
{
    if s.len() > 1 {
        lemma_power_of_two_half(s.len());
        let up = pair_level(p, s);
        lemma_levels_shape(p, up);
        let lv = levels(p, s);
        assert(lv == seq![s] + levels(p, up));
        assert forall|k: int| 0 <= k < lv.len() implies is_power_of_two(#[trigger] lv[k].len()) by {
            if k > 0 {
                assert(lv[k] == levels(p, up)[k - 1]);
            }
        }
        assert forall|k: int| 0 <= k < lv.len() - 1 implies lv[k + 1] == pair_level(p, #[trigger] lv[k])
            && lv[k].len() >= 2 by {
            if k > 0 {
                assert(lv[k] == levels(p, up)[k - 1]);
                assert(lv[k + 1] == levels(p, up)[k]);
            }
        }
    }
}

/// Following the path of leaf `i` for `k` steps reaches node `shr(i, k)` of
/// level `k`.
#[verifier::spinoff_prover]
#[verifier::rlimit(40)]
proof fn lemma_fold_reaches_level(p: Poseidon2, s: Seq<nat>, i: nat, k: nat)
    requires
        is_power_of_two(s.len()),
        i < s.len(),
        k < levels(p, s).len(),
    ensures
        shr(i, k) < levels(p, s)[k as int].len(),
        fold_path(p, s[i as int], path_siblings(levels(p, s), i), low_bits(i, (levels(p, s).len() - 1) as nat), k)
            == levels(p, s)[k as int][shr(i, k) as int],
    decreases k,
{
    lemma_levels_shape(p, s);
    let lv = levels(p, s);
    if k > 0 {
        let km = (k - 1) as nat;
        lemma_fold_reaches_level(p, s, i, km);
        lemma_shr_succ(i, km);
        let j = shr(i, km);
        assert(lv[k as int] == pair_level(p, lv[km as int]));
        let sibs = path_siblings(lv, i);
        let dirs = low_bits(i, (lv.len() - 1) as nat);
        assert(dirs[km as int] == (j % 2 == 1));
        assert(sibs[km as int] == lv[km as int][sibling_index(j) as int]);
    }
}

/// The path of any leaf of a well-formed tree hashes up to its root.
pub proof fn lemma_path_reaches_root(p: Poseidon2, s: Seq<nat>, i: nat)
    requires
        is_power_of_two(s.len()),
        i < s.len(),
    ensures
        fold_path(
            p,
            s[i as int],
            path_siblings(levels(p, s), i),
            low_bits(i, (levels(p, s).len() - 1) as nat),
            (levels(p, s).len() - 1) as nat,
        ) == merkle_root(p, s),
{
    lemma_levels_shape(p, s);
    let d = (levels(p, s).len() - 1) as nat;
    lemma_fold_reaches_level(p, s, i, d);
}

impl MerkleTree {
    /// Builds the tree over the sealed pairs: leaf `i` is `H(R_i, S_i)` and
    /// each level above pairs up the one below.
    pub fn build(p: &Poseidon2, sealed_chunks: &[(Fr, Fr)]) -> (tree: MerkleTree)
        requires
            p.wf(),
            is_power_of_two(sealed_chunks@.len()),
        ensures
            tree.wf(*p),
            values_of(tree.leaves@) == leaves_of(*p, sealed_chunks@),
            tree.root@ == merkle_root(*p, leaves_of(*p, sealed_chunks@)),
    {
        let mut leaves: Vec<Fr> = Vec::new();
        for i in 0..sealed_chunks.len()
            invariant
                p.wf(),
                values_of(leaves@) == leaves_of(*p, sealed_chunks@).take(i as int),
        {
            let (r_i, s_i) = sealed_chunks[i];
            let leaf = p.hash_2(&r_i, &s_i);
            let ghost prev = leaves@;
            leaves.push(leaf);
            proof {
                assert(leaves@ == prev.push(leaf));
                assert(leaf@ == leaves_of(*p, sealed_chunks@)[i as int]);
                lemma_values_push(prev, leaf);
                assert(values_of(leaves@) =~= leaves_of(*p, sealed_chunks@).take(i + 1));
            }
        }
        proof {
            assert(values_of(leaves@) =~= leaves_of(*p, sealed_chunks@));
        }
        MerkleTree::from_leaves(p, leaves)
    }

    /// Builds the tree over the given leaves: each level above pairs up the
    /// one below, up to the single root.
    pub fn from_leaves(p: &Poseidon2, leaves: Vec<Fr>) -> (tree: MerkleTree)
        requires
            p.wf(),
            is_power_of_two(leaves@.len()),
        ensures
            tree.wf(*p),
            tree.leaves@ == leaves@,
    {
        let ghost lv = levels(*p, values_of(leaves@));
        proof {
            lemma_levels_shape(*p, values_of(leaves@));
        }
        let mut nodes: Vec<Vec<Fr>> = Vec::new();
        nodes.push(leaves.clone());
        let mut current_level = leaves.clone();
        while current_level.len() > 1
            invariant
                p.wf(),
                lv == levels(*p, values_of(leaves@)),
                1 <= nodes@.len() <= lv.len(),
                forall|k: int| 0 <= k < nodes@.len() ==> values_of(#[trigger] nodes@[k]@) == lv[k],
                current_level@ == nodes@.last()@,
                is_power_of_two(values_of(leaves@).len()),
                lv.last().len() == 1,
                forall|k: int| 0 <= k < lv.len() - 1 ==> lv[k + 1] == pair_level(*p, #[trigger] lv[k]) && lv[k].len() >= 2,
                forall|k: int| 0 <= k < lv.len() ==> is_power_of_two(#[trigger] lv[k].len()),
            decreases current_level.len(),
        {
            let ghost k = nodes@.len() - 1;
            proof {
                if k == lv.len() - 1 {
                    assert(values_of(current_level@).len() == 1);
                }
            }
            let mut next_level: Vec<Fr> = Vec::new();
            let half = current_level.len() / 2;
            for j in 0..half
                invariant
                    p.wf(),
                    half == current_level@.len() / 2,
                    current_level@.len() <= usize::MAX,
                    values_of(next_level@) == pair_level(*p, values_of(current_level@)).take(j as int),
            {
                let h = p.hash_2(&current_level[2 * j], &current_level[2 * j + 1]);
                let ghost prev = next_level@;
                next_level.push(h);
                proof {
                    assert(next_level@ == prev.push(h));
                    lemma_values_push(prev, h);
                    assert(values_of(next_level@) =~= pair_level(*p, values_of(current_level@)).take(j + 1));
                }
            }
            proof {
                assert(values_of(next_level@) =~= pair_level(*p, values_of(current_level@)));
            }
            let ghost prev_nodes = nodes@;
            nodes.push(next_level.clone());
            proof {
                assert(values_of(nodes@[k + 1]@) == lv[k + 1]);
                assert forall|m: int| 0 <= m < nodes@.len() implies values_of(#[trigger] nodes@[m]@) == lv[m] by {
                    if m <= k {
                        assert(nodes@[m] == prev_nodes[m]);
                    }
                }
            }
            current_level = next_level;
        }
        proof {
            let k = nodes@.len() - 1;
            assert(lv[k].len() == 1);
            if k < lv.len() - 1 {
                assert(lv[k].len() >= 2);
            }
            assert(nodes@.map_values(|v: Vec<Fr>| values_of(v@)) =~= lv);
        }
        let root = nodes[nodes.len() - 1][0];
        MerkleTree { leaves, nodes, root }
    }

    /// The inclusion proof for leaf `index`.
    pub fn generate_proof(&self, index: usize) -> (proof: MerkleProof)
        requires
            exists|p: Poseidon2| self.wf(p),
            index < self.leaves@.len(),
        ensures
            proof.leaf_index == index,
            values_of(proof.siblings@) == path_siblings(self.level_values(), index as nat),
            proof.path_indices@ == low_bits(index as nat, self.depth()),
    {
        let ghost p = choose|p: Poseidon2| self.wf(p);
        let ghost lv = self.level_values();
        proof {
            lemma_levels_shape(p, values_of(self.leaves@));
        }
        let leaf_index = index;
        let mut index = index;
        let mut siblings: Vec<Fr> = Vec::new();
        let mut path_indices: Vec<bool> = Vec::new();
        let top = self.nodes.len() - 1;
        for level in 0..top
            invariant
                lv.len() == self.nodes@.len(),
                forall|k: int| 0 <= k < lv.len() ==> #[trigger] lv[k] == values_of(self.nodes@[k]@),
                top == lv.len() - 1,
                index == shr(leaf_index as nat, level as nat),
                index < lv[level as int].len(),
                forall|k: int| 0 <= k < lv.len() - 1 ==> lv[k + 1] == pair_level(p, #[trigger] lv[k]) && lv[k].len() >= 2,
                forall|k: int| 0 <= k < lv.len() ==> is_power_of_two(#[trigger] lv[k].len()),
                values_of(siblings@) == path_siblings(lv, leaf_index as nat).take(level as int),
                path_indices@ == low_bits(leaf_index as nat, top as nat).take(level as int),
        {
            let is_right = index % 2 == 1;
            let ghost prev_dirs = path_indices@;
            path_indices.push(is_right);
            proof {
                lemma_power_of_two_half(lv[level as int].len());
            }
            let sibling_index = if is_right { index - 1 } else { index + 1 };
            let row = &self.nodes[level];
            assert(values_of(row@) == lv[level as int]);
            let sib = row[sibling_index];
            let ghost prev_sibs = siblings@;
            siblings.push(sib);
            proof {
                lemma_values_push(prev_sibs, sib);
                lemma_shr_succ(leaf_index as nat, level as nat);
                assert(sib@ == path_siblings(lv, leaf_index as nat)[level as int]);
                assert(values_of(siblings@) =~= path_siblings(lv, leaf_index as nat).take(level + 1));
                assert(path_indices@ =~= low_bits(leaf_index as nat, top as nat).take(level + 1));
                assert(lv[level + 1].len() == lv[level as int].len() / 2);
            }
            index = index / 2;
        }
        proof {
            assert(values_of(siblings@) =~= path_siblings(lv, leaf_index as nat));
            assert(path_indices@ =~= low_bits(leaf_index as nat, top as nat));
        }
        MerkleProof { leaf_index, siblings, path_indices }
    }
}

/// Checks an inclusion proof of the sealed pair `(leaf_r, leaf_s)` against
/// `root`: the path must have one direction bit per sibling, those bits must
/// be the binary digits of the claimed leaf index, and hashing the leaf up
/// the path must reach the root.
pub fn verify_merkle_proof(p: &Poseidon2, root: &Fr, leaf_r: &Fr, leaf_s: &Fr, proof: &MerkleProof) -> (r: bool)
    requires
        p.wf(),
        proof.siblings@.len() == proof.path_indices@.len() ==> proof.path_indices@.len() <= usize::BITS,
    ensures
        r == proof_accepts(
            *p,
            root@,
            leaf_r@,
            leaf_s@,
            proof.leaf_index as nat,
            values_of(proof.siblings@),
            proof.path_indices@,
        ),
{
    if proof.siblings.len() != proof.path_indices.len() {
        return false;
    }
    let len = proof.path_indices.len();
    let mut expected_path_indices: Vec<bool> = Vec::new();
    let mut shifted = proof.leaf_index;
    for level in 0..len
        invariant
            len == proof.path_indices@.len(),
            shifted == shr(proof.leaf_index as nat, level as nat),
            expected_path_indices@ == low_bits(proof.leaf_index as nat, len as nat).take(level as int),
    {
        expected_path_indices.push(shifted % 2 == 1);
        proof {
            lemma_shr_succ(proof.leaf_index as nat, level as nat);
            assert(expected_path_indices@ =~= low_bits(proof.leaf_index as nat, len as nat).take(level + 1));
        }
        shifted = shifted / 2;
    }
    proof {
        assert(expected_path_indices@ =~= low_bits(proof.leaf_index as nat, len as nat));
    }
    for k in 0..len
        invariant
            len == proof.path_indices@.len(),
            expected_path_indices@.len() == len,
            expected_path_indices@ == low_bits(proof.leaf_index as nat, len as nat),
            forall|m: int| 0 <= m < k ==> expected_path_indices@[m] == proof.path_indices@[m],
    {
        if expected_path_indices[k] != proof.path_indices[k] {
            proof {
                assert(low_bits(proof.leaf_index as nat, len as nat)[k as int] != proof.path_indices@[k as int]);
            }
            return false;
        }
    }
    proof {
        assert(expected_path_indices@ =~= proof.path_indices@);
    }
    let mut current_hash = p.hash_2(leaf_r, leaf_s);
    for k in 0..len
        invariant
            p.wf(),
            len == proof.path_indices@.len(),
            len == proof.siblings@.len(),
            current_hash@ == fold_path(
                *p,
                leaf_hash(*p, leaf_r@, leaf_s@),
                values_of(proof.siblings@),
                proof.path_indices@,
                k as nat,
            ),
    {
        if proof.path_indices[k] {
            current_hash = p.hash_2(&proof.siblings[k], &current_hash);
        } else {
            current_hash = p.hash_2(&current_hash, &proof.siblings[k]);
        }
    }
    current_hash.equals(root)
}

/// An honest proof verifies: for a well-formed tree built over sealed
/// pairs, the proof generated for leaf `i` is accepted against the tree's
/// root together with the pair sealed at `i`.
pub proof fn lemma_generated_proof_verifies(p: Poseidon2, tree: MerkleTree, pairs: Seq<(Fr, Fr)>, i: nat)
    requires
        tree.wf(p),
        values_of(tree.leaves@) == leaves_of(p, pairs),
        i < pairs.len(),
    ensures
        proof_accepts(
            p,
            tree.root@,
            pairs[i as int].0@,
            pairs[i as int].1@,
            i,
            path_siblings(tree.level_values(), i),
            low_bits(i, tree.depth()),
        ),
{
    let s = values_of(tree.leaves@);
    lemma_levels_shape(p, s);
    lemma_path_reaches_root(p, s, i);
    assert(s[i as int] == leaf_hash(p, pairs[i as int].0@, pairs[i as int].1@));
}

/// The proof is bound to its leaf index: once accepted for index `i`, the
/// same siblings and direction bits are rejected for any other index below
/// `2^depth`.
pub proof fn lemma_index_binding(
    p: Poseidon2,
    root: nat,
    leaf_r: nat,
    leaf_s: nat,
    i: nat,
    j: nat,
    sibs: Seq<nat>,
    dirs: Seq<bool>,
)
    requires
        proof_accepts(p, root, leaf_r, leaf_s, i, sibs, dirs),
        i < pow2(dirs.len()),
        j < pow2(dirs.len()),
        i != j,
    ensures
        !proof_accepts(p, root, leaf_r, leaf_s, j, sibs, dirs),
{
    if proof_accepts(p, root, leaf_r, leaf_s, j, sibs, dirs) {
        lemma_low_bits_injective(i, j, dirs.len());
    }
}


proof fn lemma_pow2_word_sizes()
    ensures
        pow2(32) == 0x1_0000_0000nat,
        pow2(64) == 0x1_0000_0000_0000_0000nat,
{
    reveal_with_fuel(pow2, 33);
    crate::bits::lemma_pow2_add(32, 32);
}

impl MerkleTree {
    /// A well-formed tree has `2^depth` leaves, so its depth is below the
    /// bit width of `usize`.
    pub proof fn lemma_depth_bound(&self, p: Poseidon2)
        requires
            self.wf(p),
        ensures
            self.leaves@.len() == pow2(self.depth()),
            self.depth() < usize::BITS,
            self.nodes@.len() >= 1,
    {
        let s = values_of(self.leaves@);
        assert(self.nodes@.len() >= 1 && s.len() == pow2(self.depth())) by {
            lemma_levels_shape(p, s);
            assert(self.level_values().len() == self.nodes@.len());
        }
        let d = self.depth();
        if d >= usize::BITS {
            lemma_pow2_word_sizes();
            crate::bits::lemma_pow2_monotone(usize::BITS as nat, d);
            assert(self.leaves@.len() == self.leaves.len());
        }
    }
}


/// Any leaf of a well-formed tree opens under its root: the path generated
/// for leaf `i` is accepted for a pair whose leaf hash sits at `i`.
pub proof fn lemma_leaf_opens(p: Poseidon2, tree: MerkleTree, i: nat, r: nat, s: nat)
    requires
        tree.wf(p),
        i < tree.leaves@.len(),
        values_of(tree.leaves@)[i as int] == leaf_hash(p, r, s),
    ensures
        proof_accepts(p, tree.root@, r, s, i, path_siblings(tree.level_values(), i), low_bits(i, tree.depth())),
{
    let v = values_of(tree.leaves@);
    lemma_levels_shape(p, v);
    lemma_path_reaches_root(p, v, i);
}


/// Every node of the tree over field values is a field value.
pub proof fn lemma_levels_bound(p: Poseidon2, s: Seq<nat>)
    requires
        forall|i: int| 0 <= i < s.len() ==> #[trigger] s[i] < crate::field::modulus(),
    ensures
        forall|k: int, i: int|
            0 <= k < levels(p, s).len() && 0 <= i < levels(p, s)[k].len() ==> #[trigger] levels(p, s)[k][i]
                < crate::field::modulus(),
    decreases s.len(),
{
    if s.len() > 1 {
        let up = pair_level(p, s);
        assert forall|i: int| 0 <= i < up.len() implies #[trigger] up[i] < crate::field::modulus() by {
            crate::poseidon2::lemma_hash2_bound(p, s[2 * i], s[2 * i + 1]);
        }
        lemma_levels_bound(p, up);
        let lv = levels(p, s);
        assert(lv == seq![s] + levels(p, up));
        assert forall|k: int, i: int| 0 <= k < lv.len() && 0 <= i < lv[k].len() implies #[trigger] lv[k][i]
            < crate::field::modulus() by {
            if k > 0 {
                assert(lv[k] == levels(p, up)[k - 1]);
            }
        }
    }
}


/// The sibling met at level `k` on the path of leaf `i` lies within that
/// level.
pub proof fn lemma_path_sibling_in_range(p: Poseidon2, s: Seq<nat>, i: nat, k: nat)
    requires
        is_power_of_two(s.len()),
        i < s.len(),
        k < levels(p, s).len() - 1,
    ensures
        sibling_index(shr(i, k)) < levels(p, s)[k as int].len(),
{
    lemma_levels_shape(p, s);
    lemma_fold_reaches_level(p, s, i, k);
    let lv = levels(p, s);
    assert(is_power_of_two(lv[k as int].len()));
    assert(lv[k as int].len() >= 2);
    lemma_power_of_two_half(lv[k as int].len());
}

} // verus!
