//! A data sector sealed as a hash chain before it is committed: leaf `i`
//! is `S_i = H3(S_{i-1}, d_i, prover_id)` with `S_0` the initial vector,
//! the epoch, over a fixed number `2^depth` of leaves, the shard values
//! padded with zeros. A proof step recomputes the challenged leaf from the
//! previous state, the shard value and the prover id, and hashes it up the
//! path to the root.

use crate::bits::{is_power_of_two, low_bits, pow2, shr};
use crate::config::MERKLE_DEPTH;
use crate::encoding::shard_text_to_field;
use crate::field::{fadd, fmul, fsub, modulus, Fr};
use crate::merkle_tree::{fold_path, levels, lemma_levels_shape, merkle_root, pair_level, sibling_index, MerkleTree};
use crate::poseidon2::{hash2, hash3, values_of, Poseidon2};
use crate::sector::{dir_value, shard_value};
use vstd::prelude::*;

verus! {

/// The value sealed into leaf `i`: shard `i`'s value, or zero past the
/// shards.
pub open spec fn padded_value(raw: Seq<Fr>, i: int) -> nat {
    if 0 <= i < raw.len() {
        raw[i]@
    } else {
        0
    }
}

/// The chained state after sealing the first `k` values: the initial
/// vector for `k = 0`, and `S_k = H3(S_{k-1}, d_k, prover_id)` otherwise,
/// `d_k` being the value sealed into leaf `k - 1`. The first link is thus
/// `S_1 = H3(IV, d_1, prover_id)`, the order the step circuit checks; the
/// other order sometimes written for it, `H3(d_1, prover_id, IV)`, is not
/// used, so that every link, the first included, has one shape and the
/// circuit needs no special case for leaf 0.
pub open spec fn chain_state(p: Poseidon2, iv: nat, prover_id: nat, raw: Seq<Fr>, k: nat) -> nat
    decreases k,
{
    if k == 0 {
        iv
    } else {
        hash3(p, chain_state(p, iv, prover_id, raw, (k - 1) as nat), padded_value(raw, k - 1), prover_id)
    }
}

/// The `n` sealed leaves: leaf `i` is the state after sealing `0..=i`.
pub open spec fn chain_leaves(p: Poseidon2, iv: nat, prover_id: nat, raw: Seq<Fr>, n: nat) -> Seq<nat> {
    Seq::new(n, |i: int| chain_state(p, iv, prover_id, raw, (i + 1) as nat))
}

/// A chain-sealed sector: the shard values, the sealed leaves, every level
/// of the tree, the root, and the prover id and epoch that seed the chain.
#[derive(Clone, Debug)]
pub struct DataSector {
    pub raw_data: Vec<Fr>,
    pub leaves: Vec<Fr>,
    pub tree: Vec<Vec<Fr>>,
    pub commitment_root: Fr,
    pub prover_id: Fr,
    pub epoch: Fr,
}

impl DataSector {
    /// The stored levels, as values.
    pub open spec fn tree_values(&self) -> Seq<Seq<nat>> {
        self.tree@.map_values(|v: Vec<Fr>| values_of(v@))
    }

    /// The initial vector of the chain: the epoch.
    pub open spec fn iv(&self) -> nat {
        self.epoch@
    }

    /// `2^depth` leaves sealing the shard values in a chain, the levels of the
    /// tree over them, and its root.
    pub open spec fn wf(&self, p: Poseidon2, depth: nat) -> bool {
        let leaves = chain_leaves(p, self.iv(), self.prover_id@, self.raw_data@, pow2(depth));
        &&& values_of(self.leaves@) == leaves
        &&& self.tree_values() == levels(p, leaves)
        &&& self.tree@.len() == depth + 1
        &&& self.commitment_root@ == merkle_root(p, leaves)
    }

    /// Seals and commits the shard texts over `2^depth` leaves.
    pub fn new_with_depth(p: &Poseidon2, raw_shards: Vec<String>, prover_id: Fr, epoch: Fr, depth: usize) -> (s: DataSector)
        requires
            p.wf(),
            depth < usize::BITS,
        ensures
            s.wf(*p, depth as nat),
            s.prover_id == prover_id,
            s.epoch == epoch,
            s.raw_data@.len() == raw_shards@.len(),
            forall|i: int|
                0 <= i < raw_shards@.len() ==> #[trigger] s.raw_data@[i]@ == shard_value(
                    vstd::utf8::encode_utf8(raw_shards@[i]@),
                ),
    {
        let mut raw_data: Vec<Fr> = Vec::new();
        for i in 0..raw_shards.len()
            invariant
                raw_data@.len() == i,
                forall|k: int|
                    0 <= k < i ==> #[trigger] raw_data@[k]@ == shard_value(vstd::utf8::encode_utf8(raw_shards@[k]@)),
        {
            raw_data.push(shard_text_to_field(raw_shards[i].as_str()));
        }
        let target: usize = 1usize << depth;
        proof {
            assert(1usize << depth == pow2(depth as nat)) by {
                lemma_shl_pow2(depth);
            }
        }
        let iv = epoch;
        let mut leaves: Vec<Fr> = Vec::new();
        let mut last = iv;
        let zero = Fr::zero();
        for i in 0..target
            invariant
                p.wf(),
                zero@ == 0,
                target == pow2(depth as nat),
                leaves@.len() == i,
                last@ == chain_state(*p, iv@, prover_id@, raw_data@, i as nat),
                values_of(leaves@) == chain_leaves(*p, iv@, prover_id@, raw_data@, i as nat),
        {
            let data = if i < raw_data.len() { raw_data[i] } else { zero };
            let current = p.hash_3(&last, &data, &prover_id);
            let ghost prev = leaves@;
            leaves.push(current);
            proof {
                crate::poseidon2::lemma_values_push(prev, current);
                assert(values_of(leaves@) =~= chain_leaves(*p, iv@, prover_id@, raw_data@, (i + 1) as nat));
            }
            last = current;
        }
        proof {
            crate::bits::lemma_pow2_is_power_of_two(depth as nat);
        }
        let tree = MerkleTree::from_leaves(p, leaves);
        proof {
            lemma_levels_shape(*p, values_of(tree.leaves@));
            assert(tree.level_values().len() == tree.nodes@.len());
            crate::bits::lemma_pow2_log(depth as nat, (tree.nodes@.len() - 1) as nat);
        }
        DataSector {
            raw_data,
            leaves: tree.leaves,
            tree: tree.nodes,
            commitment_root: tree.root,
            prover_id,
            epoch,
        }
    }

    /// Seals and commits the shard texts over `2^MERKLE_DEPTH` leaves.
    pub fn new(p: &Poseidon2, raw_shards: Vec<String>, prover_id: Fr, epoch: Fr) -> (s: DataSector)
        requires
            p.wf(),
        ensures
            s.wf(*p, MERKLE_DEPTH as nat),
            s.prover_id == prover_id,
            s.epoch == epoch,
            s.raw_data@.len() == raw_shards@.len(),
            forall|i: int|
                0 <= i < raw_shards@.len() ==> #[trigger] s.raw_data@[i]@ == shard_value(
                    vstd::utf8::encode_utf8(raw_shards@[i]@),
                ),
    {
        Self::new_with_depth(p, raw_shards, prover_id, epoch, MERKLE_DEPTH)
    }
}

proof fn lemma_shl_pow2(depth: usize)
    requires
        depth < usize::BITS,
    ensures
        1usize << depth == pow2(depth as nat),
    decreases depth,
{
    if depth == 0 {
        assert(1usize << 0usize == 1usize) by (bit_vector);
    } else {
        lemma_shl_pow2((depth - 1) as usize);
        let d1 = (depth - 1) as usize;
        assert(1usize << depth == 2 * (1usize << d1)) by (bit_vector)
            requires
                depth < usize::BITS,
                depth > 0,
                d1 == depth - 1,
        ;
    }
}


/// Entry `j` of a level, or zero past its end.
pub open spec fn entry_or_zero(level: Seq<nat>, j: int) -> nat {
    if 0 <= j < level.len() {
        level[j]
    } else {
        0
    }
}

impl DataSector {
    /// The opening of leaf `index`: its shard value (zero past the shards),
    /// the state before it (the epoch, the initial vector, for the first leaf), the
    /// siblings from the leaf level up (zero where a level has none), and
    /// for each level one when the running node is a right child and zero
    /// otherwise.
    pub fn get_proof(&self, p: &Poseidon2, index: usize) -> (r: (Fr, Fr, Vec<Fr>, Vec<Fr>))
        requires
            p.wf(),
            self.wf(*p, (self.tree@.len() - 1) as nat),
            index == 0 || index - 1 < self.leaves@.len(),
        ensures
            r.0@ == padded_value(self.raw_data@, index as int),
            r.1@ == (if index == 0 {
                self.iv()
            } else {
                self.leaves@[index - 1]@
            }),
            values_of(r.2@) == Seq::new(
                (self.tree@.len() - 1) as nat,
                |k: int| entry_or_zero(self.tree_values()[k], sibling_index(shr(index as nat, k as nat)) as int),
            ),
            values_of(r.3@) == low_bits(index as nat, (self.tree@.len() - 1) as nat).map_values(
                |b: bool| dir_value(b),
            ),
    {
        let prev_s = if index == 0 {
            self.epoch
        } else {
            self.leaves[index - 1]
        };
        let ghost lv = self.tree_values();
        let depth = self.tree.len() - 1;
        let ghost sib_spec = Seq::new(
            depth as nat,
            |k: int| entry_or_zero(lv[k], sibling_index(shr(index as nat, k as nat)) as int),
        );
        let ghost dir_spec = low_bits(index as nat, depth as nat).map_values(|b: bool| dir_value(b));
        let mut current = index;
        let mut siblings: Vec<Fr> = Vec::new();
        let mut directions: Vec<Fr> = Vec::new();
        for level in 0..depth
            invariant
                depth == self.tree@.len() - 1,
                lv == self.tree_values(),
                lv.len() == self.tree@.len(),
                current == shr(index as nat, level as nat),
                sib_spec == Seq::new(
                    depth as nat,
                    |k: int| entry_or_zero(lv[k], sibling_index(shr(index as nat, k as nat)) as int),
                ),
                dir_spec == low_bits(index as nat, depth as nat).map_values(|b: bool| dir_value(b)),
                values_of(siblings@) == sib_spec.take(level as int),
                values_of(directions@) == dir_spec.take(level as int),
        {
            let is_right = current % 2 == 1;
            let sibling_index = if is_right { current - 1 } else { current + 1 };
            let row = &self.tree[level];
            assert(values_of(row@) == lv[level as int]);
            let sib = if sibling_index < row.len() { row[sibling_index] } else { Fr::zero() };
            let d = if is_right { Fr::one() } else { Fr::zero() };
            let ghost prev_sibs = siblings@;
            let ghost prev_dirs = directions@;
            siblings.push(sib);
            directions.push(d);
            proof {
                crate::poseidon2::lemma_values_push(prev_sibs, sib);
                crate::poseidon2::lemma_values_push(prev_dirs, d);
                crate::bits::lemma_shr_succ(index as nat, level as nat);
                assert(values_of(siblings@) =~= sib_spec.take(level + 1));
                assert(values_of(directions@) =~= dir_spec.take(level + 1));
            }
            current = current / 2;
        }
        proof {
            assert(values_of(siblings@) =~= sib_spec);
            assert(values_of(directions@) =~= dir_spec);
        }
        let data = if index < self.raw_data.len() { self.raw_data[index] } else { Fr::zero() };
        (data, prev_s, siblings, directions)
    }
}

/// The first constraint of a chain-sealed proof step that the witness
/// violates.
#[derive(Clone, Copy, Debug, PartialEq, Eq, Structural)]
pub enum CbcFailure {
    /// A direction value `x` has `x * (1 - x) != 0`.
    NonBooleanIndex,
    /// The recomputed leaf does not hash up to the expected root.
    MerkleRoot,
}

/// The pair hashed at one level: with direction value `x`, the running node
/// `cur` and the sibling `sib` are moved by `x * (sib - cur)`; for `x = 0`
/// it is `(cur, sib)` and for `x = 1` it is `(sib, cur)`.
pub open spec fn moved_hash(p: Poseidon2, cur: nat, sib: nat, x: nat) -> nat {
    let t = fmul(x, fsub(sib, cur));
    hash2(p, fadd(cur, t), fsub(sib, t))
}

/// The node reached after `k` levels of moved hashing from `leaf`.
pub open spec fn moved_fold(p: Poseidon2, leaf: nat, sibs: Seq<nat>, dirs: Seq<nat>, k: nat) -> nat
    decreases k,
{
    if k == 0 {
        leaf
    } else {
        moved_hash(p, moved_fold(p, leaf, sibs, dirs, (k - 1) as nat), sibs[k - 1], dirs[k - 1])
    }
}

/// One chain-sealed proof step: the shard value, the state before it, the
/// prover id, the challenged index, and the path of the recomputed leaf.
#[derive(Clone, Debug)]
pub struct PoStStepCircuit {
    pub raw_data: Fr,
    pub prev_s: Fr,
    pub prover_id: Fr,
    pub challenge_index: Fr,
    pub path_elements: Vec<Fr>,
    pub path_indices: Vec<Fr>,
}

impl PoStStepCircuit {
    /// The leaf `H3(prev_s, raw_data, prover_id)` recomputed by the step.
    pub open spec fn leaf(&self, p: Poseidon2) -> nat {
        hash3(p, self.prev_s@, self.raw_data@, self.prover_id@)
    }

    /// The node the recomputed leaf hashes up to.
    #[verifier::opaque]
    pub open spec fn reached_root(&self, p: Poseidon2) -> nat {
        moved_fold(
            p,
            self.leaf(p),
            values_of(self.path_elements@),
            values_of(self.path_indices@),
            self.path_elements@.len(),
        )
    }

    /// Every direction value `x` of the path has `x * (1 - x) == 0`.
    #[verifier::opaque]
    pub open spec fn boolean_dirs(&self) -> bool {
        let dirs = values_of(self.path_indices@);
        forall|i: int| 0 <= i < self.path_elements@.len() ==> fmul(#[trigger] dirs[i], fsub(1, dirs[i])) == 0
    }

    /// The first violated constraint for the state `(step, root)`; `None`
    /// when all hold.
    pub open spec fn step_failure(&self, p: Poseidon2, z: Seq<nat>) -> Option<CbcFailure> {
        if !self.boolean_dirs() {
            Some(CbcFailure::NonBooleanIndex)
        } else if self.reached_root(p) != z[1] {
            Some(CbcFailure::MerkleRoot)
        } else {
            None
        }
    }

    /// Evaluates the step natively against the state `(step, root)`: the
    /// first violated constraint, or the next state `(step + 1, root)`.
    pub fn native_step(&self, p: &Poseidon2, z: &[Fr]) -> (r: Result<Vec<Fr>, CbcFailure>)
        requires
            p.wf(),
            z@.len() == 2,
            self.path_indices@.len() >= self.path_elements@.len(),
        ensures
            match r {
                Ok(next) => self.step_failure(*p, values_of(z@)) is None && values_of(next@) == seq![
                    fadd(z@[0]@, 1),
                    self.reached_root(*p),
                ],
                Err(e) => self.step_failure(*p, values_of(z@)) == Some(e),
            },
    {
        let n = self.path_elements.len();
        let ghost dirs = values_of(self.path_indices@);
        let one = Fr::one();
        for i in 0..n
            invariant
                n == self.path_elements@.len(),
                n <= self.path_indices@.len(),
                dirs == values_of(self.path_indices@),
                one@ == 1,
                forall|m: int| 0 <= m < i ==> fmul(#[trigger] dirs[m], fsub(1, dirs[m])) == 0,
        {
            let x = self.path_indices[i];
            if !x.mul(&one.sub(&x)).equals(&Fr::zero()) {
                assert(fmul(dirs[i as int], fsub(1, dirs[i as int])) != 0);
                assert(!self.boolean_dirs()) by {
                    reveal(PoStStepCircuit::boolean_dirs);
                }
                return Err(CbcFailure::NonBooleanIndex);
            }
        }
        assert(self.boolean_dirs()) by {
            reveal(PoStStepCircuit::boolean_dirs);
        }
        let mut current = p.hash_3(&self.prev_s, &self.raw_data, &self.prover_id);
        for i in 0..n
            invariant
                p.wf(),
                n == self.path_elements@.len(),
                n <= self.path_indices@.len(),
                dirs == values_of(self.path_indices@),
                current@ == moved_fold(*p, self.leaf(*p), values_of(self.path_elements@), dirs, i as nat),
        {
            let x = self.path_indices[i];
            let sib = self.path_elements[i];
            let t = x.mul(&sib.sub(&current));
            let left = current.add(&t);
            let right = sib.sub(&t);
            current = p.hash_2(&left, &right);
        }
        proof {
            reveal(PoStStepCircuit::reached_root);
        }
        if !current.equals(&z[1]) {
            return Err(CbcFailure::MerkleRoot);
        }
        let mut next: Vec<Fr> = Vec::new();
        next.push(z[0].add(&one));
        next.push(current);
        proof {
            assert(values_of(next@) =~= seq![fadd(z@[0]@, 1), self.reached_root(*p)]);
        }
        Ok(next)
    }
}


/// With direction values zero and one, moved hashing of field values is
/// the ordinary path fold.
pub proof fn lemma_moved_fold_bits(p: Poseidon2, leaf: nat, sibs: Seq<nat>, bits: Seq<bool>, k: nat)
    requires
        k <= sibs.len(),
        k <= bits.len(),
        leaf < modulus(),
        forall|i: int| 0 <= i < sibs.len() ==> #[trigger] sibs[i] < modulus(),
    ensures
        moved_fold(p, leaf, sibs, bits.map_values(|b: bool| dir_value(b)), k) == fold_path(p, leaf, sibs, bits, k),
        fold_path(p, leaf, sibs, bits, k) < modulus(),
    decreases k,
{
    let dirs = bits.map_values(|b: bool| dir_value(b));
    if k > 0 {
        let k1 = (k - 1) as nat;
        lemma_moved_fold_bits(p, leaf, sibs, bits, k1);
        let cur = fold_path(p, leaf, sibs, bits, k1);
        let sib = sibs[k1 as int];
        let m = modulus();
        let d = fsub(sib, cur);
        if bits[k1 as int] {
            assert(dirs[k1 as int] == 1);
            vstd::arithmetic::div_mod::lemma_small_mod(d, m);
            assert(fmul(1, d) == d);
            if sib >= cur {
                vstd::arithmetic::div_mod::lemma_mod_add_multiples_vanish((sib - cur) as int, m as int);
                vstd::arithmetic::div_mod::lemma_small_mod((sib - cur) as nat, m);
                vstd::arithmetic::div_mod::lemma_small_mod(sib, m);
                vstd::arithmetic::div_mod::lemma_mod_add_multiples_vanish(cur as int, m as int);
                vstd::arithmetic::div_mod::lemma_small_mod(cur, m);
            } else {
                vstd::arithmetic::div_mod::lemma_small_mod((sib + m - cur) as nat, m);
                vstd::arithmetic::div_mod::lemma_mod_add_multiples_vanish(sib as int, m as int);
                vstd::arithmetic::div_mod::lemma_small_mod(sib, m);
                vstd::arithmetic::div_mod::lemma_small_mod(cur, m);
            }
            crate::poseidon2::lemma_hash2_bound(p, sib, cur);
        } else {
            assert(dirs[k1 as int] == 0);
            assert(fmul(0, d) == 0) by {
                assert(0 * d == 0);
                vstd::arithmetic::div_mod::lemma_small_mod(0, m);
            }
            vstd::arithmetic::div_mod::lemma_small_mod(cur, m);
            vstd::arithmetic::div_mod::lemma_mod_add_multiples_vanish(sib as int, m as int);
            vstd::arithmetic::div_mod::lemma_small_mod(sib, m);
            crate::poseidon2::lemma_hash2_bound(p, cur, sib);
        }
    }
}

/// The chain states after the first leaf are field values.
proof fn lemma_chain_leaves_bound(p: Poseidon2, iv: nat, prover_id: nat, raw: Seq<Fr>, n: nat)
    ensures
        forall|i: int| 0 <= i < n ==> #[trigger] chain_leaves(p, iv, prover_id, raw, n)[i] < modulus(),
{
    assert forall|i: int| 0 <= i < n implies #[trigger] chain_leaves(p, iv, prover_id, raw, n)[i] < modulus() by {
        crate::poseidon2::lemma_hash3_bound(p, chain_state(p, iv, prover_id, raw, i as nat), padded_value(raw, i), prover_id);
    }
}

/// An honest opening of a chain-sealed sector is accepted: the step built
/// from the opening of any leaf `index < 2^depth` passes against
/// `(step, commitment_root)`.
pub proof fn lemma_cbc_opening_accepted(
    p: Poseidon2,
    s: DataSector,
    depth: nat,
    index: nat,
    c: PoStStepCircuit,
    z: Seq<nat>,
)
    requires
        s.wf(p, depth),
        index < pow2(depth),
        c.raw_data@ == padded_value(s.raw_data@, index as int),
        c.prover_id@ == s.prover_id@,
        c.prev_s@ == (if index == 0 {
            s.iv()
        } else {
            s.leaves@[index - 1]@
        }),
        values_of(c.path_elements@) == Seq::new(
            depth,
            |k: int| entry_or_zero(s.tree_values()[k], sibling_index(shr(index, k as nat)) as int),
        ),
        values_of(c.path_indices@) == low_bits(index, depth).map_values(|b: bool| dir_value(b)),
        z.len() == 2,
        z[1] == s.commitment_root@,
    ensures
        c.step_failure(p, z) is None,
{
    let leaves = chain_leaves(p, s.iv(), s.prover_id@, s.raw_data@, pow2(depth));
    let lv = levels(p, leaves);
    let dirs = values_of(c.path_indices@);
    let bits = low_bits(index, depth);
    let n = c.path_elements@.len();
    assert(n == depth) by {
        assert(values_of(c.path_elements@).len() == n);
    }
    reveal(PoStStepCircuit::boolean_dirs);
    reveal(PoStStepCircuit::reached_root);
    assert forall|i: int| 0 <= i < n implies fmul(#[trigger] dirs[i], fsub(1, dirs[i])) == 0 by {
        vstd::arithmetic::div_mod::lemma_small_mod(0, modulus());
        vstd::arithmetic::div_mod::lemma_small_mod(1, modulus());
        assert(dirs[i] == dir_value(bits[i]));
        if bits[i] {
            assert(fsub(1, 1) == 0) by {
                vstd::arithmetic::div_mod::lemma_mod_self_0(modulus() as int);
            }
            assert(dirs[i] * 0 == 0);
        } else {
            assert(0 * fsub(1, 0) == 0);
        }
    }
    assert(c.leaf(p) == leaves[index as int]) by {
        assert(c.prev_s@ == chain_state(p, s.iv(), s.prover_id@, s.raw_data@, index)) by {
            if index > 0 {
                assert(values_of(s.leaves@)[index - 1] == s.leaves@[index - 1]@);
                assert(leaves[index - 1] == chain_state(p, s.iv(), s.prover_id@, s.raw_data@, index));
            }
        }
        assert(leaves[index as int] == chain_state(p, s.iv(), s.prover_id@, s.raw_data@, index + 1));
    }
    crate::bits::lemma_pow2_is_power_of_two(depth);
    lemma_levels_shape(p, leaves);
    crate::bits::lemma_pow2_log(depth, (lv.len() - 1) as nat);
    let sibs = crate::merkle_tree::path_siblings(lv, index);
    assert(values_of(c.path_elements@) == sibs) by {
        assert forall|k: int| 0 <= k < depth implies #[trigger] values_of(c.path_elements@)[k] == sibs[k] by {
            crate::merkle_tree::lemma_path_sibling_in_range(p, leaves, index, k as nat);
        }
        assert(values_of(c.path_elements@) =~= sibs);
    }
    lemma_chain_leaves_bound(p, s.iv(), s.prover_id@, s.raw_data@, pow2(depth));
    crate::merkle_tree::lemma_levels_bound(p, leaves);
    assert forall|i: int| 0 <= i < sibs.len() implies #[trigger] sibs[i] < modulus() by {
        crate::merkle_tree::lemma_path_sibling_in_range(p, leaves, index, i as nat);
        let j = sibling_index(shr(index, i as nat)) as int;
        assert(sibs[i] == lv[i][j]);
    }
    crate::poseidon2::lemma_hash3_bound(p, c.prev_s@, c.raw_data@, c.prover_id@);
    lemma_moved_fold_bits(p, leaves[index as int], sibs, bits, depth);
    crate::merkle_tree::lemma_path_reaches_root(p, leaves, index);
}


impl DataSector {
    /// `c` is the step built from the opening of leaf `index`.
    pub open spec fn is_opening(&self, p: Poseidon2, index: nat, c: PoStStepCircuit) -> bool {
        let depth = (self.tree@.len() - 1) as nat;
        &&& c.raw_data@ == padded_value(self.raw_data@, index as int)
        &&& c.prover_id == self.prover_id
        &&& c.prev_s@ == (if index == 0 {
            self.iv()
        } else {
            self.leaves@[index - 1]@
        })
        &&& c.challenge_index@ == index
        &&& values_of(c.path_elements@) == Seq::new(
            depth,
            |k: int| entry_or_zero(self.tree_values()[k], sibling_index(shr(index, k as nat)) as int),
        )
        &&& values_of(c.path_indices@) == low_bits(index, depth).map_values(|b: bool| dir_value(b))
    }

    /// The steps proving the challenged leaves, in order: each is built from
    /// the opening of its leaf, with the leaf index as its challenge index.
    pub fn challenge_steps(&self, p: &Poseidon2, challenges: &[usize]) -> (r: Vec<PoStStepCircuit>)
        requires
            p.wf(),
            self.wf(*p, (self.tree@.len() - 1) as nat),
            forall|k: int| 0 <= k < challenges@.len() ==> #[trigger] challenges@[k] < self.leaves@.len(),
        ensures
            r@.len() == challenges@.len(),
            forall|k: int| 0 <= k < challenges@.len() ==> self.is_opening(*p, challenges@[k] as nat, #[trigger] r@[k]),
    {
        let mut steps: Vec<PoStStepCircuit> = Vec::new();
        for k in 0..challenges.len()
            invariant
                p.wf(),
                self.wf(*p, (self.tree@.len() - 1) as nat),
                forall|m: int| 0 <= m < challenges@.len() ==> #[trigger] challenges@[m] < self.leaves@.len(),
                steps@.len() == k,
                forall|m: int| 0 <= m < k ==> self.is_opening(*p, challenges@[m] as nat, #[trigger] steps@[m]),
        {
            let idx = challenges[k];
            let (raw_data, prev_s, path_elements, path_indices) = self.get_proof(p, idx);
            let step = PoStStepCircuit {
                raw_data,
                prev_s,
                prover_id: self.prover_id,
                challenge_index: Fr::from_u64(idx as u64),
                path_elements,
                path_indices,
            };
            steps.push(step);
        }
        steps
    }
}

/// The state `(step, root)` after the first `k` steps.
pub open spec fn cbc_state_after(p: Poseidon2, steps: Seq<PoStStepCircuit>, z0: Seq<nat>, k: nat) -> Seq<nat>
    decreases k,
{
    if k == 0 {
        z0
    } else {
        let prev = cbc_state_after(p, steps, z0, (k - 1) as nat);
        seq![fadd(prev[0], 1), steps[k - 1].reached_root(p)]
    }
}

/// Checks the steps in order from `z0`, as the prover does before folding
/// them: the final state when every step holds, or the first failing step
/// and its violated constraint.
pub fn evaluate_steps(p: &Poseidon2, steps: &[PoStStepCircuit], z0: &[Fr]) -> (r: Result<Vec<Fr>, (usize, CbcFailure)>)
    requires
        p.wf(),
        z0@.len() == 2,
        forall|k: int| 0 <= k < steps@.len() ==> (#[trigger] steps@[k]).path_indices@.len() >= steps@[k].path_elements@.len(),
    ensures
        match r {
            Ok(zf) => (forall|k: int|
                0 <= k < steps@.len() ==> (#[trigger] steps@[k]).step_failure(
                    *p,
                    cbc_state_after(*p, steps@, values_of(z0@), k as nat),
                ) is None) && values_of(zf@) == cbc_state_after(*p, steps@, values_of(z0@), steps@.len()),
            Err((k, e)) => k < steps@.len() && steps@[k as int].step_failure(
                *p,
                cbc_state_after(*p, steps@, values_of(z0@), k as nat),
            ) == Some(e) && forall|m: int|
                0 <= m < k ==> (#[trigger] steps@[m]).step_failure(*p, cbc_state_after(*p, steps@, values_of(z0@), m as nat))
                    is None,
        },
{
    let mut z: Vec<Fr> = crate::field::elements_to_vec(z0);
    for k in 0..steps.len()
        invariant
            p.wf(),
            forall|m: int| 0 <= m < steps@.len() ==> (#[trigger] steps@[m]).path_indices@.len() >= steps@[m].path_elements@.len(),
            values_of(z@) == cbc_state_after(*p, steps@, values_of(z0@), k as nat),
            z@.len() == 2,
            forall|m: int|
                0 <= m < k ==> (#[trigger] steps@[m]).step_failure(*p, cbc_state_after(*p, steps@, values_of(z0@), m as nat))
                    is None,
    {
        let step = &steps[k];
        assert(step.path_indices@.len() >= step.path_elements@.len());
        match step.native_step(p, z.as_slice()) {
            Ok(next) => {
                z = next;
                assert(values_of(z@).len() == z@.len());
            },
            Err(e) => {
                return Err((k, e));
            },
        }
    }
    Ok(z)
}

/// A chain-sealed sector's honest proof holds at every step: the steps
/// built for any challenged leaves, checked from `(start, commitment_root)`,
/// all pass and keep the root.
#[verifier::rlimit(40)]
pub proof fn lemma_cbc_steps_accepted(
    p: Poseidon2,
    s: DataSector,
    challenges: Seq<usize>,
    steps: Seq<PoStStepCircuit>,
    z0: Seq<nat>,
    k: nat,
)
    requires
        s.wf(p, (s.tree@.len() - 1) as nat),
        steps.len() == challenges.len(),
        forall|m: int| 0 <= m < challenges.len() ==> #[trigger] challenges[m] < s.leaves@.len(),
        forall|m: int| 0 <= m < challenges.len() ==> s.is_opening(p, challenges[m] as nat, #[trigger] steps[m]),
        z0.len() == 2,
        z0[1] == s.commitment_root@,
        k <= steps.len(),
    ensures
        cbc_state_after(p, steps, z0, k).len() == 2,
        cbc_state_after(p, steps, z0, k)[1] == s.commitment_root@,
        forall|m: int| 0 <= m < k ==> (#[trigger] steps[m]).step_failure(p, cbc_state_after(p, steps, z0, m as nat)) is None,
    decreases k,
{
    if k > 0 {
        let k1 = (k - 1) as nat;
        lemma_cbc_steps_accepted(p, s, challenges, steps, z0, k1);
        let prev = cbc_state_after(p, steps, z0, k1);
        let step = steps[k1 as int];
        assert(step.step_failure(p, prev) is None) by {
            let depth = (s.tree@.len() - 1) as nat;
            let index = challenges[k1 as int] as nat;
            assert(s.leaves@.len() == pow2(depth)) by {
                assert(values_of(s.leaves@).len() == s.leaves@.len());
            }
            assert(s.is_opening(p, index, step));
            lemma_cbc_opening_accepted(p, s, depth, index, step, prev);
        }
        assert(step.reached_root(p) == s.commitment_root@);
    }
}

} // verus!
