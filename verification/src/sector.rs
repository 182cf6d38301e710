//! A data sector committed shard by shard: each shard's text is hashed into
//! the field, the values are padded with zeros to eight or, beyond eight
//! shards, to the next power of two, each
//! value `d` becomes the leaf `H(d, 0)`, and the leaves are committed in a
//! Merkle tree. The proof-of-storage step opens one leaf at a challenged
//! index whose binary digits are the path's direction bits.

use crate::bits::{bit, is_power_of_two, low_bits, pow2, shr};
use crate::encoding::shard_text_to_field;
use crate::field::{fadd, fmul, modulus, Fr};
use crate::merkle_tree::{fold_path, levels, merkle_root, pair_level, path_siblings, MerkleTree, lemma_levels_shape};
use crate::poseidon2::{hash2, values_of, Poseidon2};
use vstd::prelude::*;
use vstd::string::StringSliceAdditionalSpecFns;

verus! {

/// The smallest power of two that is at least `n` (and at least one).
pub open spec fn pow2_ceiling(n: nat) -> nat
    decreases n,
{
    if n <= 1 {
        1
    } else {
        2 * pow2_ceiling(((n + 1) / 2) as nat)
    }
}

/// `pow2_ceiling(n)` is a power of two, at least `n`, and below `2n` when
/// `n >= 1`.
pub proof fn lemma_pow2_ceiling(n: nat)
    ensures
        is_power_of_two(pow2_ceiling(n)),
        pow2_ceiling(n) >= n,
        pow2_ceiling(n) >= 1,
        n >= 1 ==> pow2_ceiling(n) < 2 * n,
    decreases n,
{
    if n > 1 {
        let h = ((n + 1) / 2) as nat;
        lemma_pow2_ceiling(h);
        let c = pow2_ceiling(h);
        assert(pow2_ceiling(n) == 2 * c);
        assert((2 * c) / 2 == c);
        assert((2 * c) % 2 == 0);
    }
}

/// The smallest power of two that is at least `n` (and at least one).
pub fn next_power_of_two(n: usize) -> (r: usize)
    requires
        pow2_ceiling(n as nat) <= usize::MAX,
    ensures
        r == pow2_ceiling(n as nat),
    decreases n,
{
    if n <= 1 {
        1
    } else {
        let h = n / 2 + n % 2;
        assert(h == (n + 1) / 2);
        let c = next_power_of_two(h);
        2 * c
    }
}

/// The leaf committed for a data value: `H(d, 0)`.
pub open spec fn data_leaves(p: Poseidon2, raw: Seq<Fr>) -> Seq<nat> {
    Seq::new(raw.len(), |i: int| hash2(p, raw[i]@, 0))
}

/// The field value of a shard's text.
pub open spec fn shard_value(text: Seq<u8>) -> nat {
    crate::field::le_value(crate::encoding::sha256_digest(text)) % modulus()
}

/// A sector of shard values, its leaves, every level of its tree and the
/// commitment root.
#[derive(Clone, Debug)]
pub struct DataSector {
    pub raw_data: Vec<Fr>,
    pub leaves: Vec<Fr>,
    pub tree: Vec<Vec<Fr>>,
    pub commitment_root: Fr,
}

impl DataSector {
    /// The stored levels, as values.
    pub open spec fn tree_values(&self) -> Seq<Seq<nat>> {
        self.tree@.map_values(|v: Vec<Fr>| values_of(v@))
    }

    /// The number of levels between the leaves and the root.
    pub open spec fn depth(&self) -> nat {
        (self.tree@.len() - 1) as nat
    }

    /// A power-of-two number of values, their leaves `H(d, 0)`, the levels of
    /// the tree over those leaves, and its root.
    pub open spec fn wf(&self, p: Poseidon2) -> bool {
        &&& is_power_of_two(self.raw_data@.len())
        &&& values_of(self.leaves@) == data_leaves(p, self.raw_data@)
        &&& self.tree_values() == levels(p, data_leaves(p, self.raw_data@))
        &&& self.commitment_root@ == merkle_root(p, data_leaves(p, self.raw_data@))
    }

    /// Commits to the given values, a power-of-two number of them.
    fn commit(p: &Poseidon2, raw_data: Vec<Fr>) -> (s: DataSector)
        requires
            p.wf(),
            is_power_of_two(raw_data@.len()),
        ensures
            s.wf(*p),
            s.raw_data@ == raw_data@,
    {
        let mut pairs: Vec<(Fr, Fr)> = Vec::new();
        let zero = Fr::zero();
        for i in 0..raw_data.len()
            invariant
                zero@ == 0,
                pairs@.len() == i,
                forall|k: int| 0 <= k < i ==> (#[trigger] pairs@[k]).0 == raw_data@[k] && pairs@[k].1 == zero,
        {
            pairs.push((raw_data[i], zero));
        }
        let tree = MerkleTree::build(p, pairs.as_slice());
        proof {
            assert(crate::merkle_tree::leaves_of(*p, pairs@) =~= data_leaves(*p, raw_data@));
        }
        DataSector { raw_data, leaves: tree.leaves, tree: tree.nodes, commitment_root: tree.root }
    }

    /// Commits to a sector of shard texts: each text is hashed into the
    /// field, and zeros pad the values to eight, or to the next power of
    /// two beyond eight shards.
    pub fn new(p: &Poseidon2, raw_shards: Vec<String>) -> (s: DataSector)
        requires
            p.wf(),
            pow2_ceiling(raw_shards@.len() as nat) <= usize::MAX,
        ensures
            s.wf(*p),
            s.raw_data@.len() == sector_size(raw_shards@.len() as nat),
            forall|i: int|
                0 <= i < s.raw_data@.len() ==> #[trigger] s.raw_data@[i]@ == if i < raw_shards@.len() {
                    shard_value(vstd::utf8::encode_utf8(raw_shards@[i]@))
                } else {
                    0
                },
    {
        let n = raw_shards.len();
        let c = next_power_of_two(n);
        let target = if c < 8 { 8 } else { c };
        proof {
            lemma_pow2_ceiling(n as nat);
            reveal_with_fuel(is_power_of_two, 4);
            assert(is_power_of_two(8));
        }
        let mut raw_data: Vec<Fr> = Vec::new();
        for i in 0..target
            invariant
                target == sector_size(n as nat),
                n == raw_shards@.len(),
                target >= n,
                raw_data@.len() == i,
                forall|k: int|
                    0 <= k < i ==> #[trigger] raw_data@[k]@ == if k < n {
                        shard_value(vstd::utf8::encode_utf8(raw_shards@[k]@))
                    } else {
                        0
                    },
        {
            if i < n {
                raw_data.push(shard_text_to_field(raw_shards[i].as_str()));
            } else {
                raw_data.push(Fr::zero());
            }
        }
        Self::commit(p, raw_data)
    }
}

/// The number of values a sector of `n` shards holds: eight, or the next
/// power of two beyond eight shards.
pub open spec fn sector_size(n: nat) -> nat {
    if pow2_ceiling(n) < 8 {
        8
    } else {
        pow2_ceiling(n)
    }
}

/// The value of a short text: its first 31 bytes (or fewer) read as a
/// little-endian integer.
pub open spec fn short_text_value(text: Seq<u8>) -> nat {
    crate::field::le_value(if text.len() <= 31 { text } else { text.take(31) })
}

impl DataSector {
    /// Commits to a handful of short texts: each text's first 31 bytes give
    /// its value, and zeros pad the values to eight.
    pub fn from_short_texts(p: &Poseidon2, raw_shards: &[&str]) -> (s: DataSector)
        requires
            p.wf(),
            is_power_of_two(if raw_shards@.len() <= 8 { 8 } else { raw_shards@.len() as nat }),
        ensures
            s.wf(*p),
            s.raw_data@.len() == (if raw_shards@.len() <= 8 { 8 } else { raw_shards@.len() as nat }),
            forall|i: int|
                0 <= i < s.raw_data@.len() ==> #[trigger] s.raw_data@[i]@ == if i < raw_shards@.len() {
                    short_text_value(raw_shards@[i].spec_bytes())
                } else {
                    0
                },
    {
        let n = raw_shards.len();
        let target = if n <= 8 { 8 } else { n };
        let mut raw_data: Vec<Fr> = Vec::new();
        for i in 0..target
            invariant
                target == (if n <= 8 { 8 } else { n }),
                n == raw_shards@.len(),
                raw_data@.len() == i,
                forall|k: int|
                    0 <= k < i ==> #[trigger] raw_data@[k]@ == if k < n {
                        short_text_value(raw_shards@[k].spec_bytes())
                    } else {
                        0
                    },
        {
            if i < n {
                let bytes = raw_shards[i].as_bytes();
                let len = if bytes.len() <= 31 { bytes.len() } else { 31 };
                let mut repr = [0u8; 32];
                for j in 0..len
                    invariant
                        len <= 31,
                        len <= bytes@.len(),
                        forall|m: int| 0 <= m < j ==> repr@[m] == bytes@[m],
                        forall|m: int| j <= m < 32 ==> repr@[m] == 0,
                {
                    repr[j] = bytes[j];
                }
                let ghost w = if bytes@.len() <= 31 { bytes@ } else { bytes@.take(31) };
                proof {
                    let z = Seq::new((32 - len) as nat, |m: int| 0u8);
                    assert(repr@ =~= w + z);
                    crate::field::lemma_le_zero_padding(w, z.len());
                    crate::encoding::lemma_window_fits(w);
                }
                let value = match Fr::from_repr(repr) {
                    Some(x) => x,
                    None => Fr::zero(),
                };
                raw_data.push(value);
            } else {
                raw_data.push(Fr::zero());
            }
        }
        Self::commit(p, raw_data)
    }
}

/// The value standing for a direction bit: one for a right child.
pub open spec fn dir_value(b: bool) -> nat {
    if b {
        1
    } else {
        0
    }
}

impl DataSector {
    /// The opening of leaf `index`: its value, the siblings from the leaf
    /// level up, and for each level one when the running node is a right
    /// child and zero otherwise.
    pub fn get_proof(&self, index: usize) -> (r: (Fr, Vec<Fr>, Vec<Fr>))
        requires
            exists|p: Poseidon2| self.wf(p),
            index < self.raw_data@.len(),
        ensures
            r.0 == self.raw_data@[index as int],
            values_of(r.1@) == path_siblings(self.tree_values(), index as nat),
            values_of(r.2@) == low_bits(index as nat, self.depth()).map_values(|b: bool| dir_value(b)),
    {
        let ghost p = choose|p: Poseidon2| self.wf(p);
        let ghost lv = self.tree_values();
        let ghost leaves = data_leaves(p, self.raw_data@);
        proof {
            lemma_levels_shape(p, leaves);
        }
        let mut current = index;
        let mut siblings: Vec<Fr> = Vec::new();
        let mut directions: Vec<Fr> = Vec::new();
        let top = self.tree.len() - 1;
        for level in 0..top
            invariant
                lv == levels(p, leaves),
                lv.len() == self.tree@.len(),
                forall|k: int| 0 <= k < lv.len() ==> #[trigger] lv[k] == values_of(self.tree@[k]@),
                top == lv.len() - 1,
                index < leaves.len(),
                current == shr(index as nat, level as nat),
                current < lv[level as int].len(),
                forall|k: int| 0 <= k < lv.len() - 1 ==> lv[k + 1] == pair_level(p, #[trigger] lv[k]) && lv[k].len() >= 2,
                forall|k: int| 0 <= k < lv.len() ==> is_power_of_two(#[trigger] lv[k].len()),
                values_of(siblings@) == path_siblings(lv, index as nat).take(level as int),
                values_of(directions@) == low_bits(index as nat, top as nat).map_values(|b: bool| dir_value(b)).take(
                    level as int,
                ),
        {
            let is_right = current % 2 == 1;
            proof {
                crate::bits::lemma_power_of_two_half(lv[level as int].len());
            }
            let sibling_index = if is_right { current - 1 } else { current + 1 };
            let row = &self.tree[level];
            assert(values_of(row@) == lv[level as int]);
            let sib = row[sibling_index];
            let ghost prev_sibs = siblings@;
            let ghost prev_dirs = directions@;
            siblings.push(sib);
            let d = if is_right { Fr::one() } else { Fr::zero() };
            directions.push(d);
            proof {
                crate::poseidon2::lemma_values_push(prev_sibs, sib);
                crate::poseidon2::lemma_values_push(prev_dirs, d);
                crate::bits::lemma_shr_succ(index as nat, level as nat);
                assert(values_of(siblings@) =~= path_siblings(lv, index as nat).take(level + 1));
                assert(values_of(directions@) =~= low_bits(index as nat, top as nat).map_values(
                    |b: bool| dir_value(b),
                ).take(level + 1));
            }
            current = current / 2;
        }
        proof {
            assert(values_of(siblings@) =~= path_siblings(lv, index as nat));
            assert(values_of(directions@) =~= low_bits(index as nat, top as nat).map_values(|b: bool| dir_value(b)));
        }
        (self.raw_data[index], siblings, directions)
    }
}


/// The first constraint of a proof-of-storage step that the witness
/// violates.
#[derive(Clone, Copy, Debug, PartialEq, Eq, Structural)]
pub enum PoStFailure {
    /// A direction value `x` has `x * x != x`.
    NonBooleanIndex,
    /// The direction values, read as binary digits, do not give the
    /// challenged index.
    ChallengeIndex,
    /// The path does not hash up to the expected root.
    MerkleRoot,
}

/// The pair hashed at one level: with direction value `x`, the running node
/// `cur` and the sibling `sib` are swapped by `x * (cur - sib)`; for `x = 0`
/// it is `(cur, sib)` and for `x = 1` it is `(sib, cur)`.
pub open spec fn selected_hash(p: Poseidon2, cur: nat, sib: nat, x: nat) -> nat {
    let t = fmul(x, crate::field::fsub(cur, sib));
    hash2(p, crate::field::fsub(cur, t), fadd(sib, t))
}

/// The node reached after `k` levels of selected hashing from `leaf`.
pub open spec fn selected_fold(p: Poseidon2, leaf: nat, sibs: Seq<nat>, dirs: Seq<nat>, k: nat) -> nat
    decreases k,
{
    if k == 0 {
        leaf
    } else {
        selected_hash(p, selected_fold(p, leaf, sibs, dirs, (k - 1) as nat), sibs[k - 1], dirs[k - 1])
    }
}

/// The index read from the first `k` direction values: the sum of value
/// `i` times `2^i`, in the field.
pub open spec fn index_sum(dirs: Seq<nat>, k: nat) -> nat
    decreases k,
{
    if k == 0 {
        0
    } else {
        fadd(index_sum(dirs, (k - 1) as nat), fmul(pow2((k - 1) as nat) % modulus(), dirs[k - 1]))
    }
}

/// One proof-of-storage step: the challenged value, its index, and the
/// path from its leaf `H(raw_data, 0)` to the root.
#[derive(Clone, Debug)]
pub struct PoStStepCircuit {
    pub raw_data: Fr,
    pub challenge_index: Fr,
    pub path_elements: Vec<Fr>,
    pub path_indices: Vec<Fr>,
}

impl PoStStepCircuit {
    /// The first violated constraint for the state `(step, root)`, in the
    /// order the circuit enforces them; `None` when all hold.
    pub open spec fn step_failure(&self, p: Poseidon2, z: Seq<nat>) -> Option<PoStFailure> {
        let n = self.path_elements@.len();
        let dirs = values_of(self.path_indices@);
        if exists|i: int| 0 <= i < n && fmul(#[trigger] dirs[i], dirs[i]) != dirs[i] {
            Some(PoStFailure::NonBooleanIndex)
        } else if index_sum(dirs, n) != self.challenge_index@ {
            Some(PoStFailure::ChallengeIndex)
        } else if selected_fold(p, hash2(p, self.raw_data@, 0), values_of(self.path_elements@), dirs, n) != z[1] {
            Some(PoStFailure::MerkleRoot)
        } else {
            None
        }
    }

    /// Evaluates the step natively against the state `(step, root)`: the
    /// first violated constraint, or the next state `(step + 1, root)`.
    pub fn native_step(&self, p: &Poseidon2, z: &[Fr]) -> (r: Result<Vec<Fr>, PoStFailure>)
        requires
            p.wf(),
            z@.len() == 2,
            self.path_indices@.len() >= self.path_elements@.len(),
        ensures
            match r {
                Ok(next) => self.step_failure(*p, values_of(z@)) is None && values_of(next@) == seq![
                    fadd(z@[0]@, 1),
                    z@[1]@,
                ],
                Err(e) => self.step_failure(*p, values_of(z@)) == Some(e),
            },
    {
        let n = self.path_elements.len();
        let ghost dirs = values_of(self.path_indices@);
        for i in 0..n
            invariant
                n == self.path_elements@.len(),
                n <= self.path_indices@.len(),
                dirs == values_of(self.path_indices@),
                forall|m: int| 0 <= m < i ==> fmul(#[trigger] dirs[m], dirs[m]) == dirs[m],
        {
            let x = self.path_indices[i];
            if !x.square().equals(&x) {
                assert(fmul(dirs[i as int], dirs[i as int]) != dirs[i as int]);
                return Err(PoStFailure::NonBooleanIndex);
            }
        }
        let mut sum = Fr::zero();
        let mut multiplier = Fr::one();
        let two = Fr::from_u64(2);
        let zero = Fr::zero();
        let mut current = p.hash_2(&self.raw_data, &zero);
        for i in 0..n
            invariant
                p.wf(),
                n == self.path_elements@.len(),
                n <= self.path_indices@.len(),
                dirs == values_of(self.path_indices@),
                two@ == 2,
                sum@ == index_sum(dirs, i as nat),
                multiplier@ == pow2(i as nat) % modulus(),
                current@ == selected_fold(*p, hash2(*p, self.raw_data@, 0), values_of(self.path_elements@), dirs, i as nat),
        {
            let x = self.path_indices[i];
            let sib = self.path_elements[i];
            sum = sum.add(&multiplier.mul(&x));
            let next_multiplier = multiplier.mul(&two);
            proof {
                let m = modulus();
                vstd::arithmetic::div_mod::lemma_mul_mod_noop_left(pow2(i as nat) as int, 2, m as int);
                assert(pow2((i + 1) as nat) == pow2(i as nat) * 2);
            }
            multiplier = next_multiplier;
            let t = x.mul(&current.sub(&sib));
            let left = current.sub(&t);
            let right = sib.add(&t);
            current = p.hash_2(&left, &right);
        }
        if !sum.equals(&self.challenge_index) {
            return Err(PoStFailure::ChallengeIndex);
        }
        if !current.equals(&z[1]) {
            return Err(PoStFailure::MerkleRoot);
        }
        let mut next: Vec<Fr> = Vec::new();
        next.push(z[0].add(&Fr::one()));
        next.push(z[1]);
        proof {
            assert(values_of(next@) =~= seq![fadd(z@[0]@, 1), z@[1]@]);
        }
        Ok(next)
    }
}


/// Direction values read from binary digits give back the number: the
/// first `k` values of the digits of `n` sum to `n mod 2^k`.
pub proof fn lemma_index_sum_of_bits(n: nat, len: nat, k: nat)
    requires
        k <= len,
        len <= 254,
    ensures
        index_sum(low_bits(n, len).map_values(|b: bool| dir_value(b)), k) == n % pow2(k),
    decreases k,
{
    let dirs = low_bits(n, len).map_values(|b: bool| dir_value(b));
    if k == 0 {
        assert(pow2(0) == 1);
    } else {
        let k1 = (k - 1) as nat;
        lemma_index_sum_of_bits(n, len, k1);
        crate::bits::lemma_low_value_step(n, k1);
        crate::bits::lemma_pow2_monotone(k, 254);
        crate::bits::lemma_pow2_monotone(k1, k);
        crate::bits::lemma_pow2_pos(k1);
        crate::bits::lemma_pow2_pos(k);
        lemma_pow2_254();
        let m = modulus();
        vstd::arithmetic::div_mod::lemma_small_mod(pow2(k1), m);
        assert(dirs[k1 as int] == dir_value(bit(n, k1)));
        let term = fmul(pow2(k1) % m, dirs[k1 as int]);
        assert(term == (if bit(n, k1) { pow2(k1) } else { 0 })) by {
            let q = pow2(k1) % m;
            assert(q == pow2(k1));
            if bit(n, k1) {
                assert(dirs[k1 as int] == 1);
                assert(q * 1 == q);
                vstd::arithmetic::div_mod::lemma_small_mod(pow2(k1), m);
            } else {
                assert(dirs[k1 as int] == 0);
                assert(q * 0 == 0);
                vstd::arithmetic::div_mod::lemma_small_mod(0, m);
            }
        }
        assert(n % pow2(k) < pow2(k)) by {
            vstd::arithmetic::div_mod::lemma_mod_bound(n as int, pow2(k) as int);
        }
        vstd::arithmetic::div_mod::lemma_small_mod(n % pow2(k), m);
    }
}

proof fn lemma_pow2_254()
    ensures
        pow2(254) < modulus(),
{
    reveal_with_fuel(pow2, 33);
    assert(pow2(32) == 0x1_0000_0000nat);
    assert(pow2(30) == 0x4000_0000nat);
    crate::bits::lemma_pow2_add(32, 32);
    assert(pow2(64) == 0x1_0000_0000_0000_0000nat);
    crate::bits::lemma_pow2_add(64, 64);
    assert(pow2(128) == 0x1_0000_0000_0000_0000_0000_0000_0000_0000nat);
    crate::bits::lemma_pow2_add(32, 30);
    assert(pow2(62) == 0x4000_0000_0000_0000nat);
    crate::bits::lemma_pow2_add(64, 62);
    assert(pow2(126) == 0x4000_0000_0000_0000_0000_0000_0000_0000nat);
    crate::bits::lemma_pow2_add(128, 126);
    assert(pow2(254) == 0x4000_0000_0000_0000_0000_0000_0000_0000_0000_0000_0000_0000_0000_0000_0000_0000nat);
}

/// With direction values zero and one, selected hashing of field values is
/// the ordinary path fold: zero keeps the running node on the left, one
/// puts it on the right.
pub proof fn lemma_selected_fold_bits(p: Poseidon2, leaf: nat, sibs: Seq<nat>, bits: Seq<bool>, k: nat)
    requires
        k <= sibs.len(),
        k <= bits.len(),
        leaf < modulus(),
        forall|i: int| 0 <= i < sibs.len() ==> #[trigger] sibs[i] < modulus(),
    ensures
        selected_fold(p, leaf, sibs, bits.map_values(|b: bool| dir_value(b)), k) == fold_path(p, leaf, sibs, bits, k),
        fold_path(p, leaf, sibs, bits, k) < modulus(),
    decreases k,
{
    let dirs = bits.map_values(|b: bool| dir_value(b));
    if k > 0 {
        let k1 = (k - 1) as nat;
        lemma_selected_fold_bits(p, leaf, sibs, bits, k1);
        let cur = fold_path(p, leaf, sibs, bits, k1);
        let sib = sibs[k1 as int];
        let m = modulus();
        let x = dirs[k1 as int];
        let d = crate::field::fsub(cur, sib);
        if bits[k1 as int] {
            assert(x == 1);
            vstd::arithmetic::div_mod::lemma_small_mod(d, m);
            assert(fmul(1, d) == d);
            if cur >= sib {
                vstd::arithmetic::div_mod::lemma_mod_add_multiples_vanish((cur - sib) as int, m as int);
                vstd::arithmetic::div_mod::lemma_small_mod((cur - sib) as nat, m);
                vstd::arithmetic::div_mod::lemma_mod_add_multiples_vanish(sib as int, m as int);
                vstd::arithmetic::div_mod::lemma_small_mod(sib, m);
                vstd::arithmetic::div_mod::lemma_small_mod(cur, m);
            } else {
                vstd::arithmetic::div_mod::lemma_small_mod((cur + m - sib) as nat, m);
                vstd::arithmetic::div_mod::lemma_small_mod(sib, m);
                vstd::arithmetic::div_mod::lemma_mod_add_multiples_vanish(cur as int, m as int);
                vstd::arithmetic::div_mod::lemma_small_mod(cur, m);
            }
        } else {
            assert(x == 0);
            assert(fmul(0, d) == 0) by {
                vstd::arithmetic::div_mod::lemma_small_mod(0, m);
            }
            vstd::arithmetic::div_mod::lemma_mod_add_multiples_vanish(cur as int, m as int);
            vstd::arithmetic::div_mod::lemma_small_mod(cur, m);
            vstd::arithmetic::div_mod::lemma_small_mod(sib, m);
        }
        if bits[k1 as int] {
            crate::poseidon2::lemma_hash2_bound(p, sib, cur);
        } else {
            crate::poseidon2::lemma_hash2_bound(p, cur, sib);
        }
    }
}

/// The path of leaf `index` of a committed sector is made of field values.
proof fn lemma_opening_siblings_bound(p: Poseidon2, s: DataSector, index: nat)
    requires
        s.wf(p),
        index < s.raw_data@.len(),
    ensures
        forall|i: int|
            0 <= i < path_siblings(s.tree_values(), index).len() ==> #[trigger] path_siblings(
                s.tree_values(),
                index,
            )[i] < modulus(),
{
    let leaves = data_leaves(p, s.raw_data@);
    let lv = levels(p, leaves);
    assert forall|i: int| 0 <= i < leaves.len() implies #[trigger] leaves[i] < modulus() by {
        crate::poseidon2::lemma_hash2_bound(p, s.raw_data@[i]@, 0);
    }
    crate::merkle_tree::lemma_levels_bound(p, leaves);
    let sibs = path_siblings(lv, index);
    assert forall|i: int| 0 <= i < sibs.len() implies #[trigger] sibs[i] < modulus() by {
        crate::merkle_tree::lemma_path_sibling_in_range(p, leaves, index, i as nat);
        let j = crate::merkle_tree::sibling_index(shr(index, i as nat)) as int;
        assert(sibs[i] == lv[i][j]);
    }
}

/// An honest opening is accepted: for a committed sector, the step built
/// from the opening of leaf `index` with challenged index `index` passes
/// against `(step, commitment_root)`.
pub proof fn lemma_opening_accepted(p: Poseidon2, s: DataSector, index: nat, c: PoStStepCircuit, z: Seq<nat>)
    requires
        s.wf(p),
        index < s.raw_data@.len(),
        s.depth() <= 254,
        c.raw_data == s.raw_data@[index as int],
        c.challenge_index@ == index,
        values_of(c.path_elements@) == path_siblings(s.tree_values(), index),
        values_of(c.path_indices@) == low_bits(index, s.depth()).map_values(|b: bool| dir_value(b)),
        z.len() == 2,
        z[1] == s.commitment_root@,
    ensures
        c.step_failure(p, z) is None,
{
    let leaves = data_leaves(p, s.raw_data@);
    let d = s.depth();
    let n = c.path_elements@.len();
    let dirs = values_of(c.path_indices@);
    let bits = low_bits(index, d);
    let sibs = path_siblings(s.tree_values(), index);
    assert(n == d && leaves.len() == pow2(d)) by {
        lemma_levels_shape(p, leaves);
        assert(s.tree_values().len() == s.tree@.len());
        assert(values_of(c.path_elements@).len() == n);
    }
    assert forall|i: int| 0 <= i < n implies fmul(#[trigger] dirs[i], dirs[i]) == dirs[i] by {
        vstd::arithmetic::div_mod::lemma_small_mod(0, modulus());
        vstd::arithmetic::div_mod::lemma_small_mod(1, modulus());
        assert(dirs[i] == dir_value(bits[i]));
        if bits[i] {
            assert(dirs[i] * dirs[i] == 1);
        } else {
            assert(dirs[i] * dirs[i] == 0);
        }
    }
    assert(index_sum(dirs, n) == index) by {
        lemma_index_sum_of_bits(index, d, d);
        vstd::arithmetic::div_mod::lemma_small_mod(index, pow2(d));
    }
    assert(selected_fold(p, hash2(p, c.raw_data@, 0), values_of(c.path_elements@), dirs, n) == z[1]) by {
        lemma_opening_siblings_bound(p, s, index);
        crate::poseidon2::lemma_hash2_bound(p, c.raw_data@, 0);
        lemma_selected_fold_bits(p, hash2(p, c.raw_data@, 0), sibs, bits, d);
        lemma_levels_shape(p, leaves);
        assert(s.tree_values() == levels(p, leaves));
        crate::merkle_tree::lemma_path_reaches_root(p, leaves, index);
    }
}


/// The number of challenges of a batch: the requested number, at least one
/// and at most the number of shards.
pub fn clamp_challenge_count(requested: usize, shard_count: usize) -> (r: usize)
    ensures
        r == (if requested < 1 {
            if 1 < shard_count { 1 } else { shard_count }
        } else if requested < shard_count {
            requested
        } else {
            shard_count
        }),
{
    let at_least_one = if requested < 1 { 1 } else { requested };
    if at_least_one < shard_count { at_least_one } else { shard_count }
}

impl DataSector {
    /// The steps proving the challenged leaves, in order: each is built from
    /// the opening of its leaf, with the leaf index as its challenge index.
    pub fn challenge_steps(&self, challenges: &[usize]) -> (r: Vec<PoStStepCircuit>)
        requires
            exists|p: Poseidon2| self.wf(p),
            forall|k: int| 0 <= k < challenges@.len() ==> #[trigger] challenges@[k] < self.raw_data@.len(),
        ensures
            r@.len() == challenges@.len(),
            forall|k: int|
                0 <= k < challenges@.len() ==> {
                    let c = #[trigger] r@[k];
                    &&& c.raw_data == self.raw_data@[challenges@[k] as int]
                    &&& c.challenge_index@ == challenges@[k]
                    &&& values_of(c.path_elements@) == path_siblings(self.tree_values(), challenges@[k] as nat)
                    &&& values_of(c.path_indices@) == low_bits(challenges@[k] as nat, self.depth()).map_values(
                        |b: bool| dir_value(b),
                    )
                },
    {
        let mut steps: Vec<PoStStepCircuit> = Vec::new();
        for k in 0..challenges.len()
            invariant
                exists|p: Poseidon2| self.wf(p),
                forall|m: int| 0 <= m < challenges@.len() ==> #[trigger] challenges@[m] < self.raw_data@.len(),
                steps@.len() == k,
                forall|m: int|
                    0 <= m < k ==> {
                        let c = #[trigger] steps@[m];
                        &&& c.raw_data == self.raw_data@[challenges@[m] as int]
                        &&& c.challenge_index@ == challenges@[m]
                        &&& values_of(c.path_elements@) == path_siblings(self.tree_values(), challenges@[m] as nat)
                        &&& values_of(c.path_indices@) == low_bits(challenges@[m] as nat, self.depth()).map_values(
                            |b: bool| dir_value(b),
                        )
                    },
        {
            let idx = challenges[k];
            let (raw_data, path_elements, path_indices) = self.get_proof(idx);
            steps.push(PoStStepCircuit { raw_data, challenge_index: Fr::from_u64(idx as u64), path_elements, path_indices });
        }
        steps
    }
}

} // verus!
