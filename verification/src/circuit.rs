//! The step relation of one proving step, evaluated natively: for a
//! challenge's witness and the running public state `z`, which constraint
//! of the step circuit fails first, and otherwise the next state.

use crate::bits::{bit, lemma_low_value_step, lemma_pow2_monotone, lemma_pow2_pos, pow2, repr_bit};
use crate::field::{fadd, fsub, modulus, Fr};
use crate::merkle_tree::fold_path;
use crate::poseidon2::{chain, hash2, hash4, values_of, Poseidon2};
use vstd::prelude::*;

verus! {

/// The witness of one proving step: the public context it binds to, the
/// challenged index `j_i` (counted from 1), the raw chunk value `D_ji`, the
/// states around it, and the Merkle path of leaf `j_i - 1`.
#[derive(Clone, Debug)]
pub struct EngramStepCircuit {
    pub epoch: usize,
    pub sector_id: Fr,
    pub sealed_root: Fr,
    pub beacon: Fr,
    pub j_i: usize,
    pub d_ji: Fr,
    pub s_ji_minus_1: Fr,
    pub s_ji: Fr,
    pub replica_id: Fr,
    pub path_ji_siblings: Vec<Fr>,
    pub path_ji_indices: Vec<bool>,
    pub tree_height: usize,
}

/// The first constraint of a step that the witness violates.
#[derive(Clone, Copy, Debug, PartialEq, Eq, Structural)]
pub enum StepFailure {
    /// `z[0]` is not the witness's epoch.
    EpochBinding,
    /// `z[2]` is not the witness's sector id.
    SectorIdBinding,
    /// `z[3]` is not the witness's sealed root.
    SealedRootBinding,
    /// `z[4]` is not the witness's beacon.
    BeaconBinding,
    /// `z[5]` is not the witness's replica id.
    ReplicaIdBinding,
    /// `S_ji` is not `H(S_{ji-1}, R_ji)`.
    StateTransition,
    /// `j_i` is not one more than the low bits of the challenge seed.
    ChallengeBinding,
    /// A direction bit of the path is not the binary digit of `j_i - 1`.
    MerkleBitBinding,
    /// The path does not hash up to the sealed root.
    MerkleRoot,
}

impl EngramStepCircuit {
    /// `R_ji = H4(D_ji, S_{ji-1}, j_i, replica_id)`.
    pub open spec fn replica_value(&self, p: Poseidon2) -> nat {
        hash4(p, self.d_ji@, self.s_ji_minus_1@, self.j_i as nat, self.replica_id@)
    }

    /// The challenge seed of the step whose counter is `counter`: the chain
    /// hash of the beacon, the sector id, the epoch and `counter + 1`.
    pub open spec fn seed_value(&self, p: Poseidon2, counter: nat) -> nat {
        chain(p, seq![self.beacon@, self.sector_id@, self.epoch as nat, fadd(counter, 1)])
    }

    /// The leaf index `j_i - 1` as a field value.
    pub open spec fn leaf_index_value(&self) -> nat {
        fsub(self.j_i as nat, 1)
    }

    /// The number of path levels: siblings and direction bits taken in pairs.
    pub open spec fn path_len(&self) -> nat {
        if self.path_ji_siblings@.len() <= self.path_ji_indices@.len() {
            self.path_ji_siblings@.len()
        } else {
            self.path_ji_indices@.len()
        }
    }

    /// Every direction bit is the matching binary digit of `j_i - 1`.
    pub open spec fn path_bits_bound(&self) -> bool {
        forall|k: int|
            0 <= k < self.path_len() ==> self.path_ji_indices@[k] == #[trigger] bit(self.leaf_index_value(), k as nat)
    }

    /// The node reached by hashing the leaf `H(R_ji, S_ji)` up the path.
    pub open spec fn path_root(&self, p: Poseidon2) -> nat {
        fold_path(
            p,
            hash2(p, self.replica_value(p), self.s_ji@),
            values_of(self.path_ji_siblings@),
            self.path_ji_indices@,
            self.path_len(),
        )
    }

    /// The first violated constraint for the public state `z`, in the order
    /// the circuit enforces them; `None` when all hold.
    pub open spec fn step_failure(&self, p: Poseidon2, z: Seq<nat>) -> Option<StepFailure> {
        if z[0] != self.epoch as nat {
            Some(StepFailure::EpochBinding)
        } else if z[2] != self.sector_id@ {
            Some(StepFailure::SectorIdBinding)
        } else if z[3] != self.sealed_root@ {
            Some(StepFailure::SealedRootBinding)
        } else if z[4] != self.beacon@ {
            Some(StepFailure::BeaconBinding)
        } else if z[5] != self.replica_id@ {
            Some(StepFailure::ReplicaIdBinding)
        } else if self.s_ji@ != hash2(p, self.s_ji_minus_1@, self.replica_value(p)) {
            Some(StepFailure::StateTransition)
        } else if fadd(self.seed_value(p, z[1]) % pow2(self.tree_height as nat), 1) != self.j_i as nat {
            Some(StepFailure::ChallengeBinding)
        } else if !self.path_bits_bound() {
            Some(StepFailure::MerkleBitBinding)
        } else if self.path_root(p) != self.sealed_root@ {
            Some(StepFailure::MerkleRoot)
        } else {
            None
        }
    }

    /// The public state after the step: the counter advances and the
    /// accumulator absorbs `H4(j_i, S_ji, R_ji, 0)`.
    pub open spec fn next_state(&self, p: Poseidon2, z: Seq<nat>) -> Seq<nat> {
        seq![
            self.epoch as nat,
            fadd(z[1], 1),
            self.sector_id@,
            self.sealed_root@,
            self.beacon@,
            self.replica_id@,
            hash2(p, z[6], hash4(p, self.j_i as nat, self.s_ji@, self.replica_value(p), 0)),
        ]
    }
}


/// `2^254` is below the field order, so sums of the low 255 digits of a
/// field value never wrap.
proof fn lemma_pow2_254_below_modulus()
    ensures
        pow2(254) < modulus(),
{
    reveal_with_fuel(pow2, 33);
    assert(pow2(32) == 0x1_0000_0000nat);
    assert(pow2(30) == 0x4000_0000nat);
    crate::bits::lemma_pow2_add(32, 32);
    assert(pow2(64) == 0x1_0000_0000_0000_0000nat);
    crate::bits::lemma_pow2_add(64, 64);
    assert(pow2(128) == 0x1_0000_0000_0000_0000_0000_0000_0000_0000nat);
    crate::bits::lemma_pow2_add(32, 30);
    assert(pow2(62) == 0x4000_0000_0000_0000nat);
    crate::bits::lemma_pow2_add(64, 62);
    assert(pow2(126) == 0x4000_0000_0000_0000_0000_0000_0000_0000nat);
    crate::bits::lemma_pow2_add(128, 126);
    assert(pow2(254) == 0x4000_0000_0000_0000_0000_0000_0000_0000_0000_0000_0000_0000_0000_0000_0000_0000nat);
}

/// The value of the low `h` binary digits of `x`, as a field element.
fn low_digits(x: &Fr, h: usize) -> (r: Fr)
    requires
        h <= 255,
    ensures
        r@ == x@ % pow2(h as nat),
{
    let bytes = x.to_repr();
    let mut acc = Fr::zero();
    let mut factor = Fr::one();
    proof {
        lemma_pow2_254_below_modulus();
    }
    for i in 0..h
        invariant
            h <= 255,
            pow2(254) < modulus(),
            x@ < modulus(),
            crate::field::le_value(bytes@) == x@,
            acc@ == x@ % pow2(i as nat),
            factor@ == pow2(i as nat) % modulus(),
    {
        proof {
            lemma_low_value_step(x@, i as nat);
            lemma_pow2_monotone(i as nat, 254);
            lemma_pow2_pos(i as nat);
            vstd::arithmetic::div_mod::lemma_small_mod(pow2(i as nat), modulus());
            assert(x@ % pow2((i + 1) as nat) <= x@) by {
                lemma_pow2_pos((i + 1) as nat);
                vstd::arithmetic::div_mod::lemma_mod_decreases(x@, pow2((i + 1) as nat));
            }
        }
        if repr_bit(&bytes, i) {
            acc = acc.add(&factor);
            proof {
                vstd::arithmetic::div_mod::lemma_small_mod(x@ % pow2((i + 1) as nat), modulus());
            }
        }
        let next = factor.add(&factor);
        proof {
            assert(pow2((i + 1) as nat) == 2 * pow2(i as nat));
        }
        factor = next;
    }
    acc
}

impl EngramStepCircuit {
    /// The public state the step outputs from `z`, whether or not its
    /// constraints hold: the witness's epoch, the counter advanced, the
    /// witness's sector id, sealed root, beacon and replica id, and the
    /// accumulator absorbing `H4(j_i, S_ji, R_ji, 0)`.
    pub fn step_output(&self, p: &Poseidon2, z: &[Fr]) -> (r: Vec<Fr>)
        requires
            p.wf(),
            z@.len() == 7,
        ensures
            values_of(r@) == self.next_state(*p, values_of(z@)),
    {
        let epoch_fr = Fr::from_u64(self.epoch as u64);
        let j_i_fr = Fr::from_u64(self.j_i as u64);
        let r_ji = p.poseidon2_hash_4(&self.d_ji, &self.s_ji_minus_1, &j_i_fr, &self.replica_id);
        let counter_next = z[1].add(&Fr::one());
        let zero = Fr::zero();
        let inner = p.poseidon2_hash_4(&j_i_fr, &self.s_ji, &r_ji, &zero);
        let acc_next = p.hash_2(&z[6], &inner);
        let mut next: Vec<Fr> = Vec::new();
        next.push(epoch_fr);
        next.push(counter_next);
        next.push(self.sector_id);
        next.push(self.sealed_root);
        next.push(self.beacon);
        next.push(self.replica_id);
        next.push(acc_next);
        proof {
            assert(values_of(next@) =~= self.next_state(*p, values_of(z@)));
        }
        next
    }
}

impl EngramStepCircuit {
    /// Evaluates the step natively against the public state `z`: the first
    /// violated constraint, or the next public state.
    #[verifier::loop_isolation(false)]
    pub fn native_step(&self, p: &Poseidon2, z: &[Fr]) -> (r: Result<Vec<Fr>, StepFailure>)
        requires
            p.wf(),
            z@.len() == 7,
            self.tree_height <= 255,
            self.path_len() <= 255,
        ensures
            match r {
                Ok(next) => self.step_failure(*p, values_of(z@)) is None && values_of(next@) == self.next_state(
                    *p,
                    values_of(z@),
                ),
                Err(e) => self.step_failure(*p, values_of(z@)) == Some(e),
            },
    {
        let ghost zv = values_of(z@);
        let epoch_fr = Fr::from_u64(self.epoch as u64);
        if !z[0].equals(&epoch_fr) {
            return Err(StepFailure::EpochBinding);
        }
        if !z[2].equals(&self.sector_id) {
            return Err(StepFailure::SectorIdBinding);
        }
        if !z[3].equals(&self.sealed_root) {
            return Err(StepFailure::SealedRootBinding);
        }
        if !z[4].equals(&self.beacon) {
            return Err(StepFailure::BeaconBinding);
        }
        if !z[5].equals(&self.replica_id) {
            return Err(StepFailure::ReplicaIdBinding);
        }
        let j_i_fr = Fr::from_u64(self.j_i as u64);
        let r_ji = p.poseidon2_hash_4(&self.d_ji, &self.s_ji_minus_1, &j_i_fr, &self.replica_id);
        let expected_s_ji = p.hash_2(&self.s_ji_minus_1, &r_ji);
        if !expected_s_ji.equals(&self.s_ji) {
            return Err(StepFailure::StateTransition);
        }
        let one = Fr::one();
        let counter_next = z[1].add(&one);
        let seed_inputs = [self.beacon, self.sector_id, epoch_fr, counter_next];
        let seed = p.poseidon2_chain(seed_inputs.as_slice());
        proof {
            assert(values_of(seed_inputs@) =~= seq![self.beacon@, self.sector_id@, self.epoch as nat, fadd(zv[1], 1)]);
        }
        let low = low_digits(&seed, self.tree_height);
        if !low.add(&one).equals(&j_i_fr) {
            return Err(StepFailure::ChallengeBinding);
        }
        let leaf_index = j_i_fr.sub(&one);
        let leaf_bytes = leaf_index.to_repr();
        let n = if self.path_ji_siblings.len() <= self.path_ji_indices.len() {
            self.path_ji_siblings.len()
        } else {
            self.path_ji_indices.len()
        };
        for k in 0..n
            invariant
                n == self.path_len(),
                n <= 255,
                crate::field::le_value(leaf_bytes@) == self.leaf_index_value(),
                forall|m: int| 0 <= m < k ==> self.path_ji_indices@[m] == #[trigger] bit(self.leaf_index_value(), m as nat),
        {
            if self.path_ji_indices[k] != repr_bit(&leaf_bytes, k) {
                assert(self.path_ji_indices@[k as int] != bit(self.leaf_index_value(), k as nat));
                assert(!self.path_bits_bound()) by {
                    let ki: int = k as int;
                    if self.path_bits_bound() {
                        assert(self.path_ji_indices@[ki] == bit(self.leaf_index_value(), ki as nat));
                    }
                }
                return Err(StepFailure::MerkleBitBinding);
            }
        }
        let mut current = p.hash_2(&r_ji, &self.s_ji);
        for k in 0..n
            invariant
                p.wf(),
                n == self.path_len(),
                n <= self.path_ji_siblings@.len(),
                n <= self.path_ji_indices@.len(),
                current@ == fold_path(
                    *p,
                    hash2(*p, self.replica_value(*p), self.s_ji@),
                    values_of(self.path_ji_siblings@),
                    self.path_ji_indices@,
                    k as nat,
                ),
        {
            if self.path_ji_indices[k] {
                current = p.hash_2(&self.path_ji_siblings[k], &current);
            } else {
                current = p.hash_2(&current, &self.path_ji_siblings[k]);
            }
        }
        if !current.equals(&self.sealed_root) {
            return Err(StepFailure::MerkleRoot);
        }
        let next = self.step_output(p, z);
        Ok(next)
    }
}


/// The public state after the first `k` steps, each applied to the state
/// left by the one before, starting from `z0`.
pub open spec fn state_after(p: Poseidon2, steps: Seq<EngramStepCircuit>, z0: Seq<nat>, k: nat) -> Seq<nat>
    decreases k,
{
    if k == 0 {
        z0
    } else {
        steps[k - 1].next_state(p, state_after(p, steps, z0, (k - 1) as nat))
    }
}

/// Step `k` fails against the state the earlier steps left.
pub open spec fn fails_at(p: Poseidon2, steps: Seq<EngramStepCircuit>, z0: Seq<nat>, k: int) -> Option<StepFailure> {
    steps[k].step_failure(p, state_after(p, steps, z0, k as nat))
}

/// What can be evaluated natively: every step's tree height and path length
/// fit the 255-bit decomposition.
pub open spec fn steps_in_range(steps: Seq<EngramStepCircuit>) -> bool {
    forall|k: int| 0 <= k < steps.len() ==> (#[trigger] steps[k]).tree_height <= 255 && steps[k].path_len() <= 255
}

/// Evaluates an epoch's steps in order from the public input `z0`, as the
/// verifier of the folded proof checks them: the final state when every
/// step holds, or the first failing step and its violated constraint.
pub fn evaluate_epoch(p: &Poseidon2, steps: &[EngramStepCircuit], z0: &[Fr]) -> (r: Result<Vec<Fr>, (usize, StepFailure)>)
    requires
        p.wf(),
        z0@.len() == 7,
        steps_in_range(steps@),
    ensures
        match r {
            Ok(zf) => (forall|k: int| 0 <= k < steps@.len() ==> #[trigger] fails_at(*p, steps@, values_of(z0@), k) is None)
                && values_of(zf@) == state_after(*p, steps@, values_of(z0@), steps@.len()),
            Err((k, e)) => k < steps@.len() && fails_at(*p, steps@, values_of(z0@), k as int) == Some(e) && forall|m: int|
                0 <= m < k ==> #[trigger] fails_at(*p, steps@, values_of(z0@), m) is None,
        },
{
    let mut z: Vec<Fr> = crate::field::elements_to_vec(z0);
    for k in 0..steps.len()
        invariant
            p.wf(),
            steps_in_range(steps@),
            values_of(z@) == state_after(*p, steps@, values_of(z0@), k as nat),
            z@.len() == 7,
            forall|m: int| 0 <= m < k ==> #[trigger] fails_at(*p, steps@, values_of(z0@), m) is None,
    {
        let step = &steps[k];
        assert(step.tree_height <= 255 && step.path_len() <= 255);
        match step.native_step(p, z.as_slice()) {
            Ok(next) => {
                z = next;
                assert(values_of(z@).len() == z@.len());
            },
            Err(e) => {
                return Err((k, e));
            },
        }
    }
    Ok(z)
}

/// The public input `z_0` of an epoch's proof, as values.
pub open spec fn public_input_values(epoch: nat, sector_id: nat, sealed_root: nat, beacon: nat, replica_id: nat) -> Seq<nat> {
    seq![epoch, 0, sector_id, sealed_root, beacon, replica_id, replica_id]
}

/// Steps proved for one epoch are rejected against another epoch's public
/// input: the very first step fails its epoch binding.
pub proof fn lemma_epoch_mismatch_rejected(
    p: Poseidon2,
    steps: Seq<EngramStepCircuit>,
    verify_epoch: usize,
    sector_id: nat,
    sealed_root: nat,
    beacon: nat,
    replica_id: nat,
)
    requires
        steps.len() > 0,
        steps[0].epoch != verify_epoch,
    ensures
        fails_at(p, steps, public_input_values(verify_epoch as nat, sector_id, sealed_root, beacon, replica_id), 0)
            == Some(StepFailure::EpochBinding),
{
}

/// Accepted steps keep the public context and advance the counter: after
/// `k` accepted steps the epoch, sector id, sealed root, beacon and replica
/// id are those of the steps' witnesses (and of `z_0`, which the first step
/// binds to), and the counter is `z_0[1] + k` in the field.
pub proof fn lemma_accepted_steps_keep_context(
    p: Poseidon2,
    steps: Seq<EngramStepCircuit>,
    z0: Seq<nat>,
    k: nat,
)
    requires
        z0.len() == 7,
        z0[1] < modulus(),
        k <= steps.len(),
        forall|m: int| 0 <= m < k ==> #[trigger] fails_at(p, steps, z0, m) is None,
    ensures
        state_after(p, steps, z0, k).len() == 7,
        state_after(p, steps, z0, k)[1] == (z0[1] + k) % modulus(),
        forall|i: int| 0 <= i < 7 && i != 1 && i != 6 ==> #[trigger] state_after(p, steps, z0, k)[i] == z0[i],
    decreases k,
{
    if k == 0 {
        vstd::arithmetic::div_mod::lemma_small_mod(z0[1], modulus());
    } else {
        let k1 = (k - 1) as nat;
        lemma_accepted_steps_keep_context(p, steps, z0, k1);
        let prev = state_after(p, steps, z0, k1);
        assert(fails_at(p, steps, z0, k1 as int) is None);
        assert(steps[k1 as int].step_failure(p, prev) is None);
        vstd::arithmetic::div_mod::lemma_add_mod_noop((z0[1] + k1) as int, 1, modulus() as int);
        vstd::arithmetic::div_mod::lemma_small_mod(1, modulus());
        let cur = state_after(p, steps, z0, k);
        assert forall|i: int| 0 <= i < 7 && i != 1 && i != 6 implies #[trigger] cur[i] == z0[i] by {
            assert(prev[i] == z0[i]);
        }
    }
}


/// An accepted step pins its witness down: the challenged index is one more
/// than the low `tree_height` digits of the challenge seed (so the prover
/// cannot pick it), the state transition holds, and the sealed pair
/// `(R_ji, S_ji)` opens at leaf `j_i - 1` under the public root with a path
/// whose direction bits are that leaf's binary digits.
pub proof fn lemma_accepted_step_binds(p: Poseidon2, c: EngramStepCircuit, z: Seq<nat>)
    requires
        c.step_failure(p, z) is None,
        c.tree_height <= 254,
        c.path_ji_siblings@.len() == c.path_ji_indices@.len(),
    ensures
        c.j_i as nat == c.seed_value(p, z[1]) % pow2(c.tree_height as nat) + 1,
        c.s_ji@ == hash2(p, c.s_ji_minus_1@, c.replica_value(p)),
        crate::merkle_tree::proof_accepts(
            p,
            z[3],
            c.replica_value(p),
            c.s_ji@,
            (c.j_i - 1) as nat,
            values_of(c.path_ji_siblings@),
            c.path_ji_indices@,
        ),
{
    let h = c.tree_height as nat;
    let x = c.seed_value(p, z[1]) % pow2(h);
    lemma_pow2_pos(h);
    lemma_pow2_monotone(h, 254);
    lemma_pow2_254_below_modulus();
    assert(x < pow2(h)) by {
        vstd::arithmetic::div_mod::lemma_mod_bound(c.seed_value(p, z[1]) as int, pow2(h) as int);
    }
    vstd::arithmetic::div_mod::lemma_small_mod(x + 1, modulus());
    assert(c.j_i >= 1);
    vstd::arithmetic::div_mod::lemma_small_mod((c.j_i - 1) as nat, modulus());
    assert(c.leaf_index_value() == c.j_i - 1);
    let n = c.path_len();
    assert(c.path_ji_indices@ =~= crate::bits::low_bits((c.j_i - 1) as nat, n));
}

} // verus!
