//! Building the proving steps of an epoch from a prover's storage: for each
//! challenged index the raw chunk, the states around it and the Merkle path
//! are gathered, and the first thing missing or inconsistent stops the run.

use crate::bits::{bit, low_bits, pow2};
use crate::field::{fadd, fsub};
use crate::merkle_tree::lemma_leaf_opens;
use crate::sealing::{sealed_leaves, sealed_replica, sealed_state, sealed_storage};
use crate::storage::{
    drop_choice, drop_states, in_range_indices, lemma_drop_states_clears, lemma_in_range_contains, lists_choice,
};
use crate::circuit::{EngramStepCircuit, StepFailure};
use crate::challenge::{challenge_index, challenge_seed, derive_challenge_index};
use crate::encoding::{bytes_to_fr, bytes_value, string_to_fr};
use vstd::string::StringSliceAdditionalSpecFns;
use crate::field::Fr;
use crate::merkle_tree::{path_siblings, proof_accepts, verify_merkle_proof, MerkleTree};
use crate::poseidon2::{hash2, values_of, Poseidon2};
use crate::storage::ProverStorage;
use vstd::prelude::*;

verus! {

/// Why building the steps of an epoch stopped.
#[derive(Clone, Copy, Debug, PartialEq, Eq, Structural)]
pub enum ChallengeFailure {
    /// Raw chunk `D_j` of this index cannot be read.
    MissingRaw(usize),
    /// State `S_k` of this index is gone.
    MissingState(usize),
    /// Replica chunk `R_j` of this index is gone.
    MissingReplica(usize),
    /// The stored pair of this index does not open under the root.
    InvalidMerkle(usize),
}

/// The public context every step of an epoch binds to.
#[derive(Clone, Copy)]
pub struct StepContext {
    pub epoch: usize,
    pub sector_id: u64,
    pub beacon: Fr,
    pub replica_id: Fr,
    pub tree_height: usize,
}

/// Slot `i` of a vector of optional elements, `None` past its end.
pub open spec fn slot(v: Seq<Option<Fr>>, i: int) -> Option<Fr> {
    if 0 <= i < v.len() {
        v[i]
    } else {
        None
    }
}

/// Whether raw chunk `j` can be read from the storage.
pub open spec fn raw_available(st: ProverStorage, j: usize) -> bool {
    !st.dropped_raw_indices@.contains(j) && 1 <= j <= st.num_chunks && st.raw_data_path is Some
}

/// The first reason why index `j` cannot be proved: its raw chunk or states
/// in the scenario's storage, its replica chunk in the sealed storage, or the
/// opening of the sealed pair `(R_j, S_j)` at leaf `j - 1` under the root.
pub open spec fn challenge_failure(
    p: Poseidon2,
    scenario: ProverStorage,
    master: ProverStorage,
    tree: MerkleTree,
    j: usize,
) -> Option<ChallengeFailure> {
    if !raw_available(scenario, j) {
        Some(ChallengeFailure::MissingRaw(j))
    } else if slot(scenario.states@, j - 1) is None {
        Some(ChallengeFailure::MissingState((j - 1) as usize))
    } else if slot(scenario.states@, j as int) is None {
        Some(ChallengeFailure::MissingState(j))
    } else if slot(master.replicas@, j as int) is None {
        Some(ChallengeFailure::MissingReplica(j))
    } else if !proof_accepts(
        p,
        tree.root@,
        slot(master.replicas@, j as int)->0@,
        slot(master.states@, j as int)->0@,
        (j - 1) as nat,
        path_siblings(tree.level_values(), (j - 1) as nat),
        low_bits((j - 1) as nat, tree.depth()),
    ) {
        Some(ChallengeFailure::InvalidMerkle(j))
    } else {
        None
    }
}

/// The step built for index `j` from its raw chunk bytes.
pub open spec fn step_built_from(
    p: Poseidon2,
    c: EngramStepCircuit,
    ctx: StepContext,
    scenario: ProverStorage,
    tree: MerkleTree,
    j: usize,
    raw: Seq<u8>,
) -> bool {
    &&& c.epoch == ctx.epoch
    &&& c.sector_id@ == ctx.sector_id as nat
    &&& c.sealed_root == tree.root
    &&& c.beacon == ctx.beacon
    &&& c.j_i == j
    &&& c.d_ji@ == bytes_value(p, raw)
    &&& Some(c.s_ji_minus_1) == slot(scenario.states@, j - 1)
    &&& Some(c.s_ji) == slot(scenario.states@, j as int)
    &&& c.replica_id == ctx.replica_id
    &&& values_of(c.path_ji_siblings@) == path_siblings(tree.level_values(), (j - 1) as nat)
    &&& c.path_ji_indices@ == low_bits((j - 1) as nat, tree.depth())
    &&& c.tree_height == ctx.tree_height
}

/// Builds one step per challenged index, in order, from the scenario's
/// storage (raw chunks and states) and the sealed storage (replica chunks,
/// states and tree). `raw_chunks[k]` holds what was read for `indices[k]`.
/// The first index that cannot be proved ends the run with its reason.
pub fn build_challenges(
    p: &Poseidon2,
    scenario: &ProverStorage,
    master: &ProverStorage,
    indices: &[usize],
    raw_chunks: &[Option<Vec<u8>>],
    ctx: StepContext,
) -> (r: Result<Vec<EngramStepCircuit>, ChallengeFailure>)
    requires
        p.wf(),
        raw_chunks@.len() == indices@.len(),
        forall|k: int|
            0 <= k < indices@.len() && raw_available(*scenario, #[trigger] indices@[k]) ==> raw_chunks@[k] is Some,
        master.merkle_tree matches Some(t) && t.wf(*p) && scenario.num_chunks <= t.leaves@.len(),
        forall|i: int| #[trigger] slot(scenario.states@, i) is Some ==> slot(master.states@, i) is Some,
    ensures
        ({
            let tree = master.merkle_tree->0;
            match r {
                Ok(steps) => steps@.len() == indices@.len() && forall|k: int|
                    0 <= k < indices@.len() ==> challenge_failure(*p, *scenario, *master, tree, indices@[k]) is None
                        && step_built_from(
                        *p,
                        #[trigger] steps@[k],
                        ctx,
                        *scenario,
                        tree,
                        indices@[k],
                        raw_chunks@[k]->0@,
                    ),
                Err(e) => exists|k: int|
                    0 <= k < indices@.len() && challenge_failure(*p, *scenario, *master, tree, #[trigger] indices@[k])
                        == Some(e) && forall|m: int|
                        0 <= m < k ==> challenge_failure(*p, *scenario, *master, tree, #[trigger] indices@[m]) is None,
            }
        }),
{
    let tree = master.merkle_tree.as_ref().unwrap();
    let sealed_root = tree.root;
    let sector_fr = Fr::from_u64(ctx.sector_id);
    proof {
        tree.lemma_depth_bound(*p);
    }
    let mut steps: Vec<EngramStepCircuit> = Vec::new();
    for k in 0..indices.len()
        invariant
            p.wf(),
            tree == master.merkle_tree->0,
            tree.wf(*p),
            tree.depth() < usize::BITS,
            scenario.num_chunks <= tree.leaves@.len(),
            sealed_root == tree.root,
            sector_fr@ == ctx.sector_id as nat,
            raw_chunks@.len() == indices@.len(),
            forall|m: int|
                0 <= m < indices@.len() && raw_available(*scenario, #[trigger] indices@[m]) ==> raw_chunks@[m] is Some,
            forall|i: int| #[trigger] slot(scenario.states@, i) is Some ==> slot(master.states@, i) is Some,
            steps@.len() == k,
            forall|m: int|
                0 <= m < k ==> challenge_failure(*p, *scenario, *master, *tree, #[trigger] indices@[m]) is None,
            forall|m: int|
                0 <= m < k ==> step_built_from(
                    *p,
                    #[trigger] steps@[m],
                    ctx,
                    *scenario,
                    *tree,
                    indices@[m],
                    raw_chunks@[m]->0@,
                ),
    {
        let j = indices[k];
        if !scenario.has_raw_chunk(j) {
            return Err(ChallengeFailure::MissingRaw(j));
        }
        let d_ji = match &raw_chunks[k] {
            Some(bytes) => bytes_to_fr(p, bytes.as_slice()),
            None => {
                proof {
                    assert(raw_available(*scenario, indices@[k as int]));
                }
                return Err(ChallengeFailure::MissingRaw(j));
            },
        };
        let prev = j - 1;
        let s_ji_minus_1 = match scenario.get_state(prev) {
            Some(s) => *s,
            None => {
                return Err(ChallengeFailure::MissingState(prev));
            },
        };
        let s_ji = match scenario.get_state(j) {
            Some(s) => *s,
            None => {
                return Err(ChallengeFailure::MissingState(j));
            },
        };
        let proof = tree.generate_proof(prev);
        let leaf_r = match master.get_replica(j) {
            Some(x) => *x,
            None => {
                return Err(ChallengeFailure::MissingReplica(j));
            },
        };
        let leaf_s = match master.get_state(j) {
            Some(x) => *x,
            None => {
                proof {
                    assert(slot(scenario.states@, j as int) is Some);
                }
                return Err(ChallengeFailure::MissingState(j));
            },
        };
        if !verify_merkle_proof(p, &sealed_root, &leaf_r, &leaf_s, &proof) {
            return Err(ChallengeFailure::InvalidMerkle(j));
        }
        let step = EngramStepCircuit {
            epoch: ctx.epoch,
            sector_id: sector_fr,
            sealed_root,
            beacon: ctx.beacon,
            j_i: j,
            d_ji,
            s_ji_minus_1,
            s_ji,
            replica_id: ctx.replica_id,
            path_ji_siblings: proof.siblings,
            path_ji_indices: proof.path_indices,
            tree_height: ctx.tree_height,
        };
        steps.push(step);
    }
    Ok(steps)
}


/// An honest prover can prove every index: when the sealed storage holds
/// the sealing of `ds` and the scenario's storage keeps all its states,
/// raw data and chunk count with nothing dropped, no index in `1..=n`
/// fails.
pub proof fn lemma_honest_index_passes(
    p: Poseidon2,
    scenario: ProverStorage,
    master: ProverStorage,
    replica_id: nat,
    ds: Seq<nat>,
    chunk_size: usize,
    j: usize,
)
    requires
        sealed_storage(master, p, replica_id, ds, chunk_size),
        scenario.states@ == master.states@,
        scenario.raw_data_path is Some,
        scenario.dropped_raw_indices@ == Set::<usize>::empty(),
        scenario.num_chunks == master.num_chunks,
        1 <= j <= ds.len(),
    ensures
        challenge_failure(p, scenario, master, master.merkle_tree->0, j) is None,
{
    let tree = master.merkle_tree->0;
    let n = ds.len();
    assert(master.states@[j - 1] is Some);
    assert(master.states@[j as int] is Some);
    assert(master.replicas@[j as int] is Some);
    let r = master.replicas@[j as int]->0;
    let st = master.states@[j as int]->0;
    assert(r@ == sealed_replica(p, replica_id, ds, j as nat));
    assert(st@ == sealed_state(p, replica_id, ds, j as nat));
    assert(values_of(tree.leaves@)[j - 1] == sealed_leaves(p, replica_id, ds)[j - 1]);
    lemma_leaf_opens(p, tree, (j - 1) as nat, r@, st@);
}

/// A raw chunk dropped by the attack on exactly the challenged indices is
/// detected: every challenged index in `1..=n` fails for want of its raw
/// chunk.
pub proof fn lemma_dropped_raw_detected(
    p: Poseidon2,
    before: ProverStorage,
    after: ProverStorage,
    master: ProverStorage,
    tree: MerkleTree,
    indices: Seq<usize>,
    k: int,
)
    requires
        after.dropped_raw_indices@ == before.dropped_raw_indices@.union(
            in_range_indices(indices, before.num_chunks as nat).to_set(),
        ),
        0 <= k < indices.len(),
        1 <= indices[k] <= before.num_chunks,
    ensures
        challenge_failure(p, after, master, tree, indices[k]) == Some(ChallengeFailure::MissingRaw(indices[k])),
{
    lemma_in_range_contains(indices, before.num_chunks as nat, k);
}

/// A state dropped by the attack on the states before the challenged
/// indices is detected: an index whose raw chunk is still there fails for
/// want of `S_{j-1}`.
pub proof fn lemma_dropped_state_detected(
    p: Poseidon2,
    before: ProverStorage,
    after: ProverStorage,
    master: ProverStorage,
    tree: MerkleTree,
    targets: Seq<usize>,
    j: usize,
)
    requires
        after.states@ == drop_states(before.states@, targets).0,
        raw_available(after, j),
        targets.contains((j - 1) as usize),
        j - 1 < before.states@.len(),
    ensures
        challenge_failure(p, after, master, tree, j) == Some(ChallengeFailure::MissingState((j - 1) as usize)),
{
    crate::storage::lemma_drop_states_len(before.states@, targets);
    lemma_drop_states_clears(before.states@, targets, (j - 1) as usize);
}

/// A step built by an honest prover satisfies every constraint but the
/// challenge binding: when the sealed storage holds the sealing of `ds`,
/// the scenario's states are the sealed ones, the raw chunk read for `j`
/// has the value sealed at `j`, and the public state carries the step's
/// context, the step is accepted exactly when `j` is one more than the low
/// `tree_height` digits of the challenge seed.
pub proof fn lemma_honest_step(
    p: Poseidon2,
    c: EngramStepCircuit,
    ctx: StepContext,
    scenario: ProverStorage,
    master: ProverStorage,
    replica_id: nat,
    ds: Seq<nat>,
    chunk_size: usize,
    j: usize,
    raw: Seq<u8>,
    z: Seq<nat>,
)
    requires
        sealed_storage(master, p, replica_id, ds, chunk_size),
        scenario.states@ == master.states@,
        1 <= j <= ds.len(),
        step_built_from(p, c, ctx, scenario, master.merkle_tree->0, j, raw),
        bytes_value(p, raw) == ds[j - 1],
        ctx.replica_id@ == replica_id,
        z.len() == 7,
        z[0] == ctx.epoch as nat,
        z[2] == ctx.sector_id as nat,
        z[3] == (master.merkle_tree->0).root@,
        z[4] == ctx.beacon@,
        z[5] == replica_id,
    ensures
        c.step_failure(p, z) is None <==> fadd(c.seed_value(p, z[1]) % pow2(c.tree_height as nat), 1) == j,
        c.step_failure(p, z) is None || c.step_failure(p, z) == Some(StepFailure::ChallengeBinding),
{
    let tree = master.merkle_tree->0;
    let rv = sealed_replica(p, replica_id, ds, j as nat);
    let sv = sealed_state(p, replica_id, ds, j as nat);
    lemma_honest_index_passes(p, master, master, replica_id, ds, chunk_size, j);
    let r = master.replicas@[j as int]->0;
    assert(r@ == rv);
    assert(c.s_ji_minus_1@ == sealed_state(p, replica_id, ds, (j - 1) as nat));
    assert(c.replica_value(p) == rv);
    assert(c.s_ji@ == sv);
    assert(c.s_ji@ == hash2(p, c.s_ji_minus_1@, c.replica_value(p)));
    tree.lemma_depth_bound(p);
    assert(j < crate::field::modulus());
    assert(c.leaf_index_value() == j - 1);
    assert(c.path_len() == tree.depth());
    assert(c.path_bits_bound());
}


/// The challenged indices of an epoch: challenge `i` for `i = 1..=count`,
/// each derived from the beacon text, the sector id and the epoch.
pub fn derive_challenge_indices(
    p: &Poseidon2,
    beacon: &str,
    sector_id: u64,
    epoch: usize,
    count: usize,
    num_chunks: usize,
) -> (r: Vec<usize>)
    requires
        p.wf(),
        num_chunks > 0,
        count < usize::MAX,
    ensures
        r@.len() == count,
        forall|k: int|
            0 <= k < count ==> #[trigger] r@[k] == challenge_index(
                challenge_seed(*p, bytes_value(*p, beacon.spec_bytes()), sector_id as nat, epoch as nat, (k + 1) as nat),
                num_chunks as nat,
            ),
{
    let mut r: Vec<usize> = Vec::new();
    for i in 1..count + 1
        invariant
            p.wf(),
            num_chunks > 0,
            r@.len() == i - 1,
            forall|k: int|
                0 <= k < i - 1 ==> #[trigger] r@[k] == challenge_index(
                    challenge_seed(*p, bytes_value(*p, beacon.spec_bytes()), sector_id as nat, epoch as nat, (k + 1) as nat),
                    num_chunks as nat,
                ),
    {
        let j = derive_challenge_index(p, beacon, sector_id, epoch, i, num_chunks);
        r.push(j);
    }
    r
}

/// The step used to set the proving parameters up: challenge 1 of the
/// epoch, with the raw chunk read for it (`None` when it could not be read,
/// which stands as zero), the states around it and its Merkle path.
pub fn build_reference_challenge(
    p: &Poseidon2,
    storage: &ProverStorage,
    proof_epoch_hash: &str,
    proof_epoch: usize,
    num_chunks_total: usize,
    sector_id: u64,
    replica_id: Fr,
    raw_chunk: Option<Vec<u8>>,
    tree_height: usize,
) -> (c: EngramStepCircuit)
    requires
        p.wf(),
        num_chunks_total > 0,
        storage.merkle_tree matches Some(t) && t.wf(*p) && num_chunks_total <= t.leaves@.len(),
        ({
            let j = challenge_index(
                challenge_seed(*p, bytes_value(*p, proof_epoch_hash.spec_bytes()), sector_id as nat, proof_epoch as nat, 1),
                num_chunks_total as nat,
            );
            &&& slot(storage.states@, j - 1) is Some
            &&& slot(storage.states@, j as int) is Some
        }),
    ensures
        ({
            let tree = storage.merkle_tree->0;
            let j = challenge_index(
                challenge_seed(*p, bytes_value(*p, proof_epoch_hash.spec_bytes()), sector_id as nat, proof_epoch as nat, 1),
                num_chunks_total as nat,
            );
            &&& c.epoch == proof_epoch
            &&& c.sector_id@ == sector_id as nat
            &&& c.sealed_root == tree.root
            &&& c.beacon@ == bytes_value(*p, proof_epoch_hash.spec_bytes())
            &&& c.j_i == j
            &&& c.d_ji@ == (match raw_chunk {
                Some(b) => bytes_value(*p, b@),
                None => 0,
            })
            &&& Some(c.s_ji_minus_1) == slot(storage.states@, j - 1)
            &&& Some(c.s_ji) == slot(storage.states@, j as int)
            &&& c.replica_id == replica_id
            &&& values_of(c.path_ji_siblings@) == path_siblings(tree.level_values(), (j - 1) as nat)
            &&& c.path_ji_indices@ == low_bits((j - 1) as nat, tree.depth())
            &&& c.tree_height == tree_height
        }),
{
    let beacon = string_to_fr(p, proof_epoch_hash);
    let tree = storage.merkle_tree.as_ref().unwrap();
    let sealed_root = tree.root;
    let j_i = derive_challenge_index(p, proof_epoch_hash, sector_id, proof_epoch, 1, num_chunks_total);
    let d_ji = match &raw_chunk {
        Some(bytes) => bytes_to_fr(p, bytes.as_slice()),
        None => Fr::zero(),
    };
    let s_ji_minus_1 = *storage.get_state(j_i - 1).unwrap();
    let s_ji = *storage.get_state(j_i).unwrap();
    let proof = tree.generate_proof(j_i - 1);
    EngramStepCircuit {
        epoch: proof_epoch,
        sector_id: Fr::from_u64(sector_id),
        sealed_root,
        beacon,
        j_i,
        d_ji,
        s_ji_minus_1,
        s_ji,
        replica_id,
        path_ji_siblings: proof.siblings,
        path_ji_indices: proof.path_indices,
        tree_height,
    }
}


/// The states an attack on the states before the challenged indices drops:
/// `j - 1` for each challenged `j` (zero for zero), in order.
pub fn state_targets(indices: &[usize]) -> (r: Vec<usize>)
    ensures
        r@.len() == indices@.len(),
        forall|k: int| 0 <= k < indices@.len() ==> #[trigger] r@[k] == (if indices@[k] == 0 { 0 } else { indices@[k] - 1 }),
{
    let mut r: Vec<usize> = Vec::new();
    for k in 0..indices.len()
        invariant
            r@.len() == k,
            forall|m: int| 0 <= m < k ==> #[trigger] r@[m] == (if indices@[m] == 0 { 0 } else { indices@[m] - 1 }),
    {
        r.push(indices[k].saturating_sub(1));
    }
    r
}

/// The attack a scenario runs against its copy of the prover's storage.
#[derive(Clone, Copy, Debug, PartialEq, Eq, Structural)]
pub enum ScenarioAttack {
    /// The storage is left alone (also for a proof checked against another
    /// epoch).
    Untouched,
    /// This many raw chunks, chosen at random from this seed, are dropped.
    DropRawRandom(usize, u64),
    /// The raw chunk at the first challenged index is dropped.
    DropRawOneChallenge,
    /// The raw chunks at every challenged index are dropped.
    DropRawAtChallenges,
    /// The state before every challenged index is dropped.
    DropStatesAtChallengePrev,
}

/// The states before the challenged indices: `j - 1` for each `j` (zero
/// for zero), in order.
pub open spec fn prev_state_targets(indices: Seq<usize>) -> Seq<usize> {
    Seq::new(indices.len(), |k: int| if indices[k] == 0 { 0usize } else { (indices[k] - 1) as usize })
}

/// What the storage keeps through an attack on its raw chunks: everything
/// but the set of dropped chunks.
pub open spec fn keeps_all_but_drops(before: ProverStorage, after: ProverStorage) -> bool {
    &&& after.raw_data_path == before.raw_data_path
    &&& after.chunk_size == before.chunk_size
    &&& after.states@ == before.states@
    &&& after.replicas@ == before.replicas@
    &&& after.merkle_tree == before.merkle_tree
    &&& after.num_chunks == before.num_chunks
}

/// Runs a scenario's attack against `storage` for the challenged
/// `indices`, and returns what it removed: the dropped chunk indices, or
/// the dropped state indices for the attack on states.
pub fn apply_attack(storage: &mut ProverStorage, attack: ScenarioAttack, indices: &[usize]) -> (removed: Vec<usize>)
    ensures
        match attack {
            ScenarioAttack::Untouched => *final(storage) == *old(storage) && removed@ == Seq::<usize>::empty(),
            ScenarioAttack::DropRawRandom(count, seed) => {
                let chosen = drop_choice(old(storage).num_chunks as nat, old(storage).dropped_raw_indices@, count, seed);
                &&& lists_choice(removed@, chosen)
                &&& final(storage).dropped_raw_indices@ == old(storage).dropped_raw_indices@.union(chosen.to_set())
                &&& keeps_all_but_drops(*old(storage), *final(storage))
            },
            ScenarioAttack::DropRawOneChallenge => if indices@.len() == 0 {
                *final(storage) == *old(storage) && removed@ == Seq::<usize>::empty()
            } else {
                &&& removed@ == in_range_indices(seq![indices@[0]], old(storage).num_chunks as nat)
                &&& final(storage).dropped_raw_indices@ == old(storage).dropped_raw_indices@.union(removed@.to_set())
                &&& keeps_all_but_drops(*old(storage), *final(storage))
            },
            ScenarioAttack::DropRawAtChallenges => {
                &&& removed@ == in_range_indices(indices@, old(storage).num_chunks as nat)
                &&& final(storage).dropped_raw_indices@ == old(storage).dropped_raw_indices@.union(removed@.to_set())
                &&& keeps_all_but_drops(*old(storage), *final(storage))
            },
            ScenarioAttack::DropStatesAtChallengePrev => {
                &&& (final(storage).states@, removed@) == drop_states(old(storage).states@, prev_state_targets(indices@))
                &&& final(storage).raw_data_path == old(storage).raw_data_path
                &&& final(storage).chunk_size == old(storage).chunk_size
                &&& final(storage).dropped_raw_indices@ == old(storage).dropped_raw_indices@
                &&& final(storage).replicas@ == old(storage).replicas@
                &&& final(storage).merkle_tree == old(storage).merkle_tree
                &&& final(storage).num_chunks == old(storage).num_chunks
            },
        },
{
    match attack {
        ScenarioAttack::Untouched => Vec::new(),
        ScenarioAttack::DropRawRandom(count, seed) => storage.attack_drop_raw_chunks_random_count(count, seed),
        ScenarioAttack::DropRawOneChallenge => {
            if indices.len() == 0 {
                Vec::new()
            } else {
                let first = [indices[0]];
                proof {
                    assert(first@ =~= seq![indices@[0]]);
                }
                storage.attack_drop_raw_chunks_at(&first)
            }
        },
        ScenarioAttack::DropRawAtChallenges => storage.attack_drop_raw_chunks_at(indices),
        ScenarioAttack::DropStatesAtChallengePrev => {
            let targets = state_targets(indices);
            proof {
                assert(targets@ =~= prev_state_targets(indices@));
            }
            storage.attack_drop_states_at(&targets)
        },
    }
}

} // verus!
