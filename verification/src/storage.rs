//! The prover's storage of a sealed sector: the states `S_i` and replica
//! chunks `R_i` in memory, the raw data left in its file and read on
//! demand, the Merkle commitment, and the losses an attack scenario inflicts.

use crate::field::Fr;
use crate::merkle_tree::MerkleTree;
use std::collections::HashSet;
use std::path::PathBuf;
use vstd::prelude::*;

verus! {

broadcast use vstd::std_specs::hash::group_hash_axioms;

#[verifier::external_type_specification]
#[verifier::external_body]
pub struct ExPathBuf(PathBuf);

/// `std` `PathBuf::clone`: a copy of the path, the same path.
#[verifier::external_body]
fn path_clone(p: &PathBuf) -> (r: PathBuf)
    ensures
        r == *p,
{
    p.clone()
}

/// The step of the 64-bit linear congruential generator.
pub open spec fn lcg_step(state: u64) -> u64 {
    ((state as nat * 6364136223846793005nat + 1442695040888963407nat) % 0x1_0000_0000_0000_0000nat) as u64
}

/// Advances the generator state and returns the new state.
pub fn lcg_next(state: &mut u64) -> (r: u64)
    ensures
        *final(state) == lcg_step(*old(state)),
        r == *final(state),
{
    *state = state.wrapping_mul(6364136223846793005).wrapping_add(1442695040888963407);
    proof {
        let x = *old(state) as nat;
        let m = 0x1_0000_0000_0000_0000nat;
        let a = 6364136223846793005nat;
        let c = 1442695040888963407nat;
        assert(((x * a) % m + c) % m == (x * a + c) % m) by {
            vstd::arithmetic::div_mod::lemma_add_mod_noop((x * a) as int, c as int, m as int);
            vstd::arithmetic::div_mod::lemma_mod_twice(c as int, m as int);
            vstd::arithmetic::div_mod::lemma_small_mod(c, m);
        }
    }
    *state
}

/// `keys` with the entries at `i` and `j` exchanged.
pub open spec fn swap_entries(keys: Seq<usize>, i: int, j: int) -> Seq<usize> {
    keys.update(i, keys[j]).update(j, keys[i])
}

/// The Fisher-Yates pass over positions `i, i - 1, ..., 1`: position `k`
/// is exchanged with the position the next generator output selects
/// below `k + 1`.
pub open spec fn shuffle_down(keys: Seq<usize>, state: u64, i: nat) -> Seq<usize>
    decreases i,
{
    if i == 0 {
        keys
    } else {
        let next = lcg_step(state);
        let r = (next as usize) as nat % (i + 1);
        shuffle_down(swap_entries(keys, i as int, r as int), next, (i - 1) as nat)
    }
}

/// The order in which the random-drop attack visits candidate chunks:
/// the candidates shuffled by a generator seeded from `seed`.
pub open spec fn shuffled_candidates(candidates: Seq<usize>, seed: u64) -> Seq<usize> {
    if candidates.len() == 0 {
        candidates
    } else {
        shuffle_down(
            candidates,
            ((seed as nat + 0x9E3779B97F4A7C15nat) % 0x1_0000_0000_0000_0000nat) as u64,
            (candidates.len() - 1) as nat,
        )
    }
}

/// Strictly increasing.
pub open spec fn strictly_increasing(s: Seq<usize>) -> bool {
    forall|a: int, b: int| 0 <= a < b < s.len() ==> s[a] < s[b]
}

/// The chunk indices that are still present and could be dropped: `1..=n`
/// without those already dropped, in increasing order.
pub open spec fn undropped_indices(n: nat, dropped: Set<usize>) -> Seq<usize>
    decreases n,
{
    if n == 0 {
        Seq::empty()
    } else {
        let rest = undropped_indices((n - 1) as nat, dropped);
        if dropped.contains(n as usize) {
            rest
        } else {
            rest.push(n as usize)
        }
    }
}

/// The result of dropping the states at `indices` in order: the states
/// left, and the indices at which a present state was removed.
pub open spec fn drop_states(states: Seq<Option<Fr>>, indices: Seq<usize>) -> (Seq<Option<Fr>>, Seq<usize>)
    decreases indices.len(),
{
    if indices.len() == 0 {
        (states, Seq::empty())
    } else {
        let (st, removed) = drop_states(states, indices.drop_last());
        let idx = indices.last();
        if idx < st.len() && st[idx as int] is Some {
            (st.update(idx as int, None), removed.push(idx))
        } else {
            (st, removed)
        }
    }
}

/// The entries of `indices` that name chunks `1..=n`, in order.
pub open spec fn in_range_indices(indices: Seq<usize>, n: nat) -> Seq<usize>
    decreases indices.len(),
{
    if indices.len() == 0 {
        Seq::empty()
    } else {
        let rest = in_range_indices(indices.drop_last(), n);
        if 1 <= indices.last() <= n {
            rest.push(indices.last())
        } else {
            rest
        }
    }
}

/// Exchanging two entries keeps the entries distinct.
proof fn lemma_swap_distinct(keys: Seq<usize>, i: int, j: int)
    requires
        keys.no_duplicates(),
        0 <= i < keys.len(),
        0 <= j < keys.len(),
    ensures
        swap_entries(keys, i, j).no_duplicates(),
        swap_entries(keys, i, j).len() == keys.len(),
        swap_entries(keys, i, j).to_set() == keys.to_set(),
{
    let s = swap_entries(keys, i, j);
    let pi = |a: int| if a == i { j } else if a == j { i } else { a };
    assert forall|a: int| 0 <= a < s.len() implies s[a] == keys[pi(a)] by {}
    assert forall|a: int, b: int| 0 <= a < s.len() && 0 <= b < s.len() && a != b implies s[a] != s[b] by {
        assert(s[a] == keys[pi(a)]);
        assert(s[b] == keys[pi(b)]);
    }
    assert forall|x: usize| s.to_set().contains(x) <==> keys.to_set().contains(x) by {
        if s.to_set().contains(x) {
            let a = choose|a: int| 0 <= a < s.len() && s[a] == x;
            assert(keys[pi(a)] == x);
        }
        if keys.to_set().contains(x) {
            let a = choose|a: int| 0 <= a < keys.len() && keys[a] == x;
            assert(s[pi(a)] == x);
        }
    }
    assert(s.to_set() =~= keys.to_set());
}

/// Shuffling keeps the entries distinct and the same in number.
proof fn lemma_shuffle_distinct(keys: Seq<usize>, state: u64, i: nat)
    requires
        keys.no_duplicates(),
        i < keys.len(),
    ensures
        shuffle_down(keys, state, i).no_duplicates(),
        shuffle_down(keys, state, i).len() == keys.len(),
    decreases i,
{
    if i > 0 {
        let next = lcg_step(state);
        let r = (next as usize) as nat % (i + 1);
        lemma_swap_distinct(keys, i as int, r as int);
        lemma_shuffle_distinct(swap_entries(keys, i as int, r as int), next, (i - 1) as nat);
    }
}

/// The candidates are increasing and lie in `1..=n` outside `dropped`.
proof fn lemma_undropped_increasing(n: nat, dropped: Set<usize>)
    requires
        n <= usize::MAX,
    ensures
        strictly_increasing(undropped_indices(n, dropped)),
        forall|k: int|
            0 <= k < undropped_indices(n, dropped).len() ==> 1 <= #[trigger] undropped_indices(n, dropped)[k] <= n
                && !dropped.contains(undropped_indices(n, dropped)[k]),
        undropped_indices(n, dropped).len() <= n,
    decreases n,
{
    if n > 0 {
        lemma_undropped_increasing((n - 1) as nat, dropped);
    }
}

/// Sorts distinct indices into increasing order.
pub fn sort_distinct(v: &Vec<usize>) -> (r: Vec<usize>)
    requires
        v@.no_duplicates(),
    ensures
        strictly_increasing(r@),
        r@.to_set() == v@.to_set(),
        r@.len() == v@.len(),
{
    let mut out: Vec<usize> = Vec::new();
    for k in 0..v.len()
        invariant
            v@.no_duplicates(),
            strictly_increasing(out@),
            out@.to_set() == v@.take(k as int).to_set(),
            out@.len() == k,
    {
        let x = v[k];
        proof {
            if out@.to_set().contains(x) {
                let m = choose|m: int| 0 <= m < k && v@.take(k as int)[m] == x;
                assert(v@[m] == v@[k as int]);
            }
        }
        let mut pos: usize = 0;
        while pos < out.len() && out[pos] < x
            invariant
                pos <= out@.len(),
                forall|m: int| 0 <= m < pos ==> out@[m] < x,
            decreases out@.len() - pos,
        {
            pos = pos + 1;
        }
        let ghost prev = out@;
        proof {
            if pos < prev.len() {
                assert(prev[pos as int] != x) by {
                    assert(prev.to_set().contains(prev[pos as int]));
                }
            }
        }
        out.insert(pos, x);
        proof {
            assert(out@ == prev.insert(pos as int, x));
            assert forall|a: int, b: int| 0 <= a < b < out@.len() implies out@[a] < out@[b] by {
                if b < pos {
                } else if b == pos {
                } else if a < pos {
                    assert(out@[b] == prev[b - 1]);
                    if pos < prev.len() {
                        assert(prev[pos as int] > x);
                        assert(prev[pos as int] <= prev[b - 1]);
                    }
                } else if a == pos {
                    assert(prev[pos as int] > x);
                    assert(prev[pos as int] <= prev[b - 1]);
                } else {
                    assert(out@[a] == prev[a - 1]);
                }
            }
            let tk1 = v@.take(k + 1);
            let tk = v@.take(k as int);
            assert forall|y: usize| out@.to_set().contains(y) <==> tk1.to_set().contains(y) by {
                if out@.to_set().contains(y) {
                    let a = choose|a: int| 0 <= a < out@.len() && out@[a] == y;
                    if a != pos {
                        let a2 = if a < pos { a } else { a - 1 };
                        assert(prev[a2] == y);
                        assert(prev.to_set().contains(y));
                        let m = choose|m: int| 0 <= m < k && tk[m] == y;
                        assert(tk1[m] == y);
                    } else {
                        assert(tk1[k as int] == y);
                    }
                }
                if tk1.to_set().contains(y) {
                    let m = choose|m: int| 0 <= m < k + 1 && tk1[m] == y;
                    if m < k {
                        assert(tk[m] == y);
                        assert(tk.to_set().contains(y));
                        let a = choose|a: int| 0 <= a < prev.len() && prev[a] == y;
                        let a2 = if a < pos { a } else { a + 1 };
                        assert(out@[a2] == y);
                    } else {
                        assert(out@[pos as int] == y);
                    }
                }
            }
            assert(out@.to_set() =~= v@.take(k + 1).to_set());
        }
    }
    proof {
        assert(v@.take(v@.len() as int) =~= v@);
    }
    out
}

/// File-backed storage of a sealed sector.
pub struct ProverStorage {
    /// The raw data file; chunks are read from it on demand.
    pub raw_data_path: Option<PathBuf>,
    /// The size in bytes of one chunk.
    pub chunk_size: usize,
    /// Chunks lost in an attack scenario.
    pub dropped_raw_indices: HashSet<usize>,
    /// `states[i]` is `S_i`; `states[0]` is the replica id.
    pub states: Vec<Option<Fr>>,
    /// `replicas[i]` is `R_i` for `i >= 1`.
    pub replicas: Vec<Option<Fr>>,
    pub merkle_tree: Option<MerkleTree>,
    pub num_chunks: usize,
}

impl ProverStorage {
    /// Empty storage.
    pub fn new() -> (r: ProverStorage)
        ensures
            r.raw_data_path is None,
            r.chunk_size == 0,
            r.dropped_raw_indices@ == Set::<usize>::empty(),
            r.states@ == Seq::<Option<Fr>>::empty(),
            r.replicas@ == Seq::<Option<Fr>>::empty(),
            r.merkle_tree is None,
            r.num_chunks == 0,
    {
        ProverStorage {
            raw_data_path: None,
            chunk_size: 0,
            dropped_raw_indices: HashSet::new(),
            states: Vec::new(),
            replicas: Vec::new(),
            merkle_tree: None,
            num_chunks: 0,
        }
    }

    /// Storage for `num_chunks` chunks of `chunk_size` bytes: one empty state
    /// slot per chunk plus the initial one, and as many replica slots.
    pub fn with_capacity(num_chunks: usize, chunk_size: usize) -> (r: ProverStorage)
        requires
            num_chunks < usize::MAX,
        ensures
            r.raw_data_path is None,
            r.chunk_size == chunk_size,
            r.dropped_raw_indices@ == Set::<usize>::empty(),
            r.states@ == Seq::new((num_chunks + 1) as nat, |i: int| None::<Fr>),
            r.replicas@ == Seq::new((num_chunks + 1) as nat, |i: int| None::<Fr>),
            r.merkle_tree is None,
            r.num_chunks == num_chunks,
    {
        let mut states: Vec<Option<Fr>> = Vec::new();
        let mut replicas: Vec<Option<Fr>> = Vec::new();
        for i in 0..num_chunks + 1
            invariant
                states@ == Seq::new(i as nat, |k: int| None::<Fr>),
                replicas@ == Seq::new(i as nat, |k: int| None::<Fr>),
        {
            states.push(None);
            replicas.push(None);
            proof {
                assert(states@ =~= Seq::new((i + 1) as nat, |k: int| None::<Fr>));
                assert(replicas@ =~= Seq::new((i + 1) as nat, |k: int| None::<Fr>));
            }
        }
        ProverStorage {
            raw_data_path: None,
            chunk_size,
            dropped_raw_indices: HashSet::new(),
            states,
            replicas,
            merkle_tree: None,
            num_chunks,
        }
    }

    /// Records the raw data file.
    pub fn set_raw_data_path(&mut self, path: PathBuf)
        ensures
            final(self).raw_data_path == Some(path),
            final(self).chunk_size == old(self).chunk_size,
            final(self).dropped_raw_indices@ == old(self).dropped_raw_indices@,
            final(self).states@ == old(self).states@,
            final(self).replicas@ == old(self).replicas@,
            final(self).merkle_tree == old(self).merkle_tree,
            final(self).num_chunks == old(self).num_chunks,
    {
        self.raw_data_path = Some(path);
    }

    /// Stores `S_i`, when there is a slot for it.
    pub fn insert_state(&mut self, i: usize, s: Fr)
        ensures
            final(self).states@ == if i < old(self).states@.len() {
                old(self).states@.update(i as int, Some(s))
            } else {
                old(self).states@
            },
            final(self).raw_data_path == old(self).raw_data_path,
            final(self).chunk_size == old(self).chunk_size,
            final(self).dropped_raw_indices@ == old(self).dropped_raw_indices@,
            final(self).replicas@ == old(self).replicas@,
            final(self).merkle_tree == old(self).merkle_tree,
            final(self).num_chunks == old(self).num_chunks,
    {
        if i < self.states.len() {
            self.states.set(i, Some(s));
        }
    }

    /// The stored `S_i`, if any.
    pub fn get_state(&self, i: usize) -> (r: Option<&Fr>)
        ensures
            r == (if i < self.states@.len() {
                match self.states@[i as int] {
                    Some(s) => Some(&s),
                    None => None,
                }
            } else {
                None
            }),
    {
        if i < self.states.len() {
            self.states[i].as_ref()
        } else {
            None
        }
    }

    /// Stores `R_i`, when there is a slot for it.
    pub fn insert_replica(&mut self, i: usize, r: Fr)
        ensures
            final(self).replicas@ == if i < old(self).replicas@.len() {
                old(self).replicas@.update(i as int, Some(r))
            } else {
                old(self).replicas@
            },
            final(self).raw_data_path == old(self).raw_data_path,
            final(self).chunk_size == old(self).chunk_size,
            final(self).dropped_raw_indices@ == old(self).dropped_raw_indices@,
            final(self).states@ == old(self).states@,
            final(self).merkle_tree == old(self).merkle_tree,
            final(self).num_chunks == old(self).num_chunks,
    {
        if i < self.replicas.len() {
            self.replicas.set(i, Some(r));
        }
    }

    /// The stored `R_i`, if any.
    pub fn get_replica(&self, i: usize) -> (r: Option<&Fr>)
        ensures
            r == (if i < self.replicas@.len() {
                match self.replicas@[i as int] {
                    Some(x) => Some(&x),
                    None => None,
                }
            } else {
                None
            }),
    {
        if i < self.replicas.len() {
            self.replicas[i].as_ref()
        } else {
            None
        }
    }

    /// Whether raw chunk `i` can be read: it has not been dropped, it is one
    /// of chunks `1..=num_chunks`, and a raw data file is recorded.
    pub fn has_raw_chunk(&self, i: usize) -> (r: bool)
        ensures
            r == (!self.dropped_raw_indices@.contains(i) && 1 <= i <= self.num_chunks
                && self.raw_data_path is Some),
    {
        if self.dropped_raw_indices.contains(&i) {
            return false;
        }
        i >= 1 && i <= self.num_chunks && self.raw_data_path.is_some()
    }

    /// Where raw chunk `i` lies in the raw data file, as a byte offset and a
    /// length: chunk `i` starts `(i - 1) * chunk_size` bytes in. `None` when
    /// the chunk was dropped or no file is recorded.
    pub fn raw_chunk_location(&self, i: usize) -> (r: Option<(u64, usize)>)
        requires
            self.dropped_raw_indices@.contains(i) || self.raw_data_path is None || (1 <= i
                && (i - 1) * self.chunk_size <= u64::MAX),
        ensures
            r == (if self.dropped_raw_indices@.contains(i) || self.raw_data_path is None {
                None
            } else {
                Some((((i - 1) * self.chunk_size) as u64, self.chunk_size))
            }),
    {
        if self.dropped_raw_indices.contains(&i) {
            return None;
        }
        if self.raw_data_path.is_none() {
            return None;
        }
        let offset = ((i - 1) as u64) * (self.chunk_size as u64);
        Some((offset, self.chunk_size))
    }
}

/// The chunks the random-drop attack picks among the `n` chunks, those in
/// `dropped` excepted: the first `drop_count` (at most `n`) of the
/// remaining indices in the order shuffled from `seed`.
pub open spec fn drop_choice(n: nat, dropped: Set<usize>, drop_count: usize, seed: u64) -> Seq<usize> {
    let count = if drop_count <= n { drop_count as nat } else { n };
    let order = shuffled_candidates(undropped_indices(n, dropped), seed);
    if n == 0 {
        Seq::<usize>::empty()
    } else if count <= order.len() {
        order.take(count as int)
    } else {
        order
    }
}

/// `removed` lists the chosen indices once each, in increasing order.
pub open spec fn lists_choice(removed: Seq<usize>, chosen: Seq<usize>) -> bool {
    &&& strictly_increasing(removed)
    &&& removed.to_set() == chosen.to_set()
    &&& removed.len() == chosen.len()
}

/// Two increasing lists of the same indices are the same list.
proof fn lemma_increasing_lists_equal(a: Seq<usize>, b: Seq<usize>)
    requires
        strictly_increasing(a),
        strictly_increasing(b),
        a.to_set() == b.to_set(),
        a.len() == b.len(),
    ensures
        a == b,
    decreases a.len(),
{
    if a.len() > 0 {
        let n = a.len() - 1;
        assert(a.to_set().contains(a[n]));
        assert(b.to_set().contains(b[n]));
        assert(b.contains(a[n]));
        assert(a.contains(b[n]));
        let i = choose|i: int| 0 <= i < b.len() && b[i] == a[n];
        let j = choose|j: int| 0 <= j < a.len() && a[j] == b[n];
        assert(a[n] == b[n]) by {
            if i < n {
                assert(b[i] < b[n]);
            }
            if j < n {
                assert(a[j] < a[n]);
            }
        }
        let a1 = a.drop_last();
        let b1 = b.drop_last();
        assert(a1.to_set() =~= b1.to_set()) by {
            assert forall|x: usize| a1.to_set().contains(x) implies b1.to_set().contains(x) by {
                let k = choose|k: int| 0 <= k < a1.len() && a1[k] == x;
                assert(a[k] < a[n]);
                assert(a.contains(x));
                assert(b.to_set().contains(x));
                let m = choose|m: int| 0 <= m < b.len() && b[m] == x;
                assert(m != n);
                assert(b1[m] == x);
            }
            assert forall|x: usize| b1.to_set().contains(x) implies a1.to_set().contains(x) by {
                let k = choose|k: int| 0 <= k < b1.len() && b1[k] == x;
                assert(b[k] < b[n]);
                assert(b.contains(x));
                assert(a.to_set().contains(x));
                let m = choose|m: int| 0 <= m < a.len() && a[m] == x;
                assert(m != n);
                assert(a1[m] == x);
            }
        }
        lemma_increasing_lists_equal(a1, b1);
        assert(a =~= b) by {
            assert forall|k: int| 0 <= k < a.len() implies a[k] == b[k] by {
                if k < n {
                    assert(a1[k] == b1[k]);
                }
            }
        }
    }
}

/// On a storage with no chunk dropped yet, the random-drop attack removes
/// exactly the chunks the stand-alone selection picks for the same number
/// of chunks, drop count and seed: `attacked` and `selected` are what the
/// two return.
pub proof fn lemma_random_drop_matches_selection(
    st: ProverStorage,
    drop_count: usize,
    seed: u64,
    attacked: Seq<usize>,
    selected: Seq<usize>,
)
    requires
        st.dropped_raw_indices@ == Set::<usize>::empty(),
        lists_choice(attacked, drop_choice(st.num_chunks as nat, st.dropped_raw_indices@, drop_count, seed)),
        lists_choice(selected, drop_choice(st.num_chunks as nat, Set::<usize>::empty(), drop_count, seed)),
    ensures
        attacked == selected,
{
    lemma_increasing_lists_equal(attacked, selected);
}

impl ProverStorage {
    /// Attack scenario: drops `drop_count` (at most `num_chunks`) raw chunks
    /// chosen at random among those still present. The candidates `1..=n`
    /// not yet dropped are shuffled by a generator seeded from `seed`, the
    /// first ones are dropped, and their indices are returned in increasing
    /// order.
    pub fn attack_drop_raw_chunks_random_count(&mut self, drop_count: usize, seed: u64) -> (removed: Vec<usize>)
        ensures
            lists_choice(
                removed@,
                drop_choice(old(self).num_chunks as nat, old(self).dropped_raw_indices@, drop_count, seed),
            ),
            final(self).dropped_raw_indices@ == old(self).dropped_raw_indices@.union(
                drop_choice(old(self).num_chunks as nat, old(self).dropped_raw_indices@, drop_count, seed).to_set(),
            ),
            final(self).raw_data_path == old(self).raw_data_path,
            final(self).chunk_size == old(self).chunk_size,
            final(self).states@ == old(self).states@,
            final(self).replicas@ == old(self).replicas@,
            final(self).merkle_tree == old(self).merkle_tree,
            final(self).num_chunks == old(self).num_chunks,
    {
        if self.num_chunks == 0 {
            proof {
                assert(Seq::<usize>::empty().to_set() =~= Set::<usize>::empty());
                assert(self.dropped_raw_indices@.union(Set::<usize>::empty()) =~= self.dropped_raw_indices@);
            }
            return Vec::new();
        }
        let n = self.num_chunks;
        let count = if drop_count <= n { drop_count } else { n };
        let ghost dropped = self.dropped_raw_indices@;
        let mut keys: Vec<usize> = Vec::new();
        for k in 0..n
            invariant
                n == self.num_chunks,
                dropped == self.dropped_raw_indices@,
                keys@ == undropped_indices(k as nat, dropped),
        {
            let i = k + 1;
            if !self.dropped_raw_indices.contains(&i) {
                keys.push(i);
            }
        }
        let ghost candidates = keys@;
        proof {
            lemma_undropped_increasing(n as nat, dropped);
            assert(candidates.no_duplicates()) by {
                assert forall|a: int, b: int| 0 <= a < candidates.len() && 0 <= b < candidates.len() && a != b
                    implies candidates[a] != candidates[b] by {
                    if a < b {
                        assert(candidates[a] < candidates[b]);
                    } else {
                        assert(candidates[b] < candidates[a]);
                    }
                }
            }
        }
        let mut rng = seed.wrapping_add(0x9E3779B97F4A7C15);
        let len = keys.len();
        if len > 0 {
            let ghost start = rng;
            for step in 0..len - 1
                invariant
                    len == keys@.len(),
                    len > 0,
                    keys@.no_duplicates(),
                    shuffle_down(candidates, start, (len - 1) as nat) == shuffle_down(
                        keys@,
                        rng,
                        (len - 1 - step) as nat,
                    ),
            {
                let i = len - 1 - step;
                let r = (lcg_next(&mut rng) as usize) % (i + 1);
                let a = keys[i];
                let b = keys[r];
                let ghost prev = keys@;
                proof {
                    lemma_swap_distinct(prev, i as int, r as int);
                }
                keys.set(i, b);
                keys.set(r, a);
                proof {
                    assert(keys@ =~= swap_entries(prev, i as int, r as int));
                }
            }
        }
        let ghost order = keys@;
        proof {
            if len > 0 {
                assert(order == shuffled_candidates(candidates, seed));
            } else {
                assert(order =~= candidates);
            }
        }
        let take = if count <= len { count } else { len };
        let mut chosen: Vec<usize> = Vec::new();
        for k in 0..take
            invariant
                take <= keys@.len(),
                keys@ == order,
                chosen@ == order.take(k as int),
                forall|m: int| 0 <= m < k ==> self.dropped_raw_indices@.contains(#[trigger] order[m]),
                self.dropped_raw_indices@ == dropped.union(order.take(k as int).to_set()),
                self.raw_data_path == old(self).raw_data_path,
                self.chunk_size == old(self).chunk_size,
                self.states@ == old(self).states@,
                self.replicas@ == old(self).replicas@,
                self.merkle_tree == old(self).merkle_tree,
                self.num_chunks == old(self).num_chunks,
        {
            let x = keys[k];
            self.dropped_raw_indices.insert(x);
            chosen.push(x);
            proof {
                assert(chosen@ =~= order.take(k + 1));
                assert(order.take(k + 1).to_set() =~= order.take(k as int).to_set().insert(x)) by {
                    assert(order.take(k + 1) =~= order.take(k as int).push(x));
                    order.take(k as int).lemma_push_to_set_commute(x);
                }
            }
        }
        proof {
            assert(order.take(take as int).no_duplicates()) by {
                assert forall|a: int, b: int| 0 <= a < take && 0 <= b < take && a != b
                    implies order.take(take as int)[a] != order.take(take as int)[b] by {
                    assert(order[a] != order[b]);
                }
            }
            if take == len {
                assert(order.take(take as int) =~= order);
            }
        }
        sort_distinct(&chosen)
    }
}

impl ProverStorage {
    /// Attack scenario: drops exactly the raw chunks named in `indices` that
    /// lie in `1..=num_chunks`, and returns those indices in order.
    pub fn attack_drop_raw_chunks_at(&mut self, indices: &[usize]) -> (removed: Vec<usize>)
        ensures
            removed@ == in_range_indices(indices@, old(self).num_chunks as nat),
            final(self).dropped_raw_indices@ == old(self).dropped_raw_indices@.union(removed@.to_set()),
            final(self).raw_data_path == old(self).raw_data_path,
            final(self).chunk_size == old(self).chunk_size,
            final(self).states@ == old(self).states@,
            final(self).replicas@ == old(self).replicas@,
            final(self).merkle_tree == old(self).merkle_tree,
            final(self).num_chunks == old(self).num_chunks,
    {
        let mut removed: Vec<usize> = Vec::new();
        proof {
            assert(removed@.to_set() =~= Set::<usize>::empty());
            assert(self.dropped_raw_indices@ =~= old(self).dropped_raw_indices@.union(Set::<usize>::empty()));
        }
        for k in 0..indices.len()
            invariant
                removed@ == in_range_indices(indices@.take(k as int), old(self).num_chunks as nat),
                self.dropped_raw_indices@ == old(self).dropped_raw_indices@.union(removed@.to_set()),
                self.raw_data_path == old(self).raw_data_path,
                self.chunk_size == old(self).chunk_size,
                self.states@ == old(self).states@,
                self.replicas@ == old(self).replicas@,
                self.merkle_tree == old(self).merkle_tree,
                self.num_chunks == old(self).num_chunks,
        {
            let idx = indices[k];
            proof {
                assert(indices@.take(k + 1).drop_last() =~= indices@.take(k as int));
            }
            if idx >= 1 && idx <= self.num_chunks {
                let ghost prev = removed@;
                self.dropped_raw_indices.insert(idx);
                removed.push(idx);
                proof {
                    prev.lemma_push_to_set_commute(idx);
                    assert(self.dropped_raw_indices@ =~= old(self).dropped_raw_indices@.union(removed@.to_set()));
                }
            }
        }
        proof {
            assert(indices@.take(indices@.len() as int) =~= indices@);
        }
        removed
    }

    /// Attack scenario: drops the states `S_j` at the given positions, in
    /// order, and returns the positions where a state was present.
    pub fn attack_drop_states_at(&mut self, state_indices: &[usize]) -> (removed: Vec<usize>)
        ensures
            (final(self).states@, removed@) == drop_states(old(self).states@, state_indices@),
            final(self).raw_data_path == old(self).raw_data_path,
            final(self).chunk_size == old(self).chunk_size,
            final(self).dropped_raw_indices@ == old(self).dropped_raw_indices@,
            final(self).replicas@ == old(self).replicas@,
            final(self).merkle_tree == old(self).merkle_tree,
            final(self).num_chunks == old(self).num_chunks,
    {
        let mut removed: Vec<usize> = Vec::new();
        for k in 0..state_indices.len()
            invariant
                (self.states@, removed@) == drop_states(old(self).states@, state_indices@.take(k as int)),
                self.raw_data_path == old(self).raw_data_path,
                self.chunk_size == old(self).chunk_size,
                self.dropped_raw_indices@ == old(self).dropped_raw_indices@,
                self.replicas@ == old(self).replicas@,
                self.merkle_tree == old(self).merkle_tree,
                self.num_chunks == old(self).num_chunks,
        {
            let idx = state_indices[k];
            proof {
                assert(state_indices@.take(k + 1).drop_last() =~= state_indices@.take(k as int));
            }
            if idx < self.states.len() {
                if self.states[idx].is_some() {
                    self.states.set(idx, None);
                    removed.push(idx);
                }
            }
        }
        proof {
            assert(state_indices@.take(state_indices@.len() as int) =~= state_indices@);
        }
        removed
    }

    /// A copy for running one attack scenario: the same file, chunk size,
    /// states, replicas, tree and chunk count, with no chunk dropped.
    pub fn clone_for_attack(&self) -> (r: ProverStorage)
        ensures
            r.raw_data_path == self.raw_data_path,
            r.chunk_size == self.chunk_size,
            r.dropped_raw_indices@ == Set::<usize>::empty(),
            r.states@ == self.states@,
            r.replicas@ == self.replicas@,
            r.merkle_tree is Some == self.merkle_tree is Some,
            self.merkle_tree matches Some(t) ==> r.merkle_tree matches Some(u) && u.leaves@ == t.leaves@
                && u.root == t.root && u.nodes@.len() == t.nodes@.len() && forall|k: int|
                0 <= k < t.nodes@.len() ==> #[trigger] u.nodes@[k]@ == t.nodes@[k]@,
            r.num_chunks == self.num_chunks,
    {
        let raw_data_path = match &self.raw_data_path {
            Some(p) => Some(path_clone(p)),
            None => None,
        };
        let merkle_tree = match &self.merkle_tree {
            Some(t) => Some(t.clone()),
            None => None,
        };
        ProverStorage {
            raw_data_path,
            chunk_size: self.chunk_size,
            dropped_raw_indices: HashSet::new(),
            states: copy_slots(&self.states),
            replicas: copy_slots(&self.replicas),
            merkle_tree,
            num_chunks: self.num_chunks,
        }
    }
}

/// A copy of a vector of optional elements.
fn copy_slots(v: &Vec<Option<Fr>>) -> (r: Vec<Option<Fr>>)
    ensures
        r@ == v@,
{
    let mut r: Vec<Option<Fr>> = Vec::new();
    for i in 0..v.len()
        invariant
            r@ == v@.take(i as int),
    {
        r.push(v[i]);
        proof {
            assert(r@ =~= v@.take(i + 1));
        }
    }
    proof {
        assert(r@ =~= v@);
    }
    r
}


/// An in-range index named in the list is among the in-range entries.
pub proof fn lemma_in_range_contains(indices: Seq<usize>, n: nat, k: int)
    requires
        0 <= k < indices.len(),
        1 <= indices[k] <= n,
    ensures
        in_range_indices(indices, n).contains(indices[k]),
    decreases indices.len(),
{
    let rest = in_range_indices(indices.drop_last(), n);
    if k == indices.len() - 1 {
        assert(in_range_indices(indices, n) == rest.push(indices.last()));
        assert(in_range_indices(indices, n)[rest.len() as int] == indices[k]);
    } else {
        lemma_in_range_contains(indices.drop_last(), n, k);
        let x = indices[k];
        let w = choose|w: int| 0 <= w < rest.len() && rest[w] == x;
        if 1 <= indices.last() <= n {
            assert(in_range_indices(indices, n)[w] == x);
        }
    }
}

/// Dropping states never refills a slot, and every named slot that exists
/// ends up empty.
pub proof fn lemma_drop_states_clears(states: Seq<Option<Fr>>, indices: Seq<usize>, i: usize)
    requires
        i < states.len(),
        indices.contains(i) || states[i as int] is None,
    ensures
        drop_states(states, indices).0[i as int] is None,
    decreases indices.len(),
{
    if indices.len() > 0 {
        let init = indices.drop_last();
        let idx = indices.last();
        lemma_drop_states_len(states, init);
        if idx != i {
            if states[i as int] is Some {
                let w = choose|w: int| 0 <= w < indices.len() && indices[w] == i;
                assert(w < indices.len() - 1);
                assert(init[w] == i);
            }
            lemma_drop_states_clears(states, init, i);
        } else if indices.len() > 1 && states[i as int] is None {
            lemma_drop_states_clears(states, init, i);
        } else if states[i as int] is None {
            assert(init.len() == 0);
        }
    }
}

/// Dropping states keeps the number of slots.
pub proof fn lemma_drop_states_len(states: Seq<Option<Fr>>, indices: Seq<usize>)
    ensures
        drop_states(states, indices).0.len() == states.len(),
    decreases indices.len(),
{
    if indices.len() > 0 {
        lemma_drop_states_len(states, indices.drop_last());
    }
}

/// The chunks the random-drop attack picks from a sector of `num_chunks`
/// chunks none of which is dropped yet: `drop_count` (at most `num_chunks`)
/// of `1..=num_chunks` in the order shuffled from `seed`, returned in
/// increasing order.
pub fn deterministic_drop_random_count(drop_count: usize, seed: u64, num_chunks: usize) -> (removed: Vec<usize>)
    ensures
        lists_choice(removed@, drop_choice(num_chunks as nat, Set::<usize>::empty(), drop_count, seed)),
{
    let mut storage = ProverStorage::new();
    storage.num_chunks = num_chunks;
    storage.attack_drop_raw_chunks_random_count(drop_count, seed)
}

} // verus!
